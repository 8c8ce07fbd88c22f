//! Export of the standings to CSV and JSON documents.
//!
//! The current leaderboard is flattened to one row per stored lap
//! time, sorted ascending by parsed duration (stable, so unparsable
//! rows sort last and ties keep their scan order), and rendered as a
//! delimited table and as a structured JSON document. File paths are
//! derived from the track name with spaces replaced by underscores,
//! under a fixed export directory.

use vstd::prelude::*;

use crate::duration::{parse_duration, parse_duration_spec};
use crate::store::{
    drivers_view, DriverView, ExportError, LapView, Leaderboard,
};

verus! {

/// One row of the export table: a driver and one of their lap times.
pub struct ExportRow {
    pub name: String,
    pub team: String,
    pub time: String,
    pub is_fastest: bool,
}

/// Mathematical model of an export row.
#[verifier::ext_equal]
pub ghost struct RowView {
    pub name: Seq<char>,
    pub team: Seq<char>,
    pub time: Seq<char>,
    pub is_fastest: bool,
}

impl View for ExportRow {
    type V = RowView;

    open spec fn view(&self) -> RowView {
        RowView {
            name: self.name@,
            team: self.team@,
            time: self.time@,
            is_fastest: self.is_fastest,
        }
    }
}

/// The models of a sequence of export rows.
pub open spec fn rows_views(s: Seq<ExportRow>) -> Seq<RowView> {
    s.map_values(|r: ExportRow| r@)
}

/// The sort key of a row: its parsed duration.
pub open spec fn row_key(r: RowView) -> u64 {
    parse_duration_spec(r.time)
}

/// The rows contributed by one driver, one per stored lap time.
pub open spec fn driver_rows(d: DriverView) -> Seq<RowView> {
    d.laps.map_values(
        |l: LapView| RowView { name: d.name, team: d.team, time: l.time, is_fastest: l.is_fastest },
    )
}

/// All rows of the leaderboard, in driver order then lap order.
pub open spec fn board_rows(ds: Seq<DriverView>) -> Seq<RowView>
    decreases ds.len(),
{
    if ds.len() == 0 {
        Seq::empty()
    } else {
        board_rows(ds.drop_last()) + driver_rows(ds.last())
    }
}

/// Inserts `e` into the sorted sequence `s` after every row whose
/// key is at most `e`'s, so that equal keys keep their original
/// order.
pub open spec fn insert_row(s: Seq<RowView>, e: RowView) -> Seq<RowView>
    decreases s.len(),
{
    if s.len() == 0 {
        seq![e]
    } else if row_key(e) < row_key(s.last()) {
        insert_row(s.drop_last(), e).push(s.last())
    } else {
        s.push(e)
    }
}

/// Stable sort of the rows, ascending by parsed duration.
pub open spec fn sort_rows(s: Seq<RowView>) -> Seq<RowView>
    decreases s.len(),
{
    if s.len() == 0 {
        Seq::empty()
    } else {
        insert_row(sort_rows(s.drop_last()), s.last())
    }
}

/// The rows sorted ascending by key.
pub open spec fn sorted_rows(s: Seq<RowView>) -> bool {
    forall|p: int, q: int| 0 <= p < q < s.len() ==> row_key(s[p]) <= row_key(s[q])
}

proof fn lemma_insert_row_sorted(s: Seq<RowView>, e: RowView)
    requires
        sorted_rows(s),
    ensures
        sorted_rows(insert_row(s, e)),
        insert_row(s, e).len() == s.len() + 1,
        insert_row(s, e).to_multiset() == s.to_multiset().insert(e),
    decreases s.len(),
{
    broadcast use vstd::seq_lib::group_seq_properties;

    if s.len() == 0 {
        assert(seq![e].drop_last() =~= Seq::<RowView>::empty());
        assert(seq![e] =~= Seq::<RowView>::empty().push(e));
    } else if row_key(e) < row_key(s.last()) {
        assert(sorted_rows(s.drop_last()));
        lemma_insert_row_sorted(s.drop_last(), e);
        let t = insert_row(s.drop_last(), e);
        let r = insert_row(s, e);
        assert(r == t.push(s.last()));
        assert forall|p: int, q: int| 0 <= p < q < r.len() implies row_key(r[p]) <= row_key(
            r[q],
        ) by {
            if q < r.len() - 1 {
                assert(r[p] == t[p] && r[q] == t[q]);
            } else {
                assert(r[q] == s.last());
                assert(t.to_multiset().contains(r[p]));
                if t.to_multiset() == s.drop_last().to_multiset().insert(e) {
                    if r[p] == e {
                    } else {
                        assert(s.drop_last().to_multiset().contains(r[p]));
                        let w = choose|w: int|
                            0 <= w < s.drop_last().len() && s.drop_last()[w] == r[p];
                        assert(s[w] == r[p]);
                        assert(row_key(s[w]) <= row_key(s.last()));
                    }
                }
            }
        }
        assert(s =~= s.drop_last().push(s.last()));
        assert(s.to_multiset() == s.drop_last().to_multiset().insert(s.last()));
        assert(r.to_multiset() == t.to_multiset().insert(s.last()));
        assert(r.to_multiset() =~= s.to_multiset().insert(e)) by {
            assert(t.to_multiset() == s.drop_last().to_multiset().insert(e));
        }
    } else {
        let r = s.push(e);
        assert forall|p: int, q: int| 0 <= p < q < r.len() implies row_key(r[p]) <= row_key(
            r[q],
        ) by {
            if q == r.len() - 1 {
                assert(r[p] == s[p]);
                if p < s.len() - 1 {
                    assert(row_key(s[p]) <= row_key(s.last()));
                }
            }
        }
        assert(r.to_multiset() == s.to_multiset().insert(e));
    }
}

/// The stable sort returns the same rows (as a multiset), ascending
/// by parsed duration.
pub proof fn lemma_sort_rows_sorted(s: Seq<RowView>)
    ensures
        sorted_rows(sort_rows(s)),
        sort_rows(s).len() == s.len(),
        sort_rows(s).to_multiset() == s.to_multiset(),
    decreases s.len(),
{
    broadcast use vstd::seq_lib::group_seq_properties;

    if s.len() == 0 {
        assert(sort_rows(s) =~= Seq::<RowView>::empty());
    } else {
        lemma_sort_rows_sorted(s.drop_last());
        lemma_insert_row_sorted(sort_rows(s.drop_last()), s.last());
        assert(s =~= s.drop_last().push(s.last()));
        assert(s.to_multiset() == s.drop_last().to_multiset().insert(s.last()));
    }
}

/// A copy of one export row.
fn clone_row(r: &ExportRow) -> (c: ExportRow)
    ensures
        c@ == r@,
{
    ExportRow {
        name: r.name.clone(),
        team: r.team.clone(),
        time: r.time.clone(),
        is_fastest: r.is_fastest,
    }
}

proof fn lemma_rows_views_push(s: Seq<ExportRow>, x: ExportRow)
    ensures
        rows_views(s.push(x)) == rows_views(s).push(x@),
{
    assert forall|k: int| 0 <= k < s.len() + 1 implies rows_views(s.push(x))[k] == rows_views(
        s,
    ).push(x@)[k] by {
        if k < s.len() {
            assert(s.push(x)[k] == s[k]);
        } else {
            assert(s.push(x)[k] == x);
        }
    }
    assert(rows_views(s.push(x)) =~= rows_views(s).push(x@));
}

/// Flattens the drivers into one export row per stored lap time.
fn build_rows(drivers: &Vec<crate::store::Driver>) -> (rows: Vec<ExportRow>)
    ensures
        rows_views(rows@) == board_rows(drivers_view(*drivers)),
{
    let ghost ds = drivers_view(*drivers);
    let n = drivers.len();
    let mut out: Vec<ExportRow> = Vec::new();
    let mut i: usize = 0;
    while i < n
        invariant
            0 <= i <= n,
            n == drivers@.len(),
            drivers_view(*drivers) == ds,
            rows_views(out@) == board_rows(ds.take(i as int)),
        decreases n - i,
    {
        proof {
            assert(ds[i as int] == drivers@[i as int]@);
        }
        let m = drivers[i].lap_times.len();
        assert(m == ds[i as int].laps.len());
        let mut j: usize = 0;
        while j < m
            invariant
                0 <= j <= m,
                0 <= i < n,
                n == drivers@.len(),
                drivers_view(*drivers) == ds,
                ds[i as int] == drivers@[i as int]@,
                m == ds[i as int].laps.len(),
                rows_views(out@) == board_rows(ds.take(i as int)) + driver_rows(
                    ds[i as int],
                ).take(j as int),
            decreases m - j,
        {
            let dr = &drivers[i];
            let lt = &dr.lap_times[j];
            proof {
                assert(ds[i as int].laps[j as int] == drivers@[i as int].lap_times@[j as int]@);
            }
            let c = ExportRow {
                name: dr.name.clone(),
                team: dr.team.clone(),
                time: lt.time.clone(),
                is_fastest: lt.is_fastest,
            };
            let ghost before = out@;
            let ghost cx = c;
            out.push(c);
            proof {
                lemma_rows_views_push(before, cx);
                assert(driver_rows(ds[i as int])[j as int] == cx@);
                assert(driver_rows(ds[i as int]).take(j + 1) =~= driver_rows(
                    ds[i as int],
                ).take(j as int).push(driver_rows(ds[i as int])[j as int]));
                assert(rows_views(out@) =~= board_rows(ds.take(i as int)) + driver_rows(
                    ds[i as int],
                ).take(j + 1));
            }
            j += 1;
        }
        proof {
            assert(driver_rows(ds[i as int]).take(m as int) =~= driver_rows(ds[i as int]));
            assert(ds.take(i + 1).drop_last() =~= ds.take(i as int));
            assert(ds.take(i + 1).last() == ds[i as int]);
            assert(board_rows(ds.take(i + 1)) == board_rows(ds.take(i as int)) + driver_rows(
                ds[i as int],
            ));
        }
        i += 1;
    }
    proof {
        assert(ds.take(n as int) =~= ds);
    }
    out
}

/// Sorts the rows ascending by parsed duration; equal and unparsable
/// keys keep their order.
fn sort_rows_exec(rows: &Vec<ExportRow>) -> (out: Vec<ExportRow>)
    ensures
        rows_views(out@) == sort_rows(rows_views(rows@)),
{
    let ghost rv = rows_views(rows@);
    let n = rows.len();
    let mut out: Vec<ExportRow> = Vec::new();
    let mut i: usize = 0;
    while i < n
        invariant
            0 <= i <= n,
            n == rows@.len(),
            rows_views(rows@) == rv,
            rows_views(out@) == sort_rows(rv.take(i as int)),
        decreases n - i,
    {
        proof {
            assert(rv[i as int] == rows@[i as int]@);
        }
        let e = clone_row(&rows[i]);
        let ghost ex = e@;
        let ghost s = rows_views(out@);
        let ke = parse_duration(e.time.as_str());
        assert(ke == row_key(ex));
        let mut pos: usize = out.len();
        proof {
            assert(s.take(pos as int) =~= s);
            assert(s.skip(pos as int) =~= Seq::<RowView>::empty());
            assert(insert_row(s, ex) + Seq::<RowView>::empty() =~= insert_row(s, ex));
        }
        loop
            invariant_except_break
                0 <= pos <= out@.len(),
                rows_views(out@) == s,
                ke == row_key(ex),
                ex == e@,
                insert_row(s, ex) == insert_row(s.take(pos as int), ex) + s.skip(pos as int),
            ensures
                0 <= pos <= out@.len(),
                rows_views(out@) == s,
                ke == row_key(ex),
                ex == e@,
                insert_row(s, ex) == insert_row(s.take(pos as int), ex) + s.skip(pos as int),
                pos == 0 || !(row_key(ex) < row_key(s[pos as int - 1])),
            decreases pos,
        {
            if pos == 0 {
                break;
            }
            proof {
                assert(s[pos - 1] == out@[pos - 1]@);
            }
            let kp = parse_duration(out[pos - 1].time.as_str());
            if !(ke < kp) {
                break;
            }
            proof {
                let pre = s.take(pos as int);
                assert(pre.last() == s[pos - 1]);
                assert(pre.drop_last() =~= s.take(pos - 1));
                assert(insert_row(pre, ex) == insert_row(s.take(pos - 1), ex).push(s[pos - 1]));
                assert(insert_row(s.take(pos - 1), ex).push(s[pos - 1]) + s.skip(pos as int)
                    =~= insert_row(s.take(pos - 1), ex) + (seq![s[pos - 1]] + s.skip(pos as int)));
                assert(seq![s[pos - 1]] + s.skip(pos as int) =~= s.skip(pos - 1));
            }
            pos -= 1;
        }
        proof {
            let pre = s.take(pos as int);
            if pos == 0 {
                assert(pre =~= Seq::<RowView>::empty());
                assert(insert_row(pre, ex) =~= pre.push(ex));
            } else {
                assert(s[pos - 1] == out@[pos - 1]@);
                assert(pre.last() == s[pos - 1]);
                assert(!(row_key(ex) < row_key(pre.last())));
                assert(insert_row(pre, ex) == pre.push(ex));
            }
            assert(insert_row(s, ex) == pre.push(ex) + s.skip(pos as int));
        }
        let ghost before = out@;
        let ghost evx = e;
        out.insert(pos, e);
        proof {
            let pre = s.take(pos as int);
            assert(out@ == before.insert(pos as int, evx));
            before.insert_ensures(pos as int, evx);
            assert forall|k: int| 0 <= k < out@.len() implies rows_views(out@)[k] == insert_row(
                s,
                ex,
            )[k] by {
                if k < pos {
                    assert(out@[k] == before[k]);
                    assert((pre.push(ex) + s.skip(pos as int))[k] == pre[k]);
                } else if k == pos {
                    assert(out@[k] == evx);
                    assert((pre.push(ex) + s.skip(pos as int))[k] == ex);
                } else {
                    assert(out@[k] == before[k - 1]);
                    assert((pre.push(ex) + s.skip(pos as int))[k] == s.skip(pos as int)[k - pos
                        - 1]);
                }
            }
            assert(rows_views(out@) =~= insert_row(s, ex));
            assert(rv.take(i + 1).drop_last() =~= rv.take(i as int));
            assert(rv.take(i + 1).last() == rv[i as int]);
        }
        i += 1;
    }
    proof {
        assert(rv.take(n as int) =~= rv);
    }
    out
}

/// The decimal digit character for `d`.
pub open spec fn digit_char(d: int) -> char {
    if d == 0 { '0' }
    else if d == 1 { '1' }
    else if d == 2 { '2' }
    else if d == 3 { '3' }
    else if d == 4 { '4' }
    else if d == 5 { '5' }
    else if d == 6 { '6' }
    else if d == 7 { '7' }
    else if d == 8 { '8' }
    else { '9' }
}

/// The decimal numeral of `n`, most significant digit first.
pub open spec fn dec_str(n: int) -> Seq<char>
    decreases n,
{
    if n < 10 {
        seq![digit_char(n)]
    } else {
        dec_str(n / 10).push(digit_char(n % 10))
    }
}

/// The lower-case hexadecimal digit character for `d`.
pub open spec fn hex_char(d: int) -> char {
    if d < 10 { digit_char(d) }
    else if d == 10 { 'a' }
    else if d == 11 { 'b' }
    else if d == 12 { 'c' }
    else if d == 13 { 'd' }
    else if d == 14 { 'e' }
    else { 'f' }
}

fn digit_str(d: u64) -> (r: &'static str)
    requires
        d < 10,
    ensures
        r@ == seq![digit_char(d as int)],
{
    let r = match d {
        0 => "0",
        1 => "1",
        2 => "2",
        3 => "3",
        4 => "4",
        5 => "5",
        6 => "6",
        7 => "7",
        8 => "8",
        _ => "9",
    };
    proof {
        reveal_strlit("0");
        reveal_strlit("1");
        reveal_strlit("2");
        reveal_strlit("3");
        reveal_strlit("4");
        reveal_strlit("5");
        reveal_strlit("6");
        reveal_strlit("7");
        reveal_strlit("8");
        reveal_strlit("9");
        assert(r@ =~= seq![digit_char(d as int)]);
    }
    r
}

fn hex_str(d: u32) -> (r: &'static str)
    requires
        d < 16,
    ensures
        r@ == seq![hex_char(d as int)],
{
    let r = match d {
        0 => "0",
        1 => "1",
        2 => "2",
        3 => "3",
        4 => "4",
        5 => "5",
        6 => "6",
        7 => "7",
        8 => "8",
        9 => "9",
        10 => "a",
        11 => "b",
        12 => "c",
        13 => "d",
        14 => "e",
        _ => "f",
    };
    proof {
        reveal_strlit("0");
        reveal_strlit("1");
        reveal_strlit("2");
        reveal_strlit("3");
        reveal_strlit("4");
        reveal_strlit("5");
        reveal_strlit("6");
        reveal_strlit("7");
        reveal_strlit("8");
        reveal_strlit("9");
        reveal_strlit("a");
        reveal_strlit("b");
        reveal_strlit("c");
        reveal_strlit("d");
        reveal_strlit("e");
        reveal_strlit("f");
        assert(r@ =~= seq![hex_char(d as int)]);
    }
    r
}

/// Renders `v` as its decimal numeral.
pub fn u64_to_string(v: u64) -> (s: String)
    ensures
        s@ == dec_str(v as int),
    decreases v,
{
    if v < 10 {
        String::from_str(digit_str(v))
    } else {
        let mut s = u64_to_string(v / 10);
        s.append(digit_str(v % 10));
        proof {
            assert(dec_str(v as int / 10) + seq![digit_char(v as int % 10)] =~= dec_str(
                v as int / 10,
            ).push(digit_char(v as int % 10)));
        }
        s
    }
}

/// The JSON escape of one character: quote, backslash and the usual
/// control shorthands get a backslash form, other control characters
/// a `\u00..` form, and everything else stands as itself.
pub open spec fn esc_char(c: char) -> Seq<char> {
    if c == '"' { seq!['\\', '"'] }
    else if c == '\\' { seq!['\\', '\\'] }
    else if c == '\n' { seq!['\\', 'n'] }
    else if c == '\r' { seq!['\\', 'r'] }
    else if c == '\t' { seq!['\\', 't'] }
    else if (c as u32) < 32 {
        seq!['\\', 'u', '0', '0', hex_char(((c as u32) / 16) as int), hex_char(((c as u32) % 16) as int)]
    } else {
        seq![c]
    }
}

/// The JSON escape of a whole string.
pub open spec fn json_escape(s: Seq<char>) -> Seq<char>
    decreases s.len(),
{
    if s.len() == 0 {
        Seq::empty()
    } else {
        json_escape(s.drop_last()) + esc_char(s.last())
    }
}

/// Escapes a string for inclusion in a JSON string literal.
pub fn escape_json(s: &str) -> (r: String)
    ensures
        r@ == json_escape(s@),
{
    let n = s.unicode_len();
    let mut r = String::new();
    let mut i: usize = 0;
    while i < n
        invariant
            0 <= i <= n,
            n == s@.len(),
            r@ == json_escape(s@.take(i as int)),
        decreases n - i,
    {
        let c = s.get_char(i);
        proof {
            assert(s@.take(i + 1).drop_last() =~= s@.take(i as int));
            assert(s@.take(i + 1).last() == c);
        }
        if c == '"' {
            r.append("\\\"");
            proof {
                reveal_strlit("\\\"");
                assert("\\\""@ =~= esc_char(c));
            }
        } else if c == '\\' {
            r.append("\\\\");
            proof {
                reveal_strlit("\\\\");
                assert("\\\\"@ =~= esc_char(c));
            }
        } else if c == '\n' {
            r.append("\\n");
            proof {
                reveal_strlit("\\n");
                assert("\\n"@ =~= esc_char(c));
            }
        } else if c == '\r' {
            r.append("\\r");
            proof {
                reveal_strlit("\\r");
                assert("\\r"@ =~= esc_char(c));
            }
        } else if c == '\t' {
            r.append("\\t");
            proof {
                reveal_strlit("\\t");
                assert("\\t"@ =~= esc_char(c));
            }
        } else if (c as u32) < 32 {
            let ghost mid = r@;
            r.append("\\u00");
            let cu = c as u32;
            r.append(hex_str(cu / 16));
            r.append(hex_str(cu % 16));
            proof {
                reveal_strlit("\\u00");
                assert("\\u00"@ =~= seq!['\\', 'u', '0', '0']);
                assert(r@ =~= mid + esc_char(c));
            }
        } else {
            let one = s.substring_char(i, i + 1);
            r.append(one);
            proof {
                assert(one@ =~= esc_char(c));
            }
        }
        i += 1;
    }
    proof {
        assert(s@.take(n as int) =~= s@);
    }
    r
}

/// The track name with every space replaced by an underscore.
pub open spec fn underscored(s: Seq<char>) -> Seq<char> {
    s.map_values(|c: char| if c == ' ' { '_' } else { c })
}

/// The CSV file path for a track.
pub open spec fn csv_filename(track: Seq<char>) -> Seq<char> {
    "exports/"@ + underscored(track) + "_lap_times.csv"@
}

/// The JSON file path for a track.
pub open spec fn json_filename(track: Seq<char>) -> Seq<char> {
    "exports/"@ + underscored(track) + "_lap_times.json"@
}

fn underscore_name(s: &str) -> (r: String)
    ensures
        r@ == underscored(s@),
{
    let n = s.unicode_len();
    let mut r = String::new();
    let mut i: usize = 0;
    while i < n
        invariant
            0 <= i <= n,
            n == s@.len(),
            r@ == underscored(s@.take(i as int)),
        decreases n - i,
    {
        let c = s.get_char(i);
        proof {
            assert(underscored(s@.take(i + 1)) =~= underscored(s@.take(i as int)).push(
                if c == ' ' { '_' } else { c },
            ));
        }
        if c == ' ' {
            r.append("_");
            proof {
                reveal_strlit("_");
                assert("_"@ =~= seq!['_']);
            }
        } else {
            let one = s.substring_char(i, i + 1);
            r.append(one);
            proof {
                assert(one@ =~= seq![c]);
            }
        }
        proof {
            assert(r@ =~= underscored(s@.take(i + 1)));
        }
        i += 1;
    }
    proof {
        assert(s@.take(n as int) =~= s@);
    }
    r
}

/// The CSV rendering of the fastest flag.
pub open spec fn yes_no(b: bool) -> Seq<char> {
    if b { "Yes"@ } else { "No"@ }
}

/// One CSV data line: 1-based position, driver, team, time, flag.
pub open spec fn csv_row(r: RowView, pos: int) -> Seq<char> {
    dec_str(pos) + ","@ + r.name + ","@ + r.team + ","@ + r.time + ","@ + yes_no(r.is_fastest)
        + "\n"@
}

/// The CSV data lines for the rows, positions counted from one.
pub open spec fn csv_rows_text(rows: Seq<RowView>) -> Seq<char>
    decreases rows.len(),
{
    if rows.len() == 0 {
        Seq::empty()
    } else {
        csv_rows_text(rows.drop_last()) + csv_row(rows.last(), rows.len() as int)
    }
}

/// The whole CSV document: a header line, then one line per row.
pub open spec fn csv_text(rows: Seq<RowView>) -> Seq<char> {
    "Position,Driver,Team,Time,Fastest\n"@ + csv_rows_text(rows)
}

/// Renders the sorted rows as the CSV document.
#[verifier::rlimit(60)]
pub fn render_csv(rows: &Vec<ExportRow>) -> (r: String)
    ensures
        r@ == csv_text(rows_views(rows@)),
{
    let ghost rv = rows_views(rows@);
    let mut out = String::from_str("Position,Driver,Team,Time,Fastest\n");
    let n = rows.len();
    let mut i: usize = 0;
    while i < n
        invariant
            0 <= i <= n,
            n == rows@.len(),
            rows_views(rows@) == rv,
            out@ == "Position,Driver,Team,Time,Fastest\n"@ + csv_rows_text(rv.take(i as int)),
        decreases n - i,
    {
        proof {
            assert(rv[i as int] == rows@[i as int]@);
        }
        let row = &rows[i];
        let pos_s = u64_to_string((i + 1) as u64);
        out.append(pos_s.as_str());
        out.append(",");
        out.append(row.name.as_str());
        out.append(",");
        out.append(row.team.as_str());
        out.append(",");
        out.append(row.time.as_str());
        out.append(",");
        if row.is_fastest {
            out.append("Yes");
        } else {
            out.append("No");
        }
        out.append("\n");
        proof {
            assert(rv.take(i + 1).drop_last() =~= rv.take(i as int));
            assert(rv.take(i + 1).last() == rv[i as int]);
            assert(out@ =~= "Position,Driver,Team,Time,Fastest\n"@ + csv_rows_text(rv.take(i + 1)));
        }
        i += 1;
    }
    proof {
        assert(rv.take(n as int) =~= rv);
    }
    out
}

/// Index of the first row with the given driver name and time
/// string, or the length if none matches.
pub open spec fn find_row(rows: Seq<RowView>, name: Seq<char>, time: Seq<char>) -> int
    decreases rows.len(),
{
    if rows.len() == 0 {
        0
    } else if rows[0].name == name && rows[0].time == time {
        0
    } else {
        1 + find_row(rows.drop_first(), name, time)
    }
}

proof fn lemma_find_row_found(rows: Seq<RowView>, name: Seq<char>, time: Seq<char>, i: int)
    requires
        0 <= i < rows.len(),
        rows[i].name == name && rows[i].time == time,
        forall|j: int| 0 <= j < i ==> !(rows[j].name == name && rows[j].time == time),
    ensures
        find_row(rows, name, time) == i,
    decreases rows.len(),
{
    if i == 0 {
    } else {
        assert(!(rows[0].name == name && rows[0].time == time));
        lemma_find_row_found(rows.drop_first(), name, time, i - 1);
    }
}

fn find_row_exec(rows: &Vec<ExportRow>, name: &String, time: &String) -> (r: usize)
    requires
        exists|k: int|
            0 <= k < rows_views(rows@).len() && rows_views(rows@)[k].name == name@
                && rows_views(rows@)[k].time == time@,
    ensures
        r as int == find_row(rows_views(rows@), name@, time@),
        r < rows@.len(),
{
    let ghost rv = rows_views(rows@);
    let n = rows.len();
    let mut i: usize = 0;
    loop
        invariant_except_break
            0 <= i < n,
            n == rows@.len(),
            rows_views(rows@) == rv,
            exists|k: int| i <= k < rv.len() && rv[k].name == name@ && rv[k].time == time@,
            forall|j: int| 0 <= j < i ==> !(rv[j].name == name@ && rv[j].time == time@),
        ensures
            0 <= i < n,
            n == rows@.len(),
            rv[i as int].name == name@ && rv[i as int].time == time@,
            forall|j: int| 0 <= j < i ==> !(rv[j].name == name@ && rv[j].time == time@),
        decreases n - i,
    {
        proof {
            assert(rv[i as int] == rows@[i as int]@);
        }
        if rows[i].name == *name && rows[i].time == *time {
            break;
        }
        proof {
            let k = choose|k: int| i <= k < rv.len() && rv[k].name == name@ && rv[k].time == time@;
            assert(k > i);
        }
        i += 1;
    }
    proof {
        lemma_find_row_found(rv, name@, time@, i as int);
    }
    i
}

/// One JSON entry for a row, with the position looked up as the
/// first row sharing the driver name and time string.
pub open spec fn json_entry(all: Seq<RowView>, r: RowView) -> Seq<char> {
    "{\"position\":"@ + dec_str(find_row(all, r.name, r.time) + 1) + ",\"driver\":\""@
        + json_escape(r.name) + "\",\"team\":\""@ + json_escape(r.team) + "\",\"time\":\""@
        + json_escape(r.time) + "\",\"is_fastest\":"@ + (if r.is_fastest {
        "true"@
    } else {
        "false"@
    }) + "}"@
}

/// The first `upto` JSON entries, separated by commas.
pub open spec fn json_entries(all: Seq<RowView>, upto: int) -> Seq<char>
    decreases upto,
{
    if upto <= 0 {
        Seq::empty()
    } else if upto == 1 {
        json_entry(all, all[0])
    } else {
        json_entries(all, upto - 1) + ","@ + json_entry(all, all[upto - 1])
    }
}

/// The whole JSON document: track, date, and one entry per row.
pub open spec fn json_text(track: Seq<char>, date: Seq<char>, rows: Seq<RowView>) -> Seq<char> {
    "{\"track\":\""@ + json_escape(track) + "\",\"date\":\""@ + json_escape(date)
        + "\",\"fastest_laps\":["@ + json_entries(rows, rows.len() as int) + "]}"@
}

/// Renders one JSON entry for the row at `i`.
#[verifier::rlimit(60)]
fn render_entry(rows: &Vec<ExportRow>, i: usize) -> (r: String)
    requires
        i < rows@.len(),
    ensures
        r@ == json_entry(rows_views(rows@), rows_views(rows@)[i as int]),
{
    let ghost rv = rows_views(rows@);
    proof {
        assert(rv[i as int] == rows@[i as int]@);
    }
    let n = rows.len();
    let row = &rows[i];
    let j = find_row_exec(rows, &row.name, &row.time);
    assert(j < n);
    let mut out = String::from_str("{\"position\":");
    let pos_s = u64_to_string((j + 1) as u64);
    out.append(pos_s.as_str());
    out.append(",\"driver\":\"");
    let ne = escape_json(row.name.as_str());
    out.append(ne.as_str());
    out.append("\",\"team\":\"");
    let tme = escape_json(row.team.as_str());
    out.append(tme.as_str());
    out.append("\",\"time\":\"");
    let tie = escape_json(row.time.as_str());
    out.append(tie.as_str());
    out.append("\",\"is_fastest\":");
    if row.is_fastest {
        out.append("true");
    } else {
        out.append("false");
    }
    out.append("}");
    proof {
        assert(out@ =~= json_entry(rv, rv[i as int]));
    }
    out
}

/// Renders the sorted rows as the JSON document, with the given
/// track name and date.
pub fn render_json(track: &str, date: &str, rows: &Vec<ExportRow>) -> (r: String)
    ensures
        r@ == json_text(track@, date@, rows_views(rows@)),
{
    let ghost rv = rows_views(rows@);
    let mut out = String::from_str("{\"track\":\"");
    let te = escape_json(track);
    out.append(te.as_str());
    out.append("\",\"date\":\"");
    let de = escape_json(date);
    out.append(de.as_str());
    out.append("\",\"fastest_laps\":[");
    let ghost prefix = out@;
    let n = rows.len();
    let mut i: usize = 0;
    while i < n
        invariant
            0 <= i <= n,
            n == rows@.len(),
            rows_views(rows@) == rv,
            out@ == prefix + json_entries(rv, i as int),
        decreases n - i,
    {
        if i > 0 {
            out.append(",");
        }
        let entry = render_entry(rows, i);
        out.append(entry.as_str());
        proof {
            assert(out@ =~= prefix + json_entries(rv, i + 1));
        }
        i += 1;
    }
    out.append("]}");
    proof {
        assert(out@ =~= json_text(track@, date@, rv));
    }
    out
}

/// The rendered export: both file paths and both documents.
pub struct ExportDocs {
    pub csv_name: String,
    pub json_name: String,
    pub csv: String,
    pub json: String,
}

/// Relies on chrono::Local::now and its `%Y-%m-%d` formatting: the
/// current calendar date in the local time zone, rendered as text.
/// Nothing is promised of the result, which depends on the clock.
#[verifier::external_body]
fn today_string() -> (r: String) {
    chrono::Local::now().format("%Y-%m-%d").to_string()
}

impl Leaderboard {
    /// Renders the export documents for the current standings with
    /// the given date text: rows sorted fastest first, file paths
    /// derived from the track name. Fails exactly when no track name
    /// is set.
    pub fn render_export(&self, date: &str) -> (r: Result<ExportDocs, ExportError>)
        ensures
            (r is Err) <==> (self@.track is None),
            r is Err ==> r == Err::<ExportDocs, ExportError>(ExportError::NoTrackNameSet),
            r matches Ok(d) ==> d.csv_name@ == csv_filename(self@.track->0),
            r matches Ok(d) ==> d.json_name@ == json_filename(self@.track->0),
            r matches Ok(d) ==> d.csv@ == csv_text(sort_rows(board_rows(self@.drivers))),
            r matches Ok(d) ==> d.json@ == json_text(
                self@.track->0,
                date@,
                sort_rows(board_rows(self@.drivers)),
            ),
    {
        match &self.track_name {
            None => Err(ExportError::NoTrackNameSet),
            Some(t) => {
                let rows = build_rows(&self.drivers);
                let sorted = sort_rows_exec(&rows);
                let csv = render_csv(&sorted);
                let json = render_json(t.as_str(), date, &sorted);
                let safe = underscore_name(t.as_str());
                let mut csv_name = String::from_str("exports/");
                csv_name.append(safe.as_str());
                csv_name.append("_lap_times.csv");
                let mut json_name = String::from_str("exports/");
                json_name.append(safe.as_str());
                json_name.append("_lap_times.json");
                Ok(ExportDocs { csv_name, json_name, csv, json })
            },
        }
    }

    /// Renders the export documents dated today (by the local
    /// clock). Fails exactly when no track name is set; the date in
    /// the JSON document is whatever the clock gave.
    pub fn export_lap_times(&self) -> (r: Result<ExportDocs, ExportError>)
        ensures
            (r is Err) <==> (self@.track is None),
            r is Err ==> r == Err::<ExportDocs, ExportError>(ExportError::NoTrackNameSet),
            r matches Ok(d) ==> d.csv_name@ == csv_filename(self@.track->0),
            r matches Ok(d) ==> d.json_name@ == json_filename(self@.track->0),
            r matches Ok(d) ==> d.csv@ == csv_text(sort_rows(board_rows(self@.drivers))),
            r matches Ok(d) ==> exists|dt: Seq<char>|
                d.json@ == json_text(self@.track->0, dt, sort_rows(board_rows(self@.drivers))),
    {
        let date = today_string();
        let r = self.render_export(date.as_str());
        match r {
            Ok(d) => {
                proof {
                    let dt = date@;
                    assert(d.json@ == json_text(
                        self@.track->0,
                        dt,
                        sort_rows(board_rows(self@.drivers)),
                    ));
                }
                Ok(d)
            },
            Err(e) => Err(e),
        }
    }
}

} // verus!
