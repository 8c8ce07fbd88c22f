//! The in-memory leaderboard store.
//!
//! The store maps driver names (unique keys, in insertion order) to
//! drivers, each holding a team and lap times, and keeps the
//! fastest-lap flag consistent across the whole leaderboard after
//! every mutation: the flag is set exactly on the lap times whose
//! time string equals the winning string, the string of the first
//! lap encountered with the minimal parsed duration. Each driver
//! retains only their fastest lap.

use vstd::prelude::*;

use crate::duration::{contains_char, count_char, parse_duration, parse_duration_spec, SLOWEST_MS};

verus! {

/// A recorded lap time. `is_fastest` is a derived flag, recomputed
/// after every mutation, never set directly by a caller.
pub struct LapTime {
    pub time: String,
    pub is_fastest: bool,
}

/// A driver, identified by name, with a team and lap times.
pub struct Driver {
    pub name: String,
    pub team: String,
    pub lap_times: Vec<LapTime>,
}

/// The leaderboard: all drivers and the event's track name.
pub struct Leaderboard {
    pub drivers: Vec<Driver>,
    pub track_name: Option<String>,
}

/// Deletion failed: the named driver is not on the leaderboard.
#[derive(Debug, PartialEq, Eq, Structural, Clone, Copy)]
pub enum DeleteError {
    DriverNotFound,
}

/// Export failed before any file was rendered.
#[derive(Debug, PartialEq, Eq, Structural, Clone, Copy)]
pub enum ExportError {
    NoTrackNameSet,
}

/// Mathematical model of a lap time.
#[verifier::ext_equal]
pub ghost struct LapView {
    pub time: Seq<char>,
    pub is_fastest: bool,
}

/// Mathematical model of a driver.
#[verifier::ext_equal]
pub ghost struct DriverView {
    pub name: Seq<char>,
    pub team: Seq<char>,
    pub laps: Seq<LapView>,
}

/// Mathematical model of the leaderboard.
#[verifier::ext_equal]
pub ghost struct BoardView {
    pub drivers: Seq<DriverView>,
    pub track: Option<Seq<char>>,
}

impl View for LapTime {
    type V = LapView;

    open spec fn view(&self) -> LapView {
        LapView { time: self.time@, is_fastest: self.is_fastest }
    }
}

impl View for Driver {
    type V = DriverView;

    open spec fn view(&self) -> DriverView {
        DriverView {
            name: self.name@,
            team: self.team@,
            laps: laps_views(self.lap_times@),
        }
    }
}

/// The models of a sequence of lap times.
pub open spec fn laps_views(s: Seq<LapTime>) -> Seq<LapView> {
    s.map_values(|l: LapTime| l@)
}

/// The models of a sequence of drivers.
pub open spec fn drivers_views(s: Seq<Driver>) -> Seq<DriverView> {
    s.map_values(|d: Driver| d@)
}

/// The model of a vector of drivers.
pub open spec fn drivers_view(v: Vec<Driver>) -> Seq<DriverView> {
    drivers_views(v@)
}

proof fn lemma_laps_views_push(s: Seq<LapTime>, x: LapTime)
    ensures
        laps_views(s.push(x)) == laps_views(s).push(x@),
{
    assert forall|k: int| 0 <= k < s.len() + 1 implies laps_views(s.push(x))[k] == laps_views(
        s,
    ).push(x@)[k] by {
        if k < s.len() {
            assert(s.push(x)[k] == s[k]);
        } else {
            assert(s.push(x)[k] == x);
        }
    }
    assert(laps_views(s.push(x)) =~= laps_views(s).push(x@));
}

proof fn lemma_drivers_views_push(s: Seq<Driver>, x: Driver)
    ensures
        drivers_views(s.push(x)) == drivers_views(s).push(x@),
{
    assert forall|k: int| 0 <= k < s.len() + 1 implies drivers_views(s.push(x))[k]
        == drivers_views(s).push(x@)[k] by {
        if k < s.len() {
            assert(s.push(x)[k] == s[k]);
        } else {
            assert(s.push(x)[k] == x);
        }
    }
    assert(drivers_views(s.push(x)) =~= drivers_views(s).push(x@));
}

impl View for Leaderboard {
    type V = BoardView;

    open spec fn view(&self) -> BoardView {
        BoardView {
            drivers: drivers_view(self.drivers),
            track: match self.track_name {
                Some(ref t) => Some(t@),
                None => None,
            },
        }
    }
}

/// All lap times of all drivers, in driver order then lap order.
pub open spec fn all_laps(ds: Seq<DriverView>) -> Seq<LapView>
    decreases ds.len(),
{
    if ds.len() == 0 {
        Seq::empty()
    } else {
        all_laps(ds.drop_last()) + ds.last().laps
    }
}

/// The running fastest-lap scan over `laps`: the minimal parsed
/// duration seen, and the time string of the first lap that reached
/// it. Starts at the sentinel with an empty string, so a sequence
/// whose laps all parse to the sentinel has no winner.
pub open spec fn scan_fastest(laps: Seq<LapView>) -> (u64, Seq<char>)
    decreases laps.len(),
{
    if laps.len() == 0 {
        (SLOWEST_MS, Seq::<char>::empty())
    } else {
        let prev = scan_fastest(laps.drop_last());
        let p = parse_duration_spec(laps.last().time);
        if p < prev.0 {
            (p, laps.last().time)
        } else {
            prev
        }
    }
}

/// The winning time string of the whole leaderboard, or the empty
/// string if no lap parses below the sentinel.
pub open spec fn winning_time(ds: Seq<DriverView>) -> Seq<char> {
    scan_fastest(all_laps(ds)).1
}

/// Sets the fastest flag on exactly the laps whose time string
/// equals the nonempty winning string `w`.
pub open spec fn flag_laps(laps: Seq<LapView>, w: Seq<char>) -> Seq<LapView> {
    laps.map_values(|l: LapView| LapView { time: l.time, is_fastest: w.len() > 0 && l.time == w })
}

/// Rewrites every driver's flags against the winning string `w`.
pub open spec fn set_flags(ds: Seq<DriverView>, w: Seq<char>) -> Seq<DriverView> {
    ds.map_values(|d: DriverView| DriverView { name: d.name, team: d.team, laps: flag_laps(d.laps, w) })
}

/// The fastest-lap recomputation: flags exactly the laps whose time
/// string equals the leaderboard's winning string.
pub open spec fn recompute_flags(ds: Seq<DriverView>) -> Seq<DriverView> {
    set_flags(ds, winning_time(ds))
}

/// The running scan for a single driver's fastest lap: the minimal
/// parsed duration and the index of the first lap that reached it
/// (index zero if no lap parses below the sentinel).
pub open spec fn fastest_scan_idx(laps: Seq<LapView>) -> (u64, int)
    decreases laps.len(),
{
    if laps.len() == 0 {
        (SLOWEST_MS, 0)
    } else {
        let prev = fastest_scan_idx(laps.drop_last());
        let p = parse_duration_spec(laps.last().time);
        if p < prev.0 {
            (p, laps.len() - 1)
        } else {
            prev
        }
    }
}

/// A driver collapsed to their single fastest lap; a driver with at
/// most one lap is unchanged.
pub open spec fn retain_one(d: DriverView) -> DriverView {
    if d.laps.len() > 1 {
        DriverView { name: d.name, team: d.team, laps: seq![d.laps[fastest_scan_idx(d.laps).1]] }
    } else {
        d
    }
}

/// Every driver collapsed to their single fastest lap.
pub open spec fn retain_spec(ds: Seq<DriverView>) -> Seq<DriverView> {
    ds.map_values(|d: DriverView| retain_one(d))
}

/// Index of the first driver named `name`, or `ds.len()` if absent.
pub open spec fn find_driver(ds: Seq<DriverView>, name: Seq<char>) -> int
    decreases ds.len(),
{
    if ds.len() == 0 {
        0
    } else if ds[0].name == name {
        0
    } else {
        1 + find_driver(ds.drop_first(), name)
    }
}

/// The drivers after a lap time is recorded, before flags are
/// recomputed: an existing driver (looked up by name) gets the lap
/// appended and the team overwritten; an unknown name creates the
/// driver.
pub open spec fn add_core(
    ds: Seq<DriverView>,
    name: Seq<char>,
    team: Seq<char>,
    time: Seq<char>,
) -> Seq<DriverView> {
    let i = find_driver(ds, name);
    let lap = LapView { time: time, is_fastest: false };
    if i < ds.len() {
        ds.update(i, DriverView { name: ds[i].name, team: team, laps: ds[i].laps.push(lap) })
    } else {
        ds.push(DriverView { name: name, team: team, laps: seq![lap] })
    }
}

/// The laps that remain after every lap whose time string equals `t`
/// is removed.
pub open spec fn remove_time(laps: Seq<LapView>, t: Seq<char>) -> Seq<LapView>
    decreases laps.len(),
{
    if laps.len() == 0 {
        Seq::empty()
    } else {
        let prev = remove_time(laps.drop_last(), t);
        if laps.last().time == t {
            prev
        } else {
            prev.push(laps.last())
        }
    }
}

/// The drivers after a deletion, before flags are recomputed: the
/// named driver (which must exist) loses every lap whose time string
/// equals `time`, and disappears entirely if none remain.
pub open spec fn delete_core(ds: Seq<DriverView>, name: Seq<char>, time: Seq<char>) -> Seq<DriverView> {
    let i = find_driver(ds, name);
    let kept = remove_time(ds[i].laps, time);
    if kept.len() == 0 {
        ds.remove(i)
    } else {
        ds.update(i, DriverView { name: ds[i].name, team: ds[i].team, laps: kept })
    }
}

/// Well-formed drivers: names are unique and every driver holds at
/// least one lap time.
pub open spec fn wf_drivers(ds: Seq<DriverView>) -> bool {
    &&& forall|i: int, j: int| 0 <= i < j < ds.len() ==> ds[i].name != ds[j].name
    &&& forall|i: int| 0 <= i < ds.len() ==> ds[i].laps.len() >= 1
}

impl Leaderboard {
    /// The store's invariant, established by `new` and preserved by
    /// every operation.
    pub open spec fn wf(&self) -> bool {
        wf_drivers(self@.drivers)
    }

    /// Creates an empty leaderboard with no track name.
    pub fn new() -> (lb: Leaderboard)
        ensures
            lb@.drivers.len() == 0,
            lb@.track is None,
            lb.wf(),
    {
        Leaderboard { drivers: Vec::new(), track_name: None }
    }

    /// Returns the track name, or the empty string if none is set.
    pub fn get_track_name(&self) -> (r: String)
        ensures
            r@ == match self@.track {
                Some(t) => t,
                None => Seq::<char>::empty(),
            },
    {
        match &self.track_name {
            Some(t) => t.clone(),
            None => String::new(),
        }
    }

    /// Overwrites the track name unconditionally and returns the
    /// stored value. No validation is applied.
    pub fn set_track_name(&mut self, name: String) -> (r: String)
        ensures
            final(self)@.track == Some(name@),
            final(self)@.drivers == old(self)@.drivers,
            r@ == name@,
    {
        let r = name.clone();
        self.track_name = Some(name);
        r
    }

    /// Returns a snapshot copy of all drivers. No side effects.
    pub fn list_drivers(&self) -> (v: Vec<Driver>)
        ensures
            drivers_view(v) == self@.drivers,
    {
        clone_drivers(&self.drivers)
    }
}

/// A copy of one lap time.
fn clone_lap(l: &LapTime) -> (r: LapTime)
    ensures
        r@ == l@,
{
    LapTime { time: l.time.clone(), is_fastest: l.is_fastest }
}

/// A copy of one driver.
fn clone_driver(d: &Driver) -> (r: Driver)
    ensures
        r@ == d@,
{
    let mut laps: Vec<LapTime> = Vec::new();
    let n = d.lap_times.len();
    let mut j: usize = 0;
    while j < n
        invariant
            0 <= j <= n,
            n == d.lap_times.len(),
            laps_views(laps@) =~= laps_views(d.lap_times@.take(j as int)),
        decreases n - j,
    {
        let c = clone_lap(&d.lap_times[j]);
        let ghost before = laps@;
        let ghost cx = c;
        laps.push(c);
        proof {
            lemma_laps_views_push(before, cx);
            assert(d.lap_times@.take(j + 1) =~= d.lap_times@.take(j as int).push(
                d.lap_times@[j as int],
            ));
            lemma_laps_views_push(d.lap_times@.take(j as int), d.lap_times@[j as int]);
            assert(laps_views(laps@) =~= laps_views(d.lap_times@.take(j + 1)));
        }
        j += 1;
    }
    proof {
        assert(d.lap_times@.take(n as int) =~= d.lap_times@);
    }
    let r = Driver { name: d.name.clone(), team: d.team.clone(), lap_times: laps };
    assert(r@ =~= d@);
    r
}

/// A snapshot copy of a driver vector.
fn clone_drivers(v: &Vec<Driver>) -> (r: Vec<Driver>)
    ensures
        drivers_view(r) == drivers_view(*v),
{
    let mut out: Vec<Driver> = Vec::new();
    let n = v.len();
    let mut i: usize = 0;
    while i < n
        invariant
            0 <= i <= n,
            n == v.len(),
            drivers_view(out) =~= drivers_views(v@.take(i as int)),
        decreases n - i,
    {
        let c = clone_driver(&v[i]);
        let ghost before = out@;
        let ghost cx = c;
        out.push(c);
        proof {
            lemma_drivers_views_push(before, cx);
            assert(v@.take(i + 1) =~= v@.take(i as int).push(v@[i as int]));
            lemma_drivers_views_push(v@.take(i as int), v@[i as int]);
            assert(drivers_views(out@) =~= drivers_views(v@.take(i + 1)));
        }
        i += 1;
    }
    proof {
        assert(v@.take(n as int) =~= v@);
    }
    out
}

proof fn lemma_flag_laps_push(s: Seq<LapView>, x: LapView, w: Seq<char>)
    ensures
        flag_laps(s.push(x), w) == flag_laps(s, w).push(
            LapView { time: x.time, is_fastest: w.len() > 0 && x.time == w },
        ),
{
    let y = LapView { time: x.time, is_fastest: w.len() > 0 && x.time == w };
    assert forall|k: int| 0 <= k < s.len() + 1 implies flag_laps(s.push(x), w)[k] == flag_laps(
        s,
        w,
    ).push(y)[k] by {
        if k < s.len() {
            assert(s.push(x)[k] == s[k]);
        } else {
            assert(s.push(x)[k] == x);
        }
    }
    assert(flag_laps(s.push(x), w) =~= flag_laps(s, w).push(y));
}

proof fn lemma_set_flags_push(ds: Seq<DriverView>, d: DriverView, w: Seq<char>)
    ensures
        set_flags(ds.push(d), w) == set_flags(ds, w).push(
            DriverView { name: d.name, team: d.team, laps: flag_laps(d.laps, w) },
        ),
{
    let y = DriverView { name: d.name, team: d.team, laps: flag_laps(d.laps, w) };
    assert forall|k: int| 0 <= k < ds.len() + 1 implies set_flags(ds.push(d), w)[k] == set_flags(
        ds,
        w,
    ).push(y)[k] by {
        if k < ds.len() {
            assert(ds.push(d)[k] == ds[k]);
        } else {
            assert(ds.push(d)[k] == d);
        }
    }
    assert(set_flags(ds.push(d), w) =~= set_flags(ds, w).push(y));
}

proof fn lemma_retain_push(ds: Seq<DriverView>, d: DriverView)
    ensures
        retain_spec(ds.push(d)) == retain_spec(ds).push(retain_one(d)),
{
    assert forall|k: int| 0 <= k < ds.len() + 1 implies retain_spec(ds.push(d))[k] == retain_spec(
        ds,
    ).push(retain_one(d))[k] by {
        if k < ds.len() {
            assert(ds.push(d)[k] == ds[k]);
        } else {
            assert(ds.push(d)[k] == d);
        }
    }
    assert(retain_spec(ds.push(d)) =~= retain_spec(ds).push(retain_one(d)));
}

/// Recomputes the fastest-lap flag across the whole leaderboard:
/// clears every flag, scans all laps in driver order for the first
/// lap with the minimal parsed duration, and flags every lap whose
/// time string equals that winning string. With no parsable lap (or
/// no lap at all) every flag is cleared.
pub fn update_fastest_laps(drivers: &mut Vec<Driver>)
    ensures
        drivers_view(*final(drivers)) == recompute_flags(drivers_view(*old(drivers))),
{
    let ghost ds = drivers_view(*drivers);
    let mut best: u64 = SLOWEST_MS;
    let mut wstr: String = String::new();
    let n = drivers.len();
    let mut i: usize = 0;
    while i < n
        invariant
            0 <= i <= n,
            n == drivers@.len(),
            drivers_view(*drivers) == ds,
            best == scan_fastest(all_laps(ds.take(i as int))).0,
            wstr@ == scan_fastest(all_laps(ds.take(i as int))).1,
        decreases n - i,
    {
        proof {
            assert(ds[i as int] == drivers@[i as int]@);
        }
        let m = drivers[i].lap_times.len();
        assert(m == ds[i as int].laps.len());
        let mut j: usize = 0;
        while j < m
            invariant
                0 <= j <= m,
                0 <= i < n,
                n == drivers@.len(),
                drivers_view(*drivers) == ds,
                ds[i as int] == drivers@[i as int]@,
                m == ds[i as int].laps.len(),
                best == scan_fastest(all_laps(ds.take(i as int)) + ds[i as int].laps.take(j as int)).0,
                wstr@ == scan_fastest(all_laps(ds.take(i as int)) + ds[i as int].laps.take(j as int)).1,
            decreases m - j,
        {
            let lt = &drivers[i].lap_times[j];
            proof {
                assert(ds[i as int].laps[j as int] == drivers@[i as int].lap_times@[j as int]@);
            }
            let p = parse_duration(lt.time.as_str());
            proof {
                let pre = all_laps(ds.take(i as int)) + ds[i as int].laps.take(j as int);
                let nxt = all_laps(ds.take(i as int)) + ds[i as int].laps.take(j + 1);
                let x = ds[i as int].laps[j as int];
                assert(nxt.len() == pre.len() + 1);
                assert(nxt.drop_last() =~= pre);
                assert(nxt.last() == x);
            }
            if p < best {
                best = p;
                wstr = lt.time.clone();
            }
            j += 1;
        }
        proof {
            assert(ds[i as int].laps.take(m as int) =~= ds[i as int].laps);
            assert(ds.take(i + 1).drop_last() =~= ds.take(i as int));
            assert(ds.take(i + 1).last() == ds[i as int]);
            assert(all_laps(ds.take(i + 1)) == all_laps(ds.take(i as int)) + ds[i as int].laps);
        }
        i += 1;
    }
    proof {
        assert(ds.take(n as int) =~= ds);
    }
    let ghost w = wstr@;
    assert(w == winning_time(ds));
    let has_winner = wstr.unicode_len() > 0;
    let mut out: Vec<Driver> = Vec::new();
    let mut i: usize = 0;
    while i < n
        invariant
            0 <= i <= n,
            n == drivers@.len(),
            drivers_view(*drivers) == ds,
            w == wstr@,
            has_winner == (w.len() > 0),
            drivers_views(out@) == set_flags(ds.take(i as int), w),
        decreases n - i,
    {
        proof {
            assert(ds[i as int] == drivers@[i as int]@);
        }
        let m = drivers[i].lap_times.len();
        assert(m == ds[i as int].laps.len());
        let mut laps: Vec<LapTime> = Vec::new();
        let mut j: usize = 0;
        while j < m
            invariant
                0 <= j <= m,
                0 <= i < n,
                n == drivers@.len(),
                drivers_view(*drivers) == ds,
                ds[i as int] == drivers@[i as int]@,
                m == ds[i as int].laps.len(),
                w == wstr@,
                has_winner == (w.len() > 0),
                laps_views(laps@) == flag_laps(ds[i as int].laps.take(j as int), w),
            decreases m - j,
        {
            let lt = &drivers[i].lap_times[j];
            proof {
                assert(ds[i as int].laps[j as int] == drivers@[i as int].lap_times@[j as int]@);
            }
            let flag = has_winner && lt.time == wstr;
            let c = LapTime { time: lt.time.clone(), is_fastest: flag };
            let ghost before = laps@;
            let ghost cx = c;
            laps.push(c);
            proof {
                lemma_laps_views_push(before, cx);
                lemma_flag_laps_push(ds[i as int].laps.take(j as int), ds[i as int].laps[j as int], w);
                assert(ds[i as int].laps.take(j + 1) =~= ds[i as int].laps.take(j as int).push(
                    ds[i as int].laps[j as int],
                ));
            }
            j += 1;
        }
        proof {
            assert(ds[i as int].laps.take(m as int) =~= ds[i as int].laps);
        }
        let dr = &drivers[i];
        let nd = Driver { name: dr.name.clone(), team: dr.team.clone(), lap_times: laps };
        assert(nd@ == DriverView {
            name: ds[i as int].name,
            team: ds[i as int].team,
            laps: flag_laps(ds[i as int].laps, w),
        });
        let ghost before = out@;
        let ghost cx = nd;
        out.push(nd);
        proof {
            lemma_drivers_views_push(before, cx);
            lemma_set_flags_push(ds.take(i as int), ds[i as int], w);
            assert(ds.take(i + 1) =~= ds.take(i as int).push(ds[i as int]));
        }
        i += 1;
    }
    proof {
        assert(ds.take(n as int) =~= ds);
    }
    *drivers = out;
}

/// Collapses every driver to their single fastest lap, comparing by
/// parsed duration with the first minimum winning ties; drivers with
/// at most one lap are unchanged.
pub fn retain_fastest_lap_times(drivers: &mut Vec<Driver>)
    ensures
        drivers_view(*final(drivers)) == retain_spec(drivers_view(*old(drivers))),
{
    let ghost ds = drivers_view(*drivers);
    let n = drivers.len();
    let mut out: Vec<Driver> = Vec::new();
    let mut i: usize = 0;
    while i < n
        invariant
            0 <= i <= n,
            n == drivers@.len(),
            drivers_view(*drivers) == ds,
            drivers_views(out@) == retain_spec(ds.take(i as int)),
        decreases n - i,
    {
        proof {
            assert(ds[i as int] == drivers@[i as int]@);
        }
        let m = drivers[i].lap_times.len();
        assert(m == ds[i as int].laps.len());
        let nd: Driver;
        if m > 1 {
            let mut best: u64 = SLOWEST_MS;
            let mut bi: usize = 0;
            let mut j: usize = 0;
            while j < m
                invariant
                    0 <= j <= m,
                    0 <= i < n,
                    0 <= bi < m,
                    1 < m,
                    n == drivers@.len(),
                    drivers_view(*drivers) == ds,
                    ds[i as int] == drivers@[i as int]@,
                    m == ds[i as int].laps.len(),
                    best == fastest_scan_idx(ds[i as int].laps.take(j as int)).0,
                    bi as int == fastest_scan_idx(ds[i as int].laps.take(j as int)).1,
                decreases m - j,
            {
                let lt = &drivers[i].lap_times[j];
                proof {
                    assert(ds[i as int].laps[j as int] == drivers@[i as int].lap_times@[j as int]@);
                    let pre = ds[i as int].laps.take(j as int);
                    let nxt = ds[i as int].laps.take(j + 1);
                    assert(nxt.drop_last() =~= pre);
                    assert(nxt.last() == ds[i as int].laps[j as int]);
                }
                let p = parse_duration(lt.time.as_str());
                if p < best {
                    best = p;
                    bi = j;
                }
                j += 1;
            }
            proof {
                assert(ds[i as int].laps.take(m as int) =~= ds[i as int].laps);
            }
            let keep = clone_lap(&drivers[i].lap_times[bi]);
            proof {
                assert(ds[i as int].laps[bi as int] == drivers@[i as int].lap_times@[bi as int]@);
            }
            let mut laps: Vec<LapTime> = Vec::new();
            laps.push(keep);
            let dr = &drivers[i];
            nd = Driver { name: dr.name.clone(), team: dr.team.clone(), lap_times: laps };
            assert(nd@.laps =~= seq![ds[i as int].laps[fastest_scan_idx(ds[i as int].laps).1]]);
            assert(nd@ == retain_one(ds[i as int]));
        } else {
            nd = clone_driver(&drivers[i]);
            assert(nd@ == retain_one(ds[i as int]));
        }
        let ghost before = out@;
        let ghost cx = nd;
        out.push(nd);
        proof {
            lemma_drivers_views_push(before, cx);
            lemma_retain_push(ds.take(i as int), ds[i as int]);
            assert(ds.take(i + 1) =~= ds.take(i as int).push(ds[i as int]));
        }
        i += 1;
    }
    proof {
        assert(ds.take(n as int) =~= ds);
    }
    *drivers = out;
}

proof fn lemma_find_driver_found(ds: Seq<DriverView>, name: Seq<char>, i: int)
    requires
        0 <= i < ds.len(),
        ds[i].name == name,
        forall|j: int| 0 <= j < i ==> ds[j].name != name,
    ensures
        find_driver(ds, name) == i,
    decreases ds.len(),
{
    if i == 0 {
    } else {
        assert(ds[0].name != name);
        lemma_find_driver_found(ds.drop_first(), name, i - 1);
    }
}

proof fn lemma_find_driver_absent(ds: Seq<DriverView>, name: Seq<char>)
    requires
        forall|j: int| 0 <= j < ds.len() ==> ds[j].name != name,
    ensures
        find_driver(ds, name) == ds.len(),
    decreases ds.len(),
{
    if ds.len() > 0 {
        lemma_find_driver_absent(ds.drop_first(), name);
    }
}

/// The first driver with the sought name stands at `find_driver`,
/// none before it matches, and the index is in range exactly when
/// some driver has the name.
proof fn lemma_find_driver_props(ds: Seq<DriverView>, name: Seq<char>)
    ensures
        0 <= find_driver(ds, name) <= ds.len(),
        find_driver(ds, name) < ds.len() ==> ds[find_driver(ds, name)].name == name,
        forall|j: int| 0 <= j < find_driver(ds, name) ==> ds[j].name != name,
        (find_driver(ds, name) < ds.len()) == (exists|k: int|
            0 <= k < ds.len() && ds[k].name == name),
    decreases ds.len(),
{
    if ds.len() == 0 {
    } else if ds[0].name == name {
    } else {
        lemma_find_driver_props(ds.drop_first(), name);
        assert forall|j: int| 0 <= j < find_driver(ds, name) implies ds[j].name != name by {
            if j > 0 {
                assert(ds.drop_first()[j - 1].name != name);
                assert(ds[j] == ds.drop_first()[j - 1]);
            }
        }
        if exists|k: int| 0 <= k < ds.len() && ds[k].name == name {
            let w = choose|w: int| 0 <= w < ds.len() && ds[w].name == name;
            assert(ds.drop_first()[w - 1].name == name);
        }
        if exists|k: int| 0 <= k < ds.drop_first().len() && ds.drop_first()[k].name == name {
            let w = choose|w: int|
                0 <= w < ds.drop_first().len() && ds.drop_first()[w].name == name;
            assert(ds[w + 1].name == name);
        }
    }
}

proof fn lemma_drivers_views_update(s: Seq<Driver>, i: int, x: Driver)
    requires
        0 <= i < s.len(),
    ensures
        drivers_views(s.update(i, x)) == drivers_views(s).update(i, x@),
{
    assert forall|k: int| 0 <= k < s.len() implies drivers_views(s.update(i, x))[k]
        == drivers_views(s).update(i, x@)[k] by {
        if k == i {
            assert(s.update(i, x)[k] == x);
        } else {
            assert(s.update(i, x)[k] == s[k]);
        }
    }
    assert(drivers_views(s.update(i, x)) =~= drivers_views(s).update(i, x@));
}

proof fn lemma_drivers_views_remove(s: Seq<Driver>, i: int)
    requires
        0 <= i < s.len(),
    ensures
        drivers_views(s.remove(i)) == drivers_views(s).remove(i),
{
    assert forall|k: int| 0 <= k < s.len() - 1 implies drivers_views(s.remove(i))[k]
        == drivers_views(s).remove(i)[k] by {
        if k < i {
            assert(s.remove(i)[k] == s[k]);
        } else {
            assert(s.remove(i)[k] == s[k + 1]);
        }
    }
    assert(drivers_views(s.remove(i)) =~= drivers_views(s).remove(i));
}

/// Reflagging changes neither the drivers' names nor how many laps
/// each holds.
proof fn lemma_set_flags_preserves(ds: Seq<DriverView>, w: Seq<char>)
    ensures
        set_flags(ds, w).len() == ds.len(),
        forall|i: int| 0 <= i < ds.len() ==> #[trigger] set_flags(ds, w)[i].name == ds[i].name,
        forall|i: int|
            0 <= i < ds.len() ==> #[trigger] set_flags(ds, w)[i].laps.len() == ds[i].laps.len(),
{
}

/// Collapsing to the fastest lap changes no driver's name, and a
/// driver with a lap keeps at least one.
proof fn lemma_retain_preserves(ds: Seq<DriverView>)
    ensures
        retain_spec(ds).len() == ds.len(),
        forall|i: int| 0 <= i < ds.len() ==> #[trigger] retain_spec(ds)[i].name == ds[i].name,
        forall|i: int|
            0 <= i < ds.len() && ds[i].laps.len() >= 1 ==> #[trigger] retain_spec(
                ds,
            )[i].laps.len() >= 1,
{
}

proof fn lemma_wf_set_flags(ds: Seq<DriverView>, w: Seq<char>)
    requires
        wf_drivers(ds),
    ensures
        wf_drivers(set_flags(ds, w)),
{
    lemma_set_flags_preserves(ds, w);
}

proof fn lemma_wf_retain(ds: Seq<DriverView>)
    requires
        wf_drivers(ds),
    ensures
        wf_drivers(retain_spec(ds)),
{
    lemma_retain_preserves(ds);
}

proof fn lemma_wf_add_core(ds: Seq<DriverView>, name: Seq<char>, team: Seq<char>, time: Seq<char>)
    requires
        wf_drivers(ds),
    ensures
        wf_drivers(add_core(ds, name, team, time)),
{
    lemma_find_driver_props(ds, name);
    let i = find_driver(ds, name);
    let r = add_core(ds, name, team, time);
    if i < ds.len() {
        assert(forall|k: int| 0 <= k < ds.len() ==> r[k].name == ds[k].name);
    } else {
        assert(forall|k: int| 0 <= k < ds.len() ==> r[k].name == ds[k].name);
        assert(r[ds.len() as int].name == name);
    }
}

proof fn lemma_wf_delete_core(ds: Seq<DriverView>, name: Seq<char>, time: Seq<char>)
    requires
        wf_drivers(ds),
        find_driver(ds, name) < ds.len(),
    ensures
        wf_drivers(delete_core(ds, name, time)),
{
    lemma_find_driver_props(ds, name);
    let i = find_driver(ds, name);
    let kept = remove_time(ds[i].laps, time);
    if kept.len() == 0 {
        let r = ds.remove(i);
        assert forall|a: int, b: int| 0 <= a < b < r.len() implies r[a].name != r[b].name by {
            if b < i {
            } else if a < i {
                assert(r[b] == ds[b + 1]);
            } else {
                assert(r[a] == ds[a + 1]);
                assert(r[b] == ds[b + 1]);
            }
        }
    }
}

impl Leaderboard {
    /// Records a lap time. An unknown driver name creates the driver
    /// with the given team; an existing driver's team is overwritten
    /// by the input. The driver is then collapsed to their single
    /// fastest lap, and the fastest-lap flag is recomputed across the
    /// whole leaderboard.
    pub fn add_lap_time(&mut self, name: String, team: String, time: String)
        requires
            old(self).wf(),
        ensures
            final(self).wf(),
            final(self)@.drivers == recompute_flags(
                retain_spec(add_core(old(self)@.drivers, name@, team@, time@)),
            ),
            final(self)@.track == old(self)@.track,
    {
        let ghost ds = drivers_view(self.drivers);
        let ghost nv = name@;
        let ghost tv = team@;
        let ghost timev = time@;
        let n = self.drivers.len();
        let mut i: usize = 0;
        let mut found = false;
        while i < n && !found
            invariant
                0 <= i <= n,
                n == self.drivers@.len(),
                drivers_view(self.drivers) == ds,
                self@ == old(self)@,
                nv == name@,
                forall|k: int| 0 <= k < i ==> ds[k].name != nv,
                found ==> i < n && ds[i as int].name == nv,
            decreases n - i, (if found { 0int } else { 1int }),
        {
            proof {
                assert(ds[i as int] == self.drivers@[i as int]@);
            }
            if self.drivers[i].name == name {
                found = true;
            } else {
                i += 1;
            }
        }
        if found {
            proof {
                lemma_find_driver_found(ds, nv, i as int);
            }
            let mut nd = clone_driver(&self.drivers[i]);
            nd.team = team;
            let ghost before_laps = nd.lap_times@;
            let lap = LapTime { time: time, is_fastest: false };
            let ghost lapx = lap;
            nd.lap_times.push(lap);
            proof {
                lemma_laps_views_push(before_laps, lapx);
            }
            assert(nd@ == DriverView {
                name: ds[i as int].name,
                team: tv,
                laps: ds[i as int].laps.push(LapView { time: timev, is_fastest: false }),
            });
            let ghost vecseq = self.drivers@;
            let ghost ndx = nd;
            self.drivers.remove(i);
            self.drivers.insert(i, nd);
            proof {
                assert(self.drivers@ =~= vecseq.update(i as int, ndx));
                lemma_drivers_views_update(vecseq, i as int, ndx);
                assert(drivers_view(self.drivers) == add_core(ds, nv, tv, timev));
            }
        } else {
            proof {
                lemma_find_driver_absent(ds, nv);
            }
            let mut laps: Vec<LapTime> = Vec::new();
            laps.push(LapTime { time: time, is_fastest: false });
            let nd = Driver { name: name, team: team, lap_times: laps };
            let ghost before = self.drivers@;
            let ghost ndx = nd;
            self.drivers.push(nd);
            proof {
                lemma_drivers_views_push(before, ndx);
                assert(ndx@.laps =~= seq![LapView { time: timev, is_fastest: false }]);
                assert(drivers_view(self.drivers) == add_core(ds, nv, tv, timev));
            }
        }
        proof {
            lemma_wf_add_core(ds, nv, tv, timev);
        }
        retain_fastest_lap_times(&mut self.drivers);
        proof {
            lemma_wf_retain(add_core(ds, nv, tv, timev));
        }
        update_fastest_laps(&mut self.drivers);
        proof {
            lemma_wf_set_flags(
                retain_spec(add_core(ds, nv, tv, timev)),
                winning_time(retain_spec(add_core(ds, nv, tv, timev))),
            );
        }
    }

    /// Deletes every lap time of the named driver whose time string
    /// exactly equals `time` (string equality, not duration
    /// equality). A driver left without lap times is removed
    /// entirely, and the fastest-lap flag is recomputed. Fails, and
    /// leaves the store unchanged, exactly when no driver has the
    /// name.
    pub fn delete_lap_time(&mut self, name: &str, time: &str) -> (r: Result<(), DeleteError>)
        requires
            old(self).wf(),
        ensures
            final(self).wf(),
            r is Ok <==> find_driver(old(self)@.drivers, name@) < old(self)@.drivers.len(),
            r is Err ==> *final(self) == *old(self),
            r is Ok ==> final(self)@.drivers == recompute_flags(
                delete_core(old(self)@.drivers, name@, time@),
            ),
            final(self)@.track == old(self)@.track,
            (r is Ok && (forall|l: int|
                0 <= l < old(self)@.drivers[find_driver(old(self)@.drivers, name@)].laps.len()
                    ==> old(self)@.drivers[find_driver(old(self)@.drivers, name@)].laps[l].time
                    == time@)) ==> forall|k: int|
                0 <= k < final(self)@.drivers.len() ==> final(self)@.drivers[k].name != name@,
    {
        let ghost ds = drivers_view(self.drivers);
        let ghost nv = name@;
        let ghost timev = time@;
        let key: String = name.to_owned();
        let tkey: String = time.to_owned();
        let n = self.drivers.len();
        let mut i: usize = 0;
        let mut found = false;
        while i < n && !found
            invariant
                0 <= i <= n,
                n == self.drivers@.len(),
                drivers_view(self.drivers) == ds,
                self@ == old(self)@,
                key@ == nv,
                forall|k: int| 0 <= k < i ==> ds[k].name != nv,
                found ==> i < n && ds[i as int].name == nv,
            decreases n - i, (if found { 0int } else { 1int }),
        {
            proof {
                assert(ds[i as int] == self.drivers@[i as int]@);
            }
            if self.drivers[i].name == key {
                found = true;
            } else {
                i += 1;
            }
        }
        if !found {
            proof {
                lemma_find_driver_absent(ds, nv);
            }
            return Err(DeleteError::DriverNotFound);
        }
        proof {
            lemma_find_driver_found(ds, nv, i as int);
        }
        let m = self.drivers[i].lap_times.len();
        assert(ds[i as int] == self.drivers@[i as int]@);
        assert(m == ds[i as int].laps.len());
        let mut kept: Vec<LapTime> = Vec::new();
        let mut j: usize = 0;
        while j < m
            invariant
                0 <= j <= m,
                0 <= i < n,
                n == self.drivers@.len(),
                drivers_view(self.drivers) == ds,
                self@ == old(self)@,
                ds[i as int] == self.drivers@[i as int]@,
                m == ds[i as int].laps.len(),
                tkey@ == timev,
                laps_views(kept@) == remove_time(ds[i as int].laps.take(j as int), timev),
            decreases m - j,
        {
            proof {
                assert(ds[i as int].laps[j as int] == self.drivers@[i as int].lap_times@[j as int]@);
                let pre = ds[i as int].laps.take(j as int);
                let nxt = ds[i as int].laps.take(j + 1);
                assert(nxt.drop_last() =~= pre);
                assert(nxt.last() == ds[i as int].laps[j as int]);
            }
            let lt = &self.drivers[i].lap_times[j];
            if !(lt.time == tkey) {
                let c = clone_lap(lt);
                let ghost before = kept@;
                let ghost cx = c;
                kept.push(c);
                proof {
                    lemma_laps_views_push(before, cx);
                }
            }
            j += 1;
        }
        proof {
            assert(ds[i as int].laps.take(m as int) =~= ds[i as int].laps);
        }
        let ghost kv = remove_time(ds[i as int].laps, timev);
        if kept.len() == 0 {
            let ghost vecseq = self.drivers@;
            self.drivers.remove(i);
            proof {
                lemma_drivers_views_remove(vecseq, i as int);
                assert(drivers_view(self.drivers) == delete_core(ds, nv, timev));
            }
        } else {
            let dr = &self.drivers[i];
            let nd = Driver { name: dr.name.clone(), team: dr.team.clone(), lap_times: kept };
            assert(nd@ == DriverView { name: ds[i as int].name, team: ds[i as int].team, laps: kv });
            let ghost vecseq = self.drivers@;
            let ghost ndx = nd;
            self.drivers.remove(i);
            self.drivers.insert(i, nd);
            proof {
                assert(self.drivers@ =~= vecseq.update(i as int, ndx));
                lemma_drivers_views_update(vecseq, i as int, ndx);
                assert(drivers_view(self.drivers) == delete_core(ds, nv, timev));
            }
        }
        proof {
            lemma_wf_delete_core(ds, nv, timev);
        }
        update_fastest_laps(&mut self.drivers);
        proof {
            lemma_wf_set_flags(delete_core(ds, nv, timev), winning_time(delete_core(ds, nv, timev)));
            if forall|l: int| 0 <= l < ds[i as int].laps.len() ==> ds[i as int].laps[l].time == timev {
                lemma_remove_time_all(ds[i as int].laps, timev);
                assert(kv.len() == 0);
                let dc = delete_core(ds, nv, timev);
                assert(dc == ds.remove(i as int));
                lemma_set_flags_preserves(dc, winning_time(dc));
                let fds = final(self)@.drivers;
                assert forall|k: int| 0 <= k < fds.len() implies fds[k].name != nv by {
                    assert(fds[k].name == dc[k].name);
                    if k < i {
                        assert(dc[k] == ds[k]);
                    } else {
                        assert(dc[k] == ds[k + 1]);
                    }
                }
            }
        }
        Ok(())
    }
}

/// Removing a time that every lap carries leaves no lap behind.
proof fn lemma_remove_time_all(laps: Seq<LapView>, t: Seq<char>)
    requires
        forall|l: int| 0 <= l < laps.len() ==> laps[l].time == t,
    ensures
        remove_time(laps, t).len() == 0,
    decreases laps.len(),
{
    if laps.len() > 0 {
        lemma_remove_time_all(laps.drop_last(), t);
    }
}

/// How many laps carry the fastest flag.
pub open spec fn count_flagged(laps: Seq<LapView>) -> int
    decreases laps.len(),
{
    if laps.len() == 0 {
        0
    } else {
        count_flagged(laps.drop_last()) + if laps.last().is_fastest { 1int } else { 0int }
    }
}

/// How many laps carry exactly the time string `t`.
pub open spec fn count_with_time(laps: Seq<LapView>, t: Seq<char>) -> int
    decreases laps.len(),
{
    if laps.len() == 0 {
        0
    } else {
        count_with_time(laps.drop_last(), t) + if laps.last().time == t { 1int } else { 0int }
    }
}

proof fn lemma_flag_concat(a: Seq<LapView>, b: Seq<LapView>, w: Seq<char>)
    ensures
        flag_laps(a + b, w) == flag_laps(a, w) + flag_laps(b, w),
{
    assert forall|k: int| 0 <= k < a.len() + b.len() implies flag_laps(a + b, w)[k] == (flag_laps(
        a,
        w,
    ) + flag_laps(b, w))[k] by {
        if k < a.len() {
            assert((a + b)[k] == a[k]);
        } else {
            assert((a + b)[k] == b[k - a.len()]);
        }
    }
    assert(flag_laps(a + b, w) =~= flag_laps(a, w) + flag_laps(b, w));
}

proof fn lemma_all_laps_set_flags(ds: Seq<DriverView>, w: Seq<char>)
    ensures
        all_laps(set_flags(ds, w)) == flag_laps(all_laps(ds), w),
    decreases ds.len(),
{
    if ds.len() == 0 {
        assert(all_laps(set_flags(ds, w)) =~= flag_laps(all_laps(ds), w));
    } else {
        lemma_all_laps_set_flags(ds.drop_last(), w);
        assert(set_flags(ds, w).drop_last() =~= set_flags(ds.drop_last(), w));
        assert(set_flags(ds, w).last().laps == flag_laps(ds.last().laps, w));
        lemma_flag_concat(all_laps(ds.drop_last()), ds.last().laps, w);
    }
}

proof fn lemma_count_flag(laps: Seq<LapView>, w: Seq<char>)
    ensures
        w.len() == 0 ==> count_flagged(flag_laps(laps, w)) == 0,
        w.len() > 0 ==> count_flagged(flag_laps(laps, w)) == count_with_time(laps, w),
    decreases laps.len(),
{
    if laps.len() == 0 {
    } else {
        lemma_count_flag(laps.drop_last(), w);
        assert(flag_laps(laps, w).drop_last() =~= flag_laps(laps.drop_last(), w));
        assert(flag_laps(laps, w).last() == LapView {
            time: laps.last().time,
            is_fastest: w.len() > 0 && laps.last().time == w,
        });
    }
}

proof fn lemma_scan_winner(laps: Seq<LapView>)
    ensures
        scan_fastest(laps).0 == SLOWEST_MS ==> scan_fastest(laps).1.len() == 0,
        scan_fastest(laps).0 < SLOWEST_MS ==> scan_fastest(laps).1.len() > 0,
        scan_fastest(laps).0 < SLOWEST_MS ==> exists|k: int|
            0 <= k < laps.len() && laps[k].time == scan_fastest(laps).1,
    decreases laps.len(),
{
    if laps.len() == 0 {
    } else {
        lemma_scan_winner(laps.drop_last());
        let prev = scan_fastest(laps.drop_last());
        let p = parse_duration_spec(laps.last().time);
        if p < prev.0 {
            if laps.last().time.len() == 0 {
                assert(!contains_char(laps.last().time, ':'));
                assert(count_char(laps.last().time, '.') == 0);
                assert(p == SLOWEST_MS);
            }
            assert(laps[laps.len() - 1].time == scan_fastest(laps).1);
        } else {
            if prev.0 < SLOWEST_MS {
                let k = choose|k: int|
                    0 <= k < laps.drop_last().len() && laps.drop_last()[k].time == prev.1;
                assert(laps[k].time == scan_fastest(laps).1);
            }
        }
    }
}

/// After recomputation a lap is flagged exactly when the winning
/// string is nonempty and the lap's time string equals it.
pub proof fn lemma_flags_exact(ds: Seq<DriverView>)
    ensures
        forall|i: int, j: int|
            0 <= i < ds.len() && 0 <= j < ds[i].laps.len() ==> (#[trigger] recompute_flags(
                ds,
            )[i].laps[j].is_fastest <==> (winning_time(ds).len() > 0 && ds[i].laps[j].time
                == winning_time(ds))),
{
    let w = winning_time(ds);
    assert forall|i: int, j: int|
        0 <= i < ds.len() && 0 <= j < ds[i].laps.len() implies (#[trigger] recompute_flags(
        ds,
    )[i].laps[j].is_fastest <==> (w.len() > 0 && ds[i].laps[j].time == w)) by {
        assert(recompute_flags(ds)[i] == DriverView {
            name: ds[i].name,
            team: ds[i].team,
            laps: flag_laps(ds[i].laps, w),
        });
        assert(recompute_flags(ds)[i].laps[j] == LapView {
            time: ds[i].laps[j].time,
            is_fastest: w.len() > 0 && ds[i].laps[j].time == w,
        });
    }
}

/// After recomputation, the flagged laps across the whole leaderboard
/// are counted by the laps that share the winning string: none when
/// no lap parses below the sentinel, and one per lap whose string
/// equals the winning string otherwise.
pub proof fn lemma_flag_count(ds: Seq<DriverView>)
    ensures
        scan_fastest(all_laps(ds)).0 == SLOWEST_MS ==> count_flagged(
            all_laps(recompute_flags(ds)),
        ) == 0,
        scan_fastest(all_laps(ds)).0 < SLOWEST_MS ==> count_flagged(all_laps(recompute_flags(ds)))
            == count_with_time(all_laps(ds), winning_time(ds)),
        scan_fastest(all_laps(ds)).0 < SLOWEST_MS ==> count_with_time(
            all_laps(ds),
            winning_time(ds),
        ) >= 1,
{
    let w = winning_time(ds);
    lemma_all_laps_set_flags(ds, w);
    lemma_scan_winner(all_laps(ds));
    lemma_count_flag(all_laps(ds), w);
    if scan_fastest(all_laps(ds)).0 < SLOWEST_MS {
        let k = choose|k: int| 0 <= k < all_laps(ds).len() && all_laps(ds)[k].time == w;
        lemma_count_member(all_laps(ds), w, k);
    }
}

proof fn lemma_count_member(laps: Seq<LapView>, t: Seq<char>, k: int)
    requires
        0 <= k < laps.len(),
        laps[k].time == t,
    ensures
        count_with_time(laps, t) >= 1,
    decreases laps.len(),
{
    lemma_count_time_nonneg(laps.drop_last(), t);
    if k < laps.len() - 1 {
        lemma_count_member(laps.drop_last(), t, k);
    }
}

proof fn lemma_count_time_nonneg(laps: Seq<LapView>, t: Seq<char>)
    ensures
        count_with_time(laps, t) >= 0,
    decreases laps.len(),
{
    if laps.len() > 0 {
        lemma_count_time_nonneg(laps.drop_last(), t);
    }
}

/// With at least one parsable lap on the board and a winning string
/// that no second lap shares, exactly one lap time across the whole
/// leaderboard carries the fastest flag after recomputation.
pub proof fn lemma_exactly_one_fastest(ds: Seq<DriverView>)
    requires
        scan_fastest(all_laps(ds)).0 < SLOWEST_MS,
        count_with_time(all_laps(ds), winning_time(ds)) <= 1,
    ensures
        count_flagged(all_laps(recompute_flags(ds))) == 1,
{
    lemma_flag_count(ds);
}

} // verus!
