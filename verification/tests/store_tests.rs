use lap_leaderboard::store::{
    retain_fastest_lap_times, update_fastest_laps, DeleteError, Driver, LapTime, Leaderboard,
};

fn lap(time: &str) -> LapTime {
    LapTime { time: time.to_string(), is_fastest: false }
}

fn driver(name: &str, team: &str, times: &[&str]) -> Driver {
    Driver {
        name: name.to_string(),
        team: team.to_string(),
        lap_times: times.iter().map(|t| lap(t)).collect(),
    }
}

fn find<'a>(drivers: &'a [Driver], name: &str) -> Option<&'a Driver> {
    drivers.iter().find(|d| d.name == name)
}

#[test]
fn add_then_delete_moves_fastest_flag() {
    let mut lb = Leaderboard::new();
    lb.add_lap_time("Max".to_string(), "RedBull".to_string(), "1:30.500".to_string());
    lb.add_lap_time("Lando".to_string(), "McLaren".to_string(), "1:29.999".to_string());

    let drivers = lb.list_drivers();
    assert_eq!(drivers.len(), 2);
    let lando = find(&drivers, "Lando").unwrap();
    let max = find(&drivers, "Max").unwrap();
    assert!(lando.lap_times[0].is_fastest);
    assert!(!max.lap_times[0].is_fastest);

    assert_eq!(lb.delete_lap_time("Lando", "1:29.999"), Ok(()));
    let drivers = lb.list_drivers();
    assert!(find(&drivers, "Lando").is_none());
    let max = find(&drivers, "Max").unwrap();
    assert!(max.lap_times[0].is_fastest);
}

#[test]
fn deleting_only_lap_removes_driver() {
    let mut lb = Leaderboard::new();
    lb.add_lap_time("Max".to_string(), "RedBull".to_string(), "1:30.500".to_string());
    assert_eq!(lb.delete_lap_time("Max", "1:30.500"), Ok(()));
    assert!(lb.list_drivers().is_empty());
}

#[test]
fn deleting_unknown_driver_fails_and_leaves_store_unchanged() {
    let mut lb = Leaderboard::new();
    lb.set_track_name("Monza".to_string());
    lb.add_lap_time("Max".to_string(), "RedBull".to_string(), "1:30.500".to_string());
    let before = lb.list_drivers();

    assert_eq!(lb.delete_lap_time("Lewis", "1:30.500"), Err(DeleteError::DriverNotFound));

    let after = lb.list_drivers();
    assert_eq!(after.len(), before.len());
    assert_eq!(after[0].name, before[0].name);
    assert_eq!(after[0].team, before[0].team);
    assert_eq!(after[0].lap_times.len(), before[0].lap_times.len());
    assert_eq!(after[0].lap_times[0].time, before[0].lap_times[0].time);
    assert_eq!(lb.get_track_name(), "Monza");
}

#[test]
fn deleting_a_time_the_driver_does_not_have_keeps_the_driver() {
    let mut lb = Leaderboard::new();
    lb.add_lap_time("Max".to_string(), "RedBull".to_string(), "1:30.500".to_string());
    assert_eq!(lb.delete_lap_time("Max", "9:99.999"), Ok(()));
    let drivers = lb.list_drivers();
    assert_eq!(drivers.len(), 1);
    assert!(drivers[0].lap_times[0].is_fastest);
}

#[test]
fn track_name_defaults_to_empty_and_is_overwritten() {
    let mut lb = Leaderboard::new();
    assert_eq!(lb.get_track_name(), "");
    assert_eq!(lb.set_track_name("Silverstone GP".to_string()), "Silverstone GP");
    assert_eq!(lb.get_track_name(), "Silverstone GP");
    assert_eq!(lb.set_track_name("Monza".to_string()), "Monza");
    assert_eq!(lb.get_track_name(), "Monza");
}

#[test]
fn team_is_overwritten_on_later_submission() {
    let mut lb = Leaderboard::new();
    lb.add_lap_time("Max".to_string(), "RedBull".to_string(), "1:31.000".to_string());
    lb.add_lap_time("Max".to_string(), "McLaren".to_string(), "1:32.000".to_string());
    let drivers = lb.list_drivers();
    assert_eq!(drivers.len(), 1);
    assert_eq!(drivers[0].team, "McLaren");
}

#[test]
fn only_the_fastest_lap_per_driver_is_kept() {
    let mut lb = Leaderboard::new();
    lb.add_lap_time("Max".to_string(), "RedBull".to_string(), "1:31.000".to_string());
    lb.add_lap_time("Max".to_string(), "RedBull".to_string(), "1:29.500".to_string());
    lb.add_lap_time("Max".to_string(), "RedBull".to_string(), "1:30.000".to_string());
    let drivers = lb.list_drivers();
    assert_eq!(drivers.len(), 1);
    assert_eq!(drivers[0].lap_times.len(), 1);
    assert_eq!(drivers[0].lap_times[0].time, "1:29.500");
    assert!(drivers[0].lap_times[0].is_fastest);
}

#[test]
fn unparsable_laps_get_no_fastest_flag() {
    let mut lb = Leaderboard::new();
    lb.add_lap_time("Max".to_string(), "RedBull".to_string(), "garbage".to_string());
    let drivers = lb.list_drivers();
    assert_eq!(drivers.len(), 1);
    assert!(!drivers[0].lap_times[0].is_fastest);
}

#[test]
fn duplicate_time_strings_are_all_flagged() {
    let mut lb = Leaderboard::new();
    lb.add_lap_time("Max".to_string(), "RedBull".to_string(), "1:30.000".to_string());
    lb.add_lap_time("Lando".to_string(), "McLaren".to_string(), "1:30.000".to_string());
    let drivers = lb.list_drivers();
    assert!(drivers.iter().all(|d| d.lap_times[0].is_fastest));
}

#[test]
fn equal_durations_in_different_formats_flag_only_the_first() {
    let mut lb = Leaderboard::new();
    lb.add_lap_time("Max".to_string(), "RedBull".to_string(), "1:30.000".to_string());
    lb.add_lap_time("Lando".to_string(), "McLaren".to_string(), "90.000".to_string());
    let drivers = lb.list_drivers();
    let max = find(&drivers, "Max").unwrap();
    let lando = find(&drivers, "Lando").unwrap();
    assert!(max.lap_times[0].is_fastest);
    assert!(!lando.lap_times[0].is_fastest);
}

#[test]
fn update_fastest_laps_flags_the_minimum_across_drivers() {
    let mut drivers = vec![
        driver("A", "T1", &["2:00.000", "1:40.000"]),
        driver("B", "T2", &["1:45.000"]),
    ];
    update_fastest_laps(&mut drivers);
    assert!(!drivers[0].lap_times[0].is_fastest);
    assert!(drivers[0].lap_times[1].is_fastest);
    assert!(!drivers[1].lap_times[0].is_fastest);
}

#[test]
fn update_fastest_laps_clears_stale_flags() {
    let mut drivers = vec![driver("A", "T1", &["2:00.000"])];
    drivers[0].lap_times[0].is_fastest = false;
    let mut both = vec![
        Driver {
            name: "A".to_string(),
            team: "T1".to_string(),
            lap_times: vec![LapTime { time: "2:00.000".to_string(), is_fastest: true }],
        },
        driver("B", "T2", &["1:45.000"]),
    ];
    update_fastest_laps(&mut both);
    assert!(!both[0].lap_times[0].is_fastest);
    assert!(both[1].lap_times[0].is_fastest);
    update_fastest_laps(&mut drivers);
    assert!(drivers[0].lap_times[0].is_fastest);
}

#[test]
fn retain_fastest_lap_times_keeps_the_first_minimum() {
    let mut drivers = vec![driver("A", "T1", &["1:40.000", "1:39.000", "1:39.000", "2:00.000"])];
    retain_fastest_lap_times(&mut drivers);
    assert_eq!(drivers[0].lap_times.len(), 1);
    assert_eq!(drivers[0].lap_times[0].time, "1:39.000");
}

#[test]
fn retain_fastest_lap_times_leaves_single_lap_drivers_alone() {
    let mut drivers = vec![driver("A", "T1", &["1:40.000"]), driver("B", "T2", &[])];
    retain_fastest_lap_times(&mut drivers);
    assert_eq!(drivers[0].lap_times.len(), 1);
    assert_eq!(drivers[1].lap_times.len(), 0);
}

#[test]
fn retain_treats_all_unparsable_laps_as_keep_first() {
    let mut drivers = vec![driver("A", "T1", &["junk", "more junk"])];
    retain_fastest_lap_times(&mut drivers);
    assert_eq!(drivers[0].lap_times.len(), 1);
    assert_eq!(drivers[0].lap_times[0].time, "junk");
}
