use result_pages::history::{
    get_date_added, get_date_from_git, history_path, is_before_move, read_log_stamp, settle_date,
    step_after_date, CommitStamp, DateAdded, DateStep, Lookup,
};

fn stamp(year: i32, month: u8, day: u8) -> CommitStamp {
    CommitStamp { year, month, day, hour: 12, minute: 34, second: 56, offset_seconds: -18000 }
}

fn now() -> CommitStamp {
    CommitStamp { year: 2024, month: 1, day: 2, hour: 3, minute: 4, second: 5, offset_seconds: 0 }
}

fn done(step: DateStep) -> DateAdded {
    match step {
        DateStep::Done(date) => date,
        DateStep::Ask { path, .. } => panic!("asked for {}", path),
    }
}

#[test]
fn log_line_is_read() {
    assert_eq!(read_log_stamp("2020-07-08 12:34:56 -0500"), Some(stamp(2020, 7, 8)));
    assert_eq!(
        read_log_stamp("2019-01-02 00:00:00 +0000"),
        Some(CommitStamp {
            year: 2019,
            month: 1,
            day: 2,
            hour: 0,
            minute: 0,
            second: 0,
            offset_seconds: 0
        })
    );
    assert_eq!(
        read_log_stamp("2021-12-31 23:59:59 +0530\n"),
        Some(CommitStamp {
            year: 2021,
            month: 12,
            day: 31,
            hour: 23,
            minute: 59,
            second: 59,
            offset_seconds: 19800
        })
    );
}

#[test]
fn first_line_of_the_log_decides() {
    let log = "2019-03-10 08:00:00 -0400\n2020-07-09 09:00:00 -0400\n";
    assert_eq!(
        read_log_stamp(log),
        Some(CommitStamp {
            year: 2019,
            month: 3,
            day: 10,
            hour: 8,
            minute: 0,
            second: 0,
            offset_seconds: -14400
        })
    );
}

#[test]
fn text_that_is_no_log_gives_no_moment() {
    for text in ["", "\n", "fatal: not a git repository", "2020-13-01 00:00:00 +0000",
        "2020-02-30 00:00:00 +0000", "2020-07-08 12:34:56", "2020-07-08T12:34:56 -0500",
        "+2020-07-08 12:34:56 -0500", "-2020-07-08 12:34:56 -0500",
        "+100000-12-31 23:59:59 -0100"]
    {
        assert_eq!(read_log_stamp(text), None, "text {:?}", text);
    }
}

#[test]
fn day_of_the_move() {
    assert!(is_before_move(&stamp(2020, 7, 7)));
    assert!(is_before_move(&stamp(2020, 6, 30)));
    assert!(is_before_move(&stamp(2019, 12, 31)));
    assert!(!is_before_move(&stamp(2020, 7, 8)));
    assert!(!is_before_move(&stamp(2020, 8, 1)));
    assert!(!is_before_move(&stamp(2021, 1, 1)));
}

#[test]
fn date_from_a_log_or_from_the_clock() {
    assert_eq!(
        get_date_from_git("2021-02-03 12:34:56 -0500\n", now()),
        DateAdded { stamp: stamp(2021, 2, 3), from_history: true }
    );
    assert_eq!(get_date_from_git("", now()), DateAdded { stamp: now(), from_history: false });
}

#[test]
fn paths_of_the_two_lookups() {
    assert_eq!(history_path(Lookup::Results, "2019-03-09_mit_c.yaml"), "results/2019-03-09_mit_c.yaml");
    assert_eq!(history_path(Lookup::Legacy, "2019-03-09_mit_c.yaml"), "data/2019-03-09_mit_c.yaml");
}

#[test]
fn date_after_the_move_is_settled() {
    let step = get_date_added(Lookup::Results, "a.yaml", "2020-07-08 12:34:56 -0500\n", now());
    assert_eq!(done(step), DateAdded { stamp: stamp(2020, 7, 8), from_history: true });
}

#[test]
fn date_before_the_move_asks_the_legacy_directory() {
    let step = get_date_added(Lookup::Results, "a.yaml", "2020-07-07 12:34:56 -0500\n", now());
    match step {
        DateStep::Ask { path, lookup } => {
            assert_eq!(path, "data/a.yaml");
            assert_eq!(lookup, Lookup::Legacy);
        }
        DateStep::Done(date) => panic!("settled on {:?}", date),
    }
}

#[test]
fn legacy_answer_is_settled() {
    let step = get_date_added(Lookup::Legacy, "a.yaml", "2019-05-06 12:34:56 -0500\n", now());
    assert_eq!(done(step), DateAdded { stamp: stamp(2019, 5, 6), from_history: true });
    let step = get_date_added(Lookup::Legacy, "a.yaml", "", now());
    assert_eq!(done(step), DateAdded { stamp: now(), from_history: false });
}

#[test]
fn missing_history_falls_back_to_the_clock() {
    let step = get_date_added(Lookup::Results, "a.yaml", "", now());
    assert_eq!(done(step), DateAdded { stamp: now(), from_history: false });
}

#[test]
fn clock_before_the_move_asks_the_legacy_directory() {
    let early = stamp(2020, 1, 1);
    match get_date_added(Lookup::Results, "a.yaml", "", early) {
        DateStep::Ask { path, lookup } => {
            assert_eq!(path, "data/a.yaml");
            assert_eq!(lookup, Lookup::Legacy);
        }
        DateStep::Done(date) => panic!("settled on {:?}", date),
    }
}

#[test]
fn date_of_a_given_moment() {
    assert_eq!(
        settle_date(Some(stamp(2021, 2, 3)), now()),
        DateAdded { stamp: stamp(2021, 2, 3), from_history: true }
    );
    assert_eq!(settle_date(None, now()), DateAdded { stamp: now(), from_history: false });
}

#[test]
fn step_after_a_given_date() {
    let early = DateAdded { stamp: stamp(2020, 7, 7), from_history: true };
    let late = DateAdded { stamp: stamp(2020, 7, 8), from_history: true };
    assert_eq!(done(step_after_date(Lookup::Results, "a.yaml", late)), late);
    assert_eq!(done(step_after_date(Lookup::Legacy, "a.yaml", early)), early);
    match step_after_date(Lookup::Results, "a.yaml", early) {
        DateStep::Ask { path, lookup } => {
            assert_eq!(path, "data/a.yaml");
            assert_eq!(lookup, Lookup::Legacy);
        }
        DateStep::Done(date) => panic!("settled on {:?}", date),
    }
}
