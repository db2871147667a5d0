use animeitor::broadcast::RunsBroadcast;
use animeitor::broadcast::TimerBroadcast;
use animeitor::contest::ContestFile;
use animeitor::contest::Run;
use animeitor::contest::RunsFile;
use animeitor::contest::Team;
use animeitor::contest::Verdict;
use animeitor::loader::load_snapshot;
use animeitor::loader::parse_decimal;
use animeitor::loader::read_from_zip;
use animeitor::loader::LoaderError;
use animeitor::secret::random_path_part;
use animeitor::store::DB;
use animeitor::updater::update_runs_from_data;
use std::io::Write;

fn run(id: u64, login: &str, time: i64, verdict: Verdict) -> Run {
    Run {
        id,
        team_login: login.to_string(),
        problem_letter: 'A',
        time_minutes: time,
        verdict,
    }
}

fn team(login: &str) -> Team {
    Team {
        login: login.to_string(),
        display_name: login.to_string(),
        site_code: String::new(),
        placement: 0,
        problems: Vec::new(),
    }
}

fn contest(teams: Vec<Team>, freeze: i64) -> ContestFile {
    ContestFile {
        name: "store test".to_string(),
        start: 0,
        duration_minutes: 100,
        score_freeze_time: freeze,
        teams,
        problem_letters: vec!['A'],
    }
}

#[test]
fn refresh_masks_verdicts_after_the_freeze() {
    let mut db = DB::empty();
    assert!(!db.has_data());
    let runs = RunsFile::new(vec![
        run(1, "alpha", 10, Verdict::Accepted),
        run(2, "alpha", 60, Verdict::Accepted),
    ]);
    let fresh = db.refresh_db(7, contest(vec![team("alpha")], 50), runs).unwrap();
    assert!(db.has_data());
    assert_eq!(fresh.len(), 2);
    assert_eq!(fresh[0].verdict, Verdict::Accepted);
    assert_eq!(fresh[1].verdict, Verdict::Pending);
    assert_eq!(db.run_file.runs[1].verdict, Verdict::Pending);
    assert_eq!(db.run_file_secret.runs[1].verdict, Verdict::Accepted);
    let t = db.timer_data();
    assert_eq!(t.current_time, 7);
    assert_eq!(t.score_freeze_time, 50);
    let board = db.get_scoreboard();
    assert_eq!(board.teams[0].score().solved_count, 1);
}

#[test]
fn second_refresh_with_the_same_snapshot_is_idempotent() {
    let mut db = DB::empty();
    let runs = RunsFile::new(vec![
        run(1, "alpha", 10, Verdict::Accepted),
        run(2, "alpha", 60, Verdict::Rejected("WA".to_string())),
    ]);
    let cf = contest(vec![team("alpha")], 50);
    let fresh1 = db.refresh_db(5, cf.clone(), runs.clone()).unwrap();
    assert_eq!(fresh1.len(), 2);
    let board1 = db.get_scoreboard().clone();
    let run_file1 = db.run_file.clone();
    let seen1 = db.seen_run_ids.clone();
    let fresh2 = db.refresh_db(5, cf, runs).unwrap();
    assert!(fresh2.is_empty());
    assert_eq!(db.get_scoreboard(), &board1);
    assert_eq!(db.run_file, run_file1);
    assert_eq!(db.seen_run_ids, seen1);
}

#[test]
fn refresh_reports_unknown_teams() {
    let mut db = DB::empty();
    let runs = RunsFile::new(vec![run(1, "ghost", 10, Verdict::Accepted)]);
    let err = db.refresh_db(5, contest(vec![team("alpha")], 50), runs).err().unwrap();
    assert!(matches!(err, animeitor::contest::ContestError::UnknownTeam(_)));
    assert!(!db.has_data());
}

#[test]
fn update_pushes_fresh_runs_and_timer() {
    let mut db = DB::empty();
    let mut runs_tx = RunsBroadcast::new(1000);
    let mut time_tx = TimerBroadcast::new();
    let x = runs_tx.subscribe();
    let t = time_tx.subscribe();
    let runs = RunsFile::new(vec![
        run(1, "alpha", 10, Verdict::Accepted),
        run(2, "alpha", 20, Verdict::Rejected("WA".to_string())),
    ]);
    update_runs_from_data(
        9,
        contest(vec![team("alpha")], 50),
        runs.clone(),
        &mut db,
        &mut runs_tx,
        &mut time_tx,
    )
    .unwrap();
    let mut ids = Vec::new();
    while let Some(r) = runs_tx.recv(x) {
        ids.push(r.id);
    }
    assert_eq!(ids, vec![1, 2]);
    assert_eq!(time_tx.recv(t).unwrap().current_time, 9);
    // The same snapshot again publishes no further runs or clock.
    update_runs_from_data(
        9,
        contest(vec![team("alpha")], 50),
        runs,
        &mut db,
        &mut runs_tx,
        &mut time_tx,
    )
    .unwrap();
    assert!(runs_tx.recv(x).is_none());
    assert!(time_tx.recv(t).is_none());
}

fn build_zip(entries: &[(&str, &str)]) -> Vec<u8> {
    let cursor = std::io::Cursor::new(Vec::new());
    let mut writer = zip::ZipWriter::new(cursor);
    let options = zip::write::SimpleFileOptions::default();
    for (name, content) in entries {
        writer.start_file(*name, options).unwrap();
        writer.write_all(content.as_bytes()).unwrap();
    }
    writer.finish().unwrap().into_inner()
}

#[test]
fn snapshot_archive_unpacks_time_contest_and_runs() {
    let data = build_zip(&[("time", "42"), ("contest", "the contest"), ("runs", "the runs")]);
    let (time, contest_text, runs_text) = load_snapshot(&data).unwrap();
    assert_eq!(time, 42);
    assert_eq!(contest_text, "the contest");
    assert_eq!(runs_text, "the runs");
}

#[test]
fn snapshot_entries_are_found_under_sample() {
    let data = build_zip(&[
        ("sample/time", "7"),
        ("sample/contest", "c"),
        ("sample/runs", "r"),
    ]);
    let (time, contest_text, runs_text) = load_snapshot(&data).unwrap();
    assert_eq!(time, 7);
    assert_eq!(contest_text, "c");
    assert_eq!(runs_text, "r");
}

#[test]
fn loader_errors_name_what_went_wrong() {
    assert_eq!(load_snapshot(&b"not a zip at all".to_vec()), Err(LoaderError::NotAZip));
    let missing = build_zip(&[("time", "1")]);
    assert!(matches!(load_snapshot(&missing), Err(LoaderError::MissingEntry(_))));
    let bad_time = build_zip(&[("time", "soon"), ("contest", "c"), ("runs", "r")]);
    assert_eq!(load_snapshot(&bad_time), Err(LoaderError::Parse));
}

#[test]
fn zip_entries_come_back_decompressed() {
    // The archive bytes differ from the entry text: unpacking really
    // decodes the container instead of echoing its input.
    let data = build_zip(&[("time", "314159")]);
    let entry = read_from_zip(&data, "time").unwrap();
    assert_eq!(entry, b"314159".to_vec());
    assert_ne!(entry, data);
}

#[test]
fn parse_decimal_handles_signs_and_garbage() {
    assert_eq!(parse_decimal("123"), Some(123));
    assert_eq!(parse_decimal("-45"), Some(-45));
    assert_eq!(parse_decimal("+7"), Some(7));
    assert_eq!(parse_decimal("0"), Some(0));
    assert_eq!(parse_decimal(""), None);
    assert_eq!(parse_decimal("12a"), None);
    assert_eq!(parse_decimal("--1"), None);
    assert_eq!(parse_decimal("99999999999999999999"), None);
}

#[test]
fn secret_path_part_is_six_alphanumerics() {
    for _ in 0..20 {
        let s = random_path_part();
        assert_eq!(s.len(), 6);
        assert!(s.chars().all(|c| c.is_ascii_alphanumeric()));
    }
}
