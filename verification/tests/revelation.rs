use animeitor::contest::ContestFile;
use animeitor::contest::Run;
use animeitor::contest::RunsFile;
use animeitor::contest::Team;
use animeitor::contest::Verdict;
use animeitor::revelation::RevelationDriver;

fn run(id: u64, login: &str, letter: char, time: i64, verdict: Verdict) -> Run {
    Run {
        id,
        team_login: login.to_string(),
        problem_letter: letter,
        time_minutes: time,
        verdict,
    }
}

fn team(login: &str) -> Team {
    Team {
        login: login.to_string(),
        display_name: login.to_string(),
        site_code: String::new(),
        placement: 0,
        problems: Vec::new(),
    }
}

fn contest(teams: Vec<Team>, freeze: i64) -> ContestFile {
    ContestFile {
        name: "ceremony".to_string(),
        start: 0,
        duration_minutes: 100,
        score_freeze_time: freeze,
        teams,
        problem_letters: vec!['A'],
    }
}

fn score_of(c: &ContestFile, login: &str) -> (usize, i64, u32) {
    let t = c.teams.iter().find(|t| t.login == login).unwrap();
    let s = t.score();
    (s.solved_count, s.penalty_total, t.placement)
}

#[test]
fn e1_post_freeze_rejection_changes_nothing() {
    let runs = RunsFile::new(vec![
        run(1, "alpha", 'A', 10, Verdict::Rejected("WA".to_string())),
        run(2, "alpha", 'A', 40, Verdict::Accepted),
        run(3, "alpha", 'A', 60, Verdict::Rejected("WA".to_string())),
    ]);
    let mut driver = RevelationDriver::new(contest(vec![team("alpha")], 50), runs).unwrap();
    assert_eq!(score_of(driver.contest(), "alpha"), (1, 60, 1));
    driver.reveal_top_n(0).unwrap();
    assert_eq!(score_of(driver.contest(), "alpha"), (1, 60, 1));
    assert!(driver.is_empty());
}

#[test]
fn e2_single_hidden_accept_revealed() {
    let runs = RunsFile::new(vec![
        run(1, "alpha", 'A', 30, Verdict::Rejected("WA".to_string())),
        run(2, "alpha", 'A', 70, Verdict::Accepted),
    ]);
    let mut driver = RevelationDriver::new(contest(vec![team("alpha")], 50), runs).unwrap();
    assert_eq!(score_of(driver.contest(), "alpha"), (0, 0, 1));
    assert_eq!(driver.len(), 1);
    driver.reveal_step().unwrap();
    assert_eq!(score_of(driver.contest(), "alpha"), (1, 90, 1));
}

#[test]
fn e3_worst_placed_team_reveals_first() {
    let runs = RunsFile::new(vec![
        run(1, "teama", 'A', 10, Verdict::Accepted),
        run(2, "teamb", 'A', 60, Verdict::Accepted),
    ]);
    let mut driver = RevelationDriver::new(contest(vec![team("teama"), team("teamb")], 50), runs)
        .unwrap();
    assert_eq!(score_of(driver.contest(), "teama"), (1, 10, 1));
    assert_eq!(score_of(driver.contest(), "teamb"), (0, 0, 2));
    assert_eq!(driver.peek(), Some(&"teamb".to_string()));
    driver.reveal_step().unwrap();
    assert_eq!(score_of(driver.contest(), "teamb"), (1, 60, 2));
    assert_eq!(score_of(driver.contest(), "teama"), (1, 10, 1));
    // The settled team has left the queue; only teama is still seeded.
    assert_eq!(driver.len(), 1);
    driver.reveal_top_n(0).unwrap();
    assert!(driver.is_empty());
    assert_eq!(score_of(driver.contest(), "teama"), (1, 10, 1));
    assert_eq!(score_of(driver.contest(), "teamb"), (1, 60, 2));
}

#[test]
fn e4_full_reveal_equals_unfrozen_contest() {
    let runs = RunsFile::new(vec![
        run(1, "teama", 'A', 40, Verdict::Accepted),
        run(2, "teamb", 'A', 55, Verdict::Accepted),
    ]);
    let base = contest(vec![team("teama"), team("teamb")], 50);
    let mut driver = RevelationDriver::new(base.clone(), runs.clone()).unwrap();
    driver.reveal_top_n(0).unwrap();
    assert!(driver.is_empty());
    assert_eq!(score_of(driver.contest(), "teama"), (1, 40, 1));
    assert_eq!(score_of(driver.contest(), "teamb"), (1, 55, 2));

    // The same contest loaded without any freeze gives the same teams.
    let unfrozen = contest(vec![team("teama"), team("teamb")], 100);
    let mut never_frozen = RevelationDriver::new(unfrozen, runs).unwrap();
    never_frozen.reveal_top_n(0).unwrap();
    assert_eq!(driver.contest().teams, never_frozen.contest().teams);
}

#[test]
fn unknown_team_is_reported() {
    let runs = RunsFile::new(vec![run(1, "ghost", 'A', 10, Verdict::Accepted)]);
    let err = RevelationDriver::new(contest(vec![team("alpha")], 50), runs).err().unwrap();
    match err {
        animeitor::contest::ContestError::UnknownTeam(login) => assert_eq!(login, "ghost"),
        other => panic!("unexpected error {:?}", other),
    }
}

#[test]
fn reveal_on_exhausted_queue_is_a_no_op() {
    let runs = RunsFile::new(vec![run(1, "alpha", 'A', 10, Verdict::Accepted)]);
    let mut driver = RevelationDriver::new(contest(vec![team("alpha")], 50), runs).unwrap();
    driver.reveal_top_n(0).unwrap();
    assert!(driver.is_empty());
    driver.reveal_step().unwrap();
    assert!(driver.is_empty());
    assert_eq!(score_of(driver.contest(), "alpha"), (1, 10, 1));
}

#[test]
fn reveal_top_n_keeps_n_teams_queued() {
    let runs = RunsFile::new(vec![
        run(1, "teama", 'A', 60, Verdict::Accepted),
        run(2, "teamb", 'A', 70, Verdict::Accepted),
        run(3, "teamc", 'A', 80, Verdict::Accepted),
    ]);
    let mut driver = RevelationDriver::new(
        contest(vec![team("teama"), team("teamb"), team("teamc")], 50),
        runs,
    )
    .unwrap();
    assert_eq!(driver.len(), 3);
    driver.reveal_top_n(2).unwrap();
    assert_eq!(driver.len(), 2);
}
