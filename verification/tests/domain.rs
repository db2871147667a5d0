use animeitor::contest::ContestFile;
use animeitor::contest::Run;
use animeitor::contest::RunsFile;
use animeitor::contest::Team;
use animeitor::contest::TimerData;
use animeitor::contest::Verdict;
use std::collections::BTreeMap;

fn run(id: u64, login: &str, letter: char, time: i64, verdict: Verdict) -> Run {
    Run {
        id,
        team_login: login.to_string(),
        problem_letter: letter,
        time_minutes: time,
        verdict,
    }
}

fn team(login: &str) -> Team {
    Team {
        login: login.to_string(),
        display_name: format!("Team {}", login),
        site_code: "site".to_string(),
        placement: 0,
        problems: Vec::new(),
    }
}

fn contest(teams: Vec<Team>, freeze: i64, duration: i64) -> ContestFile {
    ContestFile {
        name: "test contest".to_string(),
        start: 0,
        duration_minutes: duration,
        score_freeze_time: freeze,
        teams,
        problem_letters: vec!['A'],
    }
}

#[test]
fn tree_test() {
    let mut t = BTreeMap::new();
    t.entry(1).or_insert(2);

    assert_eq!(t[&1], 2);

    t.entry(1).or_insert(3);

    assert_eq!(t[&1], 2);
}

#[test]
fn rejected_then_accepted_scores_with_penalty() {
    let mut t = team("alpha");
    t.apply_run(&run(1, "alpha", 'A', 10, Verdict::Rejected("WA".to_string())));
    t.apply_run(&run(2, "alpha", 'A', 40, Verdict::Accepted));
    let s = t.score();
    assert_eq!(s.solved_count, 1);
    assert_eq!(s.penalty_total, 40 + 20);
    assert_eq!(s.team_login, "alpha");
}

#[test]
fn accepted_time_is_never_overwritten() {
    let mut t = team("alpha");
    t.apply_run(&run(1, "alpha", 'A', 30, Verdict::Accepted));
    let changed = t.apply_run(&run(2, "alpha", 'A', 50, Verdict::Accepted));
    assert!(!changed);
    assert_eq!(t.problems[0].accepted_time, Some(30));
    let changed2 = t.apply_run(&run(3, "alpha", 'A', 60, Verdict::Rejected("TLE".to_string())));
    assert!(!changed2);
    assert_eq!(t.problems[0].attempts_before_accept, 0);
}

#[test]
fn pending_runs_change_nothing() {
    let mut t = team("alpha");
    let changed = t.apply_run(&run(1, "alpha", 'A', 10, Verdict::Pending));
    assert!(!changed);
    let s = t.score();
    assert_eq!(s.solved_count, 0);
    assert_eq!(s.penalty_total, 0);
}

#[test]
fn frozen_runs_buffer_and_reveal_in_order() {
    let mut t = team("alpha");
    t.apply_run_frozen(&run(2, "alpha", 'A', 70, Verdict::Accepted));
    t.apply_run_frozen(&run(1, "alpha", 'B', 60, Verdict::Rejected("WA".to_string())));
    assert!(t.wait());
    // The earliest hidden run over all problems is revealed first.
    let more = t.reveal_run_frozen();
    assert!(more);
    let b = t.problems.iter().find(|p| p.letter == 'B').unwrap();
    assert_eq!(b.attempts_before_accept, 1);
    let more2 = t.reveal_run_frozen();
    assert!(!more2);
    assert!(!t.wait());
    let s = t.score();
    assert_eq!(s.solved_count, 1);
    assert_eq!(s.penalty_total, 70);
}

#[test]
fn freeze_equivalence_on_random_runs() {
    // For random run sequences in submission order, judging everything
    // live equals buffering the late runs and revealing them all.
    for seed in 0..50u64 {
        let mut state = seed.wrapping_mul(6364136223846793005).wrapping_add(1442695040888963407);
        let mut next = || {
            state = state.wrapping_mul(6364136223846793005).wrapping_add(1442695040888963407);
            (state >> 33) as i64
        };
        let n = (next() % 12).unsigned_abs();
        let mut runs = Vec::new();
        let mut time = 0i64;
        for id in 0..n {
            time += next() % 20;
            let verdict = match next() % 3 {
                0 => Verdict::Accepted,
                1 => Verdict::Rejected("WA".to_string()),
                _ => Verdict::Pending,
            };
            let letter = if next() % 2 == 0 { 'A' } else { 'B' };
            runs.push(run(id, "alpha", letter, time, verdict));
        }
        let freeze = 100;
        let mut live = team("alpha");
        let mut split = team("alpha");
        for r in &runs {
            live.apply_run(r);
            if r.time_minutes < freeze {
                split.apply_run(r);
            } else {
                split.apply_run_frozen(r);
            }
        }
        while split.wait() {
            split.reveal_run_frozen();
        }
        // Frozen buffers are empty on both sides, so the teams agree
        // field by field.
        assert_eq!(live, split);
    }
}

#[test]
fn placement_uses_standard_competition_ranking() {
    let mut a = team("a");
    a.apply_run(&run(1, "a", 'A', 10, Verdict::Accepted));
    let mut b = team("b");
    b.apply_run(&run(2, "b", 'A', 30, Verdict::Accepted));
    let mut c = team("c");
    c.apply_run(&run(3, "c", 'A', 30, Verdict::Accepted));
    let d = team("d");
    let mut cf = contest(vec![a, b, c, d], 50, 100);
    cf.recalculate_placement_no_filter().unwrap();
    assert_eq!(cf.teams[0].placement, 1);
    // Tied teams share a placement; the next team skips the tied slots.
    assert_eq!(cf.teams[1].placement, 2);
    assert_eq!(cf.teams[2].placement, 2);
    assert_eq!(cf.teams[3].placement, 4);
}

#[test]
fn runs_file_sorts_by_time_then_id() {
    let rf = RunsFile::new(vec![
        run(3, "a", 'A', 20, Verdict::Accepted),
        run(2, "a", 'A', 10, Verdict::Pending),
        run(1, "a", 'A', 20, Verdict::Rejected("WA".to_string())),
    ]);
    let sorted = rf.sorted();
    let ids: Vec<u64> = sorted.iter().map(|r| r.id).collect();
    assert_eq!(ids, vec![2, 1, 3]);
}

#[test]
fn timer_data_compares_by_value() {
    assert_eq!(TimerData::new(3, 100), TimerData::new(3, 100));
    assert_ne!(TimerData::new(3, 100), TimerData::new(4, 100));
    assert_eq!(TimerData::fake(), TimerData::new(-1, -1));
}
