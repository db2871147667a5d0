use animeitor::configdata::ConfigContest;
use animeitor::contest::ContestFile;
use animeitor::contest::Run;
use animeitor::contest::RunsFile;
use animeitor::contest::Team;
use animeitor::contest::TimerData;
use animeitor::contest::Verdict;
use animeitor::reveleitor;
use animeitor::timer;

fn team(login: &str) -> Team {
    Team {
        login: login.to_string(),
        display_name: login.to_string(),
        site_code: String::new(),
        placement: 0,
        problems: Vec::new(),
    }
}

fn contest(teams: Vec<Team>, freeze: i64) -> ContestFile {
    ContestFile {
        name: "client".to_string(),
        start: 0,
        duration_minutes: 100,
        score_freeze_time: freeze,
        teams,
        problem_letters: vec!['A'],
    }
}

fn run(id: u64, login: &str, time: i64, verdict: Verdict) -> Run {
    Run {
        id,
        team_login: login.to_string(),
        problem_letter: 'A',
        time_minutes: time,
        verdict,
    }
}

#[test]
fn timer_client_skips_repeated_values_and_reconnects() {
    let mut model = timer::Model::new();
    assert_eq!(model.update(timer::Msg::TimerUpdate(TimerData::new(3, 100))), timer::Command::Render);
    assert_eq!(
        model.update(timer::Msg::TimerUpdate(TimerData::new(3, 100))),
        timer::Command::SkipRender
    );
    assert_eq!(model.update(timer::Msg::TimerUpdate(TimerData::new(4, 100))), timer::Command::Render);
    assert_eq!(model.p_timer_data, TimerData::new(3, 100));
    assert_eq!(model.timer_data, TimerData::new(4, 100));
    assert_eq!(model.update(timer::Msg::Close), timer::Command::ReconnectAfter(5000));
    assert_eq!(model.update(timer::Msg::Reconnect), timer::Command::Reconnect);
}

#[test]
fn reveleitor_screen_walks_through_a_reveal() {
    let mut model = reveleitor::Model::new("sec".to_string(), None);
    assert_eq!(model.update(reveleitor::Msg::Reset), reveleitor::Command::StartFetch);
    let runs = RunsFile::new(vec![run(1, "alpha", 70, Verdict::Accepted)]);
    let fetched = reveleitor::Msg::Fetched(
        Ok(runs),
        Ok(contest(vec![team("alpha")], 50)),
        Ok(ConfigContest::new(Vec::new())),
    );
    assert_eq!(model.update(fetched), reveleitor::Command::Nothing);
    assert!(!model.button_disabled);
    assert_eq!(model.remaining(), 1);

    // The focus moves to the next team first, so the reveal itself is
    // delayed by a second.
    let cmd = model.update(reveleitor::Msg::Prox1);
    assert_eq!(
        cmd,
        reveleitor::Command::DeliverAfter(1000, reveleitor::Followup::Scroll1)
    );
    assert!(model.button_disabled);
    assert_eq!(model.center, Some("alpha".to_string()));

    // A second press on the same focus reveals at once.
    let cmd2 = model.update(reveleitor::Msg::Prox1);
    assert_eq!(cmd2, reveleitor::Command::Deliver(reveleitor::Followup::Scroll1));

    assert_eq!(model.update(reveleitor::Msg::Scroll1), reveleitor::Command::Nothing);
    assert!(!model.button_disabled);
    assert_eq!(model.remaining(), 0);
    assert_eq!(model.center, None);
}

#[test]
fn reveleitor_bulk_reveal_unlocks_after_a_delay() {
    let mut model = reveleitor::Model::new("sec".to_string(), None);
    let runs = RunsFile::new(vec![
        run(1, "teama", 60, Verdict::Accepted),
        run(2, "teamb", 70, Verdict::Accepted),
    ]);
    let fetched = reveleitor::Msg::Fetched(
        Ok(runs),
        Ok(contest(vec![team("teama"), team("teamb")], 50)),
        Ok(ConfigContest::new(Vec::new())),
    );
    model.update(fetched);
    let cmd = model.update(reveleitor::Msg::Prox(0));
    assert_eq!(cmd, reveleitor::Command::Deliver(reveleitor::Followup::Scroll(0)));
    let cmd2 = model.update(reveleitor::Msg::Scroll(0));
    assert_eq!(
        cmd2,
        reveleitor::Command::DeliverAfter(5000, reveleitor::Followup::Unlock)
    );
    assert_eq!(model.remaining(), 0);
    assert_eq!(model.update(reveleitor::Msg::Unlock), reveleitor::Command::Nothing);
    assert!(!model.button_disabled);
}
