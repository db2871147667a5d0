use animeitor::configdata::ConfigContest;
use animeitor::configdata::Sede;
use animeitor::contest::ContestFile;
use animeitor::contest::Team;

fn team(login: &str) -> Team {
    Team {
        login: login.to_string(),
        display_name: login.to_string(),
        site_code: String::new(),
        placement: 0,
        problems: Vec::new(),
    }
}

#[test]
fn check_login_matches_any_code_substring() {
    let sede = Sede::supersede("South", "s", "", vec!["bra", "arg"]);
    assert!(sede.check_login(&"teambrasil01".to_string()));
    assert!(sede.check_login(&"argentina7".to_string()));
    assert!(!sede.check_login(&"chile3".to_string()));
}

#[test]
fn check_filter_login_lets_everything_through_without_a_filter() {
    assert!(Sede::check_filter_login(&None, &"anyone".to_string()));
    let filter = Some(vec!["bra".to_string()]);
    assert!(Sede::check_filter_login(&filter, &"teambrasil".to_string()));
    assert!(!Sede::check_filter_login(&filter, &"teamchile".to_string()));
}

#[test]
fn get_sede_returns_the_first_match() {
    let config = ConfigContest::new(vec![
        Sede::new("North", "n", "", "usa"),
        Sede::new("South", "s", "", "bra"),
        Sede::new("All", "a", "", "team"),
    ]);
    assert_eq!(config.get_sede(&"teambrasil".to_string()), Some("South".to_string()));
    assert_eq!(config.get_sede(&"teamusa".to_string()), Some("North".to_string()));
    assert_eq!(config.get_sede(&"nobody".to_string()), None);
}

#[test]
fn filter_sede_keeps_only_matching_teams() {
    let contest = ContestFile {
        name: "filtered".to_string(),
        start: 0,
        duration_minutes: 100,
        score_freeze_time: 50,
        teams: vec![team("teambrasil"), team("teamchile"), team("brasilia")],
        problem_letters: vec!['A'],
    };
    let sede = Sede::new("South", "s", "", "bra");
    let filtered = contest.filter_sede(&sede);
    let logins: Vec<String> = filtered.teams.iter().map(|t| t.login.clone()).collect();
    assert_eq!(logins, vec!["teambrasil".to_string(), "brasilia".to_string()]);
    assert_eq!(filtered.score_freeze_time, 50);
}
