use animeitor::broadcast::RunsBroadcast;
use animeitor::broadcast::TimerBroadcast;
use animeitor::contest::Run;
use animeitor::contest::TimerData;
use animeitor::contest::Verdict;

fn run(id: u64) -> Run {
    Run {
        id,
        team_login: "alpha".to_string(),
        problem_letter: 'A',
        time_minutes: id as i64,
        verdict: Verdict::Pending,
    }
}

#[test]
fn e5_timer_suppresses_repeated_values() {
    let mut tx = TimerBroadcast::new();
    let sub = tx.subscribe();
    tx.send(TimerData::new(0, 100));
    tx.send(TimerData::new(1, 100));
    tx.send(TimerData::new(1, 100));
    tx.send(TimerData::new(2, 100));
    assert_eq!(tx.recv(sub), Some(TimerData::new(0, 100)));
    assert_eq!(tx.recv(sub), Some(TimerData::new(1, 100)));
    assert_eq!(tx.recv(sub), Some(TimerData::new(2, 100)));
    assert_eq!(tx.recv(sub), None);
}

#[test]
fn e6_late_subscriber_replays_the_memo() {
    let mut tx = RunsBroadcast::new(1000);
    tx.send_memo(&run(1));
    tx.send_memo(&run(2));
    tx.send_memo(&run(3));
    let x = tx.subscribe();
    tx.send_memo(&run(4));
    tx.send_memo(&run(5));
    let mut seen = Vec::new();
    while let Some(r) = tx.recv(x) {
        seen.push(r.id);
    }
    assert_eq!(seen, vec![1, 2, 3, 4, 5]);
}

#[test]
fn two_subscribers_observe_the_same_prefix() {
    let mut tx = RunsBroadcast::new(1000);
    let a = tx.subscribe();
    let b = tx.subscribe();
    for id in 1..=4 {
        tx.send_memo(&run(id));
    }
    let mut seen_a = Vec::new();
    for _ in 0..2 {
        seen_a.push(tx.recv(a).unwrap().id);
    }
    let mut seen_b = Vec::new();
    for _ in 0..4 {
        seen_b.push(tx.recv(b).unwrap().id);
    }
    assert_eq!(seen_a, seen_b[..2].to_vec());
    assert_eq!(seen_b, vec![1, 2, 3, 4]);
}

#[test]
fn memo_evicts_oldest_beyond_capacity() {
    let mut tx = RunsBroadcast::new(2);
    tx.send_memo(&run(1));
    tx.send_memo(&run(2));
    tx.send_memo(&run(3));
    let x = tx.subscribe();
    let mut seen = Vec::new();
    while let Some(r) = tx.recv(x) {
        seen.push(r.id);
    }
    // The late subscriber lost the evicted history.
    assert_eq!(seen, vec![2, 3]);
}

#[test]
fn timer_subscriber_sees_changes_after_joining() {
    let mut tx = TimerBroadcast::new();
    tx.send(TimerData::new(0, 100));
    let sub = tx.subscribe();
    tx.send(TimerData::new(0, 100));
    assert_eq!(tx.recv(sub), None);
    tx.send(TimerData::new(1, 100));
    assert_eq!(tx.recv(sub), Some(TimerData::new(1, 100)));
}
