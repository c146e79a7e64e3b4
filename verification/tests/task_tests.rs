use acs_seed_finder::task::BackgroundTask;
use std::sync::mpsc;

#[test]
fn idle_task_polls_nothing() {
    let mut t: BackgroundTask<i32> = BackgroundTask::default();
    assert!(!t.is_running);
    assert!(t.poll().is_none());
}

#[test]
fn result_ends_the_run() {
    let mut t: BackgroundTask<i32> = BackgroundTask::default();
    let (tx, rx) = mpsc::channel();
    t.attach(10, rx);
    assert!(t.is_running);
    assert_eq!(t.total_tasks.load(std::sync::atomic::Ordering::Relaxed), 10);
    assert!(t.poll().is_none());
    assert!(t.is_running);
    tx.send(Ok(7)).unwrap();
    match t.poll() {
        Some(Ok(Ok(v))) => assert_eq!(v, 7),
        _ => panic!("expected the result"),
    }
    assert!(!t.is_running);
    assert!(t.poll().is_none());
}

#[test]
fn dropped_sender_ends_the_run_with_an_error() {
    let mut t: BackgroundTask<i32> = BackgroundTask::default();
    let (tx, rx) = mpsc::channel::<Result<i32, String>>();
    t.attach(1, rx);
    drop(tx);
    assert!(matches!(t.poll(), Some(Err(_))));
    assert!(!t.is_running);
}
