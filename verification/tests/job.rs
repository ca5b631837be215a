use automosaic::job::{JobManager, JobState};
use std::sync::atomic::Ordering;

#[test]
fn lifecycle_queued_running_done() {
    let mut jm = JobManager::new();
    let a = jm.enqueue();
    let b = jm.enqueue();
    assert_eq!(jm.len(), 2);
    assert!(jm.has_pending());
    assert_eq!(jm.state(a), Some(&JobState::Queued));

    let (id, _flag) = jm.start_next().unwrap();
    assert_eq!(id, a, "FIFO");
    assert_eq!(jm.state(a), Some(&JobState::Running));
    assert!(jm.start_next().is_none());

    assert!(jm.finish(a, JobState::Done { frames: 100 }));
    assert!(!jm.has_pending() || jm.state(b) == Some(&JobState::Queued));
    let (id2, _) = jm.start_next().unwrap();
    assert_eq!(id2, b);
    jm.finish(b, JobState::Failed { error: "编码失败".into() });
    assert!(!jm.has_pending());
}

#[test]
fn finish_rejects_non_running() {
    let mut jm = JobManager::new();
    let a = jm.enqueue();
    assert!(!jm.finish(a, JobState::Done { frames: 1 }));
    let (_, _) = jm.start_next().unwrap();
    assert!(jm.finish(a, JobState::Done { frames: 5 }));
    assert!(!jm.finish(a, JobState::Done { frames: 6 }));
}

#[test]
fn cancel_queued_marks_cancelled_running_sets_flag() {
    let mut jm = JobManager::new();
    let a = jm.enqueue();
    let b = jm.enqueue();
    assert!(jm.cancel(a));
    assert_eq!(jm.state(a), Some(&JobState::Cancelled { frames: 0 }));
    let (id, flag) = jm.start_next().unwrap();
    assert_eq!(id, b);
    assert!(!flag.load(Ordering::Relaxed));
    assert!(jm.cancel(b));
    assert!(flag.load(Ordering::Relaxed));
    assert!(jm.finish(b, JobState::Cancelled { frames: 12 }));
    assert!(!jm.cancel(b));
}

#[test]
fn remove_and_clear_finished() {
    let mut jm = JobManager::new();
    let a = jm.enqueue();
    let b = jm.enqueue();
    assert!(!jm.remove(a));
    jm.cancel(a);
    assert!(jm.remove(a));
    assert_eq!(jm.len(), 1);
    let _ = jm.start_next();
    jm.finish(b, JobState::Done { frames: 1 });
    jm.clear_finished();
    assert!(jm.is_empty());
}

#[test]
fn terminal_states_and_listing() {
    assert!(!JobState::Queued.is_terminal());
    assert!(!JobState::Running.is_terminal());
    assert!(JobState::Done { frames: 1 }.is_terminal());
    assert!(JobState::Failed { error: String::new() }.is_terminal());
    assert!(JobState::Cancelled { frames: 0 }.is_terminal());
    let mut jm = JobManager::default();
    let a = jm.enqueue();
    let list = jm.list();
    assert_eq!(list.len(), 1);
    assert_eq!(list[0].id, a);
    assert_eq!(list[0].state, JobState::Queued);
    assert_eq!(jm.state(a + 1), None);
    assert!(jm.cancel_flag(a).is_none());
    let _ = jm.start_next();
    assert!(jm.cancel_flag(a).is_some());
}

#[test]
fn a_failed_job_does_not_stop_the_next() {
    let mut m = JobManager::new();
    let (a, b) = (m.enqueue(), m.enqueue());
    let (id, flag) = m.start_next().unwrap();
    assert_eq!(id, a);
    let c = m.enqueue();
    assert!(std::sync::Arc::ptr_eq(&flag, &m.cancel_flag(a).unwrap()));
    assert!(m.cancel_flag(c).is_none());
    assert!(m.start_next().is_none());
    assert!(m.finish(a, JobState::Failed { error: "x".into() }));
    assert_eq!(m.start_next().map(|s| s.0), Some(b));
}
