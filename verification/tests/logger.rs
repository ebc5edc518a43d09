use st2::{is_done_marker, ComputationStatus, EventClass, LogOutput, LogTuple, PagLogger, MAX_FUEL};
use std::time::Duration;

fn tuple(t: u64, class: EventClass, payload: u32) -> LogTuple<u32> {
    LogTuple { time: Duration::from_nanos(t), worker: 0, class, payload }
}

fn text(s: &str) -> EventClass {
    EventClass::Text(s.to_string())
}

#[test]
fn done_marker_is_a_prefix_test() {
    assert!(is_done_marker("[st] computation done"));
    assert!(is_done_marker("[st] computation done at 7"));
    assert!(!is_done_marker("[st] closed times before: 3"));
    assert!(!is_done_marker("[st] computation"));
    assert!(!is_done_marker(""));
}

#[test]
fn setup_events_collapse_into_epoch_zero() {
    let mut l: PagLogger<u32> = PagLogger::new();
    let batch = vec![tuple(50, EventClass::Setup, 1), tuple(60, EventClass::Setup, 2)];
    assert!(l.accepts_batch(&batch));
    let outs = l.handle_batch(batch);
    assert!(outs.is_empty());
    let outs = l.handle_batch(vec![tuple(70, text("[st] begin computation at epoch: 0"), 3)]);
    assert_eq!(outs.len(), 1);
    match &outs[0] {
        LogOutput::Messages(cap, es) => {
            assert_eq!(cap.first, 0);
            assert_eq!(cap.second, Duration::from_nanos(0));
            assert_eq!(es.len(), 2);
            assert_eq!(es[0].0, 0);
            assert_eq!((es[0].1).0, Duration::from_nanos(0));
            assert_eq!((es[0].1).2, 1);
            assert_eq!((es[1].1).2, 2);
        },
        _ => panic!("expected messages"),
    }
}

#[test]
fn activity_advances_capability_once_per_batch() {
    let mut l: PagLogger<u32> = PagLogger::new();
    let outs = l.handle_batch(vec![
        tuple(10, EventClass::Activity, 1),
        tuple(20, EventClass::Activity, 2),
        tuple(25, EventClass::Ignored, 9),
    ]);
    assert_eq!(outs.len(), 1);
    match &outs[0] {
        LogOutput::Progress(ch) => {
            assert_eq!(ch.len(), 2);
            assert_eq!(ch[0].0.first, 0);
            assert_eq!(ch[0].0.second, Duration::from_nanos(10));
            assert_eq!(ch[0].1, 1);
            assert_eq!(ch[1].0.second, Duration::from_nanos(0));
            assert_eq!(ch[1].1, -1);
        },
        _ => panic!("expected progress"),
    }
    // the epoch ends: the two activity events are written at (0, 10ns)
    let outs = l.handle_batch(vec![tuple(30, text("[st] closed times before: 1"), 3)]);
    assert_eq!(outs.len(), 1);
    match &outs[0] {
        LogOutput::Messages(cap, es) => {
            assert_eq!(cap.first, 0);
            assert_eq!(cap.second, Duration::from_nanos(10));
            assert_eq!(es.len(), 2);
            assert_eq!((es[0].1).0, Duration::from_nanos(10));
            assert_eq!((es[1].1).0, Duration::from_nanos(20));
        },
        _ => panic!("expected messages"),
    }
    // next activity moves the capability to epoch 1
    let outs = l.handle_batch(vec![tuple(40, EventClass::Activity, 4)]);
    match &outs[0] {
        LogOutput::Progress(ch) => {
            assert_eq!(ch[0].0.first, 1);
            assert_eq!(ch[0].0.second, Duration::from_nanos(40));
            assert_eq!(ch[1].0.first, 0);
            assert_eq!(ch[1].0.second, Duration::from_nanos(10));
        },
        _ => panic!("expected progress"),
    }
}

#[test]
fn setup_after_progress_is_refused() {
    let mut l: PagLogger<u32> = PagLogger::new();
    l.handle_batch(vec![tuple(10, EventClass::Activity, 1)]);
    assert!(!l.accepts_batch(&vec![tuple(11, EventClass::Setup, 2)]));
    assert!(l.accepts_batch(&vec![tuple(11, EventClass::Activity, 2)]));
    let fresh: PagLogger<u32> = PagLogger::new();
    assert!(!fresh.accepts_batch(&vec![tuple(1, EventClass::Activity, 1), tuple(2, EventClass::Setup, 2)]));
}

#[test]
fn fuel_splits_large_epochs() {
    let mut l: PagLogger<u32> = PagLogger::new();
    let batch: Vec<LogTuple<u32>> =
        (0..(MAX_FUEL as u64 + 3)).map(|i| tuple(100 + i, EventClass::Activity, i as u32)).collect();
    let outs = l.handle_batch(batch);
    // progress, the first MAX_FUEL events, then progress for the rest
    assert_eq!(outs.len(), 3);
    match &outs[1] {
        LogOutput::Messages(_, es) => assert_eq!(es.len(), MAX_FUEL),
        _ => panic!("expected messages"),
    }
    match &outs[2] {
        LogOutput::Progress(ch) => {
            assert_eq!(ch[0].0.second, Duration::from_nanos(100 + MAX_FUEL as u64));
            assert_eq!(ch[1].0.second, Duration::from_nanos(100));
        },
        _ => panic!("expected progress"),
    }
}

#[test]
fn wrap_up_drops_the_capability_once() {
    let mut l: PagLogger<u32> = PagLogger::new();
    l.handle_batch(vec![tuple(10, EventClass::Activity, 1)]);
    let outs = l.handle_batch(vec![tuple(20, text("[st] computation done"), 2)]);
    assert_eq!(outs.len(), 1); // the buffered activity
    assert!(matches!(l.status(), ComputationStatus::WrappingUp));
    assert!(l.accepts_batch(&vec![]));
    let outs = l.handle_batch(vec![]);
    assert_eq!(outs.len(), 1);
    match &outs[0] {
        LogOutput::Progress(ch) => {
            assert_eq!(ch.len(), 1);
            assert_eq!(ch[0].0.second, Duration::from_nanos(10));
            assert_eq!(ch[0].1, -1);
        },
        _ => panic!("expected progress"),
    }
    assert!(matches!(l.status(), ComputationStatus::WrappedUp));
    assert!(l.handle_batch(vec![tuple(30, EventClass::Activity, 3)]).is_empty());
}

#[test]
fn wrap_up_writes_late_events_then_drops_the_capability() {
    let mut l: PagLogger<u32> = PagLogger::new();
    l.handle_batch(vec![tuple(20, text("[st] computation done"), 2), tuple(21, EventClass::Activity, 3)]);
    assert!(matches!(l.status(), ComputationStatus::WrappingUp));
    assert!(l.accepts_batch(&vec![]));
    let outs = l.handle_batch(vec![tuple(30, EventClass::Activity, 4)]);
    assert_eq!(outs.len(), 2);
    match &outs[0] {
        LogOutput::Messages(cap, es) => {
            assert_eq!(cap.first, 1);
            assert_eq!(es.len(), 1);
            assert_eq!((es[0].1).2, 3);
        },
        _ => panic!("expected messages"),
    }
    match &outs[1] {
        LogOutput::Progress(ch) => {
            assert_eq!(ch.len(), 1);
            assert_eq!(ch[0].0.first, 1);
            assert_eq!(ch[0].0.second, Duration::from_nanos(21));
            assert_eq!(ch[0].1, -1);
        },
        _ => panic!("expected progress"),
    }
    assert!(matches!(l.status(), ComputationStatus::WrappedUp));
    assert!(l.handle_batch(vec![tuple(40, EventClass::Activity, 5)]).is_empty());
}

#[test]
fn accepted_prefix_stops_at_the_offending_event() {
    let mut l: PagLogger<u32> = PagLogger::new();
    let batch = vec![
        tuple(1, EventClass::Setup, 1),
        tuple(2, EventClass::Activity, 2),
        tuple(3, EventClass::Setup, 3),
        tuple(4, EventClass::Activity, 4),
    ];
    assert_eq!(l.accepted_prefix(&batch), 2);
    assert!(!l.accepts_batch(&batch));
    l.handle_batch(vec![tuple(1, EventClass::Activity, 1)]);
    assert_eq!(l.accepted_prefix(&vec![tuple(2, EventClass::Activity, 2)]), 1);
}
