use devil_connection_patcher::asar::error::AsarError;
use devil_connection_patcher::asar::progress::{cancel_answer, Progress, ProgressEvent, ProgressMeter};
use std::sync::atomic::{AtomicBool, Ordering};
use std::sync::Arc;

#[test]
fn progress_delivers_and_cancels() {
    let seen = std::cell::RefCell::new(0u32);
    let flag = Arc::new(AtomicBool::new(false));
    let mut p = Progress::<fn(ProgressEvent)>::new()
        .with_callback(|_e: ProgressEvent| *seen.borrow_mut() += 1)
        .with_cancel(flag.clone());
    p.emit(ProgressEvent::Finished);
    p.emit(ProgressEvent::FileFinished);
    assert_eq!(*seen.borrow(), 2);
    assert!(p.check_cancel().is_ok());
    flag.store(true, Ordering::Relaxed);
    assert!(matches!(p.check_cancel(), Err(AsarError::Cancelled)));
    let q = Progress::<fn(ProgressEvent)>::new();
    assert!(q.check_cancel().is_ok());
}

#[test]
fn meter_scales_into_its_range() {
    let mut m = ProgressMeter::new(20, 40);
    assert_eq!(m.observe(&ProgressEvent::Started { total_bytes: 100, total_files: 2 }), Some(20));
    assert_eq!(m.observe(&ProgressEvent::Bytes { delta: 50 }), Some(30));
    assert_eq!(m.observe(&ProgressEvent::FileFinished), None);
    assert_eq!(m.observe(&ProgressEvent::Bytes { delta: 50 }), Some(40));
    assert_eq!(m.observe(&ProgressEvent::Bytes { delta: 50 }), Some(40));
    let mut z = ProgressMeter::new(80, 90);
    assert_eq!(z.observe(&ProgressEvent::Started { total_bytes: 0, total_files: 0 }), Some(80));
    assert_eq!(z.observe(&ProgressEvent::Bytes { delta: 1 }), Some(90));
}

#[test]
fn cancel_answer_follows_the_flag() {
    assert!(matches!(cancel_answer(true), Err(AsarError::Cancelled)));
    assert!(cancel_answer(false).is_ok());
}
