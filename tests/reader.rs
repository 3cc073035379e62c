use dbsp::reader::{replay_progress, AfterRead, Flush, ReaderState, ReplayTruncated};

#[test]
fn queue_flushes_up_to_limit() {
    let mut st = ReaderState::new(false);
    assert!(st.should_park(10));
    st.extend();
    assert!(!st.should_park(10));
    st.push_batch(0, 12, 1);
    st.push_batch(12, 26, 1);
    st.push_batch(26, 30, 0);
    st.push_batch(26, 40, 3);
    assert!(st.should_park(5));
    let f = st.queue(2);
    assert_eq!(f, Flush { batches: 2, total: 2, start: 0, end: 26 });
    let f = st.queue(100);
    assert_eq!(f, Flush { batches: 2, total: 3, start: 26, end: 40 });
    let f = st.queue(100);
    assert_eq!(f, Flush { batches: 0, total: 0, start: 0, end: 0 });
}

#[test]
fn end_of_input_and_follow() {
    let mut st = ReaderState::new(false);
    st.extend();
    assert_eq!(st.after_read(5), AfterRead::Continue);
    assert_eq!(st.after_read(0), AfterRead::EndOfInput);
    assert!(st.should_park(10));
    let mut f = ReaderState::new(true);
    f.extend();
    assert_eq!(f.after_read(0), AfterRead::Wait);
    assert_eq!(f.after_read(0), AfterRead::Wait);
    assert_eq!(f.after_read(3), AfterRead::Continue);
    assert!(!f.should_park(10));
}

#[test]
fn replay_accounting() {
    assert_eq!(replay_progress(10, 4), Ok(6));
    assert_eq!(replay_progress(3, 4), Ok(0));
    assert_eq!(replay_progress(0, 0), Ok(0));
    assert_eq!(replay_progress(7, 0), Err(ReplayTruncated { missing: 7 }));
}
