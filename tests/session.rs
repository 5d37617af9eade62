use ptyterm::{PtyError, SessionState, TermSize};

#[test]
fn write_without_session_fails() {
    let mut s: SessionState<u32, Vec<u8>> = SessionState::new();
    assert!(!s.is_active());
    assert_eq!(s.writer_mut().err(), Some(PtyError::NoActiveSession));
    assert!(!s.is_active());
}

#[test]
fn resize_without_session_fails() {
    let mut s: SessionState<u32, Vec<u8>> = SessionState::new();
    assert_eq!(s.master_ref().err(), Some(PtyError::NoActiveSession));
    assert_eq!(
        s.record_resize(TermSize { rows: 24, cols: 80 }),
        Err(PtyError::NoActiveSession)
    );
    assert_eq!(s.current_size(), None);
}

#[test]
fn second_create_replaces_first() {
    let mut s: SessionState<u32, Vec<u8>> = SessionState::new();
    let size = TermSize { rows: 24, cols: 80 };
    let prev = s.create_session(Ok((1, b"first".to_vec())), size).unwrap();
    assert!(prev.is_none());
    let prev = s.create_session(Ok((2, b"second".to_vec())), size).unwrap();
    assert_eq!(prev, Some((1, b"first".to_vec())));
    s.writer_mut().unwrap().extend_from_slice(b":echo tag-42");
    assert_eq!(s.writer_mut().unwrap().as_slice(), b"second:echo tag-42");
    assert_eq!(*s.master_ref().unwrap(), 2);
}

#[test]
fn failed_create_changes_nothing() {
    let mut s: SessionState<u32, Vec<u8>> = SessionState::new();
    for e in [PtyError::PtyAllocation, PtyError::Spawn, PtyError::HandleDerivation] {
        assert_eq!(s.create_session(Err(e), TermSize { rows: 1, cols: 1 }), Err(e));
        assert!(!s.is_active());
    }
    s.create_session(Ok((7, Vec::new())), TermSize { rows: 10, cols: 20 }).unwrap();
    assert_eq!(
        s.create_session(Err(PtyError::Spawn), TermSize { rows: 1, cols: 1 }),
        Err(PtyError::Spawn)
    );
    assert_eq!(*s.master_ref().unwrap(), 7);
    assert_eq!(s.current_size(), Some(TermSize { rows: 10, cols: 20 }));
}

#[test]
fn last_resize_wins() {
    let mut s: SessionState<u32, Vec<u8>> = SessionState::new();
    s.create_session(Ok((1, Vec::new())), TermSize { rows: 10, cols: 10 }).unwrap();
    assert_eq!(s.record_resize(TermSize { rows: 24, cols: 80 }), Ok(()));
    assert_eq!(s.record_resize(TermSize { rows: 50, cols: 120 }), Ok(()));
    assert_eq!(s.current_size(), Some(TermSize { rows: 50, cols: 120 }));
    assert_eq!(*s.master_ref().unwrap(), 1);
}

#[test]
fn error_variants_are_distinct() {
    let all = [
        PtyError::PtyAllocation,
        PtyError::Spawn,
        PtyError::HandleDerivation,
        PtyError::NoActiveSession,
        PtyError::Write,
        PtyError::Resize,
    ];
    for (i, a) in all.iter().enumerate() {
        for (j, b) in all.iter().enumerate() {
            assert_eq!(i == j, a == b);
        }
    }
}
