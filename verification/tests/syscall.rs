use wovenhat::syscall::{
    pack_pipe, pack_readdir, pack_stat, path_length_valid, unpack_readdir_argument, unpack_rename_lengths,
    CompletionLog, Number, UserForkFrame,
};

#[test]
fn numbers_round_trip() {
    assert_eq!(Number::Getpid.code(), 4);
    assert_eq!(Number::PingPoll.code(), 49);
    assert_eq!(Number::from_code(16), Some(Number::Fork));
    assert_eq!(Number::from_code(50), None);
    for code in 0..50u64 {
        assert_eq!(Number::from_code(code).map(|n| n.code()), Some(code));
    }
}

#[test]
fn forked_child_returns_zero() {
    let frame = UserForkFrame { rax: 7, rip: 0x4000, rsp: 0x8000, ..UserForkFrame::default() };
    let child = frame.child_return();
    assert_eq!(child.rax, 0);
    assert_eq!(child.rip, frame.rip);
    assert_eq!(child.rsp, frame.rsp);
}

#[test]
fn completion_log_tracks_calls() {
    let mut log = CompletionLog::new();
    assert!(!log.user_io_verified());
    log.mark(0x1 | 0x2);
    log.mark(0x4 | 0x8);
    assert!(log.user_io_verified());
    assert!(!log.user_fork_verified());
    log.record(Number::Getpid.code());
    assert!(log.last_completed(Number::Getpid));
    assert_eq!(log.completions, 1);
    log.request_yield();
    assert!(log.service_pending());
    assert!(!log.service_pending());
}

#[test]
fn result_encodings() {
    assert_eq!(pack_stat(true, 0x0123_4567, true), 1 | (0x23_4567 << 8) | (1 << 40));
    assert_eq!(pack_stat(false, 10, false), 10 << 8);
    assert_eq!(pack_readdir(5, true), 5 | 0x100);
    assert_eq!(pack_pipe(3, 4), 3 | (4 << 32));
    assert_eq!(unpack_readdir_argument(0x0002_0011), (0x11, 2));
    assert_eq!(unpack_rename_lengths(0x1234_0005_0009), (9, 5));
    assert!(path_length_valid(1));
    assert!(path_length_valid(128));
    assert!(!path_length_valid(0));
    assert!(!path_length_valid(129));
}
