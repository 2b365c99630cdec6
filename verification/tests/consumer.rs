use stream_delimit::protocol::{BrokerCall, FrameStreamCore};

#[test]
fn fresh_core_needs_poll_and_holds_no_frame() {
    let mut core = FrameStreamCore::new();
    assert!(core.needs_poll());
    assert_eq!(core.pop_frame(), None);
    assert!(core.needs_poll());
}

#[test]
fn round_trip_two_message_sets() {
    let mut core = FrameStreamCore::new();
    assert!(core.needs_poll());
    let calls = core.handle_poll_success(vec![
        vec![b"x".to_vec(), b"y".to_vec()],
        vec![b"z".to_vec()],
    ]);
    assert_eq!(
        calls,
        vec![
            BrokerCall::Acknowledge { set: 0 },
            BrokerCall::Acknowledge { set: 1 },
            BrokerCall::Commit,
        ]
    );
    assert!(!core.needs_poll());
    assert_eq!(core.pop_frame(), Some(b"x".to_vec()));
    assert_eq!(core.pop_frame(), Some(b"y".to_vec()));
    assert_eq!(core.pop_frame(), Some(b"z".to_vec()));
    assert!(core.needs_poll());
    core.record_poll_failure();
    assert!(!core.needs_poll());
    assert_eq!(core.pop_frame(), None);
    assert_eq!(core.pop_frame(), None);
}

#[test]
fn frames_follow_poll_and_set_order() {
    let mut core = FrameStreamCore::new();
    core.handle_poll_success(vec![vec![b"a".to_vec()], vec![b"b".to_vec(), b"c".to_vec()]]);
    assert_eq!(core.pop_frame(), Some(b"a".to_vec()));
    assert_eq!(core.pop_frame(), Some(b"b".to_vec()));
    assert_eq!(core.pop_frame(), Some(b"c".to_vec()));
    assert!(core.needs_poll());
    core.handle_poll_success(vec![vec![b"d".to_vec()]]);
    assert_eq!(core.pop_frame(), Some(b"d".to_vec()));
    assert_eq!(core.pop_frame(), None);
}

#[test]
fn empty_poll_leaves_consumer_polling() {
    let mut core = FrameStreamCore::new();
    let calls = core.handle_poll_success(vec![]);
    assert_eq!(calls, vec![BrokerCall::Commit]);
    assert!(core.needs_poll());
    let calls = core.handle_poll_success(vec![vec![], vec![]]);
    assert_eq!(
        calls,
        vec![
            BrokerCall::Acknowledge { set: 0 },
            BrokerCall::Acknowledge { set: 1 },
            BrokerCall::Commit,
        ]
    );
    assert!(core.needs_poll());
    let calls = core.handle_poll_success(vec![vec![b"m".to_vec()]]);
    assert_eq!(
        calls,
        vec![BrokerCall::Acknowledge { set: 0 }, BrokerCall::Commit]
    );
    assert!(!core.needs_poll());
    assert_eq!(core.pop_frame(), Some(b"m".to_vec()));
}

#[test]
fn poll_failure_exhausts_stream_permanently() {
    let mut core = FrameStreamCore::new();
    core.record_poll_failure();
    assert!(!core.needs_poll());
    for _ in 0..5 {
        assert_eq!(core.pop_frame(), None);
        assert!(!core.needs_poll());
    }
}

#[test]
fn acknowledgments_precede_commit_in_set_order() {
    let mut core = FrameStreamCore::new();
    let calls = core.handle_poll_success(vec![
        vec![b"a".to_vec()],
        vec![b"b".to_vec()],
        vec![b"c".to_vec()],
    ]);
    assert_eq!(
        calls,
        vec![
            BrokerCall::Acknowledge { set: 0 },
            BrokerCall::Acknowledge { set: 1 },
            BrokerCall::Acknowledge { set: 2 },
            BrokerCall::Commit,
        ]
    );
    assert_eq!(calls.last(), Some(&BrokerCall::Commit));
}

#[test]
fn empty_payload_is_still_one_frame() {
    let mut core = FrameStreamCore::new();
    core.handle_poll_success(vec![vec![Vec::new(), b"tail".to_vec()]]);
    assert_eq!(core.pop_frame(), Some(Vec::new()));
    assert_eq!(core.pop_frame(), Some(b"tail".to_vec()));
    assert_eq!(core.pop_frame(), None);
}
