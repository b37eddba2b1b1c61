use collab_core::sink::{
    CollabMessage, CollabSink, CollabSinkRunner, DefaultMsgIdCounter, MessageState, MsgIdCounter,
    MsgKind, RunnerStep, SinkConfig, SinkState, SinkStrategy,
};

fn sink(config: SinkConfig) -> CollabSink {
    CollabSink::new(1, config, 0)
}

#[test]
fn merged_messages_are_sent_once_and_acked() {
    let mut s = sink(SinkConfig::new());
    let m1 = s.queue_msg(MsgKind::Update, vec![vec![1]]).unwrap();
    let m2 = s.queue_msg(MsgKind::Update, vec![vec![2, 2]]).unwrap();
    let m3 = s.queue_msg(MsgKind::Update, vec![vec![3]]).unwrap();
    assert_eq!((m1, m2, m3), (0, 1, 2));
    let out = s.process_next_msg(10).unwrap();
    assert_eq!(out.msg_id, m1);
    assert_eq!(out.updates, vec![vec![1], vec![2, 2], vec![3]]);
    assert_eq!(s.pending_len(), 1);
    assert_eq!(s.state(), SinkState::Syncing);
    assert!(s.ack_msg(out.msg_id));
    assert_eq!(s.state(), SinkState::Finished);
    assert_eq!(s.pending_len(), 0);
    assert!(s.process_next_msg(20).is_none());
}

#[test]
fn in_flight_message_is_not_sent_again() {
    let mut s = sink(SinkConfig::new());
    let id = s.queue_msg(MsgKind::Update, vec![vec![1]]).unwrap();
    assert_eq!(s.process_next_msg(0).unwrap().msg_id, id);
    s.queue_msg(MsgKind::Urgent, vec![vec![2]]).unwrap();
    assert!(s.process_next_msg(1).is_none());
    assert_eq!(s.peek(), Some((id, MessageState::Processing)));
    assert!(!s.ack_msg(id + 7));
    assert_eq!(s.pending_len(), 2);
    assert!(s.ack_msg(id));
    assert_eq!(s.state(), SinkState::Syncing);
    assert_eq!(s.process_next_msg(2).unwrap().kind, MsgKind::Urgent);
}

#[test]
fn timed_out_message_keeps_its_id() {
    let mut s = sink(SinkConfig::new());
    let id = s.queue_msg(MsgKind::Update, vec![vec![1]]).unwrap();
    let first = s.process_next_msg(0).unwrap();
    assert!(!s.on_ack_timeout(id + 1));
    assert!(s.on_ack_timeout(id));
    assert_eq!(s.peek(), Some((id, MessageState::Timeout)));
    let again = s.process_next_msg(1).unwrap();
    assert_eq!(again.msg_id, first.msg_id);
    assert_eq!(again.updates, first.updates);
}

#[test]
fn fix_interval_defers_until_elapsed() {
    let mut s = CollabSink::new(1, SinkConfig::new().with_strategy(SinkStrategy::FixInterval(100)), 1000);
    s.queue_msg(MsgKind::Update, vec![vec![1]]).unwrap();
    assert!(s.process_next_msg(1050).is_none());
    assert!(s.process_next_msg(1099).is_none());
    assert!(s.process_next_msg(1100).is_some());
}

#[test]
fn init_message_is_not_deferred() {
    let mut s = CollabSink::new(1, SinkConfig::new().with_strategy(SinkStrategy::FixInterval(100)), 1000);
    s.queue_msg(MsgKind::Init, vec![vec![0]]).unwrap();
    let out = s.process_next_msg(1001).unwrap();
    assert_eq!(out.kind, MsgKind::Init);
    assert_eq!(s.state(), SinkState::Init);
}

#[test]
fn merge_stops_at_size_limit_and_priority() {
    let mut s = sink(SinkConfig::new().with_max_merge_size(4));
    s.queue_msg(MsgKind::Update, vec![vec![1, 1]]).unwrap();
    s.queue_msg(MsgKind::Update, vec![vec![2, 2]]).unwrap();
    s.queue_msg(MsgKind::Update, vec![vec![3]]).unwrap();
    let out = s.process_next_msg(0).unwrap();
    assert_eq!(out.updates, vec![vec![1, 1], vec![2, 2]]);
    assert_eq!(s.pending_len(), 2);

    let mut s = sink(SinkConfig::new());
    s.queue_msg(MsgKind::Update, vec![vec![1]]).unwrap();
    let urgent = s.queue_msg(MsgKind::Urgent, vec![vec![9]]).unwrap();
    let out = s.process_next_msg(0).unwrap();
    assert_eq!(out.msg_id, urgent);
    assert_eq!(out.updates, vec![vec![9]]);
}

#[test]
fn remove_all_pending_msgs_empties_queue() {
    let mut s = sink(SinkConfig::new());
    s.queue_msg(MsgKind::Update, vec![vec![1]]).unwrap();
    s.queue_msg(MsgKind::Update, vec![vec![2]]).unwrap();
    s.remove_all_pending_msgs();
    assert_eq!(s.pending_len(), 0);
    assert!(s.process_next_msg(0).is_none());
}

#[test]
fn config_defaults_and_builders() {
    let c = SinkConfig::new();
    assert_eq!(c.timeout_secs, 2);
    assert_eq!(c.max_merge_size, 4096);
    assert!(!c.strategy.is_fix_interval());
    let c = SinkConfig::default().with_timeout(5).with_strategy(SinkStrategy::FixInterval(10));
    assert_eq!(c.timeout_secs, 5);
    assert!(c.strategy.is_fix_interval());
    assert!(SinkState::Init.is_init());
    assert!(!SinkState::Finished.is_init());
}

#[test]
fn message_kinds() {
    let m = CollabMessage { kind: MsgKind::Update, updates: vec![] };
    assert!(m.is_mergeable() && m.deferrable() && !m.is_init());
    let m = CollabMessage { kind: MsgKind::Init, updates: vec![] };
    assert!(!m.is_mergeable() && !m.deferrable() && m.is_init());
}

#[test]
fn counter_and_runner() {
    let mut c = DefaultMsgIdCounter::new();
    assert_eq!(c.next(), Some(0));
    assert_eq!(c.next(), Some(1));
    let mut c = DefaultMsgIdCounter { next_id: u64::MAX };
    assert_eq!(c.next(), None);
    assert_eq!(CollabSinkRunner::next_step(true, false, true), RunnerStep::Process);
    assert_eq!(CollabSinkRunner::next_step(true, true, true), RunnerStep::Stop);
    assert_eq!(CollabSinkRunner::next_step(false, false, true), RunnerStep::Stop);
    assert_eq!(CollabSinkRunner::next_step(true, false, false), RunnerStep::Stop);
}

#[test]
fn timed_out_message_stays_at_head() {
    let mut s = sink(SinkConfig::new());
    let id = s.queue_msg(MsgKind::Update, vec![vec![1]]).unwrap();
    assert_eq!(s.process_next_msg(0).unwrap().msg_id, id);
    let urgent = s.queue_msg(MsgKind::Urgent, vec![vec![9]]).unwrap();
    assert!(s.on_ack_timeout(id));
    assert_eq!(s.peek(), Some((id, MessageState::Timeout)));
    let again = s.process_next_msg(1).unwrap();
    assert_eq!(again.msg_id, id);
    assert!(s.ack_msg(id));
    assert_eq!(s.process_next_msg(2).unwrap().msg_id, urgent);
}
