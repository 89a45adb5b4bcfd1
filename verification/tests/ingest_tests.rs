use fleeting_dedup::InboundMessage;
use fleeting_dedup::MessageRef;
use fleeting_dedup::dedup::DedupState;
use fleeting_dedup::ingest::handle_message;
use fleeting_dedup::sched::Scheduler;

const CHANNEL: u64 = 11;

fn msg(id: u64, channel_id: u64, content: &str, timestamp: u64) -> InboundMessage {
    InboundMessage {
        id,
        channel_id,
        author_id: 5,
        content: content.to_string(),
        timestamp,
    }
}

#[test]
fn duplicate_message_is_deleted_immediately() {
    let mut state = DedupState::empty();
    let mut sched = Scheduler::new(60);
    let first = handle_message(&mut state, &mut sched, CHANNEL, &msg(1, CHANNEL, "Hello World", 100));
    assert!(!first.ignored);
    assert_eq!(first.delete_now, None);
    assert!(first.enqueued);
    assert!(first.start_worker);
    assert!(first.persist);

    let second =
        handle_message(&mut state, &mut sched, CHANNEL, &msg(2, CHANNEL, "hello   world", 101));
    assert!(!second.ignored);
    assert_eq!(second.delete_now, Some(MessageRef { channel_id: CHANNEL, message_id: 2 }));
    assert!(!second.enqueued);
    assert!(!second.start_worker);
    assert!(!second.persist);

    // the cache holds one canonical key; only the first message was enqueued
    assert_eq!(state.key_count(), 1);
    assert_eq!(sched.task_count(), 1);
    assert_eq!(state.high_water_mark(), Some(1));
}

#[test]
fn new_message_advances_mark_and_enqueues() {
    let mut state = DedupState::empty();
    let mut sched = Scheduler::new(60);
    let out = handle_message(&mut state, &mut sched, CHANNEL, &msg(9, CHANNEL, "fresh", 500));
    assert!(out.enqueued && out.persist && out.start_worker);
    assert_eq!(state.high_water_mark(), Some(9));
    let head = sched.head_task().unwrap();
    assert_eq!(head.target, MessageRef { channel_id: CHANNEL, message_id: 9 });
    assert_eq!(head.posted_at, 500);
    assert_eq!(head.due_at, 560);
}

#[test]
fn events_outside_the_monitored_channel_are_ignored() {
    let mut state = DedupState::empty();
    let mut sched = Scheduler::new(60);
    let out = handle_message(&mut state, &mut sched, CHANNEL, &msg(1, 99, "Hello", 100));
    assert!(out.ignored);
    assert_eq!(out.delete_now, None);
    assert!(!out.enqueued && !out.start_worker && !out.persist);
    assert_eq!(state.key_count(), 0);
    assert_eq!(state.high_water_mark(), None);
    assert_eq!(sched.task_count(), 0);
}
