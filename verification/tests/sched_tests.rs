use fleeting_dedup::MessageRef;
use fleeting_dedup::sched::Scheduler;
use fleeting_dedup::sched::WorkerStep;

fn target(message_id: u64) -> MessageRef {
    MessageRef { channel_id: 1, message_id }
}

#[test]
fn worker_starts_exactly_once() {
    let mut s = Scheduler::new(10);
    assert!(s.enqueue(target(1), 100));
    assert!(!s.enqueue(target(2), 101));
    assert!(!s.enqueue(target(3), 102));
    // drain the queue; the next enqueue must start the worker again
    s.head_deleted();
    s.head_deleted();
    s.head_deleted();
    assert_eq!(s.task_count(), 0);
    assert!(s.enqueue(target(4), 103));
}

#[test]
fn tasks_complete_in_due_order() {
    let mut s = Scheduler::new(10);
    s.enqueue(target(1), 100);
    s.enqueue(target(2), 101);
    s.enqueue(target(3), 102);
    let mut deleted: Vec<u64> = Vec::new();
    let mut now: u64 = 99;
    loop {
        match s.next_step(now) {
            WorkerStep::Idle => break,
            WorkerStep::Sleep { duration } => {
                now += duration;
            }
            WorkerStep::DeleteHead { target } => {
                deleted.push(target.message_id);
                s.head_deleted();
            }
        }
    }
    assert_eq!(deleted, vec![1, 2, 3]);
    assert_eq!(now, 112);
}

#[test]
fn sleep_until_due_then_delete_once() {
    let mut s = Scheduler::new(30);
    s.enqueue(target(9), 1000);
    // not due yet: sleep exactly until the due time
    assert_eq!(s.next_step(1000), WorkerStep::Sleep { duration: 30 });
    assert_eq!(s.next_step(1025), WorkerStep::Sleep { duration: 5 });
    // due: delete, and afterwards nothing is retried
    assert_eq!(s.next_step(1030), WorkerStep::DeleteHead { target: target(9) });
    s.head_deleted();
    assert_eq!(s.task_count(), 0);
    assert_eq!(s.next_step(1031), WorkerStep::Idle);
}

#[test]
fn failed_delete_retries_before_later_tasks() {
    let mut s = Scheduler::new(10);
    s.enqueue(target(1), 100);
    s.enqueue(target(2), 101);
    assert_eq!(s.next_step(110), WorkerStep::DeleteHead { target: target(1) });
    // the delete fails once: the same task stays at the head
    s.head_failed();
    let head = s.head_task().unwrap();
    assert_eq!(head.target, target(1));
    assert_eq!(head.attempt, 2);
    assert_eq!(s.task_count(), 2);
    // it is retried before the later-due task, and then succeeds
    assert_eq!(s.next_step(110), WorkerStep::DeleteHead { target: target(1) });
    s.head_deleted();
    // the later task was delayed only by the failed attempt, not dropped
    assert_eq!(s.next_step(111), WorkerStep::DeleteHead { target: target(2) });
    s.head_deleted();
    assert_eq!(s.next_step(111), WorkerStep::Idle);
}

#[test]
fn attempt_counts_start_at_one() {
    let mut s = Scheduler::new(5);
    s.enqueue(target(4), 200);
    let head = s.head_task().unwrap();
    assert_eq!(head.attempt, 1);
    assert_eq!(head.posted_at, 200);
    assert_eq!(head.due_at, 205);
}
