use vstd::prelude::*;

verus! {

use crate::InboundMessage;
use crate::MessageRef;
use crate::dedup::DedupState;
use crate::dedup::advance_mark;
use crate::dedup::insert_key;
use crate::sched::DeletionTask;
use crate::sched::Scheduler;
use crate::text::norm_spec;
use crate::text::normalize;

/// What the pipeline decided for one platform event. The caller carries the
/// actions out: it deletes `delete_now` via the platform, saves the
/// deduplication state when `persist` holds, and starts the scheduler worker
/// when `start_worker` holds.
pub struct IngestOutcome {
    /// The event was outside the monitored channel and was ignored.
    pub ignored: bool,
    /// The message was a duplicate: delete it now; nothing was enqueued.
    pub delete_now: Option<MessageRef>,
    /// A deletion task was enqueued for the fixed-delay expiry policy.
    pub enqueued: bool,
    /// The scheduler worker was not running and must be started now.
    pub start_worker: bool,
    /// The deduplication state changed and must be saved.
    pub persist: bool,
}

/// One platform message event, for live handling and for catch-up alike:
/// events outside the monitored channel are ignored; a duplicate is deleted
/// at once and not enqueued; a new message is recorded, the high-water mark
/// advances to it, the state is marked for saving, and the message is
/// enqueued for its fixed-delay expiry.
pub fn handle_message(
    state: &mut DedupState,
    sched: &mut Scheduler,
    monitored_channel: u64,
    msg: &InboundMessage,
) -> (out: IngestOutcome)
    requires
        old(state).wf(),
        old(sched).wf(),
        msg.timestamp + old(sched).fixed_delay() <= u64::MAX,
        old(sched).tasks().len() > 0 ==> old(sched).tasks().last().posted_at <= msg.timestamp,
    ensures
        final(state).wf(),
        final(sched).wf(),
        final(sched).fixed_delay() == old(sched).fixed_delay(),
        out.ignored == (msg.channel_id != monitored_channel),
        out.ignored ==> final(state).seen_keys() == old(state).seen_keys()
            && final(state).high_water() == old(state).high_water()
            && final(sched).tasks() == old(sched).tasks()
            && out.delete_now is None && !out.enqueued && !out.start_worker && !out.persist,
        !out.ignored ==> final(state).seen_keys() == insert_key(
            old(state).seen_keys(),
            norm_spec(msg.content@),
        ),
        !out.ignored ==> out.delete_now == if old(state).has_key(norm_spec(msg.content@)) {
            Option::Some((MessageRef { channel_id: msg.channel_id, message_id: msg.id }))
        } else {
            Option::None::<MessageRef>
        },
        !out.ignored && old(state).has_key(norm_spec(msg.content@)) ==> final(state).high_water()
            == old(state).high_water() && final(sched).tasks() == old(sched).tasks()
            && !out.enqueued && !out.start_worker && !out.persist,
        !out.ignored && !old(state).has_key(norm_spec(msg.content@)) ==> final(state).high_water()
            == advance_mark(old(state).high_water(), msg.id) && out.enqueued && out.persist
            && final(sched).tasks() == old(sched).tasks().push(
            (DeletionTask {
                target: MessageRef { channel_id: msg.channel_id, message_id: msg.id },
                posted_at: msg.timestamp,
                due_at: (msg.timestamp + old(sched).fixed_delay()) as u64,
                attempt: 1,
            }),
        ) && out.start_worker == (old(sched).tasks().len() == 0),
{
    if msg.channel_id != monitored_channel {
        return IngestOutcome {
            ignored: true,
            delete_now: Option::None,
            enqueued: false,
            start_worker: false,
            persist: false,
        };
    }
    let key = normalize(msg.content.as_str());
    let newly = state.try_insert(key);
    if !newly {
        IngestOutcome {
            ignored: false,
            delete_now: Option::Some(
                MessageRef { channel_id: msg.channel_id, message_id: msg.id },
            ),
            enqueued: false,
            start_worker: false,
            persist: false,
        }
    } else {
        state.advance_high_water_mark(msg.id);
        let start = sched.enqueue(
            MessageRef { channel_id: msg.channel_id, message_id: msg.id },
            msg.timestamp,
        );
        IngestOutcome {
            ignored: false,
            delete_now: Option::None,
            enqueued: true,
            start_worker: start,
            persist: true,
        }
    }
}

} // verus!
