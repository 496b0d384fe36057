use vstd::prelude::*;
use crate::codec::{batch_text, encode_batch};
use crate::syscall::{SyscallInfo, SnapshotModel, batch_model};
use crate::text::{int_text, push_all, push_decimal};

verus! {

/// Seconds the loop sleeps after each round, whatever the round's outcome.
pub const POLL_INTERVAL_SECS: u64 = 30;

/// Where the publish loop stands.
#[derive(Clone, Copy, Debug, PartialEq, Eq, Structural)]
pub enum PublishPhase {
    /// About to run the collector.
    Collecting,
    /// A batch of `count` snapshots is being written to the store.
    Publishing { count: usize },
    /// Waiting out the interval before the next round.
    Sleeping,
}

/// What the loop reports of a finished round.
#[derive(Clone, Copy, Debug, PartialEq, Eq, Structural)]
pub enum RoundNote {
    NothingCollected,
    Published { count: usize },
    StoreWriteFailed { count: usize },
}

/// What happened outside since the last step.
pub enum PublishEvent {
    /// The collector returned a batch.
    Collected { batch: Vec<SyscallInfo> },
    /// The store answered the write: `ok` where it succeeded.
    StoreReplied { ok: bool },
    /// The interval has passed.
    Woke,
}

/// What the loop is to do next.
pub enum PublishAction {
    /// Run the collector.
    Collect,
    /// Write `value` to the store under `key`, with one `set`.
    Write { key: String, value: String },
    /// Report `note`, then sleep `seconds`.
    Sleep { seconds: u64, note: RoundNote },
}

pub enum EventModel {
    Collected(Seq<SnapshotModel>),
    StoreReplied(bool),
    Woke,
}

pub enum ActionModel {
    Collect,
    Write { key: Seq<char>, value: Seq<char> },
    Sleep { seconds: int, note: RoundNote },
}

impl View for PublishEvent {
    type V = EventModel;

    open spec fn view(&self) -> EventModel {
        match self {
            PublishEvent::Collected { batch } => EventModel::Collected(batch_model(batch@)),
            PublishEvent::StoreReplied { ok } => EventModel::StoreReplied(*ok),
            PublishEvent::Woke => EventModel::Woke,
        }
    }
}

impl View for PublishAction {
    type V = ActionModel;

    open spec fn view(&self) -> ActionModel {
        match self {
            PublishAction::Collect => ActionModel::Collect,
            PublishAction::Write { key, value } => ActionModel::Write { key: key@, value: value@ },
            PublishAction::Sleep { seconds, note } => ActionModel::Sleep {
                seconds: *seconds as int,
                note: *note,
            },
        }
    }
}

/// The store key of a round that started at `secs` Unix seconds.
pub open spec fn key_text(secs: int) -> Seq<char> {
    seq!['s', 'y', 's', 'c', 'a', 'l', 'l', 's', ':'] + int_text(secs)
}

/// Whether the loop, in `phase`, waits for the event `e`.
pub open spec fn accepts(phase: PublishPhase, e: EventModel) -> bool {
    match e {
        EventModel::Collected(_) => phase is Collecting,
        EventModel::StoreReplied(_) => phase is Publishing,
        EventModel::Woke => phase is Sleeping,
    }
}

/// The phase after `e`.
pub open spec fn next_phase(phase: PublishPhase, e: EventModel) -> PublishPhase {
    match e {
        EventModel::Collected(b) => if b.len() == 0 {
            PublishPhase::Sleeping
        } else {
            PublishPhase::Publishing { count: b.len() as usize }
        },
        EventModel::StoreReplied(_) => PublishPhase::Sleeping,
        EventModel::Woke => PublishPhase::Collecting,
    }
}

/// The action after `e`, for a round whose publishing starts at `now`.
pub open spec fn next_action(phase: PublishPhase, e: EventModel, now: int) -> ActionModel {
    match e {
        EventModel::Collected(b) => if b.len() == 0 {
            ActionModel::Sleep { seconds: POLL_INTERVAL_SECS as int, note: RoundNote::NothingCollected }
        } else {
            ActionModel::Write { key: key_text(now), value: batch_text(b) }
        },
        EventModel::StoreReplied(ok) => {
            let count = match phase {
                PublishPhase::Publishing { count } => count,
                _ => 0,
            };
            ActionModel::Sleep {
                seconds: POLL_INTERVAL_SECS as int,
                note: if ok {
                    RoundNote::Published { count }
                } else {
                    RoundNote::StoreWriteFailed { count }
                },
            }
        },
        EventModel::Woke => ActionModel::Collect,
    }
}

/// Relies on `chrono::Utc::now` and `DateTime::timestamp`: the current time
/// in whole Unix seconds. Nothing is known of the value.
#[verifier::external_body]
fn unix_now() -> i64 {
    chrono::Utc::now().timestamp()
}

/// The store key of a round that started at `round_start` Unix seconds.
pub fn round_key(round_start: i64) -> (r: String)
    ensures
        r@ == key_text(round_start as int),
{
    let mut out = String::new();
    push_all(&mut out, &['s', 'y', 's', 'c', 'a', 'l', 'l', 's', ':']);
    push_decimal(&mut out, round_start);
    out
}

impl PublishPhase {
    /// Whether the loop in this phase waits for `event`.
    pub fn accepts(&self, event: &PublishEvent) -> (r: bool)
        ensures
            r == accepts(*self, event@),
    {
        match event {
            PublishEvent::Collected { .. } => matches!(self, PublishPhase::Collecting),
            PublishEvent::StoreReplied { .. } => matches!(self, PublishPhase::Publishing { .. }),
            PublishEvent::Woke => matches!(self, PublishPhase::Sleeping),
        }
    }
}

/// One step of the publish loop: from the phase and what happened, the next
/// phase and what to do, for a round whose publishing starts at `now` Unix
/// seconds.
pub fn step_at(phase: PublishPhase, event: &PublishEvent, now: i64) -> (r: (
    PublishPhase,
    PublishAction,
))
    requires
        accepts(phase, event@),
    ensures
        r.0 == next_phase(phase, event@),
        r.1@ == next_action(phase, event@, now as int),
{
    match event {
        PublishEvent::Collected { batch } => {
            if batch.len() == 0 {
                (
                    PublishPhase::Sleeping,
                    PublishAction::Sleep {
                        seconds: POLL_INTERVAL_SECS,
                        note: RoundNote::NothingCollected,
                    },
                )
            } else {
                let key = round_key(now);
                let value = encode_batch(batch);
                (PublishPhase::Publishing { count: batch.len() }, PublishAction::Write { key, value })
            }
        },
        PublishEvent::StoreReplied { ok } => {
            let count = match phase {
                PublishPhase::Publishing { count } => count,
                _ => 0,
            };
            let note = if *ok {
                RoundNote::Published { count }
            } else {
                RoundNote::StoreWriteFailed { count }
            };
            (PublishPhase::Sleeping, PublishAction::Sleep { seconds: POLL_INTERVAL_SECS, note })
        },
        PublishEvent::Woke => (PublishPhase::Collecting, PublishAction::Collect),
    }
}

/// One step of the publish loop, with the clock read as the round publishes.
pub fn step(phase: PublishPhase, event: &PublishEvent) -> (r: (PublishPhase, PublishAction))
    requires
        accepts(phase, event@),
    ensures
        r.0 == next_phase(phase, event@),
        exists|now: i64| r.1@ == next_action(phase, event@, now as int),
{
    let now = unix_now();
    step_at(phase, event, now)
}

/// An empty batch is never written: in every phase that takes it, the
/// action after it is a sleep noting that nothing was collected.
pub proof fn lemma_empty_batch_not_written(phase: PublishPhase, now: int)
    requires
        accepts(phase, EventModel::Collected(Seq::empty())),
    ensures
        next_action(phase, EventModel::Collected(Seq::empty()), now) == (ActionModel::Sleep {
            seconds: POLL_INTERVAL_SECS as int,
            note: RoundNote::NothingCollected,
        }),
        !(next_action(phase, EventModel::Collected(Seq::empty()), now) is Write),
        next_phase(phase, EventModel::Collected(Seq::empty())) == PublishPhase::Sleeping,
{
}

/// A failed write ends the round, not the loop: the loop reports the failure,
/// sleeps the usual interval, and then collects again.
pub proof fn lemma_failed_write_continues(phase: PublishPhase, now: int, later: int)
    requires
        accepts(phase, EventModel::StoreReplied(false)),
    ensures
        next_action(phase, EventModel::StoreReplied(false), now) == (ActionModel::Sleep {
            seconds: POLL_INTERVAL_SECS as int,
            note: RoundNote::StoreWriteFailed { count: phase->count },
        }),
        next_phase(phase, EventModel::StoreReplied(false)) == PublishPhase::Sleeping,
        accepts(PublishPhase::Sleeping, EventModel::Woke),
        next_phase(PublishPhase::Sleeping, EventModel::Woke) == PublishPhase::Collecting,
        next_action(PublishPhase::Sleeping, EventModel::Woke, later) == ActionModel::Collect,
{
}

} // verus!
