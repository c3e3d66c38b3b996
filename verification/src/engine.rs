//! The engine: the one place through which state changes.
//!
//! It owns the store and the writing end of the log. Every accepted event
//! is applied to the store and numbered as the next log entry, so that the
//! store never differs from what the log rebuilds.

use crate::error::{EngineError, LogError};
use crate::event::{EventView, Outcome, RQSEvent};
use crate::event_log::{append_refusal, next_entry, replay_log, sequenced, EventLog};
use crate::model::StoreView;
use crate::record::EntryView;
use crate::store::{MessageQueue, Store};
use vstd::prelude::*;

verus! {

/// The state that the entries rebuild when they are applied in order to an
/// empty store, each at its own timestamp; or the first entry that the
/// state before it refuses.
pub open spec fn rebuild(entries: Seq<EntryView>) -> Result<StoreView, LogError>
    decreases entries.len(),
{
    if entries.len() == 0 {
        Ok(StoreView::empty())
    } else {
        let last = entries.last();
        match rebuild(entries.drop_last()) {
            Ok(store) => match store.refusal(last.event) {
                None => Ok(store.after(last.event, last.timestamp)),
                Some(_) => Err(LogError::Rejected { sequence: last.sequence }),
            },
            Err(error) => Err(error),
        }
    }
}

/// The mathematical value of the engine: the state of the queues and the
/// entries logged so far.
pub struct EngineView {
    pub store: StoreView,
    pub log: Seq<EntryView>,
}

impl EngineView {
    /// The engine before any event.
    pub open spec fn fresh() -> EngineView {
        EngineView { store: StoreView::empty(), log: Seq::empty() }
    }

    /// What holds of every engine: the store is well-formed, the log is
    /// numbered without gaps, and the log rebuilds the store.
    pub open spec fn wf(self) -> bool {
        &&& self.store.wf()
        &&& sequenced(self.log, 0)
        &&& self.log.len() <= u64::MAX
        &&& rebuild(self.log) == Ok::<StoreView, LogError>(self.store)
    }

    /// Why the engine refuses `event` at the instant `now`, if it does: the
    /// store's reason comes before the log's.
    pub open spec fn refusal(self, event: EventView, now: u64) -> Option<EngineError> {
        match self.store.refusal(event) {
            Some(error) => Some(EngineError::Store(error)),
            None => match append_refusal(self.log.len(), event, now) {
                Some(error) => Some(EngineError::Log(error)),
                None => None,
            },
        }
    }

    /// The engine after it accepted `event` at the instant `now`.
    pub open spec fn after(self, event: EventView, now: u64) -> EngineView {
        EngineView {
            store: self.store.after(event, now),
            log: self.log.push(next_entry(self.log.len(), event, now)),
        }
    }

    /// The engine after `event` was handed to it at the instant `now`: a
    /// refused event leaves it as it was.
    pub open spec fn handle(self, event: EventView, now: u64) -> EngineView {
        if self.refusal(event, now) is None {
            self.after(event, now)
        } else {
            self
        }
    }
}

/// What a log rebuilds: the engine, and the number of bytes of the log that
/// hold its entries.
pub open spec fn revived(bytes: Seq<u8>) -> Result<(EngineView, nat), LogError> {
    match replay_log(bytes) {
        Ok(read) => match rebuild(read.entries) {
            Ok(store) => Ok((EngineView { store, log: read.entries }, read.valid_len)),
            Err(error) => Err(error),
        },
        Err(error) => Err(error),
    }
}

/// Once an entry is refused, no longer log rebuilds anything.
pub proof fn lemma_rebuild_stuck(entries: Seq<EntryView>, k: int)
    requires
        0 <= k <= entries.len(),
        rebuild(entries.take(k)) is Err,
    ensures
        rebuild(entries) == rebuild(entries.take(k)),
    decreases entries.len() - k,
{
    if k < entries.len() {
        assert(entries.take(k + 1).drop_last() =~= entries.take(k));
        lemma_rebuild_stuck(entries, k + 1);
    } else {
        assert(entries.take(k) =~= entries);
    }
}

/// What an accepted event hands back, with the record that makes it durable.
#[derive(Debug)]
pub struct Handled {
    /// What the event hands back to its caller.
    pub outcome: Outcome,
    /// The sequence number of the event's log entry.
    pub sequence: u64,
    /// The record to append to the durable log.
    pub record: Vec<u8>,
}

/// The queue engine. Its log rebuilds its store at all times.
pub struct Engine {
    store: Store,
    log: EventLog,
}

impl View for Engine {
    type V = EngineView;

    closed spec fn view(&self) -> EngineView {
        EngineView { store: self.store@, log: self.log@ }
    }
}

impl Engine {
    /// What holds of every engine at all times.
    #[verifier::type_invariant]
    pub open spec fn well_formed(&self) -> bool {
        self@.wf()
    }

    /// An engine without queues and with an empty log.
    pub fn new() -> (engine: Engine)
        ensures
            engine@ == EngineView::fresh(),
    {
        Engine { store: Store::new(), log: EventLog::new() }
    }

    /// The queues in the order of their creation.
    pub fn get_queues(&self) -> (queues: &Vec<MessageQueue>)
        ensures
            self@.wf(),
            queues@.len() == self@.store.queues.len(),
            forall|i: int|
                0 <= i < queues@.len() ==> (#[trigger] queues@[i])@ == self@.store.queues[i],
    {
        proof {
            use_type_invariant(self);
        }
        self.store.get_queues()
    }

    /// The store that the engine owns, to read.
    pub fn get_store(&self) -> (store: &Store)
        ensures
            self@.wf(),
            store@ == self@.store,
    {
        proof {
            use_type_invariant(self);
        }
        &self.store
    }

    /// The record that `handle_event` would hand out for `event` now, or
    /// the reason for which it would refuse the event. Changes nothing.
    pub fn stage(&self, event: &RQSEvent, now: u64) -> (result: Result<Vec<u8>, EngineError>)
        ensures
            self@.wf(),
            match self@.refusal(event@, now) {
                Some(error) => result matches Err(e) && e == error,
                None => result matches Ok(record) && record@ == next_entry(
                    self@.log.len(),
                    event@,
                    now,
                ).record(),
            },
    {
        proof {
            use_type_invariant(self);
        }
        match self.store.validate(event) {
            Ok(()) => {},
            Err(error) => {
                return Err(EngineError::Store(error));
            },
        }
        match self.log.frame(event, now) {
            Ok(record) => Ok(record),
            Err(error) => Err(EngineError::Log(error)),
        }
    }

    /// Applies `event` at the instant `now` and numbers it as the next log
    /// entry. A refused event changes nothing.
    pub fn handle_event(&mut self, event: RQSEvent, now: u64) -> (result: Result<
        Handled,
        EngineError,
    >)
        ensures
            old(self)@.wf(),
            final(self)@.wf(),
            final(self)@ == old(self)@.handle(event@, now),
            match old(self)@.refusal(event@, now) {
                Some(error) => result matches Err(e) && e == error,
                None => {
                    &&& result matches Ok(handled)
                    &&& handled.outcome@ == old(self)@.store.yields(event@)
                    &&& handled.sequence == old(self)@.log.len()
                    &&& handled.record@ == next_entry(old(self)@.log.len(), event@, now).record()
                },
            },
    {
        proof {
            use_type_invariant(&*self);
        }
        match self.store.validate(&event) {
            Ok(()) => {},
            Err(error) => {
                return Err(EngineError::Store(error));
            },
        }
        let mut taken = Engine::new();
        std::mem::swap(&mut taken, self);
        let Engine { mut store, mut log } = taken;
        let ghost entries = log@;
        let appended = log.append(&event, now);
        let result = match appended {
            Ok((sequence, record)) => {
                assert(log@.drop_last() =~= entries);
                match store.apply(&event, now) {
                    Ok(outcome) => Ok(Handled { outcome, sequence, record }),
                    Err(error) => Err(EngineError::Store(error)),
                }
            },
            Err(error) => Err(EngineError::Log(error)),
        };
        *self = Engine { store, log };
        result
    }

    /// Forgets every queue and every entry.
    pub fn clear(&mut self)
        ensures
            final(self)@ == EngineView::fresh(),
    {
        *self = Engine::new();
    }

    /// Rebuilds the engine from the bytes of a log: every entry is applied
    /// in order to an empty store, at its own timestamp. Hands back the
    /// number of bytes that hold the entries; what lies behind is a torn or
    /// damaged last record. A log that cannot be trusted leaves the engine
    /// empty.
    pub fn revive_from_log(&mut self, bytes: &[u8]) -> (result: Result<usize, EngineError>)
        ensures
            final(self)@.wf(),
            match revived(bytes@) {
                Ok((engine, valid_len)) => {
                    &&& result matches Ok(len)
                    &&& len == valid_len
                    &&& final(self)@ == engine
                },
                Err(error) => {
                    &&& result matches Err(e)
                    &&& e == EngineError::Log(error)
                    &&& final(self)@ == EngineView::fresh()
                },
            },
    {
        self.clear();
        let replayed = match EventLog::replay(bytes) {
            Ok(replayed) => replayed,
            Err(error) => {
                return Err(EngineError::Log(error));
            },
        };
        let ghost entries = replayed@.entries;
        let mut store = Store::new();
        let mut i: usize = 0;
        assert(entries.take(0) =~= Seq::<EntryView>::empty());
        while i < replayed.entries.len()
            invariant
                i <= replayed.entries@.len(),
                self@ == EngineView::fresh(),
                replay_log(bytes@) == Ok::<crate::event_log::ReplayView, LogError>(replayed@),
                entries == replayed@.entries,
                sequenced(entries, 0),
                store@.wf(),
                rebuild(entries.take(i as int)) == Ok::<StoreView, LogError>(store@),
            decreases replayed.entries@.len() - i,
        {
            let entry = &replayed.entries[i];
            assert(entries.take(i + 1).drop_last() =~= entries.take(i as int));
            assert(entries.take(i + 1).last() == entry@);
            match store.apply(&entry.event, entry.timestamp) {
                Ok(_) => {},
                Err(_) => {
                    proof {
                        lemma_rebuild_stuck(entries, i + 1);
                    }
                    return Err(EngineError::Log(LogError::Rejected { sequence: entry.sequence }));
                },
            }
            i += 1;
        }
        assert(entries.take(i as int) =~= entries);
        let log = EventLog::resume(&replayed);
        *self = Engine { store, log };
        Ok(replayed.valid_len)
    }
}

} // verus!
