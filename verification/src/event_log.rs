//! The event log: the ordered record of every accepted event, as bytes.
//!
//! The log is the concatenation of the records of its entries, in the order
//! of their sequence numbers, which start at zero and have no gaps. Reading
//! it back stops at a record that was cut short or damaged at the very end,
//! and refuses a log that is damaged before its end.

use crate::error::LogError;
use crate::event::RQSEvent;
use crate::record::{
    checksum, checksum_of, encode_record, lemma_parsed_fits, parse_payload, EntryView, LogEntry,
    HEADER_LEN,
};
use vstd::bytes::{
    lemma_auto_spec_u32_to_from_le_bytes, spec_u32_from_le_bytes, spec_u32_to_le_bytes,
    u32_from_le_bytes,
};
use vstd::prelude::*;
use vstd::slice::slice_subrange;

verus! {

/// What stands at the start of the bytes that are still to be read.
pub enum Head {
    /// No byte is left.
    End,
    /// The bytes end before the record does.
    Torn,
    /// A whole record of `len` bytes that holds the entry expected next.
    Entry { entry: EntryView, len: nat },
    /// A whole record of `len` bytes that holds no entry, a wrong checksum
    /// or an unexpected sequence number.
    Damaged { len: nat },
}

/// Classifies the start of `rest`, where `next` is the sequence number that
/// the next entry must have.
pub open spec fn head(rest: Seq<u8>, next: int) -> Head {
    if rest.len() == 0 {
        Head::End
    } else if rest.len() < HEADER_LEN {
        Head::Torn
    } else {
        let len = spec_u32_from_le_bytes(rest.subrange(0, 4)) as nat;
        if HEADER_LEN + len > rest.len() {
            Head::Torn
        } else {
            let payload = rest.subrange(HEADER_LEN as int, HEADER_LEN + len);
            let sum = spec_u32_from_le_bytes(rest.subrange(4, 8));
            match parse_payload(payload) {
                Some(entry) => if checksum(payload) == sum && entry.sequence == next {
                    Head::Entry { entry, len: HEADER_LEN as nat + len }
                } else {
                    Head::Damaged { len: HEADER_LEN as nat + len }
                },
                None => Head::Damaged { len: HEADER_LEN as nat + len },
            }
        }
    }
}

/// What reading a log yields: its entries, and the number of bytes that
/// hold them. Bytes behind that number are a torn or damaged last record.
pub struct ReplayView {
    pub entries: Seq<EntryView>,
    pub valid_len: nat,
}

/// `rest` read with `entries` put in front of what it yields.
pub open spec fn preceded(entries: Seq<EntryView>, rest: Result<ReplayView, LogError>) -> Result<
    ReplayView,
    LogError,
> {
    match rest {
        Ok(replay) => Ok(
            ReplayView { entries: entries + replay.entries, valid_len: replay.valid_len },
        ),
        Err(error) => Err(error),
    }
}

/// Reads the bytes `rest`, which start `offset` bytes into the log, where
/// `next` is the sequence number that the next entry must have. A record
/// that is torn, or damaged and the last one, ends the log. A damaged
/// record with bytes behind it makes the log unusable.
pub open spec fn replay_from(rest: Seq<u8>, next: int, offset: nat) -> Result<ReplayView, LogError>
    decreases rest.len(),
{
    match head(rest, next) {
        Head::End | Head::Torn => Ok(ReplayView { entries: Seq::empty(), valid_len: offset }),
        Head::Damaged { len } => {
            if len == rest.len() {
                Ok(ReplayView { entries: Seq::empty(), valid_len: offset })
            } else {
                Err(LogError::Corrupt { offset: offset as usize })
            }
        },
        Head::Entry { entry, len } => {
            preceded(seq![entry], replay_from(rest.skip(len as int), next + 1, offset + len))
        },
    }
}

/// What a whole log holds.
pub open spec fn replay_log(bytes: Seq<u8>) -> Result<ReplayView, LogError> {
    replay_from(bytes, 0, 0)
}

/// The bytes of a log with the entries `entries`.
pub open spec fn log_bytes(entries: Seq<EntryView>) -> Seq<u8>
    decreases entries.len(),
{
    if entries.len() == 0 {
        Seq::empty()
    } else {
        entries[0].record() + log_bytes(entries.drop_first())
    }
}

/// The entries are numbered `first`, `first + 1`, ... and each fits into a
/// record.
pub open spec fn sequenced(entries: Seq<EntryView>, first: int) -> bool {
    forall|i: int|
        0 <= i < entries.len() ==> (#[trigger] entries[i]).sequence == first + i
            && entries[i].fits()
}

/// A record at the start of the bytes is read as its entry, whatever
/// follows it.
pub proof fn lemma_head_of_record(entry: EntryView, tail: Seq<u8>)
    requires
        entry.fits(),
    ensures
        entry.record().len() == HEADER_LEN + entry.payload_len(),
        head(entry.record() + tail, entry.sequence as int) == (Head::Entry {
            entry,
            len: entry.record().len(),
        }),
        (entry.record() + tail).skip(entry.record().len() as int) == tail,
{
    entry.lemma_payload_parses();
    lemma_auto_spec_u32_to_from_le_bytes();
    let payload = entry.payload();
    let rest = entry.record() + tail;
    assert(rest.subrange(0, 4) =~= spec_u32_to_le_bytes(payload.len() as u32));
    assert(rest.subrange(4, 8) =~= spec_u32_to_le_bytes(checksum(payload)));
    assert(rest.subrange(HEADER_LEN as int, HEADER_LEN + payload.len()) =~= payload);
    assert(rest.skip(entry.record().len() as int) =~= tail);
}

/// A record that was cut short is torn.
pub proof fn lemma_head_of_cut_record(entry: EntryView, cut: int, next: int)
    requires
        entry.fits(),
        0 < cut < entry.record().len(),
    ensures
        head(entry.record().take(cut), next) == Head::Torn,
{
    entry.lemma_payload_parses();
    lemma_auto_spec_u32_to_from_le_bytes();
    let rest = entry.record().take(cut);
    if cut >= HEADER_LEN {
        assert(rest.subrange(0, 4) =~= spec_u32_to_le_bytes(entry.payload().len() as u32));
    }
}

/// The bytes of a log grow by the record of each entry that is appended.
pub proof fn lemma_log_bytes_push(entries: Seq<EntryView>, entry: EntryView)
    ensures
        log_bytes(entries.push(entry)) == log_bytes(entries) + entry.record(),
    decreases entries.len(),
{
    if entries.len() == 0 {
        assert(entries.push(entry).drop_first() =~= Seq::<EntryView>::empty());
        assert(log_bytes(entries.push(entry).drop_first()) =~= Seq::<u8>::empty());
        assert(log_bytes(entries.push(entry)) =~= log_bytes(entries) + entry.record());
    } else {
        assert(entries.push(entry).drop_first() =~= entries.drop_first().push(entry));
        lemma_log_bytes_push(entries.drop_first(), entry);
        assert(log_bytes(entries.push(entry)) =~= log_bytes(entries) + entry.record());
    }
}

/// What was written is read back: the bytes of a log, followed by any
/// bytes, are read as the entries of the log followed by what those bytes
/// hold.
pub proof fn lemma_replay_written(entries: Seq<EntryView>, first: int, offset: nat, tail: Seq<u8>)
    requires
        sequenced(entries, first),
    ensures
        replay_from(log_bytes(entries) + tail, first, offset) == preceded(
            entries,
            replay_from(tail, first + entries.len(), offset + log_bytes(entries).len()),
        ),
    decreases entries.len(),
{
    let after = replay_from(tail, first + entries.len(), offset + log_bytes(entries).len());
    if entries.len() == 0 {
        assert(log_bytes(entries) + tail =~= tail);
        if after is Ok {
            assert(entries + after->Ok_0.entries =~= after->Ok_0.entries);
        }
    } else {
        let entry = entries[0];
        let others = entries.drop_first();
        let behind = log_bytes(others) + tail;
        assert(log_bytes(entries) + tail =~= entry.record() + behind);
        lemma_head_of_record(entry, behind);
        assert(sequenced(others, first + 1)) by {
            assert forall|i: int| 0 <= i < others.len() implies (#[trigger] others[i]).sequence
                == first + 1 + i && others[i].fits() by {
                assert(others[i] == entries[i + 1]);
            }
        }
        lemma_replay_written(others, first + 1, offset + entry.record().len(), tail);
        if after is Ok {
            assert(seq![entry] + (others + after->Ok_0.entries) =~= entries
                + after->Ok_0.entries);
        }
    }
}

/// What is read from a log is numbered without gaps, fits into records,
/// and lies within the bytes that were read.
pub proof fn lemma_replay_sequenced(rest: Seq<u8>, next: int, offset: nat)
    ensures
        replay_from(rest, next, offset) matches Ok(read) ==> {
            &&& sequenced(read.entries, next)
            &&& offset <= read.valid_len <= offset + rest.len()
            &&& read.entries.len() > 0 ==> next + read.entries.len() <= u64::MAX + 1
        },
    decreases rest.len(),
{
    match head(rest, next) {
        Head::Entry { entry, len } => {
            let payload = rest.subrange(HEADER_LEN as int, len as int);
            lemma_parsed_fits(payload);
            lemma_replay_sequenced(rest.skip(len as int), next + 1, offset + len);
            let after = replay_from(rest.skip(len as int), next + 1, offset + len);
            if after is Ok {
                let entries = seq![entry] + after->Ok_0.entries;
                assert forall|i: int| 0 <= i < entries.len() implies (#[trigger] entries[i]).sequence
                    == next + i && entries[i].fits() by {
                    if i > 0 {
                        assert(entries[i] == after->Ok_0.entries[i - 1]);
                    }
                }
            }
        },
        _ => {},
    }
}

/// The mathematical value of a list of entries.
pub open spec fn entries_view(entries: Seq<LogEntry>) -> Seq<EntryView> {
    Seq::new(entries.len(), |i: int| entries[i]@)
}

/// What reading a log yields.
#[derive(Debug)]
pub struct Replayed {
    /// The entries, in the order of their sequence numbers.
    pub entries: Vec<LogEntry>,
    /// The number of bytes that hold them.
    pub valid_len: usize,
}

impl View for Replayed {
    type V = ReplayView;

    open spec fn view(&self) -> ReplayView {
        ReplayView { entries: entries_view(self.entries@), valid_len: self.valid_len as nat }
    }
}

/// The writing end of the event log: it numbers the entries, from zero and
/// without gaps, and lays each out as the record that is to be made durable.
pub struct EventLog {
    next_sequence: u64,
    entries: Ghost<Seq<EntryView>>,
}

impl View for EventLog {
    type V = Seq<EntryView>;

    /// The entries appended so far.
    closed spec fn view(&self) -> Seq<EntryView> {
        self.entries@
    }
}

/// The entry that an event gets when it is appended at `timestamp` to a log
/// of `len` entries.
pub open spec fn next_entry(len: nat, event: crate::event::EventView, timestamp: u64) -> EntryView {
    EntryView { sequence: len as u64, timestamp, event }
}

/// Why a log of `len` entries does not take the event, if it does not.
pub open spec fn append_refusal(len: nat, event: crate::event::EventView, timestamp: u64) -> Option<
    LogError,
> {
    if len >= u64::MAX {
        Some(LogError::SequenceExhausted)
    } else if !next_entry(len, event, timestamp).fits() {
        Some(LogError::EntryTooLarge)
    } else {
        None
    }
}

impl EventLog {
    /// What holds of every log at all times: the entries are numbered from
    /// zero without gaps, each fits into a record, and the next number is
    /// their count.
    #[verifier::type_invariant]
    pub closed spec fn well_formed(&self) -> bool {
        &&& self.next_sequence == self.entries@.len()
        &&& sequenced(self.entries@, 0)
    }

    /// An empty log.
    pub fn new() -> (log: EventLog)
        ensures
            log@ == Seq::<EntryView>::empty(),
    {
        EventLog { next_sequence: 0, entries: Ghost(Seq::empty()) }
    }

    /// The sequence number that the next entry gets.
    pub fn next_sequence(&self) -> (next: u64)
        ensures
            next == self@.len(),
            sequenced(self@, 0),
    {
        proof {
            use_type_invariant(self);
        }
        self.next_sequence
    }

    /// The record that `append` would hand out for `event`, or the reason
    /// for which it would not take the event. Changes nothing.
    pub fn frame(&self, event: &RQSEvent, timestamp: u64) -> (result: Result<Vec<u8>, LogError>)
        ensures
            match append_refusal(self@.len(), event@, timestamp) {
                Some(error) => result matches Err(e) && e == error,
                None => result matches Ok(record) && record@ == next_entry(
                    self@.len(),
                    event@,
                    timestamp,
                ).record(),
            },
    {
        proof {
            use_type_invariant(self);
        }
        if self.next_sequence == u64::MAX {
            return Err(LogError::SequenceExhausted);
        }
        encode_record(self.next_sequence, timestamp, event)
    }

    /// Takes `event` as the next entry and hands out its sequence number and
    /// its record. An event that is not taken changes nothing.
    pub fn append(&mut self, event: &RQSEvent, timestamp: u64) -> (result: Result<
        (u64, Vec<u8>),
        LogError,
    >)
        ensures
            sequenced(final(self)@, 0),
            match append_refusal(old(self)@.len(), event@, timestamp) {
                Some(error) => {
                    &&& result matches Err(e)
                    &&& e == error
                    &&& final(self)@ == old(self)@
                },
                None => {
                    &&& result matches Ok((sequence, record))
                    &&& sequence == old(self)@.len()
                    &&& record@ == next_entry(old(self)@.len(), event@, timestamp).record()
                    &&& final(self)@ == old(self)@.push(
                        next_entry(old(self)@.len(), event@, timestamp),
                    )
                },
            },
    {
        proof {
            use_type_invariant(&*self);
        }
        let record = match self.frame(event, timestamp) {
            Ok(record) => record,
            Err(error) => {
                return Err(error);
            },
        };
        let sequence = self.next_sequence;
        let ghost entries = self.entries@.push(next_entry(self@.len(), event@, timestamp));
        *self = EventLog { next_sequence: sequence + 1, entries: Ghost(entries) };
        Ok((sequence, record))
    }

    /// Forgets every entry: the log is empty again.
    pub fn clear(&mut self)
        ensures
            final(self)@ == Seq::<EntryView>::empty(),
    {
        *self = EventLog::new();
    }

    /// Reads a log from its start.
    pub fn replay(bytes: &[u8]) -> (result: Result<Replayed, LogError>)
        ensures
            match replay_log(bytes@) {
                Ok(view) => result matches Ok(replayed) && replayed@ == view,
                Err(error) => result matches Err(e) && e == error,
            },
            result matches Ok(replayed) ==> sequenced(replayed@.entries, 0) && replayed.valid_len
                <= bytes@.len(),
    {
        proof {
            lemma_replay_sequenced(bytes@, 0, 0);
        }
        let mut entries: Vec<LogEntry> = Vec::new();
        let mut pos: usize = 0;
        proof {
            assert(bytes@.skip(0) =~= bytes@);
            let whole = replay_log(bytes@);
            if whole is Ok {
                assert(entries_view(entries@) + whole->Ok_0.entries =~= whole->Ok_0.entries);
            }
        }
        loop
            invariant
                pos <= bytes@.len(),
                replay_log(bytes@) matches Ok(read) ==> sequenced(read.entries, 0),
                replay_log(bytes@) == preceded(
                    entries_view(entries@),
                    replay_from(bytes@.skip(pos as int), entries@.len() as int, pos as nat),
                ),
            decreases bytes@.len() - pos,
        {
            let ghost rest = bytes@.skip(pos as int);
            let ghost next = entries@.len() as int;
            let remaining = bytes.len() - pos;
            if remaining < HEADER_LEN {
                assert(entries_view(entries@) + Seq::<EntryView>::empty() =~= entries_view(entries@));
                return Ok(Replayed { entries, valid_len: pos });
            }
            assert(rest.subrange(0, 4) =~= bytes@.subrange(pos as int, pos + 4));
            assert(rest.subrange(4, 8) =~= bytes@.subrange(pos + 4, pos + 8));
            let len = u32_from_le_bytes(slice_subrange(bytes, pos, pos + 4)) as usize;
            if len > remaining - HEADER_LEN {
                assert(entries_view(entries@) + Seq::<EntryView>::empty() =~= entries_view(entries@));
                return Ok(Replayed { entries, valid_len: pos });
            }
            let sum = u32_from_le_bytes(slice_subrange(bytes, pos + 4, pos + 8));
            let payload = slice_subrange(bytes, pos + HEADER_LEN, pos + HEADER_LEN + len);
            assert(payload@ =~= rest.subrange(HEADER_LEN as int, HEADER_LEN + len));
            let end = pos + HEADER_LEN + len;
            let parsed = if checksum_of(payload) == sum {
                LogEntry::parse(payload)
            } else {
                None
            };
            let accepted = match parsed {
                Some(entry) => {
                    if entry.sequence == entries.len() as u64 {
                        Some(entry)
                    } else {
                        None
                    }
                },
                None => None,
            };
            match accepted {
                Some(entry) => {
                    proof {
                        assert(head(rest, next) == Head::Entry {
                            entry: entry@,
                            len: (HEADER_LEN + len) as nat,
                        });
                        assert(rest.skip(HEADER_LEN + len) =~= bytes@.skip(end as int));
                        assert(entries_view(entries@.push(entry)) =~= entries_view(entries@)
                            + seq![entry@]);
                        let tail = replay_from(bytes@.skip(end as int), next + 1, end as nat);
                        if tail is Ok {
                            assert(entries_view(entries@) + (seq![entry@] + tail->Ok_0.entries)
                                =~= entries_view(entries@.push(entry)) + tail->Ok_0.entries);
                        }
                    }
                    entries.push(entry);
                    pos = end;
                },
                None => {
                    assert(head(rest, next) == Head::Damaged { len: (HEADER_LEN + len) as nat });
                    if end == bytes.len() {
                        assert(entries_view(entries@) + Seq::<EntryView>::empty() =~= entries_view(
                            entries@,
                        ));
                        return Ok(Replayed { entries, valid_len: pos });
                    } else {
                        return Err(LogError::Corrupt { offset: pos });
                    }
                },
            }
        }
    }

    /// Continues a log that was read back: the next entry follows the last
    /// one read.
    pub(crate) fn resume(replayed: &Replayed) -> (log: EventLog)
        requires
            sequenced(replayed@.entries, 0),
        ensures
            log@ == replayed@.entries,
    {
        EventLog {
            next_sequence: replayed.entries.len() as u64,
            entries: Ghost(replayed@.entries),
        }
    }
}

} // verus!
