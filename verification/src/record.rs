//! How one log entry is laid out as bytes.
//!
//! A record is a header of eight bytes and a payload. The header holds the
//! length of the payload and its checksum, each as four little-endian bytes.
//! The payload holds the sequence number and the timestamp (eight bytes
//! each), the tag of the event (one byte), its number (eight bytes), the
//! length of the queue id (four bytes), the queue id and, up to the end of
//! the payload, the body, both as UTF-8.

use crate::error::LogError;
use crate::event::{EventView, RQSEvent};
use vstd::bytes::{
    lemma_auto_spec_u32_to_from_le_bytes, lemma_auto_spec_u64_to_from_le_bytes,
    spec_u32_from_le_bytes, spec_u32_to_le_bytes, spec_u64_from_le_bytes, spec_u64_to_le_bytes,
    u32_from_le_bytes, u32_to_le_bytes, u64_from_le_bytes, u64_to_le_bytes,
};
use vstd::prelude::*;
use vstd::slice::{slice_subrange, slice_to_vec};
use vstd::utf8::{
    decode_utf8, decode_utf8_encode_utf8, encode_utf8, encode_utf8_decode_utf8,
    encode_utf8_valid_utf8, valid_utf8,
};

verus! {

/// One entry of the event log.
#[derive(Debug, PartialEq, Eq)]
pub struct LogEntry {
    pub sequence: u64,
    pub timestamp: u64,
    pub event: RQSEvent,
}

/// The mathematical value of a log entry.
pub struct EntryView {
    pub sequence: u64,
    pub timestamp: u64,
    pub event: EventView,
}

impl View for LogEntry {
    type V = EntryView;

    open spec fn view(&self) -> EntryView {
        EntryView { sequence: self.sequence, timestamp: self.timestamp, event: self.event@ }
    }
}

/// The length of a record's header.
pub const HEADER_LEN: usize = 8;

/// The length of the part of a payload that comes before the queue id.
pub const FIXED_LEN: usize = 29;

/// The longest payload that a record can hold.
pub const MAX_PAYLOAD: usize = 0xffff_ffff;

/// The checksum of a payload: each byte in turn is added to 31 times the
/// sum so far, modulo 2^32.
pub open spec fn checksum(bytes: Seq<u8>) -> u32
    decreases bytes.len(),
{
    if bytes.len() == 0 {
        0
    } else {
        ((checksum(bytes.drop_last()) * 31 + bytes.last()) % 0x1_0000_0000) as u32
    }
}

impl EntryView {
    /// The length of the entry's payload.
    pub open spec fn payload_len(self) -> nat {
        FIXED_LEN as nat + encode_utf8(self.event.queue_id()).len() + encode_utf8(
            self.event.body(),
        ).len()
    }

    /// The entry fits into one record.
    pub open spec fn fits(self) -> bool {
        self.payload_len() <= MAX_PAYLOAD
    }

    /// The payload of the entry's record.
    pub open spec fn payload(self) -> Seq<u8> {
        let id = encode_utf8(self.event.queue_id());
        spec_u64_to_le_bytes(self.sequence) + spec_u64_to_le_bytes(self.timestamp)
            + seq![self.event.tag()] + spec_u64_to_le_bytes(self.event.number())
            + spec_u32_to_le_bytes(id.len() as u32) + id + encode_utf8(self.event.body())
    }

    /// The entry's record.
    pub open spec fn record(self) -> Seq<u8> {
        let payload = self.payload();
        spec_u32_to_le_bytes(payload.len() as u32) + spec_u32_to_le_bytes(checksum(payload))
            + payload
    }
}

impl EntryView {
    /// The payload of an entry that fits holds that entry and no other.
    pub proof fn lemma_payload_parses(self)
        requires
            self.fits(),
        ensures
            self.payload().len() == self.payload_len(),
            parse_payload(self.payload()) == Some(self),
    {
        lemma_auto_spec_u64_to_from_le_bytes();
        lemma_auto_spec_u32_to_from_le_bytes();
        let payload = self.payload();
        let id = encode_utf8(self.event.queue_id());
        let body = encode_utf8(self.event.body());
        assert(payload.subrange(0, 8) =~= spec_u64_to_le_bytes(self.sequence));
        assert(payload.subrange(8, 16) =~= spec_u64_to_le_bytes(self.timestamp));
        assert(payload[16] == self.event.tag());
        assert(payload.subrange(17, 25) =~= spec_u64_to_le_bytes(self.event.number()));
        assert(payload.subrange(25, 29) =~= spec_u32_to_le_bytes(id.len() as u32));
        assert(payload.subrange(29, 29 + id.len() as int) =~= id);
        assert(payload.subrange(29 + id.len() as int, payload.len() as int) =~= body);
        encode_utf8_valid_utf8(self.event.queue_id());
        encode_utf8_valid_utf8(self.event.body());
        encode_utf8_decode_utf8(self.event.queue_id());
        encode_utf8_decode_utf8(self.event.body());
        self.event.lemma_assemble();
    }
}

/// An entry read from a payload that a record can hold fits into a record.
pub proof fn lemma_parsed_fits(payload: Seq<u8>)
    requires
        payload.len() <= MAX_PAYLOAD,
        parse_payload(payload) is Some,
    ensures
        parse_payload(payload)->0.fits(),
{
    let entry = parse_payload(payload)->0;
    let id_len = spec_u32_from_le_bytes(payload.subrange(25, 29)) as int;
    let id = payload.subrange(29, 29 + id_len);
    let body = payload.subrange(29 + id_len, payload.len() as int);
    decode_utf8_encode_utf8(id);
    decode_utf8_encode_utf8(body);
    assert(entry.event.queue_id() == decode_utf8(id));
    if entry.event is MessageSent {
        assert(entry.event.body() == decode_utf8(body));
    } else {
        assert(encode_utf8(Seq::<char>::empty()) =~= Seq::<u8>::empty()) by {
            reveal_with_fuel(encode_utf8, 1);
        }
    }
}

/// The entry that a payload holds, if it holds one.
pub open spec fn parse_payload(payload: Seq<u8>) -> Option<EntryView> {
    if payload.len() < FIXED_LEN {
        None
    } else {
        let id_len = spec_u32_from_le_bytes(payload.subrange(25, 29)) as int;
        if FIXED_LEN + id_len > payload.len() {
            None
        } else {
            let id = payload.subrange(29, 29 + id_len);
            let body = payload.subrange(29 + id_len, payload.len() as int);
            if !valid_utf8(id) || !valid_utf8(body) {
                None
            } else {
                match EventView::assemble(
                    payload[16],
                    spec_u64_from_le_bytes(payload.subrange(17, 25)),
                    decode_utf8(id),
                    decode_utf8(body),
                ) {
                    Some(event) => Some(
                        EntryView {
                            sequence: spec_u64_from_le_bytes(payload.subrange(0, 8)),
                            timestamp: spec_u64_from_le_bytes(payload.subrange(8, 16)),
                            event,
                        },
                    ),
                    None => None,
                }
            }
        }
    }
}

/// Computes the checksum of a payload.
pub fn checksum_of(bytes: &[u8]) -> (sum: u32)
    ensures
        sum == checksum(bytes@),
{
    let mut sum: u32 = 0;
    let mut i: usize = 0;
    while i < bytes.len()
        invariant
            i <= bytes@.len(),
            sum == checksum(bytes@.take(i as int)),
        decreases bytes@.len() - i,
    {
        assert(bytes@.take(i + 1).drop_last() =~= bytes@.take(i as int));
        let next: u64 = (sum as u64 * 31 + bytes[i] as u64) % 0x1_0000_0000;
        sum = next as u32;
        i += 1;
    }
    assert(bytes@.take(i as int) =~= bytes@);
    sum
}

/// Reads UTF-8 bytes as a string. Calls `String::from_utf8`, of which the
/// contract claims what its documentation says: it succeeds exactly on
/// valid UTF-8, and the string then consists of the very bytes given.
#[verifier::external_body]
fn string_from_utf8(bytes: Vec<u8>) -> (text: Option<String>)
    ensures
        text is Some <==> valid_utf8(bytes@),
        text matches Some(s) ==> encode_utf8(s@) == bytes@,
{
    match String::from_utf8(bytes) {
        Ok(text) => Some(text),
        Err(_) => None,
    }
}

/// Lays an entry out as one record, if it fits into one.
pub fn encode_record(sequence: u64, timestamp: u64, event: &RQSEvent) -> (result: Result<
    Vec<u8>,
    LogError,
>)
    ensures
        match result {
            Ok(record) => {
                &&& (EntryView { sequence, timestamp, event: event@ }).fits()
                &&& record@ == (EntryView { sequence, timestamp, event: event@ }).record()
            },
            Err(error) => {
                &&& !(EntryView { sequence, timestamp, event: event@ }).fits()
                &&& error == LogError::EntryTooLarge
            },
        },
{
    let ghost entry = EntryView { sequence, timestamp, event: event@ };
    let id = event.queue_id().as_str().as_bytes();
    if id.len() > MAX_PAYLOAD - FIXED_LEN {
        return Err(LogError::EntryTooLarge);
    }
    let mut payload = u64_to_le_bytes(sequence);
    let mut stamp = u64_to_le_bytes(timestamp);
    let mut number = u64_to_le_bytes(event.number());
    let mut id_len = u32_to_le_bytes(id.len() as u32);
    payload.append(&mut stamp);
    payload.push(event.tag());
    payload.append(&mut number);
    payload.append(&mut id_len);
    payload.extend_from_slice(id);
    match event.body() {
        Some(body) => {
            let text = body.as_str().as_bytes();
            if text.len() > MAX_PAYLOAD - FIXED_LEN - id.len() {
                return Err(LogError::EntryTooLarge);
            }
            payload.extend_from_slice(text);
        },
        None => {
            assert(encode_utf8(Seq::<char>::empty()) =~= Seq::<u8>::empty()) by {
                reveal_with_fuel(encode_utf8, 1);
            }
        },
    }
    assert(payload@ =~= entry.payload());
    let mut record = u32_to_le_bytes(payload.len() as u32);
    let mut sum = u32_to_le_bytes(checksum_of(payload.as_slice()));
    record.append(&mut sum);
    record.append(&mut payload);
    assert(record@ =~= entry.record());
    Ok(record)
}

impl LogEntry {
    /// Reads the entry that a payload holds, if it holds one.
    pub fn parse(payload: &[u8]) -> (entry: Option<LogEntry>)
        ensures
            match parse_payload(payload@) {
                Some(view) => entry matches Some(e) && e@ == view,
                None => entry is None,
            },
    {
        if payload.len() < FIXED_LEN {
            return None;
        }
        let id_len = u32_from_le_bytes(slice_subrange(payload, 25, 29)) as usize;
        if id_len > payload.len() - FIXED_LEN {
            return None;
        }
        let id_bytes = slice_to_vec(slice_subrange(payload, FIXED_LEN, FIXED_LEN + id_len));
        let body_bytes = slice_to_vec(
            slice_subrange(payload, FIXED_LEN + id_len, payload.len()),
        );
        let id = match string_from_utf8(id_bytes) {
            Some(id) => id,
            None => {
                return None;
            },
        };
        let body = match string_from_utf8(body_bytes) {
            Some(body) => body,
            None => {
                return None;
            },
        };
        proof {
            encode_utf8_decode_utf8(id@);
            encode_utf8_decode_utf8(body@);
        }
        let number = u64_from_le_bytes(slice_subrange(payload, 17, 25));
        match RQSEvent::assemble(payload[16], number, id, body) {
            Some(event) => Some(
                LogEntry {
                    sequence: u64_from_le_bytes(slice_subrange(payload, 0, 8)),
                    timestamp: u64_from_le_bytes(slice_subrange(payload, 8, 16)),
                    event,
                },
            ),
            None => None,
        }
    }

    /// Lays the entry out as one record, if it fits into one.
    pub fn encode(&self) -> (result: Result<Vec<u8>, LogError>)
        ensures
            match result {
                Ok(record) => self@.fits() && record@ == self@.record(),
                Err(error) => !self@.fits() && error == LogError::EntryTooLarge,
            },
    {
        encode_record(self.sequence, self.timestamp, &self.event)
    }
}

} // verus!
