//! The persistent log: each admitted fragment is appended to an hourly file
//! as a self-delimiting binary record. This module defines the record format,
//! the encoder used on admission, a decoder that readers use to scan a file
//! back, and the proof that decoding inverts encoding.
//!
//! Record layout, offsets in bytes:
//! received_at (8, u64 little-endian), origin tag (1), length L (4, u32
//! little-endian), then the L fragment bytes. No file header, no checksum.

use vstd::prelude::*;
use vstd::bytes::spec_u32_from_le_bytes;
use vstd::bytes::spec_u32_to_le_bytes;
use vstd::bytes::spec_u64_from_le_bytes;
use vstd::bytes::spec_u64_to_le_bytes;
use vstd::bytes::lemma_auto_spec_u32_to_from_le_bytes;
use vstd::bytes::lemma_auto_spec_u64_to_from_le_bytes;
use vstd::bytes::u32_to_le_bytes;
use vstd::bytes::u64_to_le_bytes;
use vstd::bytes::u32_from_le_bytes;
use vstd::bytes::u64_from_le_bytes;
use crate::fragment::FragmentOrigin;

verus! {

/// Bytes of the fixed-size prefix of a record (timestamp, tag, length).
pub const RECORD_HEADER_LEN: usize = 13;

/// Wire tag of an origin: 0 for Rest, 1 for Network.
pub open spec fn spec_origin_tag(origin: FragmentOrigin) -> u8 {
    match origin {
        FragmentOrigin::Rest => 0,
        FragmentOrigin::Network => 1,
    }
}

/// Computes `spec_origin_tag`.
pub fn origin_tag(origin: FragmentOrigin) -> (r: u8)
    ensures
        r == spec_origin_tag(origin),
{
    match origin {
        FragmentOrigin::Rest => 0,
        FragmentOrigin::Network => 1,
    }
}

/// The origin encoded by a wire tag, for tags 0 and 1.
pub open spec fn spec_origin_of_tag(tag: u8) -> FragmentOrigin {
    if tag == 0 {
        FragmentOrigin::Rest
    } else {
        FragmentOrigin::Network
    }
}

/// One record of the persistent log, as a value: when it was received, where
/// it came from, and the fragment bytes.
pub struct Record {
    pub received_at: u64,
    pub origin: FragmentOrigin,
    pub data: Vec<u8>,
}

/// The mathematical model of a record: the triple of its fields.
pub type RecordModel = (u64, FragmentOrigin, Seq<u8>);

impl View for Record {
    type V = RecordModel;

    open spec fn view(&self) -> RecordModel {
        (self.received_at, self.origin, self.data@)
    }
}

/// The bytes of one encoded record.
pub open spec fn spec_record_bytes(received_at: u64, origin: FragmentOrigin, data: Seq<u8>) -> Seq<u8> {
    spec_u64_to_le_bytes(received_at) + seq![spec_origin_tag(origin)]
        + spec_u32_to_le_bytes(data.len() as u32) + data
}

/// The bytes of a sequence of records, encoded one after the other.
pub open spec fn spec_encode_all(records: Seq<RecordModel>) -> Seq<u8>
    decreases records.len(),
{
    if records.len() == 0 {
        Seq::empty()
    } else {
        spec_record_bytes(records[0].0, records[0].1, records[0].2)
            + spec_encode_all(records.drop_first())
    }
}

/// Decodes the record at the front of `b`: its fields and the number of
/// bytes it occupies. `None` when the bytes do not start with a well-formed
/// record.
pub open spec fn spec_decode_record(b: Seq<u8>) -> Option<(RecordModel, int)> {
    if b.len() < 13 {
        None
    } else if b[8] != 0 && b[8] != 1 {
        None
    } else {
        let len = spec_u32_from_le_bytes(b.subrange(9, 13)) as int;
        if b.len() < 13 + len {
            None
        } else {
            Some(
                (
                    (
                        spec_u64_from_le_bytes(b.subrange(0, 8)),
                        spec_origin_of_tag(b[8]),
                        b.subrange(13, 13 + len),
                    ),
                    13 + len,
                ),
            )
        }
    }
}

/// Decodes a whole byte stream into the records it holds, scanning front to
/// back. `None` when any point of the stream is not a well-formed record.
pub open spec fn spec_decode_all(b: Seq<u8>) -> Option<Seq<RecordModel>>
    decreases b.len(),
{
    if b.len() == 0 {
        Some(Seq::empty())
    } else {
        match spec_decode_record(b) {
            None => None,
            Some((r, used)) => {
                match spec_decode_all(b.subrange(used, b.len() as int)) {
                    None => None,
                    Some(rest) => Some(seq![r] + rest),
                }
            },
        }
    }
}

/// Appends the encoding of one record to `out`.
pub fn append_record(out: &mut Vec<u8>, received_at: u64, origin: FragmentOrigin, data: &Vec<u8>)
    requires
        data@.len() <= u32::MAX,
    ensures
        final(out)@ == old(out)@ + spec_record_bytes(received_at, origin, data@),
{
    let ghost prefix = out@;
    let mut ts = u64_to_le_bytes(received_at);
    out.append(&mut ts);
    out.push(origin_tag(origin));
    let mut len_bytes = u32_to_le_bytes(data.len() as u32);
    out.append(&mut len_bytes);
    let ghost before_data = out@;
    let mut i: usize = 0;
    while i < data.len()
        invariant
            0 <= i <= data@.len(),
            out@ == before_data + data@.subrange(0, i as int),
        decreases data@.len() - i,
    {
        out.push(data[i]);
        i += 1;
    }
    assert(out@ =~= prefix + spec_record_bytes(received_at, origin, data@));
}

/// Reads the record that starts at `start` in `buf`, returning it with the
/// position of the byte after it; `None` exactly where the model decoder
/// fails on the remaining bytes.
pub fn decode_record(buf: &Vec<u8>, start: usize) -> (r: Option<(Record, usize)>)
    requires
        start <= buf@.len(),
    ensures
        match r {
            Some((rec, next)) => {
                &&& spec_decode_record(buf@.subrange(start as int, buf@.len() as int))
                    == Some((rec@, next - start))
                &&& start < next <= buf@.len()
            },
            None => spec_decode_record(buf@.subrange(start as int, buf@.len() as int)) is None,
        },
{
    let ghost tail = buf@.subrange(start as int, buf@.len() as int);
    let n = buf.len();
    if n - start < RECORD_HEADER_LEN {
        return None;
    }
    let tag = buf[start + 8];
    assert(tag == tail[8]);
    if tag != 0 && tag != 1 {
        return None;
    }
    let mut ts_bytes: Vec<u8> = Vec::new();
    let mut i: usize = 0;
    while i < 8
        invariant
            0 <= i <= 8,
            start + 13 <= n,
            n == buf@.len(),
            ts_bytes@ == buf@.subrange(start as int, start + i),
        decreases 8 - i,
    {
        ts_bytes.push(buf[start + i]);
        i += 1;
    }
    let received_at = u64_from_le_bytes(ts_bytes.as_slice());
    assert(ts_bytes@ =~= tail.subrange(0, 8));
    let mut len_bytes: Vec<u8> = Vec::new();
    let mut j: usize = 0;
    while j < 4
        invariant
            0 <= j <= 4,
            start + 13 <= n,
            n == buf@.len(),
            len_bytes@ == buf@.subrange(start + 9, start + 9 + j),
        decreases 4 - j,
    {
        len_bytes.push(buf[start + 9 + j]);
        j += 1;
    }
    let len = u32_from_le_bytes(len_bytes.as_slice()) as usize;
    assert(len_bytes@ =~= tail.subrange(9, 13));
    if n - (start + 13) < len {
        assert(tail.len() < 13 + len);
        return None;
    }
    let mut data: Vec<u8> = Vec::new();
    let mut k: usize = 0;
    while k < len
        invariant
            0 <= k <= len,
            start + 13 + len <= n,
            n == buf@.len(),
            data@ == buf@.subrange(start + 13, start + 13 + k),
        decreases len - k,
    {
        data.push(buf[start + 13 + k]);
        k += 1;
    }
    assert(data@ =~= tail.subrange(13, 13 + len));
    let origin = if tag == 0 {
        FragmentOrigin::Rest
    } else {
        FragmentOrigin::Network
    };
    assert(spec_decode_record(tail) == Some(((received_at, origin, data@), 13 + len as int)));
    Some((Record { received_at, origin, data }, start + 13 + len))
}

/// Scans a whole byte stream back into records, as a reader of a persistent
/// log file does; `None` exactly where the model decoder fails.
pub fn decode_all(buf: &Vec<u8>) -> (r: Option<Vec<Record>>)
    ensures
        match r {
            Some(records) => {
                &&& spec_decode_all(buf@) matches Some(models)
                &&& records@.len() == models.len()
                &&& forall|i: int| 0 <= i < records@.len() ==> records@[i]@ == models[i]
            },
            None => spec_decode_all(buf@) is None,
        },
{
    let mut out: Vec<Record> = Vec::new();
    let mut pos: usize = 0;
    proof {
        assert(buf@.subrange(0, buf@.len() as int) =~= buf@);
        assert(out@.map_values(|rec: Record| rec@) =~= Seq::<RecordModel>::empty());
        match spec_decode_all(buf@) {
            None => {},
            Some(s) => {
                assert(Seq::<RecordModel>::empty() + s =~= s);
            },
        }
    }
    loop
        invariant
            pos <= buf@.len(),
            spec_decode_all(buf@) == spec_prepend_models(
                out@.map_values(|rec: Record| rec@),
                spec_decode_all(buf@.subrange(pos as int, buf@.len() as int)),
            ),
        decreases buf@.len() - pos,
    {
        let ghost tail = buf@.subrange(pos as int, buf@.len() as int);
        if pos == buf.len() {
            assert(tail.len() == 0);
            assert(spec_decode_all(tail) == Some(Seq::<RecordModel>::empty()));
            assert(out@.map_values(|rec: Record| rec@) + Seq::<RecordModel>::empty()
                =~= out@.map_values(|rec: Record| rec@));
            return Some(out);
        }
        match decode_record(buf, pos) {
            None => {
                assert(spec_decode_record(tail) is None);
                assert(tail.len() > 0);
                return None;
            },
            Some((rec, next)) => {
                let ghost models = out@.map_values(|r2: Record| r2@);
                let ghost new_tail = buf@.subrange(next as int, buf@.len() as int);
                proof {
                    assert(tail.len() > 0);
                    assert(spec_decode_record(tail) == Some((rec@, next - pos)));
                    assert(tail.subrange(next - pos, tail.len() as int) =~= new_tail);
                    match spec_decode_all(new_tail) {
                        None => {
                            assert(spec_decode_all(tail) is None);
                        },
                        Some(restseq) => {
                            assert(spec_decode_all(tail) == Some(seq![rec@] + restseq));
                            assert(models + (seq![rec@] + restseq)
                                =~= (out@ + seq![rec]).map_values(|r2: Record| r2@) + restseq);
                        },
                    }
                }
                out.push(rec);
                pos = next;
            },
        }
    }
}

/// `Some(front + rest)` when `rest` decoded, else `None`.
pub open spec fn spec_prepend_models(front: Seq<RecordModel>, rest: Option<Seq<RecordModel>>) -> Option<Seq<RecordModel>> {
    match rest {
        None => None,
        Some(r) => Some(front + r),
    }
}

/// Decoding the front record of an encoding recovers the first record.
proof fn lemma_decode_front(received_at: u64, origin: FragmentOrigin, data: Seq<u8>, rest: Seq<u8>)
    requires
        data.len() <= u32::MAX,
    ensures
        spec_decode_record(spec_record_bytes(received_at, origin, data) + rest)
            == Some(((received_at, origin, data), 13 + data.len() as int)),
{
    lemma_auto_spec_u64_to_from_le_bytes();
    lemma_auto_spec_u32_to_from_le_bytes();
    let b = spec_record_bytes(received_at, origin, data) + rest;
    assert(b.len() >= 13 + data.len());
    assert(b.subrange(0, 8) =~= spec_u64_to_le_bytes(received_at));
    assert(b[8] == spec_origin_tag(origin));
    assert(b.subrange(9, 13) =~= spec_u32_to_le_bytes(data.len() as u32));
    assert(spec_u32_from_le_bytes(b.subrange(9, 13)) == data.len());
    assert(spec_origin_of_tag(spec_origin_tag(origin)) == origin);
    assert(b.subrange(13, 13 + data.len() as int) =~= data);
}

/// Round trip of the persistent log: reading back the bytes written for any
/// sequence of admissions yields the same records, in the same order.
pub proof fn lemma_record_round_trip(records: Seq<RecordModel>)
    requires
        forall|i: int| 0 <= i < records.len() ==> (#[trigger] records[i]).2.len() <= u32::MAX,
    ensures
        spec_decode_all(spec_encode_all(records)) == Some(records),
    decreases records.len(),
{
    if records.len() == 0 {
        assert(spec_encode_all(records).len() == 0);
    } else {
        lemma_auto_spec_u64_to_from_le_bytes();
        lemma_auto_spec_u32_to_from_le_bytes();
        let head = records[0];
        let first = spec_record_bytes(head.0, head.1, head.2);
        let rest_bytes = spec_encode_all(records.drop_first());
        let b = first + rest_bytes;
        assert(spec_encode_all(records) == b);
        assert(first.len() == 13 + head.2.len());
        lemma_decode_front(head.0, head.1, head.2, rest_bytes);
        assert(b.len() >= 13 + head.2.len());
        assert(b.subrange(13 + head.2.len() as int, b.len() as int) =~= rest_bytes);
        lemma_record_round_trip(records.drop_first());
        assert(spec_decode_all(b) == Some(seq![(head.0, head.1, head.2)] + records.drop_first()));
        assert(seq![(head.0, head.1, head.2)] + records.drop_first() =~= records);
    }
}

/// The open persistent log file, modelled as the wall-clock hour it was
/// opened for together with the record bytes written to it so far. The host
/// process mirrors every appended byte into the real file.
pub struct PersistentLog {
    pub hour: u64,
    pub written: Vec<u8>,
}

impl PersistentLog {
    /// A freshly opened, empty log file for the given hour.
    pub fn new(hour: u64) -> (r: PersistentLog)
        ensures
            r.hour == hour,
            r.written@.len() == 0,
    {
        PersistentLog { hour, written: Vec::new() }
    }

    /// Appends one record for an admitted fragment.
    pub fn append(&mut self, received_at: u64, origin: FragmentOrigin, data: &Vec<u8>)
        requires
            data@.len() <= u32::MAX,
        ensures
            final(self).hour == old(self).hour,
            final(self).written@ == old(self).written@
                + spec_record_bytes(received_at, origin, data@),
    {
        append_record(&mut self.written, received_at, origin, data);
    }
}

} // verus!
