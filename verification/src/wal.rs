//! The per-collection write-ahead log, modelled segment by segment.
//!
//! A segment is the byte sequence of one log file: a concatenation of
//! records, each a 32-bit operation tag followed by a document in the
//! canonical codec. The manager holds every segment it has produced, the
//! last being current: `write` appends a record to the current segment and
//! hands the encoded bytes back for the caller to persist and sync;
//! `rotate` seals the current segment and starts the next; `read` decodes
//! the current segment until the first decode failure, which counts as
//! end-of-file.

use crate::document::{
    spec_decode_doc_at, spec_doc_bytes, DocView, Document,
};
use crate::memtable::FlatMemTable;
use vstd::bytes::*;
use vstd::prelude::*;

verus! {

/// A logged operation.
#[derive(Debug, Clone, Copy, PartialEq, Eq, Structural)]
pub enum Operation {
    Insert,
    Delete,
}

impl Operation {
    /// The operation's name, as its log-friendly word.
    pub fn label(&self) -> (r: &'static str)
        ensures
            self is Insert ==> r@ == "insert"@,
            self is Delete ==> r@ == "delete"@,
    {
        match self {
            Operation::Insert => "insert",
            Operation::Delete => "delete",
        }
    }
}

/// The 32-bit tag that opens a record.
pub open spec fn op_tag(op: Operation) -> u32 {
    match op {
        Operation::Insert => 0,
        Operation::Delete => 1,
    }
}

/// The byte encoding of one WAL record.
pub open spec fn spec_record_bytes(op: Operation, d: DocView) -> Seq<u8> {
    spec_u32_to_le_bytes(op_tag(op)) + spec_doc_bytes(d)
}

/// Decode one record starting at `pos`: the tag, then the document.
pub open spec fn spec_decode_record_at(b: Seq<u8>, pos: int) -> Option<
    ((Operation, DocView), int),
> {
    if !(0 <= pos && pos + 4 <= b.len()) {
        None
    } else {
        let tag = spec_u32_from_le_bytes(b.subrange(pos, pos + 4));
        if tag != 0 && tag != 1 {
            None
        } else {
            let op = if tag == 0 {
                Operation::Insert
            } else {
                Operation::Delete
            };
            match spec_decode_doc_at(b, pos + 4) {
                Some((d, q)) => Some(((op, d), q)),
                None => None,
            }
        }
    }
}

pub proof fn lemma_decode_record_at_wf(b: Seq<u8>, pos: int)
    requires
        spec_decode_record_at(b, pos) is Some,
    ensures
        ({
            let (r, q) = spec_decode_record_at(b, pos)->0;
            r.1.wf() && pos + 36 <= q <= b.len()
        }),
{
    crate::document::lemma_decode_doc_at_wf(b, pos + 4);
}

/// The records of a segment, decoded from `pos` until the first failure.
pub open spec fn spec_decode_records(b: Seq<u8>, pos: int) -> Seq<(Operation, DocView)>
    decreases b.len() - pos when 0 <= pos <= b.len()
{
    match spec_decode_record_at(b, pos) {
        Some((r, q)) => {
            if pos < q <= b.len() {
                seq![r] + spec_decode_records(b, q)
            } else {
                seq![r]
            }
        },
        None => Seq::empty(),
    }
}

/// Decoding a segment inverts encoding it: the records written are the
/// records read back, in order.
pub proof fn lemma_decode_records_of_encoding(b: Seq<u8>, records: Seq<(Operation, DocView)>)
    requires
        forall|i: int| 0 <= i < records.len() ==> (#[trigger] records[i]).1.wf(),
        b == spec_segment_bytes(records),
    ensures
        spec_decode_records(b, 0) == records,
{
    lemma_decode_records_of_encoding_from(b, records, 0);
}

/// The byte image of a record sequence.
pub open spec fn spec_segment_bytes(records: Seq<(Operation, DocView)>) -> Seq<u8>
    decreases records.len(),
{
    if records.len() == 0 {
        Seq::empty()
    } else {
        spec_segment_bytes(records.drop_last()) + spec_record_bytes(
            records.last().0,
            records.last().1,
        )
    }
}

pub proof fn lemma_segment_bytes_push(records: Seq<(Operation, DocView)>, op: Operation, d: DocView)
    ensures
        spec_segment_bytes(records.push((op, d))) == spec_segment_bytes(records)
            + spec_record_bytes(op, d),
{
    assert(records.push((op, d)).drop_last() =~= records);
    assert(records.push((op, d)).last() == (op, d));
}

/// Encoding distributes over splitting a record sequence anywhere.
proof fn lemma_segment_bytes_split(records: Seq<(Operation, DocView)>, k: int)
    requires
        0 <= k <= records.len(),
    ensures
        spec_segment_bytes(records) == spec_segment_bytes(records.take(k)) + spec_segment_bytes(
            records.skip(k),
        ),
    decreases records.len() - k,
{
    if k == records.len() {
        assert(records.take(k) =~= records);
        assert(spec_segment_bytes(records.skip(k)) =~= Seq::empty());
        assert(spec_segment_bytes(records) =~= spec_segment_bytes(records.take(k))
            + spec_segment_bytes(records.skip(k)));
    } else {
        let next = records[k];
        lemma_segment_bytes_split(records, k + 1);
        assert(records.take(k + 1).drop_last() =~= records.take(k));
        assert(records.take(k + 1).last() == next);
        let tail = records.skip(k);
        assert(tail.len() > 0);
        assert(tail[0] == next);
        assert(tail.skip(1) =~= records.skip(k + 1));
        lemma_segment_bytes_head(tail);
        assert((spec_segment_bytes(records.take(k)) + spec_record_bytes(next.0, next.1))
            + spec_segment_bytes(records.skip(k + 1)) =~= spec_segment_bytes(records.take(k)) + (
        spec_record_bytes(next.0, next.1) + spec_segment_bytes(records.skip(k + 1))));
    }
}

/// Peeling the first record off an encoding.
proof fn lemma_segment_bytes_head(records: Seq<(Operation, DocView)>)
    requires
        records.len() > 0,
    ensures
        spec_segment_bytes(records) == spec_record_bytes(records[0].0, records[0].1)
            + spec_segment_bytes(records.skip(1)),
    decreases records.len(),
{
    if records.len() == 1 {
        assert(records.drop_last() =~= Seq::empty());
        assert(records.skip(1) =~= Seq::empty());
        assert(spec_segment_bytes(records) =~= spec_record_bytes(records[0].0, records[0].1)
            + spec_segment_bytes(records.skip(1)));
    } else {
        lemma_segment_bytes_head(records.drop_last());
        assert(records.drop_last()[0] == records[0]);
        assert(records.drop_last().skip(1) =~= records.skip(1).drop_last());
        assert(records.skip(1).last() == records.last());
        assert((spec_record_bytes(records[0].0, records[0].1) + spec_segment_bytes(
            records.skip(1).drop_last(),
        )) + spec_record_bytes(records.last().0, records.last().1) =~= spec_record_bytes(
            records[0].0,
            records[0].1,
        ) + spec_segment_bytes(records.skip(1)));
    }
}

/// One record decodes at the head of its encoding, wherever it stands.
pub proof fn lemma_decode_record_encode(
    prefix: Seq<u8>,
    op: Operation,
    d: DocView,
    suffix: Seq<u8>,
)
    requires
        d.wf(),
    ensures
        spec_decode_record_at(prefix + spec_record_bytes(op, d) + suffix, prefix.len() as int)
            == Some(((op, d), prefix.len() + spec_record_bytes(op, d).len() as int)),
{
    lemma_auto_spec_u32_to_from_le_bytes();
    let rec = spec_record_bytes(op, d);
    let b = prefix + rec + suffix;
    let pos = prefix.len() as int;
    assert(rec.subrange(0, 4) =~= spec_u32_to_le_bytes(op_tag(op)));
    crate::document::lemma_subrange_of_concat_middle(prefix, rec, suffix, 0, 4);
    assert(b.subrange(pos, pos + 4) == spec_u32_to_le_bytes(op_tag(op)));
    let prefix2 = prefix + spec_u32_to_le_bytes(op_tag(op));
    assert(prefix2 + spec_doc_bytes(d) + suffix =~= b);
    crate::document::lemma_decode_doc_encode(prefix2, d, suffix);
    crate::document::lemma_doc_bytes_len(d);
}

proof fn lemma_decode_records_of_encoding_from(
    b: Seq<u8>,
    records: Seq<(Operation, DocView)>,
    k: int,
)
    requires
        forall|i: int| 0 <= i < records.len() ==> (#[trigger] records[i]).1.wf(),
        0 <= k <= records.len(),
        b == spec_segment_bytes(records),
    ensures
        spec_decode_records(b, spec_segment_bytes(records.take(k)).len() as int) == records.skip(
            k,
        ),
    decreases records.len() - k,
{
    let done = spec_segment_bytes(records.take(k));
    let pos = done.len() as int;
    lemma_segment_bytes_split(records, k);
    if k == records.len() {
        assert(records.skip(k) =~= Seq::<(Operation, DocView)>::empty());
        assert(spec_segment_bytes(records.skip(k)) =~= Seq::<u8>::empty());
        assert(pos == b.len());
        // Nothing decodes at the very end of the segment.
        assert(spec_decode_record_at(b, pos) is None);
        assert(spec_decode_records(b, pos) =~= records.skip(k));
    } else {
        let next = records[k];
        assert(next.1.wf());
        let rest = records.skip(k);
        lemma_segment_bytes_head(rest);
        assert(rest[0] == next);
        assert(rest.skip(1) =~= records.skip(k + 1));
        let tail_bytes = spec_segment_bytes(records.skip(k + 1));
        assert(b =~= done + spec_record_bytes(next.0, next.1) + tail_bytes);
        lemma_decode_record_encode(done, next.0, next.1, tail_bytes);
        let q = pos + spec_record_bytes(next.0, next.1).len() as int;
        assert(spec_decode_record_at(b, pos) == Some(((next.0, next.1), q)));
        lemma_decode_record_at_wf(b, pos);
        assert(records.take(k + 1).drop_last() =~= records.take(k));
        assert(records.take(k + 1).last() == next);
        assert(spec_segment_bytes(records.take(k + 1)).len() == q);
        lemma_decode_records_of_encoding_from(b, records, k + 1);
        assert(spec_decode_records(b, q) == records.skip(k + 1));
        assert(spec_decode_records(b, pos) =~= seq![(next.0, next.1)] + records.skip(k + 1));
        assert(seq![(next.0, next.1)] + records.skip(k + 1) =~= records.skip(k));
    }
}

// ---------------------------------------------------------------------------
// Executable encoding and decoding.
// ---------------------------------------------------------------------------
/// Encode one `(operation, document)` record.
pub fn encode_record(op: Operation, doc: &Document) -> (r: Vec<u8>)
    ensures
        r@ == spec_record_bytes(op, doc@),
        doc@.wf(),
{
    let mut out: Vec<u8> = Vec::new();
    let tag: u32 = match op {
        Operation::Insert => 0,
        Operation::Delete => 1,
    };
    crate::codec::push_u32_le(&mut out, tag);
    let mut body = doc.serialize();
    out.append(&mut body);
    out
}

/// Decode one record beginning at `pos`; on success also return the
/// position just past it.
pub fn decode_record_at(data: &Vec<u8>, pos: usize) -> (r: Option<(Operation, Document, usize)>)
    ensures
        match r {
            Some((op, d, q)) => spec_decode_record_at(data@, pos as int) == Some(
                ((op, d@), q as int),
            ),
            None => spec_decode_record_at(data@, pos as int) is None,
        },
{
    let len = data.len();
    if pos > len || len - pos < 4 {
        return None;
    }
    let tag = crate::codec::read_u32_le_at(data.as_slice(), pos);
    if tag != 0 && tag != 1 {
        return None;
    }
    let op = if tag == 0 {
        Operation::Insert
    } else {
        Operation::Delete
    };
    match Document::decode_at(data, pos + 4) {
        Some((d, q)) => Some((op, d, q)),
        None => None,
    }
}

/// The view of a decoded record list.
pub open spec fn records_view(rs: Seq<(Operation, Document)>) -> Seq<(Operation, DocView)> {
    rs.map_values(|p: (Operation, Document)| (p.0, p.1@))
}

/// Decode a whole segment, from the start until the first failure.
pub fn decode_segment(data: &Vec<u8>) -> (r: Vec<(Operation, Document)>)
    ensures
        records_view(r@) == spec_decode_records(data@, 0),
{
    let mut records: Vec<(Operation, Document)> = Vec::new();
    let mut pos: usize = 0;
    loop
        invariant
            pos <= data@.len(),
            spec_decode_records(data@, 0) == records_view(records@) + spec_decode_records(
                data@,
                pos as int,
            ),
        decreases data@.len() - pos,
    {
        match decode_record_at(data, pos) {
            Some((op, d, q)) => {
                proof {
                    lemma_decode_record_at_wf(data@, pos as int);
                    assert(spec_decode_records(data@, pos as int) == seq![(op, d@)]
                        + spec_decode_records(data@, q as int));
                }
                let ghost before = records@;
                records.push((op, d));
                proof {
                    assert(records_view(records@) =~= records_view(before).push((op, d@)));
                    assert(records_view(before).push((op, d@)) + spec_decode_records(
                        data@,
                        q as int,
                    ) =~= records_view(before) + (seq![(op, d@)] + spec_decode_records(
                        data@,
                        q as int,
                    )));
                }
                pos = q;
            },
            None => {
                proof {
                    assert(spec_decode_records(data@, pos as int) =~= Seq::<(
                        Operation,
                        DocView,
                    )>::empty());
                    assert(records_view(records@) + spec_decode_records(data@, pos as int)
                        =~= records_view(records@));
                }
                return records;
            },
        }
    }
}

// ---------------------------------------------------------------------------
// Replay.
// ---------------------------------------------------------------------------
/// The effect of one record on a memtable's contents.
pub open spec fn apply_record(m: Map<u128, DocView>, r: (Operation, DocView)) -> Map<
    u128,
    DocView,
> {
    match r.0 {
        Operation::Insert => m.insert(r.1.id, r.1),
        Operation::Delete => m.remove(r.1.id),
    }
}

/// The effect of a record sequence, applied in order.
pub open spec fn apply_records(m: Map<u128, DocView>, rs: Seq<(Operation, DocView)>) -> Map<
    u128,
    DocView,
>
    decreases rs.len(),
{
    if rs.len() == 0 {
        m
    } else {
        apply_record(apply_records(m, rs.drop_last()), rs.last())
    }
}

/// Apply decoded records to a memtable in order: the recovery step.
pub fn replay_into(mem: &mut FlatMemTable, records: &Vec<(Operation, Document)>)
    requires
        old(mem).wf(),
    ensures
        final(mem).wf(),
        final(mem).contents() == apply_records(old(mem).contents(), records_view(records@)),
{
    let n = records.len();
    let mut i: usize = 0;
    while i < n
        invariant
            n == records@.len(),
            i <= n,
            mem.wf(),
            mem.contents() == apply_records(old(mem).contents(), records_view(records@).take(
                i as int,
            )),
        decreases n - i,
    {
        let (op, doc) = &records[i];
        match op {
            Operation::Insert => {
                mem.upsert(doc.duplicate());
            },
            Operation::Delete => {
                mem.delete(&doc.id);
            },
        }
        proof {
            let rv = records_view(records@);
            assert(rv.take(i + 1).drop_last() =~= rv.take(i as int));
            assert(rv.take(i + 1).last() == rv[i as int]);
        }
        i = i + 1;
    }
    proof {
        assert(records_view(records@).take(records@.len() as int) =~= records_view(records@));
    }
}

// ---------------------------------------------------------------------------
// The manager.
// ---------------------------------------------------------------------------
/// The per-collection log: every segment produced so far, the last current.
/// Segment `s` is the byte image of log file `{name}_{s:09}.wal`.
pub struct WalManager {
    pub name: String,
    pub seq_no: u64,
    pub segments: Vec<Vec<u8>>,
}

impl WalManager {
    pub open spec fn wf(self) -> bool {
        &&& self.segments@.len() >= 1
        &&& self.seq_no == self.segments@.len() - 1
    }

    /// The byte image of the current segment.
    pub open spec fn current_segment(self) -> Seq<u8>
        recommends
            self.wf(),
    {
        self.segments@.last()@
    }

    /// A fresh log for `name`: sequence number zero, one empty segment.
    pub fn new(name: &str) -> (r: WalManager)
        ensures
            r.wf(),
            r.name@ == name@,
            r.seq_no == 0,
            r.segments@.len() == 1,
            r.current_segment() == Seq::<u8>::empty(),
    {
        let mut segments: Vec<Vec<u8>> = Vec::new();
        segments.push(Vec::new());
        WalManager { name: String::from_str(name), seq_no: 0, segments }
    }

    pub fn get_seq_no(&self) -> (r: u64)
        ensures
            r == self.seq_no,
    {
        self.seq_no
    }

    /// Append one record to the current segment. The returned bytes are
    /// exactly what was appended: the caller persists them to the current
    /// segment file and syncs before relying on durability.
    pub fn write(&mut self, op: Operation, data: &Document) -> (r: Vec<u8>)
        requires
            old(self).wf(),
        ensures
            final(self).wf(),
            r@ == spec_record_bytes(op, data@),
            data@.wf(),
            final(self).name == old(self).name,
            final(self).seq_no == old(self).seq_no,
            final(self).segments@.len() == old(self).segments@.len(),
            final(self).current_segment() == old(self).current_segment() + r@,
            forall|s: int|
                0 <= s < old(self).segments@.len() - 1 ==> final(self).segments@[s] == old(
                    self,
                ).segments@[s],
    {
        let rec = encode_record(op, data);
        let mut copy = rec.clone();
        proof {
            assert(copy@ =~= rec@);
        }
        let mut seg = self.segments.pop().unwrap();
        seg.append(&mut copy);
        self.segments.push(seg);
        proof {
            assert(final(self).segments@.last()@ =~= old(self).segments@.last()@ + rec@);
            assert(forall|s: int|
                0 <= s < old(self).segments@.len() - 1 ==> final(self).segments@[s] == old(
                    self,
                ).segments@[s]);
        }
        rec
    }

    /// The records of the current segment, decoded until the first failure.
    pub fn read(&self) -> (r: Vec<(Operation, Document)>)
        requires
            self.wf(),
        ensures
            records_view(r@) == spec_decode_records(self.current_segment(), 0),
    {
        let idx = self.segments.len() - 1;
        decode_segment(&self.segments[idx])
    }

    /// The records of segment `seq`, for any segment produced so far.
    pub fn read_segment(&self, seq: u64) -> (r: Option<Vec<(Operation, Document)>>)
        requires
            self.wf(),
        ensures
            match r {
                Some(records) => seq <= self.seq_no && records_view(records@)
                    == spec_decode_records(self.segments@[seq as int]@, 0),
                None => seq > self.seq_no,
            },
    {
        if seq > self.get_seq_no() {
            return None;
        }
        let n = self.segments.len();
        proof {
            assert(seq < n);
        }
        let idx = seq as usize;
        Some(decode_segment(&self.segments[idx]))
    }

    /// Seal the current segment and open the next: the sequence number
    /// advances and the new current segment is empty. Sealed segments are
    /// kept and stay readable by their sequence number.
    pub fn rotate(&mut self)
        requires
            old(self).wf(),
            old(self).seq_no < u64::MAX,
        ensures
            final(self).wf(),
            final(self).name == old(self).name,
            final(self).seq_no == old(self).seq_no + 1,
            final(self).segments@.len() == old(self).segments@.len() + 1,
            final(self).current_segment() == Seq::<u8>::empty(),
            forall|s: int|
                0 <= s < old(self).segments@.len() ==> final(self).segments@[s] == old(
                    self,
                ).segments@[s],
    {
        self.seq_no = self.seq_no + 1;
        self.segments.push(Vec::new());
    }
}

/// After a rotation nothing remains to read in the current segment, while
/// every sealed segment still reads as it did.
pub proof fn lemma_rotation_boundary(w: WalManager)
    requires
        w.wf(),
        w.current_segment() == Seq::<u8>::empty(),
    ensures
        spec_decode_records(w.current_segment(), 0) == Seq::<(Operation, DocView)>::empty(),
{
    assert(spec_decode_record_at(w.current_segment(), 0) is None);
}

} // verus!
