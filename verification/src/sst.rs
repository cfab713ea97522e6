//! Sorted string tables: the byte-exact file format, the builder that turns
//! a frozen memtable into a file image, and the random-access read path.
//!
//! A file is `[ data section | index section | footer ]`. The data section
//! concatenates the documents' canonical encodings in ascending id order,
//! with no framing between records. The index section is a 64-bit entry
//! count followed by `(id, offset, length)` entries, sorted by id, little-
//! endian. The footer is 64 bytes, big-endian: `min_id`, `max_id`, the index
//! section's offset and size, the entry count, the magic number and the
//! format version.

use crate::codec::{
    bytes_at, push_u128_be, push_u128_le, push_u32_be, push_u32_le, push_u64_be, push_u64_le,
    read_u128_be_at, read_u128_le_at, read_u32_be_at, read_u32_le_at, read_u64_be_at,
    read_u64_le_at, spec_u128_from_be_bytes, spec_u128_to_be_bytes, spec_u32_from_be_bytes,
    spec_u32_to_be_bytes, spec_u64_from_be_bytes, spec_u64_to_be_bytes,
};
use crate::document::{spec_decode_doc_at, spec_doc_bytes, DocView, Document};
use crate::memtable::{at_id, has_id, sorted_by_id, MemTable};
use crate::index::SSTMetadata;
use vstd::bytes::*;
use vstd::prelude::*;

verus! {

/// The magic number every footer carries.
pub const SST_MAGIC: u32 = 0x53535401;

/// The footer's fixed size in bytes.
pub const FOOTER_SIZE: usize = 64;

/// One index-section entry: where the record with `id` lies in the data
/// section.
#[derive(Debug, Clone, Copy, PartialEq, Eq, Structural)]
pub struct IndexEntry {
    pub id: u128,
    pub offset: u64,
    pub length: u32,
}

/// The fixed-size trailer of an SST file.
#[derive(Debug, Clone, Copy, PartialEq, Eq, Structural)]
pub struct Footer {
    pub min_id: u128,
    pub max_id: u128,
    pub index_section_offset: u64,
    pub index_section_size: u64,
    pub entry_count: u64,
    pub magic: u32,
    pub version: u32,
}

/// Errors of the SST read path.
#[derive(Debug)]
pub enum SSTError {
    Io(Option<String>),
    InvalidMagic,
    NotFound,
    DeserializeError(Option<String>),
}

// ---------------------------------------------------------------------------
// Footer codec.
// ---------------------------------------------------------------------------
pub open spec fn spec_footer_bytes(f: Footer) -> Seq<u8> {
    spec_u128_to_be_bytes(f.min_id) + spec_u128_to_be_bytes(f.max_id) + spec_u64_to_be_bytes(
        f.index_section_offset,
    ) + spec_u64_to_be_bytes(f.index_section_size) + spec_u64_to_be_bytes(f.entry_count)
        + spec_u32_to_be_bytes(f.magic) + spec_u32_to_be_bytes(f.version)
}

pub open spec fn spec_footer_from_bytes(b: Seq<u8>) -> Footer
    recommends
        b.len() == 64,
{
    Footer {
        min_id: spec_u128_from_be_bytes(b.subrange(0, 16)),
        max_id: spec_u128_from_be_bytes(b.subrange(16, 32)),
        index_section_offset: spec_u64_from_be_bytes(b.subrange(32, 40)),
        index_section_size: spec_u64_from_be_bytes(b.subrange(40, 48)),
        entry_count: spec_u64_from_be_bytes(b.subrange(48, 56)),
        magic: spec_u32_from_be_bytes(b.subrange(56, 60)),
        version: spec_u32_from_be_bytes(b.subrange(60, 64)),
    }
}

pub proof fn lemma_footer_bytes_len(f: Footer)
    ensures
        spec_footer_bytes(f).len() == 64,
{
    crate::codec::lemma_be_bytes_roundtrip();
}

/// The footer codec round-trips in both directions: a footer reads back
/// from its bytes, and any 64 bytes re-encode to themselves.
pub proof fn lemma_footer_roundtrip(f: Footer, b: Seq<u8>)
    requires
        b.len() == 64,
    ensures
        spec_footer_from_bytes(spec_footer_bytes(f)) == f,
        spec_footer_bytes(spec_footer_from_bytes(b)) == b,
{
    crate::codec::lemma_be_bytes_roundtrip();
    let e = spec_footer_bytes(f);
    assert(e.subrange(0, 16) =~= spec_u128_to_be_bytes(f.min_id));
    assert(e.subrange(16, 32) =~= spec_u128_to_be_bytes(f.max_id));
    assert(e.subrange(32, 40) =~= spec_u64_to_be_bytes(f.index_section_offset));
    assert(e.subrange(40, 48) =~= spec_u64_to_be_bytes(f.index_section_size));
    assert(e.subrange(48, 56) =~= spec_u64_to_be_bytes(f.entry_count));
    assert(e.subrange(56, 60) =~= spec_u32_to_be_bytes(f.magic));
    assert(e.subrange(60, 64) =~= spec_u32_to_be_bytes(f.version));
    let g = spec_footer_from_bytes(b);
    assert(spec_footer_bytes(g) =~= b);
}

impl Footer {
    /// A footer over the given statistics, stamped with the magic number
    /// and format version 1.
    pub fn new(
        min_id: u128,
        max_id: u128,
        index_section_offset: u64,
        index_section_size: u64,
        entry_count: u64,
    ) -> (r: Footer)
        ensures
            r == (Footer {
                min_id,
                max_id,
                index_section_offset,
                index_section_size,
                entry_count,
                magic: SST_MAGIC,
                version: 1u32,
            }),
    {
        Footer {
            min_id,
            max_id,
            index_section_offset,
            index_section_size,
            entry_count,
            magic: SST_MAGIC,
            version: 1,
        }
    }

    /// The footer's 64-byte encoding.
    pub fn to_bytes(&self) -> (r: Vec<u8>)
        ensures
            r@ == spec_footer_bytes(*self),
            r@.len() == 64,
    {
        let mut out: Vec<u8> = Vec::new();
        push_u128_be(&mut out, self.min_id);
        push_u128_be(&mut out, self.max_id);
        push_u64_be(&mut out, self.index_section_offset);
        push_u64_be(&mut out, self.index_section_size);
        push_u64_be(&mut out, self.entry_count);
        push_u32_be(&mut out, self.magic);
        push_u32_be(&mut out, self.version);
        proof {
            lemma_footer_bytes_len(*self);
            assert(out@ =~= spec_footer_bytes(*self));
        }
        out
    }

    /// The footer encoded in a 64-byte buffer.
    pub fn from_bytes(buf: &[u8]) -> (r: Footer)
        requires
            buf@.len() == 64,
        ensures
            r == spec_footer_from_bytes(buf@),
    {
        Footer {
            min_id: read_u128_be_at(buf, 0),
            max_id: read_u128_be_at(buf, 16),
            index_section_offset: read_u64_be_at(buf, 32),
            index_section_size: read_u64_be_at(buf, 40),
            entry_count: read_u64_be_at(buf, 48),
            magic: read_u32_be_at(buf, 56),
            version: read_u32_be_at(buf, 60),
        }
    }
}

// ---------------------------------------------------------------------------
// Index-section codec.
// ---------------------------------------------------------------------------
pub open spec fn spec_entry_bytes(e: IndexEntry) -> Seq<u8> {
    spec_u128_to_le_bytes(e.id) + spec_u64_to_le_bytes(e.offset) + spec_u32_to_le_bytes(e.length)
}

pub open spec fn spec_entries_bytes(es: Seq<IndexEntry>) -> Seq<u8>
    decreases es.len(),
{
    if es.len() == 0 {
        Seq::empty()
    } else {
        spec_entries_bytes(es.drop_last()) + spec_entry_bytes(es.last())
    }
}

/// The index section: the entry count, then the entries.
pub open spec fn spec_index_bytes(es: Seq<IndexEntry>) -> Seq<u8> {
    spec_u64_to_le_bytes(es.len() as u64) + spec_entries_bytes(es)
}

pub proof fn lemma_entries_bytes_len(es: Seq<IndexEntry>)
    ensures
        spec_entries_bytes(es).len() == 28 * es.len(),
    decreases es.len(),
{
    lemma_auto_spec_u128_to_from_le_bytes();
    lemma_auto_spec_u64_to_from_le_bytes();
    lemma_auto_spec_u32_to_from_le_bytes();
    if es.len() > 0 {
        lemma_entries_bytes_len(es.drop_last());
    }
}

pub proof fn lemma_entries_bytes_index(es: Seq<IndexEntry>, i: int)
    requires
        0 <= i < es.len(),
    ensures
        spec_entries_bytes(es).subrange(28 * i, 28 * i + 28) == spec_entry_bytes(es[i]),
    decreases es.len(),
{
    lemma_entries_bytes_len(es);
    lemma_entries_bytes_len(es.drop_last());
    if i == es.len() - 1 {
        assert(spec_entries_bytes(es).subrange(28 * i, 28 * i + 28) =~= spec_entry_bytes(
            es.last(),
        ));
    } else {
        lemma_entries_bytes_index(es.drop_last(), i);
        assert(spec_entries_bytes(es).subrange(28 * i, 28 * i + 28) =~= spec_entries_bytes(
            es.drop_last(),
        ).subrange(28 * i, 28 * i + 28));
    }
}

/// Decode an index section; trailing bytes are ignored.
pub open spec fn spec_decode_index(b: Seq<u8>) -> Option<Seq<IndexEntry>> {
    if b.len() < 8 {
        None
    } else {
        let n = spec_u64_from_le_bytes(b.subrange(0, 8)) as int;
        if 8 + 28 * n > b.len() {
            None
        } else {
            Some(
                Seq::new(
                    n as nat,
                    |i: int|
                        IndexEntry {
                            id: spec_u128_from_le_bytes(b.subrange(8 + 28 * i, 8 + 28 * i + 16)),
                            offset: spec_u64_from_le_bytes(
                                b.subrange(8 + 28 * i + 16, 8 + 28 * i + 24),
                            ),
                            length: spec_u32_from_le_bytes(
                                b.subrange(8 + 28 * i + 24, 8 + 28 * i + 28),
                            ),
                        },
                ),
            )
        }
    }
}

/// Decoding the index section inverts encoding it.
pub proof fn lemma_decode_index_encode(es: Seq<IndexEntry>)
    requires
        es.len() <= u64::MAX,
    ensures
        spec_decode_index(spec_index_bytes(es)) == Some(es),
{
    lemma_auto_spec_u128_to_from_le_bytes();
    lemma_auto_spec_u64_to_from_le_bytes();
    lemma_auto_spec_u32_to_from_le_bytes();
    lemma_entries_bytes_len(es);
    let b = spec_index_bytes(es);
    assert(b.subrange(0, 8) =~= spec_u64_to_le_bytes(es.len() as u64));
    let n = es.len() as int;
    assert(spec_u64_from_le_bytes(b.subrange(0, 8)) == es.len() as u64);
    assert(8 + 28 * n == b.len());
    let decoded = spec_decode_index(b)->0;
    assert forall|i: int| 0 <= i < n implies decoded[i] == es[i] by {
        lemma_entries_bytes_index(es, i);
        let eb = spec_entry_bytes(es[i]);
        assert(b.subrange(8 + 28 * i, 8 + 28 * i + 28) =~= spec_entries_bytes(es).subrange(
            28 * i,
            28 * i + 28,
        ));
        assert(eb.subrange(0, 16) =~= spec_u128_to_le_bytes(es[i].id));
        assert(eb.subrange(16, 24) =~= spec_u64_to_le_bytes(es[i].offset));
        assert(eb.subrange(24, 28) =~= spec_u32_to_le_bytes(es[i].length));
        assert(b.subrange(8 + 28 * i, 8 + 28 * i + 16) =~= eb.subrange(0, 16));
        assert(b.subrange(8 + 28 * i + 16, 8 + 28 * i + 24) =~= eb.subrange(16, 24));
        assert(b.subrange(8 + 28 * i + 24, 8 + 28 * i + 28) =~= eb.subrange(24, 28));
    }
    assert(decoded =~= es);
}

/// Encode the index section of `entries`.
pub fn encode_index(entries: &Vec<IndexEntry>) -> (r: Vec<u8>)
    ensures
        r@ == spec_index_bytes(entries@),
{
    let mut out: Vec<u8> = Vec::new();
    push_u64_le(&mut out, entries.len() as u64);
    let ghost head = out@;
    let n = entries.len();
    let mut i: usize = 0;
    while i < n
        invariant
            n == entries@.len(),
            i <= n,
            out@ == head + spec_entries_bytes(entries@.take(i as int)),
        decreases n - i,
    {
        let e = &entries[i];
        push_u128_le(&mut out, e.id);
        push_u64_le(&mut out, e.offset);
        push_u32_le(&mut out, e.length);
        proof {
            assert(entries@.take(i + 1).drop_last() =~= entries@.take(i as int));
            assert(out@ =~= head + spec_entries_bytes(entries@.take(i + 1)));
        }
        i = i + 1;
    }
    proof {
        assert(entries@.take(n as int) =~= entries@);
    }
    out
}

/// Decode an index section, mirroring `spec_decode_index`.
pub fn decode_index(data: &Vec<u8>) -> (r: Option<Vec<IndexEntry>>)
    ensures
        match r {
            Some(es) => spec_decode_index(data@) == Some(es@),
            None => spec_decode_index(data@) is None,
        },
{
    let len = data.len();
    if len < 8 {
        return None;
    }
    let n64 = read_u64_le_at(data.as_slice(), 0);
    let rem: u64 = (len - 8) as u64;
    if n64 > rem / 28 {
        proof {
            let n = n64 as int;
            let r = rem as int;
            assert(28 * n > r) by (nonlinear_arith)
                requires
                    n > r / 28,
                    r >= 0,
            ;
        }
        return None;
    }
    proof {
        let n = n64 as int;
        let r = rem as int;
        assert(28 * n <= r) by (nonlinear_arith)
            requires
                n <= r / 28,
                r >= 0,
        ;
    }
    let n = n64 as usize;
    let mut entries: Vec<IndexEntry> = Vec::new();
    let mut i: usize = 0;
    while i < n
        invariant
            i <= n,
            8 + 28 * n <= len == data@.len() <= usize::MAX,
            entries@.len() == i,
            forall|j: int|
                0 <= j < i ==> #[trigger] entries@[j] == spec_decode_index(data@)->0[j],
            spec_decode_index(data@) is Some,
            spec_decode_index(data@)->0.len() == n,
        decreases n - i,
    {
        let base = 8 + 28 * i;
        let e = IndexEntry {
            id: read_u128_le_at(data.as_slice(), base),
            offset: read_u64_le_at(data.as_slice(), base + 16),
            length: read_u32_le_at(data.as_slice(), base + 24),
        };
        entries.push(e);
        i = i + 1;
    }
    proof {
        assert(entries@ =~= spec_decode_index(data@)->0);
    }
    Some(entries)
}

// ---------------------------------------------------------------------------
// The file image.
// ---------------------------------------------------------------------------
/// The data section: the documents' encodings, concatenated in order.
pub open spec fn spec_data_section(docs: Seq<DocView>) -> Seq<u8>
    decreases docs.len(),
{
    if docs.len() == 0 {
        Seq::empty()
    } else {
        spec_data_section(docs.drop_last()) + spec_doc_bytes(docs.last())
    }
}

/// Where document `i`'s encoding begins within the data section.
pub open spec fn spec_offset_of(docs: Seq<DocView>, i: int) -> int {
    spec_data_section(docs.take(i)).len() as int
}

/// The index entries the builder lays down for `docs`.
pub open spec fn spec_entries_of(docs: Seq<DocView>) -> Seq<IndexEntry> {
    Seq::new(
        docs.len(),
        |i: int|
            IndexEntry {
                id: docs[i].id,
                offset: spec_offset_of(docs, i) as u64,
                length: spec_doc_bytes(docs[i]).len() as u32,
            },
    )
}

/// The footer the builder lays down for `docs`. An empty table records
/// `min_id > max_id`, so every lookup stops at the range check.
pub open spec fn spec_footer_of(docs: Seq<DocView>) -> Footer {
    Footer {
        min_id: if docs.len() == 0 {
            u128::MAX
        } else {
            docs[0].id
        },
        max_id: if docs.len() == 0 {
            0
        } else {
            docs.last().id
        },
        index_section_offset: spec_data_section(docs).len() as u64,
        index_section_size: spec_index_bytes(spec_entries_of(docs)).len() as u64,
        entry_count: docs.len() as u64,
        magic: SST_MAGIC,
        version: 1,
    }
}

/// The whole file image for `docs`.
pub open spec fn spec_sst_bytes(docs: Seq<DocView>) -> Seq<u8> {
    spec_data_section(docs) + spec_index_bytes(spec_entries_of(docs)) + spec_footer_bytes(
        spec_footer_of(docs),
    )
}

/// What the builder requires of its input: ascending unique ids, encodable
/// documents, and each record short enough for the index's 32-bit length.
pub open spec fn wf_sst_docs(docs: Seq<DocView>) -> bool {
    &&& sorted_by_id(docs)
    &&& forall|i: int|
        0 <= i < docs.len() ==> (#[trigger] docs[i]).wf() && spec_doc_bytes(docs[i]).len()
            <= u32::MAX
}

/// The manager of a database's SST files, rooted at `{path}/data`.
pub struct SSTManager {
    pub path: String,
}

impl SSTManager {
    /// A manager whose tables live under `data/` below the given root.
    pub fn new(path: String) -> (r: SSTManager)
        ensures
            r.path@ == path@ + "/data"@,
    {
        SSTManager { path: path.concat("/data") }
    }

    /// Build the file image of a frozen memtable, together with the
    /// metadata the catalog records for it. The caller persists the bytes
    /// at the metadata's path.
    pub fn write_memtable(
        &self,
        collection_name: &str,
        seq_no: u64,
        layer: u64,
        memtable: &MemTable,
    ) -> (r: (Vec<u8>, SSTMetadata))
        requires
            memtable.wf(),
            memtable.is_flat(),
            forall|i: int|
                0 <= i < memtable.docs().len() ==> spec_doc_bytes(
                    #[trigger] memtable.docs()[i],
                ).len() <= u32::MAX,
        ensures
            ({
                let docs = memtable.docs();
                let f = spec_footer_of(docs);
                &&& r.0@ == spec_sst_bytes(docs)
                &&& r.1.collection_name@ == collection_name@
                &&& r.1.seq_no == seq_no
                &&& r.1.layer == layer
                &&& r.1.min_id == f.min_id
                &&& r.1.max_id == f.max_id
                &&& r.1.entry_count == docs.len()
                &&& r.1.path@ == crate::paths::spec_sst_file_path(
                    self.path@,
                    collection_name@,
                    layer,
                    seq_no,
                )
                &&& wf_sst_docs(docs)
            }),
    {
        let table = memtable.sorted_docs();
        let ghost docs = memtable.docs();
        let n = table.len();
        let mut data: Vec<u8> = Vec::new();
        let mut entries: Vec<IndexEntry> = Vec::new();
        let mut min_id: u128 = u128::MAX;
        let mut max_id: u128 = 0;
        let mut i: usize = 0;
        while i < n
            invariant
                n == table@.len(),
                table@.map_values(|d: Document| d@) == docs,
                docs == memtable.docs(),
                memtable.wf(),
                memtable.is_flat(),
                forall|k: int|
                    0 <= k < docs.len() ==> spec_doc_bytes(#[trigger] docs[k]).len() <= u32::MAX,
                i <= n,
                data@ == spec_data_section(docs.take(i as int)),
                entries@ =~= spec_entries_of(docs).take(i as int),
                forall|k: int| 0 <= k < i ==> (#[trigger] docs[k]).wf(),
                min_id == (if i == 0 {
                    u128::MAX
                } else {
                    docs[0].id
                }),
                max_id == (if i == 0 {
                    0u128
                } else {
                    docs[i - 1].id
                }),
            decreases n - i,
        {
            let doc = &table[i];
            if doc.id < min_id {
                min_id = doc.id;
            }
            if doc.id > max_id {
                max_id = doc.id;
            }
            proof {
                assert(docs[i as int].id == doc.id);
                if i > 0 {
                    assert(docs[0].id < docs[i as int].id);
                    assert(docs[i - 1].id < docs[i as int].id);
                }
            }
            let current_offset = data.len() as u64;
            let serialized = doc.serialize();
            let length = serialized.len() as u32;
            entries.push(IndexEntry { id: doc.id, offset: current_offset, length });
            let mut body = serialized;
            data.append(&mut body);
            proof {
                assert(docs.take(i + 1).drop_last() =~= docs.take(i as int));
                assert(docs.take(i + 1).last() == docs[i as int]);
                assert(data@ =~= spec_data_section(docs.take(i + 1)));
                assert(spec_offset_of(docs, i as int) == current_offset);
                assert(entries@ =~= spec_entries_of(docs).take(i + 1));
            }
            i = i + 1;
        }
        proof {
            assert(docs.take(n as int) =~= docs);
            assert(spec_entries_of(docs).take(n as int) =~= spec_entries_of(docs));
            assert(entries@ =~= spec_entries_of(docs));
        }
        let data_section_size = data.len() as u64;
        let index_bytes = encode_index(&entries);
        let index_section_offset = data_section_size;
        let index_section_size = index_bytes.len() as u64;
        let entry_count = entries.len() as u64;
        let footer = Footer::new(
            min_id,
            max_id,
            index_section_offset,
            index_section_size,
            entry_count,
        );
        let mut file = data;
        let mut ib = index_bytes;
        file.append(&mut ib);
        let mut fb = footer.to_bytes();
        file.append(&mut fb);
        let path = crate::paths::sst_file_path(
            self.path.as_str(),
            collection_name,
            layer,
            seq_no,
        );
        let metadata = SSTMetadata {
            collection_name: String::from_str(collection_name),
            seq_no,
            layer,
            min_id,
            max_id,
            path,
            entry_count,
        };
        proof {
            assert(footer == spec_footer_of(docs));
            assert(file@ =~= spec_sst_bytes(docs));
        }
        (file, metadata)
    }
}

// ---------------------------------------------------------------------------
// The read path.
// ---------------------------------------------------------------------------
/// Entry identifiers strictly ascend: the format's sortedness requirement.
pub open spec fn entries_sorted(es: Seq<IndexEntry>) -> bool {
    forall|i: int, j: int| 0 <= i < j < es.len() ==> es[i].id < es[j].id
}

proof fn lemma_adjacent_implies_sorted(es: Seq<IndexEntry>, i: int, j: int)
    requires
        forall|k: int| 0 <= k < es.len() - 1 ==> (#[trigger] es[k]).id < es[k + 1].id,
        0 <= i < j < es.len(),
    ensures
        es[i].id < es[j].id,
    decreases j - i,
{
    if j > i + 1 {
        lemma_adjacent_implies_sorted(es, i, j - 1);
    }
}

fn check_entries_sorted(entries: &Vec<IndexEntry>) -> (r: bool)
    ensures
        r == entries_sorted(entries@),
{
    let n = entries.len();
    if n == 0 {
        return true;
    }
    let mut k: usize = 0;
    while k < n - 1
        invariant
            n == entries@.len(),
            n >= 1,
            k <= n - 1,
            forall|m: int| 0 <= m < k ==> (#[trigger] entries@[m]).id < entries@[m + 1].id,
        decreases n - 1 - k,
    {
        if entries[k].id >= entries[k + 1].id {
            return false;
        }
        k = k + 1;
    }
    proof {
        assert forall|i: int, j: int| 0 <= i < j < entries@.len() implies entries@[i].id
            < entries@[j].id by {
            lemma_adjacent_implies_sorted(entries@, i, j);
        }
    }
    true
}

/// What a point lookup yields on any file image: the mirror of `read`.
/// Footer first; its magic, then its id range, decide before any other part
/// of the file is consulted. A file whose index section does not decode, is
/// not sorted, or whose record does not decode, is corrupt.
pub open spec fn spec_sst_read(file: Seq<u8>, id: u128) -> Result<DocView, SSTError> {
    if file.len() < 64 {
        Err(SSTError::Io(None))
    } else {
        let footer = spec_footer_from_bytes(file.subrange(file.len() - 64, file.len() as int));
        if footer.magic != SST_MAGIC {
            Err(SSTError::InvalidMagic)
        } else if id < footer.min_id || id > footer.max_id {
            Err(SSTError::NotFound)
        } else if footer.index_section_offset + footer.index_section_size > file.len() {
            Err(SSTError::Io(None))
        } else {
            let ib = file.subrange(
                footer.index_section_offset as int,
                footer.index_section_offset + footer.index_section_size,
            );
            match spec_decode_index(ib) {
                None => Err(SSTError::DeserializeError(None)),
                Some(entries) => {
                    if !entries_sorted(entries) {
                        Err(SSTError::DeserializeError(None))
                    } else if exists|k: int| 0 <= k < entries.len() && entries[k].id == id {
                        let e = entries[choose|k: int|
                            0 <= k < entries.len() && entries[k].id == id];
                        if e.offset + e.length > file.len() {
                            Err(SSTError::Io(None))
                        } else {
                            let db = file.subrange(e.offset as int, e.offset + e.length);
                            match spec_decode_doc_at(db, 0) {
                                Some(p) => Ok(p.0),
                                None => Err(SSTError::DeserializeError(None)),
                            }
                        }
                    } else {
                        Err(SSTError::NotFound)
                    }
                },
            }
        }
    }
}

fn binary_search_entries(entries: &Vec<IndexEntry>, id: u128) -> (r: Option<usize>)
    requires
        entries_sorted(entries@),
    ensures
        match r {
            Some(i) => i < entries@.len() && entries@[i as int].id == id,
            None => forall|k: int| 0 <= k < entries@.len() ==> (#[trigger] entries@[k]).id != id,
        },
{
    let mut lo: usize = 0;
    let mut hi: usize = entries.len();
    while lo < hi
        invariant
            entries_sorted(entries@),
            lo <= hi <= entries@.len(),
            forall|k: int| 0 <= k < lo ==> (#[trigger] entries@[k]).id < id,
            forall|k: int| hi <= k < entries@.len() ==> (#[trigger] entries@[k]).id > id,
        decreases hi - lo,
    {
        let mid = lo + (hi - lo) / 2;
        let mid_id = entries[mid].id;
        if mid_id == id {
            return Some(mid);
        } else if mid_id < id {
            proof {
                assert forall|k: int| 0 <= k < mid + 1 implies (#[trigger] entries@[k]).id
                    < id by {
                    if k < mid {
                        assert(entries@[k].id < entries@[mid as int].id);
                    }
                }
            }
            lo = mid + 1;
        } else {
            proof {
                assert forall|k: int| mid <= k < entries@.len() implies (
                #[trigger] entries@[k]).id > id by {
                    if k > mid {
                        assert(entries@[mid as int].id < entries@[k].id);
                    }
                }
            }
            hi = mid;
        }
    }
    None
}

impl SSTManager {
    /// Look up one record by id in an SST file image: parse and check the
    /// footer, stop early when the id lies outside the table's range,
    /// decode the index section, binary-search it, then decode the record
    /// the entry points at.
    pub fn read(&self, file: &Vec<u8>, id: u128) -> (r: Result<Document, SSTError>)
        ensures
            match r {
                Ok(d) => spec_sst_read(file@, id) matches Ok(dv) && dv == d@,
                Err(e) => spec_sst_read(file@, id) == Err::<DocView, SSTError>(e),
            },
    {
        let len = file.len();
        if len < 64 {
            return Err(SSTError::Io(None));
        }
        let footer_slice = vstd::slice::slice_subrange(file.as_slice(), len - 64, len);
        let footer = Footer::from_bytes(footer_slice);
        if footer.magic != SST_MAGIC {
            return Err(SSTError::InvalidMagic);
        }
        if id < footer.min_id || id > footer.max_id {
            return Err(SSTError::NotFound);
        }
        let len64 = len as u64;
        if footer.index_section_offset > len64 || footer.index_section_size > len64
            - footer.index_section_offset {
            return Err(SSTError::Io(None));
        }
        let off = footer.index_section_offset as usize;
        let size = footer.index_section_size as usize;
        let ib = bytes_at(file.as_slice(), off, size);
        let entries = match decode_index(&ib) {
            None => {
                return Err(SSTError::DeserializeError(None));
            },
            Some(entries) => entries,
        };
        if !check_entries_sorted(&entries) {
            return Err(SSTError::DeserializeError(None));
        }
        match binary_search_entries(&entries, id) {
            None => Err(SSTError::NotFound),
            Some(i) => {
                proof {
                    let es = entries@;
                    let c = choose|k: int| 0 <= k < es.len() && es[k].id == id;
                    if c < i || i < c {
                        assert(es[c].id != es[i as int].id);
                    }
                }
                let e = &entries[i];
                if e.offset > len64 || (e.length as u64) > len64 - e.offset {
                    return Err(SSTError::Io(None));
                }
                let db = bytes_at(file.as_slice(), e.offset as usize, e.length as usize);
                match Document::deserialize(&db) {
                    None => Err(SSTError::DeserializeError(None)),
                    Some(d) => Ok(d),
                }
            },
        }
    }
}

// ---------------------------------------------------------------------------
// Laws of the format.
// ---------------------------------------------------------------------------
proof fn lemma_data_section_min_len(docs: Seq<DocView>)
    ensures
        spec_data_section(docs).len() >= 32 * docs.len(),
    decreases docs.len(),
{
    if docs.len() > 0 {
        lemma_data_section_min_len(docs.drop_last());
        crate::document::lemma_doc_bytes_len(docs.last());
    }
}

/// Each document's encoding reads back unchanged from its slice of the
/// data section.
pub proof fn lemma_data_section_slice(docs: Seq<DocView>, i: int)
    requires
        0 <= i < docs.len(),
    ensures
        spec_offset_of(docs, i) + spec_doc_bytes(docs[i]).len() <= spec_data_section(docs).len(),
        spec_data_section(docs).subrange(
            spec_offset_of(docs, i),
            spec_offset_of(docs, i) + spec_doc_bytes(docs[i]).len() as int,
        ) == spec_doc_bytes(docs[i]),
    decreases docs.len(),
{
    let data = spec_data_section(docs);
    let enc = spec_doc_bytes(docs[i]);
    if i == docs.len() - 1 {
        assert(docs.take(i) =~= docs.drop_last());
        assert(data.subrange(spec_offset_of(docs, i), spec_offset_of(docs, i) + enc.len() as int)
            =~= enc);
    } else {
        lemma_data_section_slice(docs.drop_last(), i);
        assert(docs.take(i) =~= docs.drop_last().take(i));
        assert(docs.drop_last()[i] == docs[i]);
        let dl = spec_data_section(docs.drop_last());
        assert(data.subrange(spec_offset_of(docs, i), spec_offset_of(docs, i) + enc.len() as int)
            =~= dl.subrange(
            spec_offset_of(docs.drop_last(), i),
            spec_offset_of(docs.drop_last(), i) + enc.len() as int,
        ));
    }
}

/// The round trip of the table format: every document written is read back
/// exactly, and an id between the bounds but absent reports `NotFound`.
pub proof fn lemma_sst_round_trip(docs: Seq<DocView>, id: u128)
    requires
        wf_sst_docs(docs),
        spec_data_section(docs).len() <= u64::MAX,
    ensures
        has_id(docs, id) ==> spec_sst_read(spec_sst_bytes(docs), id) == Ok::<DocView, SSTError>(
            at_id(docs, id),
        ),
        !has_id(docs, id) ==> spec_sst_read(spec_sst_bytes(docs), id) == Err::<
            DocView,
            SSTError,
        >(SSTError::NotFound),
{
    lemma_auto_spec_u32_to_from_le_bytes();
    lemma_auto_spec_u64_to_from_le_bytes();
    lemma_auto_spec_u128_to_from_le_bytes();
    let data = spec_data_section(docs);
    let es = spec_entries_of(docs);
    let ib = spec_index_bytes(es);
    let ftr = spec_footer_of(docs);
    let fb = spec_footer_bytes(ftr);
    let file = spec_sst_bytes(docs);
    lemma_footer_bytes_len(ftr);
    lemma_entries_bytes_len(es);
    lemma_data_section_min_len(docs);
    assert(32 * docs.len() <= u64::MAX);
    assert(docs.len() <= u64::MAX);
    assert(file.len() == data.len() + ib.len() + 64);
    assert(file.subrange(file.len() - 64, file.len() as int) =~= fb);
    lemma_footer_roundtrip(ftr, fb);
    assert(spec_footer_from_bytes(file.subrange(file.len() - 64, file.len() as int)) == ftr);
    if docs.len() == 0 {
        assert(ftr.min_id == u128::MAX && ftr.max_id == 0);
        assert(id < ftr.min_id || id > ftr.max_id);
        assert(!has_id(docs, id));
    } else {
        assert(ftr.min_id == docs[0].id && ftr.max_id == docs.last().id);
        if id < ftr.min_id || id > ftr.max_id {
            assert forall|k: int| 0 <= k < docs.len() implies (#[trigger] docs[k]).id != id by {
                if k > 0 {
                    assert(docs[0].id < docs[k].id);
                }
                if k < docs.len() - 1 {
                    assert(docs[k].id < docs[docs.len() - 1].id);
                }
            }
            assert(!has_id(docs, id));
            assert(spec_sst_read(file, id) == Err::<DocView, SSTError>(SSTError::NotFound));
        } else {
            // The index section decodes back to the entries laid down.
            assert(ftr.index_section_offset == data.len());
            assert(ftr.index_section_size == ib.len());
            assert(ftr.index_section_offset + ftr.index_section_size <= file.len());
            assert(file.subrange(data.len() as int, data.len() + ib.len() as int) =~= ib);
            lemma_decode_index_encode(es);
            assert(entries_sorted(es));
            if has_id(docs, id) {
                let w = choose|k: int| 0 <= k < docs.len() && docs[k].id == id;
                assert(es[w].id == id);
                assert(exists|k: int| 0 <= k < es.len() && es[k].id == id);
                let c = choose|k: int| 0 <= k < es.len() && es[k].id == id;
                if c < w || w < c {
                    assert(es[c].id != es[w].id);
                }
                assert(c == w);
                let e = es[c];
                lemma_data_section_slice(docs, c);
                assert(spec_offset_of(docs, c) <= data.len() <= u64::MAX);
                assert(e.offset == spec_offset_of(docs, c));
                assert(e.length == spec_doc_bytes(docs[c]).len());
                assert(e.offset + e.length <= data.len() <= file.len());
                let db = file.subrange(e.offset as int, e.offset + e.length);
                assert(db =~= data.subrange(
                    spec_offset_of(docs, c),
                    spec_offset_of(docs, c) + spec_doc_bytes(docs[c]).len() as int,
                ));
                assert(db == spec_doc_bytes(docs[c]));
                assert(docs[c].wf());
                crate::document::lemma_decode_doc_encode(Seq::empty(), docs[c], Seq::empty());
                assert(Seq::<u8>::empty() + spec_doc_bytes(docs[c]) + Seq::<u8>::empty()
                    =~= db);
                assert(spec_decode_doc_at(db, 0) == Some(
                    (docs[c], spec_doc_bytes(docs[c]).len() as int),
                ));
                crate::memtable::lemma_at_id_is(docs, id, c);
                assert(spec_sst_read(file, id) == Ok::<DocView, SSTError>(at_id(docs, id)));
            } else {
                assert forall|k: int| 0 <= k < es.len() implies (#[trigger] es[k]).id != id by {
                    assert(docs[k].id == es[k].id);
                }
                assert(spec_sst_read(file, id) == Err::<DocView, SSTError>(SSTError::NotFound));
            }
        }
    }
}

/// An id outside the footer's range reports `NotFound` from the footer
/// alone: every file that ends in the same 64 bytes answers the same, so
/// neither the index section nor the data section is consulted.
pub proof fn lemma_out_of_range_needs_only_footer(file: Seq<u8>, other: Seq<u8>, id: u128)
    requires
        file.len() >= 64,
        other.len() >= 64,
        other.subrange(other.len() - 64, other.len() as int) == file.subrange(
            file.len() - 64,
            file.len() as int,
        ),
        spec_footer_from_bytes(file.subrange(file.len() - 64, file.len() as int)).magic
            == SST_MAGIC,
        id < spec_footer_from_bytes(file.subrange(file.len() - 64, file.len() as int)).min_id || id
            > spec_footer_from_bytes(file.subrange(file.len() - 64, file.len() as int)).max_id,
    ensures
        spec_sst_read(file, id) == Err::<DocView, SSTError>(SSTError::NotFound),
        spec_sst_read(other, id) == Err::<DocView, SSTError>(SSTError::NotFound),
{
}

/// Flipping any byte of the stored magic number makes every read of the
/// corrupted file fail with `InvalidMagic`.
pub proof fn lemma_magic_corruption(file: Seq<u8>, corrupted: Seq<u8>, j: int, id: u128)
    requires
        file.len() >= 64,
        spec_footer_from_bytes(file.subrange(file.len() - 64, file.len() as int)).magic
            == SST_MAGIC,
        corrupted.len() == file.len(),
        file.len() - 8 <= j < file.len() - 4,
        corrupted[j] != file[j],
        forall|k: int| 0 <= k < file.len() && k != j ==> corrupted[k] == file[k],
    ensures
        spec_sst_read(corrupted, id) == Err::<DocView, SSTError>(SSTError::InvalidMagic),
{
    let n = file.len() as int;
    let fm = file.subrange(n - 8, n - 4);
    let cm = corrupted.subrange(n - 8, n - 4);
    assert(file.subrange(n - 64, n).subrange(56, 60) =~= fm);
    assert(corrupted.subrange(n - 64, n).subrange(56, 60) =~= cm);
    assert(fm != cm) by {
        assert(cm[j - (n - 8)] != fm[j - (n - 8)]);
    }
    let magic_c = spec_footer_from_bytes(corrupted.subrange(n - 64, n)).magic;
    if magic_c == SST_MAGIC {
        crate::codec::lemma_u32_be_injective(fm, cm);
        assert(false);
    }
}

} // verus!
