//! Collections: configuration parsing and the per-collection write path.
//!
//! Index kinds and distance functions are parsed case-insensitively; unknown
//! names fail validation with the matching configuration error.

use crate::compact::CompactTask;
use crate::document::{spec_doc_bytes, DocView, Document};
use crate::error::CollectionError;
use crate::memtable::{get_memtable, MemTable};
use crate::sst::wf_sst_docs;
use crate::wal::{
    apply_records, spec_decode_records, spec_record_bytes, spec_segment_bytes,
    Operation, WalManager,
};
use vstd::prelude::*;

verus! {

/// The memtable/index kinds a collection can be configured with.
pub enum IndexType {
    HNSW,
    IVF,
    Flat,
}

/// The distance functions a collection can be configured with.
pub enum DistanceType {
    Cosine,
    L2,
    Dot,
}

/// ASCII case folding: the letters `A`..`Z` map to `a`..`z`; every other
/// character is unchanged. The recognised keywords contain no characters on
/// which fuller Unicode folding differs.
pub open spec fn lower_char(c: char) -> char {
    if 'A' <= c && c <= 'Z' {
        ((c as u8) + 32) as char
    } else {
        c
    }
}

pub open spec fn lower(s: Seq<char>) -> Seq<char> {
    s.map_values(|c: char| lower_char(c))
}

fn lower_char_exec(c: char) -> (r: char)
    ensures
        r == lower_char(c),
{
    if 'A' <= c && c <= 'Z' {
        let b: u8 = (c as u32) as u8;
        proof {
            assert(c as u32 <= 90);
            assert(b == c as u8);
        }
        (b + 32) as char
    } else {
        c
    }
}

/// Whether `s`, folded to lower case, spells `kw`.
fn eq_lowered(s: &str, kw: &str) -> (r: bool)
    ensures
        r == (lower(s@) == kw@),
{
    let n = s.unicode_len();
    let m = kw.unicode_len();
    if n != m {
        proof {
            assert(lower(s@).len() == s@.len());
        }
        return false;
    }
    let mut i: usize = 0;
    while i < n
        invariant
            i <= n,
            n == s@.len(),
            n == kw@.len(),
            forall|j: int| 0 <= j < i ==> lower(s@)[j] == kw@[j],
        decreases n - i,
    {
        let c = lower_char_exec(s.get_char(i));
        if c != kw.get_char(i) {
            return false;
        }
        i = i + 1;
    }
    proof {
        assert(lower(s@) =~= kw@);
    }
    true
}

pub open spec fn spec_parse_index_type(s: Seq<char>) -> Option<IndexType> {
    if lower(s) == "hnsw"@ {
        Some(IndexType::HNSW)
    } else if lower(s) == "ivf"@ {
        Some(IndexType::IVF)
    } else if lower(s) == "flat"@ {
        Some(IndexType::Flat)
    } else {
        None
    }
}

pub open spec fn spec_parse_distance_type(s: Seq<char>) -> Option<DistanceType> {
    if lower(s) == "cosine"@ {
        Some(DistanceType::Cosine)
    } else if lower(s) == "l2"@ {
        Some(DistanceType::L2)
    } else if lower(s) == "dot"@ {
        Some(DistanceType::Dot)
    } else {
        None
    }
}

impl IndexType {
    /// Parse an index kind, case-insensitively.
    pub fn from_str(s: &str) -> (r: Result<IndexType, CollectionError>)
        ensures
            match r {
                Ok(t) => spec_parse_index_type(s@) == Some(t),
                Err(e) => spec_parse_index_type(s@) is None && (e matches
                    CollectionError::InvalidIndexType(m) && m matches Some(d) && d@
                    == "Invalid index type"@),
            },
    {
        if eq_lowered(s, "hnsw") {
            Ok(IndexType::HNSW)
        } else if eq_lowered(s, "ivf") {
            Ok(IndexType::IVF)
        } else if eq_lowered(s, "flat") {
            Ok(IndexType::Flat)
        } else {
            Err(CollectionError::InvalidIndexType(Some(String::from_str("Invalid index type"))))
        }
    }
}

impl DistanceType {
    /// Parse a distance function, case-insensitively.
    pub fn from_str(s: &str) -> (r: Result<DistanceType, CollectionError>)
        ensures
            match r {
                Ok(t) => spec_parse_distance_type(s@) == Some(t),
                Err(e) => spec_parse_distance_type(s@) is None && (e matches
                    CollectionError::InvalidDistanceType(m) && m matches Some(d) && d@
                    == "Invalid distance type"@),
            },
    {
        if eq_lowered(s, "cosine") {
            Ok(DistanceType::Cosine)
        } else if eq_lowered(s, "l2") {
            Ok(DistanceType::L2)
        } else if eq_lowered(s, "dot") {
            Ok(DistanceType::Dot)
        } else {
            Err(
                CollectionError::InvalidDistanceType(
                    Some(String::from_str("Invalid distance type")),
                ),
            )
        }
    }
}

/// An index configuration: the kind and its parameters, kept as key/value
/// pairs in insertion order with no key repeated.
pub struct IndexConfig {
    pub index: IndexType,
    pub params: Vec<(String, String)>,
}

/// The parameter list as pairs of character sequences.
pub open spec fn params_view(params: Vec<(String, String)>) -> Seq<(Seq<char>, Seq<char>)> {
    params@.map_values(|p: (String, String)| (p.0@, p.1@))
}

fn push_param(params: &mut Vec<(String, String)>, key: &str, value: &str)
    ensures
        params_view(*final(params)) == params_view(*old(params)).push((key@, value@)),
{
    params.push((String::from_str(key), String::from_str(value)));
    proof {
        assert(params_view(*params) =~= params_view(*old(params)).push((key@, value@)));
    }
}

impl IndexConfig {
    /// A configuration from a kind name and explicit parameters.
    pub fn new(index: &str, params: Vec<(String, String)>) -> (r: Result<
        IndexConfig,
        CollectionError,
    >)
        ensures
            match r {
                Ok(c) => spec_parse_index_type(index@) == Some(c.index) && c.params == params,
                Err(e) => spec_parse_index_type(index@) is None && (e matches
                    CollectionError::InvalidIndexType(m) && m matches Some(d) && d@
                    == "Invalid index type"@),
            },
    {
        let index_type = IndexType::from_str(index)?;
        Ok(IndexConfig { index: index_type, params })
    }

    /// A configuration from a kind name, with that kind's default parameters.
    pub fn new_with_default_config(index: &str) -> (r: Result<IndexConfig, CollectionError>)
        ensures
            match r {
                Ok(c) => spec_parse_index_type(index@) == Some(c.index) && params_view(c.params)
                    == spec_default_params(c.index),
                Err(e) => spec_parse_index_type(index@) is None && (e matches
                    CollectionError::InvalidIndexType(m) && m matches Some(d) && d@
                    == "Invalid index type"@),
            },
    {
        let index_type = IndexType::from_str(index)?;
        match index_type {
            IndexType::HNSW => {
                let mut default_params: Vec<(String, String)> = Vec::new();
                push_param(&mut default_params, "m", "16");
                push_param(&mut default_params, "efConstruction", "200");
                push_param(&mut default_params, "efSearch", "50");
                proof {
                    assert(params_view(default_params) =~= spec_default_params(IndexType::HNSW));
                }
                Ok(IndexConfig { index: index_type, params: default_params })
            },
            IndexType::IVF => {
                let mut default_params: Vec<(String, String)> = Vec::new();
                push_param(&mut default_params, "nlist", "1024");
                push_param(&mut default_params, "quantization", "PQ16");
                push_param(&mut default_params, "nprobe", "10");
                proof {
                    assert(params_view(default_params) =~= spec_default_params(IndexType::IVF));
                }
                Ok(IndexConfig { index: index_type, params: default_params })
            },
            IndexType::Flat => {
                let default_params: Vec<(String, String)> = Vec::new();
                proof {
                    assert(params_view(default_params) =~= spec_default_params(IndexType::Flat));
                }
                Ok(IndexConfig { index: index_type, params: default_params })
            },
        }
    }
}

/// The default parameters of each index kind.
pub open spec fn spec_default_params(t: IndexType) -> Seq<(Seq<char>, Seq<char>)> {
    match t {
        IndexType::HNSW => seq![
            ("m"@, "16"@),
            ("efConstruction"@, "200"@),
            ("efSearch"@, "50"@),
        ],
        IndexType::IVF => seq![
            ("nlist"@, "1024"@),
            ("quantization"@, "PQ16"@),
            ("nprobe"@, "10"@),
        ],
        IndexType::Flat => Seq::empty(),
    }
}

impl Default for IndexConfig {
    /// The default configuration: an HNSW index with its default parameters.
    fn default() -> (r: IndexConfig)
        ensures
            r.index is HNSW,
            params_view(r.params) == spec_default_params(IndexType::HNSW),
    {
        let mut default_params: Vec<(String, String)> = Vec::new();
        push_param(&mut default_params, "m", "16");
        push_param(&mut default_params, "efConstruction", "200");
        push_param(&mut default_params, "efSearch", "50");
        proof {
            assert(params_view(default_params) =~= spec_default_params(IndexType::HNSW));
        }
        IndexConfig { index: IndexType::HNSW, params: default_params }
    }
}

// ---------------------------------------------------------------------------
// The collection and its write path.
// ---------------------------------------------------------------------------
/// What `upsert` asks its caller to carry out: the encoded record belongs
/// at the tail of WAL segment `wal_seq_no` and must be synced to disk; a
/// task, when one is produced, goes to the compaction dispatcher.
pub struct UpsertOutcome {
    pub record: Vec<u8>,
    pub wal_seq_no: u64,
    pub task: Option<CompactTask>,
}

/// A named group of same-dimension vectors: one active memtable, one WAL,
/// and the frozen memtables awaiting compaction, most recent last.
pub struct Collection {
    pub name: String,
    pub memtable_size: usize,
    pub dimension: i32,
    pub distance: DistanceType,
    pub index_config: IndexConfig,
    pub memtable: MemTable,
    pub wal_manager: WalManager,
    pub frozen_memtable_list: Vec<MemTable>,
}

/// The lookup through the frozen list, most recently frozen first.
pub open spec fn lookup_frozen(fs: Seq<MemTable>, id: u128) -> Option<DocView>
    decreases fs.len(),
{
    if fs.len() == 0 {
        None
    } else if fs.last().contents().contains_key(id) {
        Some(fs.last().contents()[id])
    } else {
        lookup_frozen(fs.drop_last(), id)
    }
}

proof fn lemma_lookup_frozen_prefix(fs: Seq<MemTable>, j: int, id: u128)
    requires
        0 <= j <= fs.len(),
        forall|k: int|
            j <= k < fs.len() ==> !(#[trigger] fs[k]).contents().contains_key(id),
    ensures
        lookup_frozen(fs, id) == lookup_frozen(fs.take(j), id),
    decreases fs.len() - j,
{
    if j == fs.len() {
        assert(fs.take(j) =~= fs);
    } else {
        lemma_lookup_frozen_prefix(fs.take(fs.len() - 1), j, id);
        assert(fs.take(fs.len() - 1) =~= fs.drop_last());
        assert(fs.drop_last().take(j) =~= fs.take(j));
        assert(!fs.last().contents().contains_key(id));
    }
}

impl Collection {
    /// The kinds of the memtable and the configuration agree.
    pub open spec fn kind_matches(self) -> bool {
        match self.index_config.index {
            IndexType::Flat => self.memtable is Flat,
            IndexType::HNSW => self.memtable is Hnsw,
            IndexType::IVF => self.memtable is Ivf,
        }
    }

    pub open spec fn wf(self) -> bool {
        &&& self.memtable.wf()
        &&& self.wal_manager.wf()
        &&& 1 <= self.dimension <= crate::MAX_DIMENSION
        &&& self.kind_matches()
        &&& (self.memtable.is_flat() ==> wf_sst_docs(self.memtable.docs()))
        &&& forall|i: int|
            0 <= i < self.frozen_memtable_list@.len() ==> (
            #[trigger] self.frozen_memtable_list@[i]).wf()
                && self.frozen_memtable_list@[i].is_flat() && wf_sst_docs(
                self.frozen_memtable_list@[i].docs(),
            )
    }

    /// The WAL's current segment is an exact record sequence whose replay
    /// is the active memtable's contents.
    pub open spec fn wal_matches(self, rs: Seq<(Operation, DocView)>) -> bool {
        &&& forall|i: int| 0 <= i < rs.len() ==> (#[trigger] rs[i]).1.wf()
        &&& self.wal_manager.current_segment() == spec_segment_bytes(rs)
        &&& apply_records(Map::<u128, DocView>::empty(), rs) == self.memtable.contents()
    }

    pub open spec fn wal_records_ok(self) -> bool {
        exists|rs: Seq<(Operation, DocView)>| #[trigger] self.wal_matches(rs)
    }

    /// The document visible under `id`: the active memtable first, then
    /// the frozen memtables, most recently frozen first.
    pub open spec fn spec_lookup(self, id: u128) -> Option<DocView> {
        if self.memtable.contents().contains_key(id) {
            Some(self.memtable.contents()[id])
        } else {
            lookup_frozen(self.frozen_memtable_list@, id)
        }
    }

    /// A fresh collection. The dimension must lie in `1..=MAX_DIMENSION`
    /// and the distance name must parse; either failure reports the
    /// matching configuration error and builds nothing.
    pub fn new(
        name: &str,
        dimension: i32,
        distance: &str,
        index_config: IndexConfig,
        wal_manager: WalManager,
        memtable_size: usize,
    ) -> (r: Result<Collection, CollectionError>)
        requires
            wal_manager.wf(),
        ensures
            match r {
                Ok(c) => {
                    &&& 1 <= dimension <= crate::MAX_DIMENSION
                    &&& spec_parse_distance_type(distance@) == Some(c.distance)
                    &&& c.name@ == name@
                    &&& c.dimension == dimension
                    &&& c.memtable_size == memtable_size
                    &&& c.index_config == index_config
                    &&& c.wal_manager == wal_manager
                    &&& c.frozen_memtable_list@.len() == 0
                    &&& c.wf()
                    &&& (index_config.index is Flat ==> c.memtable is Flat
                        && c.memtable.contents() == Map::<u128, DocView>::empty())
                    &&& (index_config.index is Flat && wal_manager.current_segment() == Seq::<
                        u8,
                    >::empty() ==> c.wal_records_ok())
                },
                Err(e) => {
                    ||| !(1 <= dimension <= crate::MAX_DIMENSION) && (e matches
                    CollectionError::InvalidDimension(m) && m matches Some(d) && d@
                        == "Dimension must be between 1 and 65332"@)
                    ||| (1 <= dimension <= crate::MAX_DIMENSION) && spec_parse_distance_type(
                        distance@,
                    ) is None && (e matches CollectionError::InvalidDistanceType(m) && m matches
                    Some(d) && d@ == "Invalid distance type"@)
                },
            },
    {
        if dimension > crate::MAX_DIMENSION || dimension < 1 {
            return Err(
                CollectionError::InvalidDimension(
                    Some(String::from_str("Dimension must be between 1 and 65332")),
                ),
            );
        }
        let distance_type = DistanceType::from_str(distance)?;
        let memtable = get_memtable(&index_config.index);
        let c = Collection {
            name: String::from_str(name),
            memtable_size,
            dimension,
            distance: distance_type,
            index_config,
            memtable,
            wal_manager,
            frozen_memtable_list: Vec::new(),
        };
        proof {
            if c.index_config.index is Flat && c.wal_manager.current_segment() =~= Seq::<
                u8,
            >::empty() {
                let rs = Seq::<(Operation, DocView)>::empty();
                assert(spec_segment_bytes(rs) =~= Seq::<u8>::empty());
                assert(apply_records(Map::<u128, DocView>::empty(), rs) =~= Map::<
                    u128,
                    DocView,
                >::empty());
                assert(c.wal_matches(rs));
            }
        }
        Ok(c)
    }

    /// Insert or replace one document.
    ///
    /// A document whose vector length differs from the collection's
    /// dimension is rejected with `InvalidDimension` and nothing changes.
    /// Otherwise the record is appended to the WAL segment and the
    /// memtable updated; when the memtable reaches the size threshold it
    /// is frozen, the WAL rotates, and a compaction task for the frozen
    /// table is handed back.
    pub fn upsert(&mut self, document: Document) -> (r: Result<UpsertOutcome, CollectionError>)
        requires
            old(self).wf(),
            old(self).memtable.is_flat(),
            spec_doc_bytes(document@).len() <= u32::MAX,
            old(self).wal_manager.seq_no < u64::MAX,
        ensures
            final(self).wf(),
            final(self).memtable.is_flat(),
            final(self).name == old(self).name,
            final(self).dimension == old(self).dimension,
            final(self).memtable_size == old(self).memtable_size,
            old(self).wal_records_ok() ==> final(self).wal_records_ok(),
            ({
                let dim_ok = document@.vector.len() == old(self).dimension;
                if !dim_ok {
                    r matches Err(e) && (e matches CollectionError::InvalidDimension(m)
                        && m matches Some(d) && d@ == "Dimension mismatch"@) && *final(self)
                        == *old(self)
                } else {
                    r matches Ok(out) && {
                        let inserted = old(self).memtable.contents().insert(
                            document.id,
                            document@,
                        );
                        let grown_len = if old(self).memtable.contents().contains_key(
                            document.id,
                        ) {
                            old(self).memtable.docs().len() as int
                        } else {
                            old(self).memtable.docs().len() + 1 as int
                        };
                        let froze = grown_len >= old(self).memtable_size;
                        &&& out.record@ == spec_record_bytes(Operation::Insert, document@)
                        &&& out.wal_seq_no == old(self).wal_manager.seq_no
                        &&& if !froze {
                            &&& out.task is None
                            &&& final(self).memtable.contents() == inserted
                            &&& final(self).frozen_memtable_list@
                                == old(self).frozen_memtable_list@
                            &&& final(self).wal_manager.seq_no == old(self).wal_manager.seq_no
                            &&& final(self).wal_manager.current_segment() == old(
                                self,
                            ).wal_manager.current_segment() + out.record@
                        } else {
                            &&& final(self).memtable.contents() == Map::<u128, DocView>::empty()
                            &&& final(self).frozen_memtable_list@.len() == old(
                                self,
                            ).frozen_memtable_list@.len() + 1
                            &&& forall|i: int|
                                0 <= i < old(self).frozen_memtable_list@.len() ==> #[trigger]
                                final(self).frozen_memtable_list@[i] == old(
                                    self,
                                ).frozen_memtable_list@[i]
                            &&& final(self).frozen_memtable_list@.last().contents() == inserted
                            &&& final(self).wal_manager.seq_no == old(self).wal_manager.seq_no + 1
                            &&& final(self).wal_manager.current_segment() == Seq::<u8>::empty()
                            &&& final(self).wal_manager.segments@[old(
                                self,
                            ).wal_manager.seq_no as int]@ == old(
                                self,
                            ).wal_manager.current_segment() + spec_record_bytes(
                                Operation::Insert,
                                document@,
                            )
                            &&& out.task matches Some(t) && t.collection_name@ == old(self).name@
                                && t.seq_no == old(self).wal_manager.seq_no + 1 && t.layer == 0
                                && t.wf() && t.memtable.contents() == inserted
                        }
                    }
                }
            }),
    {
        let dim = self.dimension as usize;
        if document.vector.len() != dim {
            return Err(
                CollectionError::InvalidDimension(Some(String::from_str("Dimension mismatch"))),
            );
        }
        let wal_seq_no = self.wal_manager.get_seq_no();
        let record = self.wal_manager.write(Operation::Insert, &document);
        let ghost doc_view = document@;
        self.memtable.upsert(document);
        proof {
            assert forall|k: int| 0 <= k < self.memtable.docs().len() implies (
            #[trigger] self.memtable.docs()[k]).wf() && spec_doc_bytes(
                self.memtable.docs()[k],
            ).len() <= u32::MAX by {
                let x = self.memtable.docs()[k];
                if x == doc_view {
                } else {
                    assert(old(self).memtable.docs().contains(x));
                    let w = choose|w: int|
                        0 <= w < old(self).memtable.docs().len() && old(self).memtable.docs()[w]
                            == x;
                    assert(old(self).memtable.docs()[w].wf());
                }
            }
            assert(wf_sst_docs(self.memtable.docs()));
            if old(self).wal_records_ok() {
                let rs = choose|rs: Seq<(Operation, DocView)>| old(self).wal_matches(rs);
                let rs2 = rs.push((Operation::Insert, doc_view));
                crate::wal::lemma_segment_bytes_push(rs, Operation::Insert, doc_view);
                assert(rs2.drop_last() =~= rs);
                assert(apply_records(Map::<u128, DocView>::empty(), rs2) == self.memtable.contents());
                assert(self.wal_matches(rs2));
            }
        }
        let task: Option<CompactTask> = if self.memtable.size() >= self.memtable_size {
            let frozen = self.memtable.snapshot();
            let task_memtable = self.memtable.snapshot();
            self.memtable = get_memtable(&self.index_config.index);
            self.frozen_memtable_list.push(frozen);
            self.wal_manager.rotate();
            proof {
                let rs = Seq::<(Operation, DocView)>::empty();
                assert(spec_segment_bytes(rs) =~= Seq::<u8>::empty());
                assert(apply_records(Map::<u128, DocView>::empty(), rs) =~= Map::<
                    u128,
                    DocView,
                >::empty());
                assert(self.wal_matches(rs));
            }
            Some(
                CompactTask::new_default_layer(
                    self.name.clone(),
                    self.wal_manager.get_seq_no(),
                    task_memtable,
                ),
            )
        } else {
            None
        };
        Ok(UpsertOutcome { record, wal_seq_no, task })
    }

    /// The live document under `id`, if any: the active memtable first,
    /// then the frozen memtables, most recently frozen first.
    pub fn fetch(&self, id: &u128) -> (r: Option<&Document>)
        requires
            self.wf(),
            self.memtable.is_flat(),
        ensures
            match r {
                Some(d) => self.spec_lookup(*id) == Some(d@),
                None => self.spec_lookup(*id) is None,
            },
    {
        if let Some(d) = self.memtable.get(id) {
            return Some(d);
        }
        let n = self.frozen_memtable_list.len();
        let mut j: usize = n;
        while j > 0
            invariant
                self.wf(),
                n == self.frozen_memtable_list@.len(),
                j <= n,
                !self.memtable.contents().contains_key(*id),
                self.memtable.is_flat(),
                forall|k: int|
                    j <= k < n ==> !(
                    #[trigger] self.frozen_memtable_list@[k]).contents().contains_key(*id),
            decreases j,
        {
            j = j - 1;
            if let Some(d) = self.frozen_memtable_list[j].get(id) {
                proof {
                    let fs = self.frozen_memtable_list@;
                    lemma_lookup_frozen_prefix(fs, j + 1, *id);
                    assert(fs.take(j + 1).last() == fs[j as int]);
                    assert(fs.take(j + 1).drop_last() =~= fs.take(j as int));
                }
                return Some(d);
            }
        }
        proof {
            lemma_lookup_frozen_prefix(self.frozen_memtable_list@, 0, *id);
            assert(self.frozen_memtable_list@.take(0) =~= Seq::<MemTable>::empty());
        }
        None
    }

    /// Remove `id` from the active memtable; a no-op if it is not there.
    /// Frozen memtables and on-disk tables are untouched: tombstones do
    /// not reach SSTs.
    pub fn delete(&mut self, id: &u128)
        requires
            old(self).wf(),
            old(self).memtable.is_flat(),
        ensures
            final(self).wf(),
            final(self).memtable.is_flat(),
            final(self).memtable.contents() == old(self).memtable.contents().remove(*id),
            final(self).frozen_memtable_list == old(self).frozen_memtable_list,
            final(self).wal_manager == old(self).wal_manager,
            final(self).name == old(self).name,
            final(self).dimension == old(self).dimension,
    {
        self.memtable.delete(id);
    }
}

/// The WAL-replay law: for a collection whose WAL and memtable have moved
/// together (every write logged before it was applied, as `upsert`
/// maintains), replaying the current segment's records into a fresh
/// memtable rebuilds exactly the live contents.
pub proof fn lemma_wal_replay(c: Collection)
    requires
        c.wf(),
        c.memtable.is_flat(),
        c.wal_records_ok(),
    ensures
        apply_records(
            Map::<u128, DocView>::empty(),
            spec_decode_records(c.wal_manager.current_segment(), 0),
        ) == c.memtable.contents(),
{
    let rs = choose|rs: Seq<(Operation, DocView)>| c.wal_matches(rs);
    crate::wal::lemma_decode_records_of_encoding(c.wal_manager.current_segment(), rs);
}

// ---------------------------------------------------------------------------
// The collection manager.
// ---------------------------------------------------------------------------
/// The named collections of a database, each name bound once.
pub struct CollectionManager {
    pub collections: Vec<Collection>,
}

impl CollectionManager {
    pub open spec fn names(self) -> Seq<Seq<char>> {
        self.collections@.map_values(|c: Collection| c.name@)
    }

    pub open spec fn wf(self) -> bool {
        forall|i: int, j: int|
            0 <= i < j < self.names().len() ==> self.names()[i] != self.names()[j]
    }

    pub fn new() -> (r: CollectionManager)
        ensures
            r.wf(),
            r.collections@.len() == 0,
    {
        CollectionManager { collections: Vec::new() }
    }

    /// The position of the collection named `name`, if one is registered.
    pub fn find(&self, name: &str) -> (r: Option<usize>)
        ensures
            match r {
                Some(i) => i < self.collections@.len() && self.collections@[i as int].name@
                    == name@,
                None => forall|k: int|
                    0 <= k < self.collections@.len() ==> (
                    #[trigger] self.collections@[k]).name@ != name@,
            },
    {
        let n = self.collections.len();
        let mut i: usize = 0;
        while i < n
            invariant
                n == self.collections@.len(),
                i <= n,
                forall|k: int|
                    0 <= k < i ==> (#[trigger] self.collections@[k]).name@ != name@,
            decreases n - i,
        {
            if str_equal(self.collections[i].name.as_str(), name) {
                return Some(i);
            }
            i = i + 1;
        }
        None
    }

    /// Register a collection: a collection of the same name is replaced,
    /// otherwise the new one is appended. Returns its position.
    pub fn create_collection(&mut self, collection: Collection) -> (r: usize)
        requires
            old(self).wf(),
        ensures
            final(self).wf(),
            r < final(self).collections@.len(),
            final(self).collections@[r as int] == collection,
            forall|k: int|
                0 <= k < final(self).collections@.len() && k != r ==> #[trigger] final(self).collections@[k] == old(self).collections@[k],
            old(self).names().contains(collection.name@) ==> final(self).collections@.len()
                == old(self).collections@.len(),
            !old(self).names().contains(collection.name@) ==> final(self).collections@.len()
                == old(self).collections@.len() + 1,
    {
        let found = self.find(collection.name.as_str());
        match found {
            Some(i) => {
                self.collections.remove(i);
                self.collections.insert(i, collection);
                proof {
                    assert(old(self).names()[i as int] == self.collections@[i as int].name@);
                    assert(old(self).names().contains(old(self).names()[i as int]));
                    assert forall|a: int, b: int|
                        0 <= a < b < self.names().len() implies self.names()[a]
                        != self.names()[b] by {
                        assert(self.names()[a] == old(self).names()[a]);
                        assert(self.names()[b] == old(self).names()[b]);
                    }
                }
                i
            },
            None => {
                let i = self.collections.len();
                self.collections.push(collection);
                proof {
                    assert forall|a: int, b: int|
                        0 <= a < b < self.names().len() implies self.names()[a]
                        != self.names()[b] by {
                        if b < i {
                            assert(self.names()[a] == old(self).names()[a]);
                            assert(self.names()[b] == old(self).names()[b]);
                        } else {
                            assert(self.names()[b] == collection.name@);
                            if a < i {
                                assert(self.names()[a] == old(self).names()[a]);
                                assert(!old(self).names().contains(collection.name@));
                            }
                        }
                    }
                }
                i
            },
        }
    }

    /// The registered collection named `name`, if any.
    pub fn get_collection(&self, name: &str) -> (r: Option<&Collection>)
        ensures
            match r {
                Some(c) => exists|i: int|
                    0 <= i < self.collections@.len() && *c == self.collections@[i]
                        && c.name@ == name@,
                None => forall|k: int|
                    0 <= k < self.collections@.len() ==> (
                    #[trigger] self.collections@[k]).name@ != name@,
            },
    {
        match self.find(name) {
            Some(i) => Some(&self.collections[i]),
            None => None,
        }
    }

    /// The registered collection at position `i`, for mutation.
    pub fn collection_at_mut(&mut self, i: usize) -> (r: &mut Collection)
        requires
            i < old(self).collections@.len(),
        ensures
            *r == old(self).collections@[i as int],
            final(self).collections@ == old(self).collections@.update(i as int, *final(r)),
    {
        &mut self.collections[i]
    }

    /// Drop the collection named `name`, if one is registered.
    pub fn delete_collection(&mut self, name: &str)
        requires
            old(self).wf(),
        ensures
            final(self).wf(),
            forall|k: int|
                0 <= k < final(self).collections@.len() ==> (
                #[trigger] final(self).collections@[k]).name@ != name@,
    {
        match self.find(name) {
            Some(i) => {
                self.collections.remove(i);
                proof {
                    assert forall|a: int, b: int|
                        0 <= a < b < self.names().len() implies self.names()[a]
                        != self.names()[b] by {
                        let oa: int = if a < i { a } else { a + 1 };
                        let ob: int = if b < i { b } else { b + 1 };
                        assert(self.names()[a] == old(self).names()[oa]);
                        assert(self.names()[b] == old(self).names()[ob]);
                    }
                    assert forall|k: int|
                        0 <= k < self.collections@.len() implies (
                        #[trigger] self.collections@[k]).name@ != name@ by {
                        let ok: int = if k < i { k } else { k + 1 };
                        assert(self.collections@[k].name@ == old(self).names()[ok]);
                        assert(old(self).names()[i as int] == name@);
                    }
                }
            },
            None => {},
        }
    }
}

/// Whether two string slices spell the same characters.
pub fn str_equal(a: &str, b: &str) -> (r: bool)
    ensures
        r == (a@ == b@),
{
    let oa = a.to_owned();
    let ob = b.to_owned();
    oa == ob
}

} // verus!
