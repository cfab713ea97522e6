//! In-memory mutable stores, one per collection.
//!
//! A memtable maps record identifiers to documents. The flat variant keeps
//! its documents in a vector sorted by ascending id, which makes the sorted
//! traversal that SST writes require immediate. Its model is the map
//! [`FlatMemTable::contents`], and every operation's contract is stated as a
//! map operation.

use crate::collection::IndexType;
use crate::document::{DocView, Document};
use vstd::prelude::*;

verus! {

/// `s` holds some document with identifier `k`.
pub open spec fn has_id(s: Seq<DocView>, k: u128) -> bool {
    exists|i: int| 0 <= i < s.len() && s[i].id == k
}

/// The document of `s` with identifier `k`, where there is exactly one.
pub open spec fn at_id(s: Seq<DocView>, k: u128) -> DocView {
    s[choose|i: int| 0 <= i < s.len() && s[i].id == k]
}

/// Identifiers strictly ascend, so each occurs at most once.
pub open spec fn sorted_by_id(s: Seq<DocView>) -> bool {
    forall|i: int, j: int| 0 <= i < j < s.len() ==> s[i].id < s[j].id
}

pub proof fn lemma_at_id_is(s: Seq<DocView>, k: u128, i: int)
    requires
        sorted_by_id(s),
        0 <= i < s.len(),
        s[i].id == k,
    ensures
        at_id(s, k) == s[i],
{
    let j = choose|j: int| 0 <= j < s.len() && s[j].id == k;
    if j < i || i < j {
        assert(s[i].id != s[j].id);
    }
}

/// The map a document sequence stands for, where ids are unique.
pub open spec fn seq_contents(s: Seq<DocView>) -> Map<u128, DocView> {
    Map::new(|k: u128| has_id(s, k), |k: u128| at_id(s, k))
}

/// The flat memtable: exact lookups over a vector sorted by id.
pub struct FlatMemTable {
    pub table: Vec<Document>,
}

impl FlatMemTable {
    /// The documents in storage order.
    pub open spec fn docs(self) -> Seq<DocView> {
        self.table@.map_values(|d: Document| d@)
    }

    pub open spec fn wf(self) -> bool {
        sorted_by_id(self.docs())
    }

    /// The mapping from identifier to live document.
    pub open spec fn contents(self) -> Map<u128, DocView> {
        seq_contents(self.docs())
    }

    pub fn new() -> (r: FlatMemTable)
        ensures
            r.wf(),
            r.contents() == Map::<u128, DocView>::empty(),
            r.docs().len() == 0,
    {
        let r = FlatMemTable { table: Vec::new() };
        proof {
            assert(r.contents() =~= Map::<u128, DocView>::empty());
        }
        r
    }

    /// Associate `doc.id` with `doc`, replacing any prior mapping.
    pub fn upsert(&mut self, doc: Document)
        requires
            old(self).wf(),
        ensures
            final(self).wf(),
            final(self).contents() == old(self).contents().insert(doc.id, doc@),
            old(self).contents().contains_key(doc.id) ==> final(self).docs().len() == old(
                self,
            ).docs().len(),
            !old(self).contents().contains_key(doc.id) ==> final(self).docs().len() == old(
                self,
            ).docs().len() + 1,
            forall|k: int|
                0 <= k < final(self).docs().len() ==> #[trigger] final(self).docs()[k] == doc@
                    || old(self).docs().contains(final(self).docs()[k]),
    {
        let ghost ds = self.docs();
        let n = self.table.len();
        let mut i: usize = 0;
        while i < n && self.table[i].id < doc.id
            invariant
                n == self.table@.len(),
                i <= n,
                forall|j: int| 0 <= j < i ==> #[trigger] self.docs()[j].id < doc.id,
                self == old(self),
                ds == self.docs(),
            decreases n - i,
        {
            i = i + 1;
        }
        if i < n && self.table[i].id == doc.id {
            // Replace in place.
            self.table.remove(i);
            self.table.insert(i, doc);
            proof {
                let ds2 = self.docs();
                assert(ds2 =~= ds.update(i as int, doc@));
                assert forall|a: int, b: int| 0 <= a < b < ds2.len() implies ds2[a].id
                    < ds2[b].id by {
                    assert(ds[a].id < ds[b].id);
                    if a == i {
                        assert(ds[a].id == doc.id);
                    }
                    if b == i {
                        assert(ds[b].id == doc.id);
                    }
                }
                assert(self.wf());
                assert forall|k: u128| #[trigger]
                    self.contents().contains_key(k) == old(self).contents().insert(
                        doc.id,
                        doc@,
                    ).contains_key(k) by {
                    if k == doc.id {
                        assert(ds2[i as int].id == k);
                    } else {
                        if has_id(ds2, k) {
                            let w = choose|w: int| 0 <= w < ds2.len() && ds2[w].id == k;
                            assert(ds[w].id == k);
                        }
                        if has_id(ds, k) {
                            let w = choose|w: int| 0 <= w < ds.len() && ds[w].id == k;
                            assert(ds2[w].id == k);
                        }
                    }
                }
                assert forall|k: u128|
                    self.contents().contains_key(k) implies #[trigger] self.contents()[k] == old(
                    self,
                ).contents().insert(doc.id, doc@)[k] by {
                    if k == doc.id {
                        lemma_at_id_is(ds2, k, i as int);
                    } else {
                        let w = choose|w: int| 0 <= w < ds2.len() && ds2[w].id == k;
                        lemma_at_id_is(ds2, k, w);
                        lemma_at_id_is(ds, k, w);
                    }
                }
                assert(self.contents() =~= old(self).contents().insert(doc.id, doc@));
                lemma_at_id_is(ds, doc.id, i as int);
                assert forall|k: int| 0 <= k < ds2.len() implies #[trigger] ds2[k] == doc@
                    || ds.contains(ds2[k]) by {
                    if k != i {
                        assert(ds2[k] == ds[k]);
                    }
                }
            }
        } else {
            // Insert between the smaller and the larger identifiers.
            assert forall|j: int| i <= j < n implies doc.id < #[trigger] ds[j].id by {
                if i < n {
                    assert(ds[i as int].id >= doc.id);
                    assert(ds[i as int].id != doc.id);
                    if j > i {
                        assert(ds[i as int].id < ds[j].id);
                    }
                }
            }
            self.table.insert(i, doc);
            proof {
                let ds2 = self.docs();
                assert(ds2 =~= ds.take(i as int) + seq![doc@] + ds.skip(i as int));
                assert forall|a: int, b: int| 0 <= a < b < ds2.len() implies ds2[a].id
                    < ds2[b].id by {
                    assert(forall|j: int|
                        0 <= j < ds2.len() ==> #[trigger] ds2[j] == (if j < i {
                            ds[j]
                        } else if j == i {
                            doc@
                        } else {
                            ds[j - 1]
                        }));
                }
                assert(self.wf());
                assert forall|k: u128| #[trigger]
                    self.contents().contains_key(k) == old(self).contents().insert(
                        doc.id,
                        doc@,
                    ).contains_key(k) by {
                    if k == doc.id {
                        assert(ds2[i as int].id == k);
                    } else {
                        if has_id(ds2, k) {
                            let w = choose|w: int| 0 <= w < ds2.len() && ds2[w].id == k;
                            if w < i {
                                assert(ds[w].id == k);
                            } else {
                                assert(ds[w - 1].id == k);
                            }
                        }
                        if has_id(ds, k) {
                            let w = choose|w: int| 0 <= w < ds.len() && ds[w].id == k;
                            if w < i {
                                assert(ds2[w].id == k);
                            } else {
                                assert(ds2[w + 1].id == k);
                            }
                        }
                    }
                }
                assert forall|k: u128|
                    self.contents().contains_key(k) implies #[trigger] self.contents()[k] == old(
                    self,
                ).contents().insert(doc.id, doc@)[k] by {
                    if k == doc.id {
                        lemma_at_id_is(ds2, k, i as int);
                    } else {
                        let w = choose|w: int| 0 <= w < ds2.len() && ds2[w].id == k;
                        lemma_at_id_is(ds2, k, w);
                        if w < i {
                            lemma_at_id_is(ds, k, w);
                        } else {
                            lemma_at_id_is(ds, k, w - 1);
                        }
                    }
                }
                assert(self.contents() =~= old(self).contents().insert(doc.id, doc@));
                if old(self).contents().contains_key(doc.id) {
                    let w = choose|w: int| 0 <= w < ds.len() && ds[w].id == doc.id;
                    assert(false);
                }
                assert forall|k: int| 0 <= k < ds2.len() implies #[trigger] ds2[k] == doc@
                    || ds.contains(ds2[k]) by {
                    if k < i {
                        assert(ds2[k] == ds[k]);
                    } else if k > i {
                        assert(ds2[k] == ds[k - 1]);
                    }
                }
            }
        }
    }

    /// Look up the live document under `id`, if any.
    pub fn get(&self, id: &u128) -> (r: Option<&Document>)
        requires
            self.wf(),
        ensures
            match r {
                Some(d) => self.contents().contains_key(*id) && d@ == self.contents()[*id],
                None => !self.contents().contains_key(*id),
            },
    {
        let n = self.table.len();
        let mut i: usize = 0;
        while i < n
            invariant
                self.wf(),
                n == self.table@.len(),
                i <= n,
                forall|j: int| 0 <= j < i ==> #[trigger] self.docs()[j].id != *id,
            decreases n - i,
        {
            if self.table[i].id == *id {
                proof {
                    lemma_at_id_is(self.docs(), *id, i as int);
                }
                return Some(&self.table[i]);
            }
            i = i + 1;
        }
        None
    }

    /// Remove the mapping under `id` if present; a no-op otherwise.
    pub fn delete(&mut self, id: &u128)
        requires
            old(self).wf(),
        ensures
            final(self).wf(),
            final(self).contents() == old(self).contents().remove(*id),
            forall|k: int|
                0 <= k < final(self).docs().len() ==> old(self).docs().contains(
                    #[trigger] final(self).docs()[k],
                ),
    {
        let ghost ds = self.docs();
        let n = self.table.len();
        let mut i: usize = 0;
        while i < n
            invariant
                self == old(self),
                self.wf(),
                n == self.table@.len(),
                i <= n,
                ds == self.docs(),
                forall|j: int| 0 <= j < i ==> #[trigger] self.docs()[j].id != *id,
            decreases n - i,
        {
            if self.table[i].id == *id {
                self.table.remove(i);
                proof {
                    let ds2 = self.docs();
                    assert(ds2 =~= ds.take(i as int) + ds.skip(i as int + 1));
                    assert(forall|j: int|
                        0 <= j < ds2.len() ==> #[trigger] ds2[j] == (if j < i {
                            ds[j]
                        } else {
                            ds[j + 1]
                        }));
                    assert(self.wf());
                    assert forall|k: u128| #[trigger]
                        self.contents().contains_key(k) == old(self).contents().remove(
                            *id,
                        ).contains_key(k) by {
                        if k != *id {
                            if has_id(ds2, k) {
                                let w = choose|w: int| 0 <= w < ds2.len() && ds2[w].id == k;
                                if w < i {
                                    assert(ds[w].id == k);
                                } else {
                                    assert(ds[w + 1].id == k);
                                }
                            }
                            if has_id(ds, k) {
                                let w = choose|w: int| 0 <= w < ds.len() && ds[w].id == k;
                                assert(w != i);
                                if w < i {
                                    assert(ds2[w].id == k);
                                } else {
                                    assert(ds2[w - 1].id == k);
                                }
                            }
                        } else {
                            if has_id(ds2, k) {
                                let w = choose|w: int| 0 <= w < ds2.len() && ds2[w].id == k;
                                let wo: int = if w < i {
                                    w
                                } else {
                                    w + 1
                                };
                                assert(ds[wo].id == k);
                                assert(ds[i as int].id == k);
                                assert(false);
                            }
                        }
                    }
                    assert forall|k: u128|
                        self.contents().contains_key(k) implies #[trigger] self.contents()[k]
                        == old(self).contents().remove(*id)[k] by {
                        let w = choose|w: int| 0 <= w < ds2.len() && ds2[w].id == k;
                        lemma_at_id_is(ds2, k, w);
                        if w < i {
                            lemma_at_id_is(ds, k, w);
                        } else {
                            lemma_at_id_is(ds, k, w + 1);
                        }
                    }
                    assert(self.contents() =~= old(self).contents().remove(*id));
                    assert forall|k: int| 0 <= k < ds2.len() implies ds.contains(
                        #[trigger] ds2[k],
                    ) by {
                        if k < i {
                            assert(ds2[k] == ds[k]);
                        } else {
                            assert(ds2[k] == ds[k + 1]);
                        }
                    }
                }
                return ;
            }
            i = i + 1;
        }
        proof {
            assert(self.contents() =~= old(self).contents().remove(*id));
            assert(forall|k: int|
                0 <= k < self.docs().len() ==> old(self).docs().contains(
                    #[trigger] self.docs()[k],
                ));
        }
    }

    /// The number of live entries.
    pub fn size(&self) -> (r: usize)
        ensures
            r == self.docs().len(),
    {
        self.table.len()
    }

    /// The documents in ascending id order. This is what an SST write walks.
    pub fn sorted_docs(&self) -> (r: &Vec<Document>)
        ensures
            r == &self.table,
            r@.map_values(|d: Document| d@) == self.docs(),
    {
        &self.table
    }

    /// An equal memtable under fresh allocations, for handing a frozen
    /// snapshot to the compaction scheduler while the collection keeps one.
    pub fn snapshot(&self) -> (r: FlatMemTable)
        ensures
            r.docs() == self.docs(),
            r.contents() == self.contents(),
            r.wf() == self.wf(),
    {
        let n = self.table.len();
        let mut table: Vec<Document> = Vec::new();
        let mut i: usize = 0;
        while i < n
            invariant
                n == self.table@.len(),
                i <= n,
                table@.map_values(|d: Document| d@) =~= self.docs().take(i as int),
            decreases n - i,
        {
            let d = self.table[i].duplicate();
            let ghost old_view = table@;
            table.push(d);
            proof {
                assert(d@ == self.docs()[i as int]);
                assert(table@ == old_view.push(d));
                assert(self.docs().take(i as int).len() == i);
                assert(old_view.len() == i);
                let lhs = table@.map_values(|d: Document| d@);
                assert(lhs.len() == i + 1);
                let prev = old_view.map_values(|d: Document| d@);
                assert forall|j: int| 0 <= j < i + 1 implies lhs[j] == #[trigger] self.docs().take(
                    i + 1,
                )[j] by {
                    if j < i {
                        assert(prev[j] == self.docs().take(i as int)[j]);
                    }
                }
                assert(lhs =~= self.docs().take(i + 1));
            }
            i = i + 1;
        }
        let r = FlatMemTable { table };
        proof {
            assert(r.docs() =~= self.docs());
        }
        r
    }
}

/// The tagged memtable variants a collection can be configured with. Only
/// the flat variant is implemented; the others are placeholders that conform
/// to the same interface but accept no operations yet.
pub enum MemTable {
    Flat(FlatMemTable),
    Hnsw,
    Ivf,
}

impl MemTable {
    pub open spec fn is_flat(self) -> bool {
        self is Flat
    }

    pub open spec fn flat(self) -> FlatMemTable
        recommends
            self is Flat,
    {
        self->Flat_0
    }

    pub open spec fn wf(self) -> bool {
        self is Flat ==> self.flat().wf()
    }

    pub open spec fn contents(self) -> Map<u128, DocView>
        recommends
            self is Flat,
    {
        self.flat().contents()
    }

    pub open spec fn docs(self) -> Seq<DocView>
        recommends
            self is Flat,
    {
        self.flat().docs()
    }

    pub fn upsert(&mut self, doc: Document)
        requires
            old(self).wf(),
            old(self).is_flat(),
        ensures
            final(self).wf(),
            final(self).is_flat(),
            final(self).contents() == old(self).contents().insert(doc.id, doc@),
            old(self).contents().contains_key(doc.id) ==> final(self).docs().len() == old(
                self,
            ).docs().len(),
            !old(self).contents().contains_key(doc.id) ==> final(self).docs().len() == old(
                self,
            ).docs().len() + 1,
            forall|k: int|
                0 <= k < final(self).docs().len() ==> #[trigger] final(self).docs()[k] == doc@
                    || old(self).docs().contains(final(self).docs()[k]),
    {
        match self {
            MemTable::Flat(t) => t.upsert(doc),
            _ => proof {
                assert(false);
            },
        }
    }

    pub fn get(&self, id: &u128) -> (r: Option<&Document>)
        requires
            self.wf(),
            self.is_flat(),
        ensures
            match r {
                Some(d) => self.contents().contains_key(*id) && d@ == self.contents()[*id],
                None => !self.contents().contains_key(*id),
            },
    {
        match self {
            MemTable::Flat(t) => t.get(id),
            _ => {
                proof {
                    assert(false);
                }
                None
            },
        }
    }

    pub fn delete(&mut self, id: &u128)
        requires
            old(self).wf(),
            old(self).is_flat(),
        ensures
            final(self).wf(),
            final(self).is_flat(),
            final(self).contents() == old(self).contents().remove(*id),
            forall|k: int|
                0 <= k < final(self).docs().len() ==> old(self).docs().contains(
                    #[trigger] final(self).docs()[k],
                ),
    {
        match self {
            MemTable::Flat(t) => t.delete(id),
            _ => proof {
                assert(false);
            },
        }
    }

    pub fn size(&self) -> (r: usize)
        requires
            self.is_flat(),
        ensures
            r == self.docs().len(),
    {
        match self {
            MemTable::Flat(t) => t.size(),
            _ => {
                proof {
                    assert(false);
                }
                0
            },
        }
    }

    pub fn sorted_docs(&self) -> (r: &Vec<Document>)
        requires
            self.is_flat(),
        ensures
            r@.map_values(|d: Document| d@) == self.docs(),
    {
        match self {
            MemTable::Flat(t) => t.sorted_docs(),
            _ => {
                proof {
                    assert(false);
                }
                unreached()
            },
        }
    }

    pub fn snapshot(&self) -> (r: MemTable)
        requires
            self.is_flat(),
        ensures
            r.is_flat(),
            r.docs() == self.docs(),
            r.contents() == self.contents(),
            r.wf() == self.wf(),
    {
        match self {
            MemTable::Flat(t) => MemTable::Flat(t.snapshot()),
            _ => {
                proof {
                    assert(false);
                }
                unreached()
            },
        }
    }
}

/// A fresh, empty memtable of the selected kind.
pub fn get_memtable(i_type: &IndexType) -> (r: MemTable)
    ensures
        r.wf(),
        i_type is Flat ==> r is Flat && r.contents() == Map::<u128, DocView>::empty()
            && r.docs().len() == 0,
        i_type is HNSW ==> r is Hnsw,
        i_type is IVF ==> r is Ivf,
{
    match i_type {
        IndexType::Flat => MemTable::Flat(FlatMemTable::new()),
        IndexType::HNSW => MemTable::Hnsw,
        IndexType::IVF => MemTable::Ivf,
    }
}

} // verus!
