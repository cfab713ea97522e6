//! The SST catalog: a layered, in-memory directory of on-disk table
//! metadata, and the event type the compactor emits when a table lands.
//!
//! Within a layer, entries are appended in the order the compactor produces
//! them, which is ascending sequence-number order per collection. Lookup
//! scans layer by layer, in insertion order, and returns the first metadata
//! whose id range contains the key.

use vstd::prelude::*;

verus! {

/// What the catalog records of one on-disk table.
#[derive(Debug)]
pub struct SSTMetadata {
    pub collection_name: String,
    pub seq_no: u64,
    pub layer: u64,
    pub min_id: u128,
    pub max_id: u128,
    pub path: String,
    pub entry_count: u64,
}

/// Notification that an SST has been persisted.
pub struct SSTEvent {
    pub metadata: SSTMetadata,
}

/// The layered directory itself: bucket `l` lists the tables of layer `l`.
pub struct SSTIndex {
    pub layer_bucket: Vec<Vec<SSTMetadata>>,
}

/// The catalog the read path consults.
pub struct IndexManager {
    pub sst_index: SSTIndex,
}

/// `m`'s id range contains `id`.
pub open spec fn range_contains(m: SSTMetadata, id: u128) -> bool {
    m.min_id <= id && id <= m.max_id
}

impl IndexManager {
    /// The buckets as sequences.
    pub open spec fn buckets(self) -> Seq<Seq<SSTMetadata>> {
        self.sst_index.layer_bucket@.map_values(|b: Vec<SSTMetadata>| b@)
    }

    /// Position `(bi, ei)` comes before `(bj, ej)` in scan order.
    pub open spec fn scan_before(bi: int, ei: int, bj: int, ej: int) -> bool {
        bi < bj || (bi == bj && ei < ej)
    }

    /// An empty catalog with the first ten layers ready.
    pub fn new() -> (r: IndexManager)
        ensures
            r.buckets().len() == 10,
            forall|l: int| 0 <= l < 10 ==> (#[trigger] r.buckets()[l]).len() == 0,
    {
        let mut layer_bucket: Vec<Vec<SSTMetadata>> = Vec::new();
        let mut l: usize = 0;
        while l < 10
            invariant
                l <= 10,
                layer_bucket@.len() == l,
                forall|k: int| 0 <= k < l ==> (#[trigger] layer_bucket@[k])@.len() == 0,
            decreases 10 - l,
        {
            layer_bucket.push(Vec::new());
            l = l + 1;
        }
        IndexManager { sst_index: SSTIndex { layer_bucket } }
    }

    /// Append `sst_metadata` to its layer's bucket, growing the layer list
    /// first if the layer is new.
    pub fn add_sst_metadata(&mut self, sst_metadata: SSTMetadata)
        requires
            sst_metadata.layer < usize::MAX,
        ensures
            ({
                let l = sst_metadata.layer as int;
                let old_bs = old(self).buckets();
                let new_bs = final(self).buckets();
                &&& new_bs.len() == (if old_bs.len() > l {
                    old_bs.len()
                } else {
                    (l + 1) as nat
                })
                &&& forall|k: int|
                    0 <= k < new_bs.len() && k != l ==> #[trigger] new_bs[k] == (if k
                        < old_bs.len() {
                        old_bs[k]
                    } else {
                        Seq::<SSTMetadata>::empty()
                    })
                &&& new_bs[l] == (if l < old_bs.len() {
                    old_bs[l]
                } else {
                    Seq::<SSTMetadata>::empty()
                }).push(sst_metadata)
            }),
    {
        let layer = sst_metadata.layer as usize;
        while self.sst_index.layer_bucket.len() <= layer
            invariant
                ({
                    let bs = self.buckets();
                    let old_bs = old(self).buckets();
                    &&& bs.len() >= old_bs.len()
                    &&& old_bs.len() <= layer ==> bs.len() <= layer + 1
                    &&& old_bs.len() > layer ==> bs == old_bs
                    &&& forall|k: int|
                        0 <= k < bs.len() ==> #[trigger] bs[k] == (if k < old_bs.len() {
                            old_bs[k]
                        } else {
                            Seq::<SSTMetadata>::empty()
                        })
                }),
            decreases layer + 1 - self.sst_index.layer_bucket.len(),
        {
            let ghost pre = self.buckets();
            self.sst_index.layer_bucket.push(Vec::new());
            proof {
                assert(self.buckets() =~~= pre.push(Seq::<SSTMetadata>::empty()));
            }
        }
        let ghost bs_grown = self.buckets();
        let mut bucket = self.sst_index.layer_bucket.remove(layer);
        let ghost bucket_view = bucket@;
        bucket.push(sst_metadata);
        self.sst_index.layer_bucket.insert(layer, bucket);
        proof {
            let l = layer as int;
            assert(bucket_view == bs_grown[l]);
            let new_bs = self.buckets();
            assert(new_bs.len() == bs_grown.len());
            assert forall|k: int| 0 <= k < new_bs.len() && k != l implies #[trigger] new_bs[k]
                == bs_grown[k] by {}
            assert(new_bs[l] == bs_grown[l].push(sst_metadata));
            let old_bs = old(self).buckets();
            assert(new_bs[l] == (if l < old_bs.len() {
                old_bs[l]
            } else {
                Seq::<SSTMetadata>::empty()
            }).push(sst_metadata));
        }
    }

    /// The first metadata, in scan order (lowest layer first, then
    /// insertion order), whose id range contains `id`.
    pub fn get_sst_metadata(&self, id: u128) -> (r: Option<&SSTMetadata>)
        ensures
            match r {
                Some(m) => exists|bi: int, ei: int|
                    {
                        &&& 0 <= bi < self.buckets().len()
                        &&& 0 <= ei < self.buckets()[bi].len()
                        &&& *m == self.buckets()[bi][ei]
                        &&& range_contains(self.buckets()[bi][ei], id)
                        &&& forall|bj: int, ej: int|
                            0 <= bj < self.buckets().len() && 0 <= ej < self.buckets()[bj].len()
                                && Self::scan_before(bj, ej, bi, ei) ==> !range_contains(
                                #[trigger] self.buckets()[bj][ej],
                                id,
                            )
                    },
                None => forall|bj: int, ej: int|
                    0 <= bj < self.buckets().len() && 0 <= ej < self.buckets()[bj].len()
                        ==> !range_contains(#[trigger] self.buckets()[bj][ej], id),
            },
    {
        let nb = self.sst_index.layer_bucket.len();
        let mut bi: usize = 0;
        while bi < nb
            invariant
                nb == self.buckets().len(),
                bi <= nb,
                forall|bj: int, ej: int|
                    0 <= bj < bi && 0 <= ej < self.buckets()[bj].len() ==> !range_contains(
                        #[trigger] self.buckets()[bj][ej],
                        id,
                    ),
            decreases nb - bi,
        {
            let bucket = &self.sst_index.layer_bucket[bi];
            let ne = bucket.len();
            let mut ei: usize = 0;
            while ei < ne
                invariant
                    nb == self.buckets().len(),
                    bi < nb,
                    ne == self.buckets()[bi as int].len(),
                    bucket == &self.sst_index.layer_bucket[bi as int],
                    ei <= ne,
                    forall|bj: int, ej: int|
                        0 <= bj < bi && 0 <= ej < self.buckets()[bj].len() ==> !range_contains(
                            #[trigger] self.buckets()[bj][ej],
                            id,
                        ),
                    forall|ej: int|
                        0 <= ej < ei ==> !range_contains(
                            #[trigger] self.buckets()[bi as int][ej],
                            id,
                        ),
                decreases ne - ei,
            {
                let m = &bucket[ei];
                if m.min_id <= id && id <= m.max_id {
                    return Some(m);
                }
                ei = ei + 1;
            }
            bi = bi + 1;
        }
        None
    }
}

impl Default for IndexManager {
    /// The same catalog `new` builds.
    fn default() -> (r: IndexManager)
        ensures
            r.buckets().len() == 10,
            forall|l: int| 0 <= l < 10 ==> (#[trigger] r.buckets()[l]).len() == 0,
    {
        IndexManager::new()
    }
}

} // verus!
