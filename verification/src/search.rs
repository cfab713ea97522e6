//! The read fan-out manager: it holds the SST catalog a complete read path
//! consults and the collection's distance function. Similarity ranking
//! belongs to the index variants and is not part of the storage core.

use crate::collection::DistanceType;
use crate::index::IndexManager;
use vstd::prelude::*;

verus! {

pub struct SearchManager {
    pub index_manager: IndexManager,
    pub distance: DistanceType,
}

impl SearchManager {
    pub fn new(index_manager: IndexManager, distance: DistanceType) -> (r: SearchManager)
        ensures
            r.index_manager == index_manager,
            r.distance == distance,
    {
        SearchManager { index_manager, distance }
    }
}

} // verus!
