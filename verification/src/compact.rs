//! The multi-lane compaction scheduler's core: per-collection lanes that
//! serialize flush tasks, and the step that turns one task into an SST.
//!
//! A lane pairs a FIFO task queue with a processing flag. The dispatcher
//! appends tasks at the tail; a worker that wins `try_acquire` (the model
//! of the compare-and-swap on `is_processing`) may pop one task from the
//! head, execute it, and must `release` afterwards. Each lane carries the
//! ghost history of everything ever enqueued and everything completed, and
//! its well-formedness pins completion order to submission order. The
//! threads, channels and sleeps that drive these steps live outside the
//! verified core.

use crate::index::SSTEvent;
use crate::memtable::MemTable;
use crate::sst::{spec_sst_bytes, wf_sst_docs, SSTManager};
use vstd::prelude::*;

verus! {

/// The layer freshly flushed memtables land on.
pub const DEFAULT_SST_LAYER: u64 = 0;

/// One unit of compaction work: flush this frozen memtable as SST
/// `{seq_no:06}.sst` of the collection, at the given layer.
pub struct CompactTask {
    pub collection_name: String,
    pub seq_no: u64,
    pub layer: u64,
    pub memtable: MemTable,
}

impl CompactTask {
    /// What executing the task requires of its memtable.
    pub open spec fn wf(self) -> bool {
        &&& self.memtable.wf()
        &&& self.memtable.is_flat()
        &&& wf_sst_docs(self.memtable.docs())
    }

    /// A task destined for the default layer.
    pub fn new_default_layer(collection_name: String, seq_no: u64, memtable: MemTable) -> (r:
        CompactTask)
        ensures
            r.collection_name == collection_name,
            r.seq_no == seq_no,
            r.layer == DEFAULT_SST_LAYER,
            r.memtable == memtable,
    {
        CompactTask { collection_name, seq_no, layer: DEFAULT_SST_LAYER, memtable }
    }
}

/// A per-collection lane: the FIFO of pending tasks and the flag that
/// admits at most one worker at a time. `history` and `completed` are the
/// ghost ledger: everything ever enqueued, and everything popped, in order.
pub struct Lane {
    pub task_queue: Vec<CompactTask>,
    pub is_processing: bool,
    pub history: Ghost<Seq<CompactTask>>,
    pub completed: Ghost<Seq<CompactTask>>,
}

impl Lane {
    /// The ledger balances: what was enqueued is what was completed
    /// followed by what still waits.
    pub open spec fn wf(self) -> bool {
        self.history@ == self.completed@ + self.task_queue@
    }

    pub fn new() -> (r: Lane)
        ensures
            r.wf(),
            r.task_queue@.len() == 0,
            !r.is_processing,
            r.history@.len() == 0,
            r.completed@.len() == 0,
    {
        let r = Lane {
            task_queue: Vec::new(),
            is_processing: false,
            history: Ghost(Seq::empty()),
            completed: Ghost(Seq::empty()),
        };
        proof {
            assert(r.history@ =~= r.completed@ + r.task_queue@);
        }
        r
    }

    /// A fresh lane; the capacity is an allocation hint only.
    pub fn with_capacity(capacity: usize) -> (r: Lane)
        ensures
            r.wf(),
            r.task_queue@.len() == 0,
            !r.is_processing,
            r.history@.len() == 0,
            r.completed@.len() == 0,
    {
        let _ = capacity;
        Lane::new()
    }

    /// The dispatcher's append: the task joins the tail of the queue and
    /// the history. The dispatcher never touches `is_processing`.
    pub fn push_task(&mut self, task: CompactTask)
        requires
            old(self).wf(),
        ensures
            final(self).wf(),
            final(self).task_queue@ == old(self).task_queue@.push(task),
            final(self).history@ == old(self).history@.push(task),
            final(self).completed@ == old(self).completed@,
            final(self).is_processing == old(self).is_processing,
    {
        self.task_queue.push(task);
        proof {
            self.history@ = self.history@.push(task);
            assert(self.history@ =~= self.completed@ + self.task_queue@);
        }
    }

    /// The model of the worker's compare-and-swap on `is_processing`:
    /// it succeeds exactly when the flag was clear, and sets it. A second
    /// acquire before `release` therefore always fails — at most one
    /// worker holds a lane.
    pub fn try_acquire(&mut self) -> (r: bool)
        requires
            old(self).wf(),
        ensures
            final(self).wf(),
            r == !old(self).is_processing,
            final(self).is_processing,
            final(self).task_queue@ == old(self).task_queue@,
            final(self).history@ == old(self).history@,
            final(self).completed@ == old(self).completed@,
    {
        if self.is_processing {
            false
        } else {
            self.is_processing = true;
            true
        }
    }

    /// Pop the head task. Only the worker holding the lane may pop, which
    /// with `try_acquire`'s exclusion makes the lane single-consumer.
    pub fn pop_task(&mut self) -> (r: Option<CompactTask>)
        requires
            old(self).wf(),
            old(self).is_processing,
        ensures
            final(self).wf(),
            final(self).is_processing,
            final(self).history@ == old(self).history@,
            match r {
                Some(t) => old(self).task_queue@.len() > 0 && t == old(self).task_queue@[0]
                    && final(self).task_queue@ == old(self).task_queue@.skip(1) && final(self).completed@ == old(self).completed@.push(t),
                None => old(self).task_queue@.len() == 0 && final(self).task_queue@ == old(
                    self,
                ).task_queue@ && final(self).completed@ == old(self).completed@,
            },
    {
        if self.task_queue.len() == 0 {
            return None;
        }
        let t = self.task_queue.remove(0);
        proof {
            self.completed@ = self.completed@.push(t);
            assert(old(self).task_queue@.remove(0) =~= old(self).task_queue@.skip(1));
            assert(self.history@ =~= self.completed@ + self.task_queue@);
        }
        Some(t)
    }

    /// Clear the processing flag. The holder must call this on every exit
    /// path from its critical section.
    pub fn release(&mut self)
        requires
            old(self).wf(),
        ensures
            final(self).wf(),
            !final(self).is_processing,
            final(self).task_queue@ == old(self).task_queue@,
            final(self).history@ == old(self).history@,
            final(self).completed@ == old(self).completed@,
    {
        self.is_processing = false;
    }
}

impl Default for Lane {
    /// The same lane `new` builds.
    fn default() -> (r: Lane)
        ensures
            r.wf(),
            r.task_queue@.len() == 0,
            !r.is_processing,
            r.history@.len() == 0,
            r.completed@.len() == 0,
    {
        Lane::new()
    }
}

/// Lane ordering: a lane completes exactly a prefix of what it was given,
/// so tasks of one collection execute in submission order.
pub proof fn lemma_lane_fifo(lane: Lane)
    requires
        lane.wf(),
    ensures
        lane.completed@ == lane.history@.take(lane.completed@.len() as int),
        lane.completed@.len() + lane.task_queue@.len() == lane.history@.len(),
{
    assert(lane.completed@ =~= lane.history@.take(lane.completed@.len() as int));
}

/// Lane ordering for sequence numbers: if tasks were enqueued with
/// ascending sequence numbers, the completed tasks' sequence numbers
/// ascend too — the SST events of one collection arrive in order.
pub proof fn lemma_lane_events_ascend(lane: Lane)
    requires
        lane.wf(),
        forall|i: int, j: int|
            0 <= i < j < lane.history@.len() ==> (#[trigger] lane.history@[i]).seq_no < (
            #[trigger] lane.history@[j]).seq_no,
    ensures
        forall|i: int, j: int|
            0 <= i < j < lane.completed@.len() ==> (#[trigger] lane.completed@[i]).seq_no < (
            #[trigger] lane.completed@[j]).seq_no,
{
    lemma_lane_fifo(lane);
    assert forall|i: int, j: int|
        0 <= i < j < lane.completed@.len() implies (#[trigger] lane.completed@[i]).seq_no < (
    #[trigger] lane.completed@[j]).seq_no by {
        assert(lane.completed@[i] == lane.history@[i]);
        assert(lane.completed@[j] == lane.history@[j]);
    }
}

/// The scheduler's shared state: one lane per collection, the worker-pool
/// bounds, and the SST manager the workers write through. The dispatcher
/// thread, the worker threads and the event channel drive this from
/// outside; every step they take is one of the verified lane operations.
pub struct CompactionManager {
    pub lanes: Vec<(String, Lane)>,
    pub min_worker_count: usize,
    pub max_worker_count: usize,
    pub default_lane_capacity: usize,
    pub sst_manager: SSTManager,
}

impl CompactionManager {
    pub open spec fn lane_names(self) -> Seq<Seq<char>> {
        self.lanes@.map_values(|p: (String, Lane)| p.0@)
    }

    pub open spec fn wf(self) -> bool {
        &&& forall|i: int, j: int|
            0 <= i < j < self.lane_names().len() ==> self.lane_names()[i] != self.lane_names()[j]
        &&& forall|i: int| 0 <= i < self.lanes@.len() ==> (#[trigger] self.lanes@[i]).1.wf()
    }

    pub fn new(path: String) -> (r: CompactionManager)
        ensures
            r.wf(),
            r.lanes@.len() == 0,
            r.min_worker_count == 4,
            r.max_worker_count == 16,
            r.default_lane_capacity == 50,
            r.sst_manager.path@ == path@ + "/data"@,
    {
        CompactionManager {
            lanes: Vec::new(),
            min_worker_count: 4,
            max_worker_count: 16,
            default_lane_capacity: 50,
            sst_manager: SSTManager::new(path),
        }
    }

    /// The dispatcher's step: route the task to its collection's lane,
    /// creating the lane first when the collection is new. Returns the
    /// lane's position.
    pub fn dispatch(&mut self, task: CompactTask) -> (r: usize)
        requires
            old(self).wf(),
        ensures
            final(self).wf(),
            r < final(self).lanes@.len(),
            final(self).lanes@[r as int].0@ == task.collection_name@,
            final(self).lanes@[r as int].1.task_queue@ == old_lane_queue(
                *old(self),
                task.collection_name@,
            ).push(task),
            final(self).lanes@[r as int].1.history@ == old_lane_history(
                *old(self),
                task.collection_name@,
            ).push(task),
            forall|k: int|
                0 <= k < old(self).lanes@.len() && k != r ==> #[trigger] final(self).lanes@[k]
                    == old(self).lanes@[k],
            final(self).lanes@.len() == (if has_lane(*old(self), task.collection_name@) {
                old(self).lanes@.len() as int
            } else {
                old(self).lanes@.len() + 1 as int
            }),
    {
        let n = self.lanes.len();
        let mut i: usize = 0;
        while i < n
            invariant
                self == old(self),
                self.wf(),
                n == self.lanes@.len(),
                i <= n,
                forall|k: int|
                    0 <= k < i ==> (#[trigger] self.lanes@[k]).0@ != task.collection_name@,
            decreases n - i,
        {
            if crate::collection::str_equal(self.lanes[i].0.as_str(), task.collection_name.as_str())
             {
                proof {
                    assert(has_lane(*old(self), task.collection_name@));
                    lemma_lane_of(*old(self), task.collection_name@, i as int);
                }
                let (name, mut lane) = self.lanes.remove(i);
                lane.push_task(task);
                self.lanes.insert(i, (name, lane));
                proof {
                    assert(self.lanes@ =~= old(self).lanes@.update(
                        i as int,
                        self.lanes@[i as int],
                    ));
                    assert(self.lane_names() =~= old(self).lane_names());
                }
                return i;
            }
            i = i + 1;
        }
        proof {
            if has_lane(*old(self), task.collection_name@) {
                let w = choose|w: int|
                    0 <= w < old(self).lanes@.len() && (#[trigger] old(self).lanes@[w]).0@
                        == task.collection_name@;
                assert(false);
            }
        }
        let capacity = self.default_lane_capacity;
        let name = task.collection_name.clone();
        let mut lane = Lane::with_capacity(capacity);
        lane.push_task(task);
        self.lanes.push((name, lane));
        proof {
            assert(old_lane_queue(*old(self), task.collection_name@) =~= Seq::<
                CompactTask,
            >::empty());
            assert(old_lane_history(*old(self), task.collection_name@) =~= Seq::<
                CompactTask,
            >::empty());
            assert(Seq::<CompactTask>::empty().push(task) =~= self.lanes@.last().1.task_queue@);
            assert(Seq::<CompactTask>::empty().push(task) =~= self.lanes@.last().1.history@);
            assert forall|a: int, b: int|
                0 <= a < b < self.lane_names().len() implies self.lane_names()[a]
                != self.lane_names()[b] by {
                if b < old(self).lanes@.len() {
                    assert(self.lane_names()[a] == old(self).lane_names()[a]);
                    assert(self.lane_names()[b] == old(self).lane_names()[b]);
                } else {
                    assert(self.lane_names()[b] == task.collection_name@);
                    if a < old(self).lanes@.len() {
                        assert(self.lane_names()[a] == old(self).lane_names()[a]);
                        assert(old(self).lanes@[a].0@ != task.collection_name@);
                    }
                }
            }
        }
        n
    }

    /// Execute one task: build the SST image of its frozen memtable. The
    /// caller persists the returned bytes at the event's recorded path and
    /// forwards the event; a failure to persist is the caller's to report
    /// through the event stream.
    pub fn run_task(&self, task: &CompactTask) -> (r: (Vec<u8>, SSTEvent))
        requires
            task.wf(),
        ensures
            r.0@ == spec_sst_bytes(task.memtable.docs()),
            r.1.metadata.collection_name@ == task.collection_name@,
            r.1.metadata.seq_no == task.seq_no,
            r.1.metadata.layer == task.layer,
            r.1.metadata.entry_count == task.memtable.docs().len(),
            r.1.metadata.path@ == crate::paths::spec_sst_file_path(
                self.sst_manager.path@,
                task.collection_name@,
                task.layer,
                task.seq_no,
            ),
    {
        let (bytes, metadata) = self.sst_manager.write_memtable(
            task.collection_name.as_str(),
            task.seq_no,
            task.layer,
            &task.memtable,
        );
        (bytes, SSTEvent { metadata })
    }
}

/// Whether the manager already has a lane for `name`.
pub open spec fn has_lane(m: CompactionManager, name: Seq<char>) -> bool {
    exists|i: int| 0 <= i < m.lanes@.len() && (#[trigger] m.lanes@[i]).0@ == name
}

/// The queue of `name`'s lane, or empty if the lane does not exist yet.
pub open spec fn old_lane_queue(m: CompactionManager, name: Seq<char>) -> Seq<CompactTask> {
    if has_lane(m, name) {
        m.lanes@[lane_of(m, name)].1.task_queue@
    } else {
        Seq::empty()
    }
}

/// The history of `name`'s lane, or empty if the lane does not exist yet.
pub open spec fn old_lane_history(m: CompactionManager, name: Seq<char>) -> Seq<CompactTask> {
    if has_lane(m, name) {
        m.lanes@[lane_of(m, name)].1.history@
    } else {
        Seq::empty()
    }
}

/// The position of `name`'s lane, where it exists.
pub open spec fn lane_of(m: CompactionManager, name: Seq<char>) -> int {
    choose|i: int| 0 <= i < m.lanes@.len() && (#[trigger] m.lanes@[i]).0@ == name
}

proof fn lemma_lane_of(m: CompactionManager, name: Seq<char>, i: int)
    requires
        m.wf(),
        0 <= i < m.lanes@.len(),
        m.lanes@[i].0@ == name,
    ensures
        lane_of(m, name) == i,
{
    let j = lane_of(m, name);
    assert(m.lanes@[i].0@ == name);
    assert(0 <= j < m.lanes@.len() && m.lanes@[j].0@ == name);
    if i < j || j < i {
        assert(m.lane_names()[i] == name);
        assert(m.lane_names()[j] == name);
    }
}

} // verus!
