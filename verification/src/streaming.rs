//! Priority-ordered, bounded-concurrency mesh streaming bookkeeping.
//!
//! The scheduler owns the cross-frame state of the streaming pipeline: the
//! priority queue of pending generation requests, the set of in-flight task
//! ids, the finished results awaiting instantiation, the authoritative map of
//! spawned render handles, and the transition bookkeeping that keeps a region
//! visible until its replacement set is fully ready.
//!
//! The scheduler decides; it performs no outside work itself. The caller
//! drives it once per step, in order: feed it the current selection
//! ([`TerrainStreaming::sync_selection`]), dispatch what it admits
//! ([`TerrainStreaming::admit_requests`]), report each finished task
//! ([`TerrainStreaming::record_completed`]), then instantiate results
//! ([`TerrainStreaming::take_completed`], [`TerrainStreaming::register_spawned`])
//! and despawn whatever [`TerrainStreaming::is_spawned`] no longer admits.

use vstd::prelude::*;

use crate::quadtree::SelectedNode;

verus! {

/// Region ids the scheduler handles stay below this bound, so that the four
/// candidate child ids `4 * id + 1..=4` always fit in `u64`.
pub const MAX_REGION_ID: u64 = 0x2000_0000_0000_0000;

/// Request to generate a terrain mesh.
#[derive(Clone, Copy, Debug)]
pub struct MeshRequest {
    /// Region id this mesh belongs to.
    pub node_id: u64,
    /// World-space center of the region.
    pub center_x: i64,
    pub center_z: i64,
    /// Side length of the region.
    pub size: i64,
    /// LOD tier for this mesh.
    pub lod: u8,
    /// Priority: squared planar distance from the camera to the region
    /// center; lower is sooner.
    pub priority: u64,
    /// Grid coordinates of the region.
    pub coords: (i32, i32),
}

/// A finished mesh generation, by region: the placement and tier the mesh
/// was produced for. The mesh payload itself is owned by the caller, which
/// pairs it with this record.
#[derive(Clone, Copy, Debug)]
pub struct MeshResult {
    /// Region id the mesh belongs to.
    pub node_id: u64,
    /// World-space center of the region.
    pub center_x: i64,
    pub center_z: i64,
    /// LOD tier the mesh was generated at.
    pub lod: u8,
    /// Grid coordinates of the region.
    pub coords: (i32, i32),
}

/// Whether an association list holds the key.
pub open spec fn map_has<V>(s: Seq<(u64, V)>, k: u64) -> bool {
    exists |i: int| 0 <= i < s.len() && (#[trigger] s[i]).0 == k
}

/// The index of the entry with the key.
pub open spec fn map_index_of<V>(s: Seq<(u64, V)>, k: u64) -> int {
    choose |i: int| 0 <= i < s.len() && (#[trigger] s[i]).0 == k
}

/// The value at the key.
pub open spec fn map_get<V>(s: Seq<(u64, V)>, k: u64) -> V {
    s[map_index_of(s, k)].1
}

/// No two entries share a key.
pub open spec fn map_keys_unique<V>(s: Seq<(u64, V)>) -> bool {
    forall |i: int, j: int| 0 <= i < j < s.len() ==> (#[trigger] s[i]).0 != (#[trigger] s[j]).0
}

/// Whether the sequence holds the id.
pub open spec fn ids_have(s: Seq<u64>, id: u64) -> bool {
    exists |i: int| 0 <= i < s.len() && s[i] == id
}

/// No id occurs twice.
pub open spec fn ids_unique(s: Seq<u64>) -> bool {
    forall |i: int, j: int| 0 <= i < j < s.len() ==> s[i] != s[j]
}

/// Whether some pending request carries the id.
pub open spec fn pending_has(s: Seq<MeshRequest>, id: u64) -> bool {
    exists |i: int| 0 <= i < s.len() && (#[trigger] s[i]).node_id == id
}

/// No two pending requests share an id.
pub open spec fn pending_ids_unique(s: Seq<MeshRequest>) -> bool {
    forall |i: int, j: int| 0 <= i < j < s.len()
        ==> (#[trigger] s[i]).node_id != (#[trigger] s[j]).node_id
}

/// Resource managing terrain chunk streaming.
pub struct TerrainStreaming {
    /// Priority queue of pending mesh requests, deduplicated by region id;
    /// admission extracts the lowest priority first.
    pub pending: Vec<MeshRequest>,
    /// Region ids whose mesh generation is currently in flight.
    pub in_flight: Vec<u64>,
    /// Completed mesh results ready to be instantiated.
    pub completed: Vec<MeshResult>,
    /// Region id to render handle of everything currently spawned; the
    /// ground truth of "currently visible".
    pub spawned: Vec<(u64, u64)>,
    /// Parent ids waiting for children to spawn (subdivision transition):
    /// parent id to the set of child ids not yet spawned. The parent stays
    /// spawned until its set empties.
    pub waiting_for_children: Vec<(u64, Vec<u64>)>,
    /// Child ids waiting for their parent to spawn (merge transition): child
    /// id to parent id. The child stays spawned until the parent spawns.
    pub waiting_for_parent: Vec<(u64, u64)>,
}

impl TerrainStreaming {
    /// The scheduler's invariant. Besides bounded ids and key uniqueness it
    /// carries the two wait-map guarantees: every subdivision wait still
    /// waits for at least one child, and every merge wait names a parent
    /// that is not spawned (were it spawned, the wait would have been
    /// resolved in the same step it spawned).
    pub open spec fn wf(self) -> bool {
        &&& pending_ids_unique(self.pending@)
        &&& ids_unique(self.in_flight@)
        &&& map_keys_unique(self.spawned@)
        &&& map_keys_unique(self.waiting_for_children@)
        &&& map_keys_unique(self.waiting_for_parent@)
        &&& forall |i: int| 0 <= i < self.pending@.len()
            ==> (#[trigger] self.pending@[i]).node_id < MAX_REGION_ID
        &&& forall |i: int| 0 <= i < self.in_flight@.len()
            ==> #[trigger] self.in_flight@[i] < MAX_REGION_ID
        &&& forall |i: int| 0 <= i < self.spawned@.len()
            ==> (#[trigger] self.spawned@[i]).0 < MAX_REGION_ID
        &&& forall |i: int| 0 <= i < self.waiting_for_children@.len()
            ==> (#[trigger] self.waiting_for_children@[i]).1@.len() > 0
        &&& forall |i: int| 0 <= i < self.waiting_for_children@.len()
            ==> ids_unique((#[trigger] self.waiting_for_children@[i]).1@)
        &&& forall |i: int| 0 <= i < self.waiting_for_parent@.len()
            ==> !map_has(self.spawned@, (#[trigger] self.waiting_for_parent@[i]).1)
        &&& forall |i: int| 0 <= i < self.pending@.len()
            ==> !ids_have(self.in_flight@, (#[trigger] self.pending@[i]).node_id)
    }

    /// An empty scheduler.
    pub fn new() -> (s: Self)
        ensures
            s.wf(),
            s.pending@.len() == 0,
            s.in_flight@.len() == 0,
            s.completed@.len() == 0,
            s.spawned@.len() == 0,
            s.waiting_for_children@.len() == 0,
            s.waiting_for_parent@.len() == 0,
    {
        TerrainStreaming {
            pending: Vec::new(),
            in_flight: Vec::new(),
            completed: Vec::new(),
            spawned: Vec::new(),
            waiting_for_children: Vec::new(),
            waiting_for_parent: Vec::new(),
        }
    }

    /// The render handle of a spawned region, if any.
    pub fn spawned_handle(&self, id: u64) -> (r: Option<u64>)
        requires
            self.wf(),
        ensures
            match r {
                Some(h) => map_has(self.spawned@, id) && map_get(self.spawned@, id) == h,
                None => !map_has(self.spawned@, id),
            },
    {
        let mut i: usize = 0;
        while i < self.spawned.len()
            invariant
                self.wf(),
                i <= self.spawned@.len(),
                forall |j: int| 0 <= j < i ==> (#[trigger] self.spawned@[j]).0 != id,
            decreases self.spawned@.len() - i,
        {
            if self.spawned[i].0 == id {
                proof {
                    lemma_map_at_index(self.spawned@, i as int);
                }
                return Some(self.spawned[i].1);
            }
            i += 1;
        }
        None
    }

    /// Whether the region currently has a spawned render handle.
    pub fn is_spawned(&self, id: u64) -> (r: bool)
        ensures
            r == map_has(self.spawned@, id),
    {
        let mut i: usize = 0;
        while i < self.spawned.len()
            invariant
                i <= self.spawned@.len(),
                forall |j: int| 0 <= j < i ==> (#[trigger] self.spawned@[j]).0 != id,
            decreases self.spawned@.len() - i,
        {
            if self.spawned[i].0 == id {
                return true;
            }
            i += 1;
        }
        false
    }

    /// Whether the region's mesh generation is in flight.
    pub fn is_in_flight(&self, id: u64) -> (r: bool)
        ensures
            r == ids_have(self.in_flight@, id),
    {
        let mut i: usize = 0;
        while i < self.in_flight.len()
            invariant
                i <= self.in_flight@.len(),
                forall |j: int| 0 <= j < i ==> self.in_flight@[j] != id,
            decreases self.in_flight@.len() - i,
        {
            if self.in_flight[i] == id {
                return true;
            }
            i += 1;
        }
        false
    }

    /// Whether a pending request carries the id.
    pub fn is_pending(&self, id: u64) -> (r: bool)
        ensures
            r == pending_has(self.pending@, id),
    {
        let mut i: usize = 0;
        while i < self.pending.len()
            invariant
                i <= self.pending@.len(),
                forall |j: int| 0 <= j < i ==> (#[trigger] self.pending@[j]).node_id != id,
            decreases self.pending@.len() - i,
        {
            if self.pending[i].node_id == id {
                return true;
            }
            i += 1;
        }
        false
    }

    /// What queueing one request does to the pending queue: nothing if the
    /// region is already spawned, in flight or pending; otherwise exactly one
    /// new entry.
    pub open spec fn spec_queue_pending(self, request: MeshRequest) -> Seq<MeshRequest> {
        if map_has(self.spawned@, request.node_id)
            || ids_have(self.in_flight@, request.node_id)
            || pending_has(self.pending@, request.node_id) {
            self.pending@
        } else {
            self.pending@.push(request)
        }
    }

    /// Queue a mesh request, unless the region is already spawned, in
    /// flight, or pending: a region is never enqueued twice.
    pub fn queue_request(&mut self, request: MeshRequest)
        requires
            old(self).wf(),
            request.node_id < MAX_REGION_ID,
        ensures
            final(self).wf(),
            final(self).pending@ == old(self).spec_queue_pending(request),
            final(self).in_flight@ == old(self).in_flight@,
            final(self).completed@ == old(self).completed@,
            final(self).spawned@ == old(self).spawned@,
            final(self).waiting_for_children@ == old(self).waiting_for_children@,
            final(self).waiting_for_parent@ == old(self).waiting_for_parent@,
    {
        if !self.is_spawned(request.node_id) && !self.is_in_flight(request.node_id) {
            if !self.is_pending(request.node_id) {
                self.pending.push(request);
            }
        }
    }

    /// Record that the region's in-flight generation task finished with the
    /// given result: the id leaves the in-flight set and the result joins the
    /// completed list. Reports whether the id was in flight at all.
    pub fn record_completed(&mut self, result: MeshResult) -> (r: bool)
        requires
            old(self).wf(),
        ensures
            final(self).wf(),
            r == ids_have(old(self).in_flight@, result.node_id),
            r ==> {
                &&& final(self).in_flight@
                    == old(self).in_flight@.remove(first_id_index(old(self).in_flight@, result.node_id))
                &&& final(self).completed@ == old(self).completed@.push(result)
            },
            !r ==> final(self).in_flight@ == old(self).in_flight@
                && final(self).completed@ == old(self).completed@,
            final(self).pending@ == old(self).pending@,
            final(self).spawned@ == old(self).spawned@,
            final(self).waiting_for_children@ == old(self).waiting_for_children@,
            final(self).waiting_for_parent@ == old(self).waiting_for_parent@,
    {
        let mut i: usize = 0;
        while i < self.in_flight.len()
            invariant
                *self == *old(self),
                old(self).wf(),
                i <= self.in_flight@.len(),
                forall |j: int| 0 <= j < i ==> self.in_flight@[j] != result.node_id,
            decreases self.in_flight@.len() - i,
        {
            if self.in_flight[i] == result.node_id {
                proof {
                    let s0 = self.in_flight@;
                    assert(s0[i as int] == result.node_id);
                    assert(ids_have(s0, result.node_id));
                    let j = first_id_index(s0, result.node_id);
                    assert(0 <= j < s0.len() && s0[j] == result.node_id);
                    assert(j == i);
                    s0.remove_ensures(i as int);
                }
                self.in_flight.remove(i);
                self.completed.push(result);
                proof {
                    let t = self.in_flight@;
                    let s0 = old(self).in_flight@;
                    assert forall |a: int, b: int| 0 <= a < b < t.len() implies t[a] != t[b] by {
                        let a0: int = if a < i { a } else { a + 1 };
                        let b0: int = if b < i { b } else { b + 1 };
                        assert(t[a] == s0[a0] && t[b] == s0[b0]);
                    }
                    assert forall |a: int| 0 <= a < t.len() implies #[trigger] t[a] < MAX_REGION_ID by {
                        let a0: int = if a < i { a } else { a + 1 };
                        assert(t[a] == s0[a0]);
                    }
                    assert forall |a: int| 0 <= a < self.pending@.len()
                        implies !ids_have(t, (#[trigger] self.pending@[a]).node_id) by {
                        if ids_have(t, self.pending@[a].node_id) {
                            let j = choose |j: int| 0 <= j < t.len()
                                && t[j] == self.pending@[a].node_id;
                            let j0: int = if j < i { j } else { j + 1 };
                            assert(s0[j0] == self.pending@[a].node_id);
                        }
                    }
                }
                return true;
            }
            i += 1;
        }
        false
    }

    /// Take every completed result, leaving the completed list empty; the
    /// caller instantiates them and reports each handle back through
    /// [`TerrainStreaming::register_spawned`].
    pub fn take_completed(&mut self) -> (r: Vec<MeshResult>)
        requires
            old(self).wf(),
        ensures
            final(self).wf(),
            r@ == old(self).completed@,
            final(self).completed@.len() == 0,
            final(self).pending@ == old(self).pending@,
            final(self).in_flight@ == old(self).in_flight@,
            final(self).spawned@ == old(self).spawned@,
            final(self).waiting_for_children@ == old(self).waiting_for_children@,
            final(self).waiting_for_parent@ == old(self).waiting_for_parent@,
    {
        let mut out: Vec<MeshResult> = Vec::new();
        core::mem::swap(&mut out, &mut self.completed);
        out
    }
}

/// The index of the first occurrence of `id`.
pub open spec fn first_id_index(s: Seq<u64>, id: u64) -> int {
    choose |i: int| 0 <= i < s.len() && s[i] == id
}


/// The index of the lowest-priority pending request, earliest on ties.
pub open spec fn min_priority_index(s: Seq<MeshRequest>) -> int
    decreases s.len(),
{
    if s.len() <= 1 {
        0
    } else {
        let m = min_priority_index(s.drop_last());
        if s.last().priority < s[m].priority {
            s.len() - 1
        } else {
            m
        }
    }
}

/// The minimum index is in range and no request has a strictly lower
/// priority.
pub proof fn lemma_min_priority_index(s: Seq<MeshRequest>)
    requires
        s.len() > 0,
    ensures
        0 <= min_priority_index(s) < s.len(),
        forall |i: int| 0 <= i < s.len()
            ==> (#[trigger] s[i]).priority >= s[min_priority_index(s)].priority,
    decreases s.len(),
{
    if s.len() > 1 {
        lemma_min_priority_index(s.drop_last());
        assert forall |i: int| 0 <= i < s.len()
            implies (#[trigger] s[i]).priority >= s[min_priority_index(s)].priority by {
            if i < s.len() - 1 {
                assert(s.drop_last()[i] == s[i]);
                assert(s.drop_last()[min_priority_index(s.drop_last())]
                    == s[min_priority_index(s.drop_last())]);
            }
        }
    }
}

/// Removing one pending request keeps ids unique and bounded, and loses no
/// other id.
proof fn lemma_pending_remove(s: Seq<MeshRequest>, i: int)
    requires
        pending_ids_unique(s),
        0 <= i < s.len(),
        forall |j: int| 0 <= j < s.len() ==> (#[trigger] s[j]).node_id < MAX_REGION_ID,
    ensures
        pending_ids_unique(s.remove(i)),
        forall |j: int| 0 <= j < s.remove(i).len()
            ==> (#[trigger] s.remove(i)[j]).node_id < MAX_REGION_ID,
        forall |id: u64| #[trigger] pending_has(s.remove(i), id) ==> pending_has(s, id),
        !pending_has(s.remove(i), s[i].node_id),
{
    s.remove_ensures(i);
    let t = s.remove(i);
    assert forall |j: int| 0 <= j < t.len()
        implies (#[trigger] t[j]).node_id < MAX_REGION_ID by {
        let j0: int = if j < i { j } else { j + 1 };
        assert(t[j] == s[j0]);
    }
    assert forall |a: int, b: int| 0 <= a < b < t.len()
        implies (#[trigger] t[a]).node_id != (#[trigger] t[b]).node_id by {
        let a0: int = if a < i { a } else { a + 1 };
        let b0: int = if b < i { b } else { b + 1 };
        assert(t[a] == s[a0] && t[b] == s[b0]);
    }
    assert forall |id: u64| #[trigger] pending_has(t, id) implies pending_has(s, id) by {
        let j = choose |j: int| 0 <= j < t.len() && (#[trigger] t[j]).node_id == id;
        let j0: int = if j < i { j } else { j + 1 };
        assert(s[j0].node_id == id);
    }
    if pending_has(t, s[i].node_id) {
        let j = choose |j: int| 0 <= j < t.len() && (#[trigger] t[j]).node_id == s[i].node_id;
        let j0: int = if j < i { j } else { j + 1 };
        assert(s[j0].node_id == s[i].node_id && j0 != i);
        if j0 < i {
            assert(s[j0].node_id != s[i].node_id);
        } else {
            assert(s[i].node_id != s[j0].node_id);
        }
    }
}

/// What admission does, one extraction at a time: while there is capacity
/// and a pending request, extract the lowest-priority one; discard it if its
/// region got spawned since it was enqueued, otherwise dispatch it and mark
/// it in flight. Returns the final pending queue, the final in-flight set,
/// and the dispatched requests in extraction order.
pub open spec fn spec_admit(
    pending: Seq<MeshRequest>,
    in_flight: Seq<u64>,
    spawned: Seq<(u64, u64)>,
    max: int,
) -> (Seq<MeshRequest>, Seq<u64>, Seq<MeshRequest>)
    decreases pending.len(),
    via spec_admit_decreases
{
    if in_flight.len() >= max || pending.len() == 0 {
        (pending, in_flight, Seq::empty())
    } else {
        let m = min_priority_index(pending);
        let r = pending[m];
        let rest = pending.remove(m);
        if map_has(spawned, r.node_id) {
            spec_admit(rest, in_flight, spawned, max)
        } else {
            let (p2, f2, d2) = spec_admit(rest, in_flight.push(r.node_id), spawned, max);
            (p2, f2, seq![r] + d2)
        }
    }
}

/// The admission recursion always shrinks the pending queue.
#[via_fn]
proof fn spec_admit_decreases(
    pending: Seq<MeshRequest>,
    in_flight: Seq<u64>,
    spawned: Seq<(u64, u64)>,
    max: int,
) {
    if !(in_flight.len() >= max || pending.len() == 0) {
        lemma_min_priority_index(pending);
        pending.remove_ensures(min_priority_index(pending));
    }
}

impl TerrainStreaming {
    /// Admit pending requests up to the concurrency limit: extract requests
    /// in priority order (nearest first), discard those whose region got
    /// spawned while queued, mark the rest in flight and return them for
    /// dispatch. The in-flight set never ends above `max_concurrent` unless
    /// it already started above it, in which case it does not grow.
    #[verifier::rlimit(100)]
    pub fn admit_requests(&mut self, max_concurrent: usize) -> (dispatched: Vec<MeshRequest>)
        requires
            old(self).wf(),
        ensures
            final(self).wf(),
            ({
                let (p, f, d) = spec_admit(
                    old(self).pending@, old(self).in_flight@, old(self).spawned@,
                    max_concurrent as int);
                &&& final(self).pending@ == p
                &&& final(self).in_flight@ == f
                &&& dispatched@ == d
            }),
            old(self).in_flight@.len() <= max_concurrent
                ==> final(self).in_flight@.len() <= max_concurrent,
            final(self).in_flight@.len() <= old(self).in_flight@.len() + dispatched@.len(),
            old(self).in_flight@.len() > max_concurrent
                ==> final(self).in_flight@ == old(self).in_flight@,
            final(self).completed@ == old(self).completed@,
            final(self).spawned@ == old(self).spawned@,
            final(self).waiting_for_children@ == old(self).waiting_for_children@,
            final(self).waiting_for_parent@ == old(self).waiting_for_parent@,
    {
        let mut dispatched: Vec<MeshRequest> = Vec::new();

        loop
            invariant
                self.wf(),
                self.completed@ == old(self).completed@,
                self.spawned@ == old(self).spawned@,
                self.waiting_for_children@ == old(self).waiting_for_children@,
                self.waiting_for_parent@ == old(self).waiting_for_parent@,
                old(self).in_flight@.len() <= max_concurrent
                    ==> self.in_flight@.len() <= max_concurrent,
                self.in_flight@.len() <= old(self).in_flight@.len() + dispatched@.len(),
                old(self).in_flight@.len() > max_concurrent
                    ==> self.in_flight@ == old(self).in_flight@,
                spec_admit(old(self).pending@, old(self).in_flight@, old(self).spawned@, max_concurrent as int)
                    == ({
                        let (p, f, d) = spec_admit(
                            self.pending@, self.in_flight@, self.spawned@, max_concurrent as int);
                        (p, f, dispatched@ + d)
                    }),
            ensures
                self.in_flight@.len() >= max_concurrent || self.pending@.len() == 0,
            decreases self.pending@.len(),
        {
            if self.in_flight.len() >= max_concurrent {
                break;
            }
            if self.pending.len() == 0 {
                break;
            }

            let mut best: usize = 0;
            let mut i: usize = 1;
            while i < self.pending.len()
                invariant
                    self.pending@.len() > 0,
                    0 <= best < i <= self.pending@.len(),
                    best as int == min_priority_index(self.pending@.take(i as int)),
                decreases self.pending@.len() - i,
            {
                proof {
                    assert(self.pending@.take(i + 1).drop_last() =~= self.pending@.take(i as int));
                    assert(self.pending@.take(i + 1).last() == self.pending@[i as int]);
                }
                if self.pending[i].priority < self.pending[best].priority {
                    best = i;
                }
                i += 1;
            }
            proof {
                assert(self.pending@.take(self.pending@.len() as int) =~= self.pending@);
                lemma_min_priority_index(self.pending@);
                lemma_pending_remove(self.pending@, best as int);
            }

            let ghost pending0 = self.pending@;
            let ghost flight0 = self.in_flight@;
            let ghost dispatched0 = dispatched@;
            let request = self.pending.remove(best);

            if self.is_spawned(request.node_id) {
                proof {
                    let (p, f, d) = spec_admit(
                        self.pending@, self.in_flight@, self.spawned@, max_concurrent as int);
                    assert(spec_admit(pending0, flight0, self.spawned@, max_concurrent as int)
                        == (p, f, d));
                }
                continue;
            }

            proof {
                assert(!ids_have(self.in_flight@, request.node_id)) by {
                    assert(pending0[best as int] == request);
                }
            }
            self.in_flight.push(request.node_id);
            dispatched.push(request);

            proof {
                let (p, f, d) = spec_admit(
                    self.pending@, self.in_flight@, self.spawned@, max_concurrent as int);
                assert(spec_admit(pending0, flight0, self.spawned@, max_concurrent as int)
                    == (p, f, (seq![request] + d)));
                assert(dispatched@ + d =~= dispatched0 + (seq![request] + d));
                assert forall |a: int| 0 <= a < self.pending@.len()
                    implies !ids_have(self.in_flight@, (#[trigger] self.pending@[a]).node_id) by {
                    assert(!pending_has(self.pending@, request.node_id));
                    if ids_have(self.in_flight@, self.pending@[a].node_id) {
                        let j = choose |j: int| 0 <= j < self.in_flight@.len()
                            && self.in_flight@[j] == self.pending@[a].node_id;
                        if j < flight0.len() {
                            assert(ids_have(flight0, self.pending@[a].node_id));
                            assert(pending_has(pending0, self.pending@[a].node_id));
                        } else {
                            assert(self.in_flight@[j] == request.node_id);
                        }
                    }
                }
                assert forall |a: int, b: int| 0 <= a < b < self.in_flight@.len()
                    implies self.in_flight@[a] != self.in_flight@[b] by {
                    if b == self.in_flight@.len() - 1 {
                        assert(self.in_flight@[b] == request.node_id);
                        assert(!ids_have(flight0, request.node_id));
                    }
                }
            }
        }

        proof {
            let (p, f, d) = spec_admit(
                self.pending@, self.in_flight@, self.spawned@, max_concurrent as int);
            assert(d =~= Seq::<MeshRequest>::empty());
            assert(dispatched@ + d =~= dispatched@);
        }

        dispatched
    }
}

/// The waiting-for-children map as pure values: each entry's pending set as
/// the sequence it holds.
pub open spec fn wfc_view(s: Seq<(u64, Vec<u64>)>) -> Seq<(u64, Seq<u64>)> {
    s.map_values(|e: (u64, Vec<u64>)| (e.0, e.1@))
}

/// An association list with the entry for `k` removed (the list itself if
/// absent).
pub open spec fn assoc_remove<V>(s: Seq<(u64, V)>, k: u64) -> Seq<(u64, V)> {
    if map_has(s, k) {
        s.remove(map_index_of(s, k))
    } else {
        s
    }
}

/// An association list with the entry for `k` set to `v`: updated in place
/// if present, appended otherwise.
pub open spec fn assoc_set<V>(s: Seq<(u64, V)>, k: u64, v: V) -> Seq<(u64, V)> {
    if map_has(s, k) {
        s.update(map_index_of(s, k), (k, v))
    } else {
        s.push((k, v))
    }
}

/// The set of ids of the selected regions.
pub open spec fn sel_id_set(selected: Seq<SelectedNode>) -> Set<u64> {
    Set::new(|id: u64| exists |i: int| 0 <= i < selected.len() && (#[trigger] selected[i]).id == id)
}

/// The candidate children of a region that are currently selected, in id
/// order.
pub open spec fn spec_children_in_sel(sel: Set<u64>, id: u64) -> Seq<u64>
    recommends
        id < MAX_REGION_ID,
{
    let c1 = (4 * id + 1) as u64;
    let c2 = (4 * id + 2) as u64;
    let c3 = (4 * id + 3) as u64;
    let c4 = (4 * id + 4) as u64;
    (if sel.contains(c1) { seq![c1] } else { Seq::empty() })
        + (if sel.contains(c2) { seq![c2] } else { Seq::empty() })
        + (if sel.contains(c3) { seq![c3] } else { Seq::empty() })
        + (if sel.contains(c4) { seq![c4] } else { Seq::empty() })
}

/// The selected children of a region that are not yet spawned, in id order.
pub open spec fn spec_missing_children(spawned: Seq<(u64, u64)>, sel: Set<u64>, id: u64) -> Seq<u64>
    recommends
        id < MAX_REGION_ID,
{
    let c1 = (4 * id + 1) as u64;
    let c2 = (4 * id + 2) as u64;
    let c3 = (4 * id + 3) as u64;
    let c4 = (4 * id + 4) as u64;
    (if sel.contains(c1) && !map_has(spawned, c1) { seq![c1] } else { Seq::empty() })
        + (if sel.contains(c2) && !map_has(spawned, c2) { seq![c2] } else { Seq::empty() })
        + (if sel.contains(c3) && !map_has(spawned, c3) { seq![c3] } else { Seq::empty() })
        + (if sel.contains(c4) && !map_has(spawned, c4) { seq![c4] } else { Seq::empty() })
}

/// How one spawned-but-unselected region is classified. Subdivision case: a
/// selected child exists; the parent goes away once every selected child is
/// spawned, else it stays and the missing children are recorded. Merge case:
/// the region's parent is selected; the child goes away if the parent is
/// spawned, else it stays and the wait is recorded. Out-of-view case:
/// neither; the region and any waits on it go away at once.
pub open spec fn spec_classify_one(
    spawned: Seq<(u64, u64)>,
    wfc: Seq<(u64, Seq<u64>)>,
    wfp: Seq<(u64, u64)>,
    sel: Set<u64>,
    id: u64,
) -> (Seq<(u64, u64)>, Seq<(u64, Seq<u64>)>, Seq<(u64, u64)>)
    recommends
        id < MAX_REGION_ID,
{
    let cands = spec_children_in_sel(sel, id);
    let missing = spec_missing_children(spawned, sel, id);
    if cands.len() > 0 {
        if missing.len() == 0 {
            (assoc_remove(spawned, id), assoc_remove(wfc, id), wfp)
        } else {
            (spawned, assoc_set(wfc, id, missing), wfp)
        }
    } else if id > 4 && sel.contains(((id - 1) / 4) as u64) {
        if map_has(spawned, ((id - 1) / 4) as u64) {
            (assoc_remove(spawned, id), wfc, assoc_remove(wfp, id))
        } else {
            (spawned, wfc, assoc_set(wfp, id, ((id - 1) / 4) as u64))
        }
    } else {
        (assoc_remove(spawned, id), assoc_remove(wfc, id), assoc_remove(wfp, id))
    }
}

/// The classification of a whole list of regions, first to last.
pub open spec fn spec_classify_all(
    spawned: Seq<(u64, u64)>,
    wfc: Seq<(u64, Seq<u64>)>,
    wfp: Seq<(u64, u64)>,
    sel: Set<u64>,
    ids: Seq<u64>,
) -> (Seq<(u64, u64)>, Seq<(u64, Seq<u64>)>, Seq<(u64, u64)>)
    decreases ids.len(),
{
    if ids.len() == 0 {
        (spawned, wfc, wfp)
    } else {
        let (s1, c1, p1) = spec_classify_all(spawned, wfc, wfp, sel, ids.drop_last());
        spec_classify_one(s1, c1, p1, sel, ids.last())
    }
}

/// The spawned regions that fell out of the selection, in map order.
pub open spec fn spec_unselected_ids(spawned: Seq<(u64, u64)>, sel: Set<u64>) -> Seq<u64>
    decreases spawned.len(),
{
    if spawned.len() == 0 {
        Seq::empty()
    } else {
        let rest = spec_unselected_ids(spawned.drop_last(), sel);
        if !sel.contains(spawned.last().0) {
            rest.push(spawned.last().0)
        } else {
            rest
        }
    }
}

/// The request the selection step builds for a region: placement and tier
/// from the selection, priority the squared planar distance to the camera.
pub open spec fn spec_request_of(node: SelectedNode, cam_x: int, cam_z: int) -> MeshRequest {
    MeshRequest {
        node_id: node.id,
        center_x: node.center_x,
        center_z: node.center_z,
        size: (2 * node.half_size) as i64,
        lod: node.lod_level,
        priority: ((node.center_x - cam_x) * (node.center_x - cam_x)
            + (node.center_z - cam_z) * (node.center_z - cam_z)) as u64,
        coords: node.coords,
    }
}

/// What the enqueue half of the selection step leaves pending: one request
/// per selected region that is not spawned, in flight, or already pending,
/// in selection order.
pub open spec fn spec_enqueue_all(
    pending: Seq<MeshRequest>,
    spawned: Seq<(u64, u64)>,
    in_flight: Seq<u64>,
    selected: Seq<SelectedNode>,
    cam_x: int,
    cam_z: int,
) -> Seq<MeshRequest>
    decreases selected.len(),
{
    if selected.len() == 0 {
        pending
    } else {
        let p1 = spec_enqueue_all(pending, spawned, in_flight, selected.drop_last(), cam_x, cam_z);
        let node = selected.last();
        if map_has(spawned, node.id) || ids_have(in_flight, node.id) || pending_has(p1, node.id) {
            p1
        } else {
            p1.push(spec_request_of(node, cam_x, cam_z))
        }
    }
}

/// The set of ids a sequence holds.
pub open spec fn set_of_ids(s: Seq<u64>) -> Set<u64> {
    Set::new(|id: u64| ids_have(s, id))
}

/// Whether the vector holds the id.
fn vec_has_id(v: &Vec<u64>, id: u64) -> (r: bool)
    ensures
        r == ids_have(v@, id),
{
    let mut i: usize = 0;
    while i < v.len()
        invariant
            i <= v@.len(),
            forall |j: int| 0 <= j < i ==> v@[j] != id,
        decreases v@.len() - i,
    {
        if v[i] == id {
            return true;
        }
        i += 1;
    }
    false
}

/// Find the index of the entry with the key in an association vector.
fn assoc_index_of<V>(v: &Vec<(u64, V)>, k: u64) -> (r: Option<usize>)
    requires
        map_keys_unique(v@),
    ensures
        match r {
            Some(i) => i < v@.len() && v@[i as int].0 == k && map_has(v@, k)
                && map_index_of(v@, k) == i,
            None => !map_has(v@, k),
        },
{
    let mut i: usize = 0;
    while i < v.len()
        invariant
            map_keys_unique(v@),
            i <= v@.len(),
            forall |j: int| 0 <= j < i ==> (#[trigger] v@[j]).0 != k,
        decreases v@.len() - i,
    {
        if v[i].0 == k {
            proof {
                lemma_map_at_index(v@, i as int);
            }
            return Some(i);
        }
        i += 1;
    }
    None
}

/// Looking a key up is insensitive to entry order once keys are unique.
proof fn lemma_map_at_index<V>(s: Seq<(u64, V)>, i: int)
    requires
        map_keys_unique(s),
        0 <= i < s.len(),
    ensures
        map_has(s, s[i].0),
        map_index_of(s, s[i].0) == i,
        map_get(s, s[i].0) == s[i].1,
{
    assert(map_has(s, s[i].0));
    let j = map_index_of(s, s[i].0);
    assert(0 <= j < s.len() && s[j].0 == s[i].0);
    if i != j {
        assert(s[i].0 != s[j].0);
    }
}

/// Removing a key keeps keys unique, drops exactly that key, keeps every
/// other binding, and invents no entry.
proof fn lemma_assoc_remove_props<V>(s: Seq<(u64, V)>, k: u64)
    requires
        map_keys_unique(s),
    ensures
        map_keys_unique(assoc_remove(s, k)),
        !map_has(assoc_remove(s, k), k),
        forall |k2: u64| k2 != k
            ==> (#[trigger] map_has(assoc_remove(s, k), k2) <==> map_has(s, k2)),
        forall |k2: u64| k2 != k && map_has(s, k2)
            ==> #[trigger] map_get(assoc_remove(s, k), k2) == map_get(s, k2),
        forall |j: int| 0 <= j < assoc_remove(s, k).len()
            ==> s.contains(#[trigger] assoc_remove(s, k)[j]),
{
    if map_has(s, k) {
        let i = map_index_of(s, k);
        assert(0 <= i < s.len() && s[i].0 == k);
        s.remove_ensures(i);
        let t = s.remove(i);
        assert forall |j: int| 0 <= j < assoc_remove(s, k).len()
            implies s.contains(#[trigger] assoc_remove(s, k)[j]) by {
            let j0: int = if j < i { j } else { j + 1 };
            assert(assoc_remove(s, k)[j] == t[j]);
            assert(0 <= j0 < s.len() && t[j] == s[j0]);
            assert(s[j0] == assoc_remove(s, k)[j]);
        }
        assert forall |a: int, b: int| 0 <= a < b < t.len()
            implies (#[trigger] t[a]).0 != (#[trigger] t[b]).0 by {
            let a0: int = if a < i { a } else { a + 1 };
            let b0: int = if b < i { b } else { b + 1 };
            assert(t[a] == s[a0] && t[b] == s[b0]);
        }
        if map_has(t, k) {
            let j = map_index_of(t, k);
            let j0: int = if j < i { j } else { j + 1 };
            assert(s[j0].0 == k && j0 != i);
            if j0 < i {
                assert(s[j0].0 != s[i].0);
            } else {
                assert(s[i].0 != s[j0].0);
            }
        }
        assert forall |k2: u64| k2 != k && map_has(s, k2)
            implies #[trigger] map_has(t, k2) by {
            let j0 = map_index_of(s, k2);
            assert(0 <= j0 < s.len() && s[j0].0 == k2 && j0 != i);
            let j: int = if j0 < i { j0 } else { j0 - 1 };
            assert(t[j] == s[j0]);
        }
        assert forall |k2: u64| k2 != k && map_has(s, k2)
            implies #[trigger] map_get(t, k2) == map_get(s, k2) by {
            let j0 = map_index_of(s, k2);
            assert(0 <= j0 < s.len() && s[j0].0 == k2 && j0 != i);
            let j: int = if j0 < i { j0 } else { j0 - 1 };
            assert(t[j] == s[j0]);
            lemma_map_at_index(t, j);
            lemma_map_at_index(s, j0);
        }
        assert forall |k2: u64| k2 != k && map_has(t, k2)
            implies map_has(s, k2) by {
            let j = map_index_of(t, k2);
            let j0: int = if j < i { j } else { j + 1 };
            assert(s[j0].0 == k2);
        }
    } else {
        assert forall |j: int| 0 <= j < assoc_remove(s, k).len()
            implies s.contains(#[trigger] assoc_remove(s, k)[j]) by {
            assert(s[j] == assoc_remove(s, k)[j]);
        }
    }
}

/// Setting a key keeps keys unique, binds exactly that key to the value, and
/// keeps every other binding.
proof fn lemma_assoc_set_props<V>(s: Seq<(u64, V)>, k: u64, v: V)
    requires
        map_keys_unique(s),
    ensures
        map_keys_unique(assoc_set(s, k, v)),
        map_has(assoc_set(s, k, v), k),
        map_get(assoc_set(s, k, v), k) == v,
        forall |k2: u64| k2 != k
            ==> (#[trigger] map_has(assoc_set(s, k, v), k2) <==> map_has(s, k2)),
        forall |k2: u64| k2 != k && map_has(s, k2)
            ==> #[trigger] map_get(assoc_set(s, k, v), k2) == map_get(s, k2),
        forall |j: int| 0 <= j < assoc_set(s, k, v).len()
            ==> #[trigger] assoc_set(s, k, v)[j] == (k, v) || s.contains(assoc_set(s, k, v)[j]),
{
    let t = assoc_set(s, k, v);
    if map_has(s, k) {
        let i = map_index_of(s, k);
        assert(0 <= i < s.len() && s[i].0 == k);
        assert(t == s.update(i, (k, v)));
        assert(t[i] == (k, v));
        assert forall |a: int, b: int| 0 <= a < b < t.len()
            implies (#[trigger] t[a]).0 != (#[trigger] t[b]).0 by {
            assert(t[a] == (if a == i { (k, v) } else { s[a] }));
            assert(t[b] == (if b == i { (k, v) } else { s[b] }));
        }
        lemma_map_at_index(t, i);
        assert forall |k2: u64| k2 != k && map_has(s, k2)
            implies #[trigger] map_has(t, k2) by {
            let j0 = map_index_of(s, k2);
            assert(0 <= j0 < s.len() && s[j0].0 == k2 && j0 != i);
            assert(t[j0] == s[j0]);
            lemma_map_at_index(t, j0);
        }
        assert forall |k2: u64| k2 != k && map_has(s, k2)
            implies #[trigger] map_get(t, k2) == map_get(s, k2) by {
            let j0 = map_index_of(s, k2);
            assert(0 <= j0 < s.len() && s[j0].0 == k2 && j0 != i);
            assert(t[j0] == s[j0]);
            lemma_map_at_index(t, j0);
            lemma_map_at_index(s, j0);
        }
        assert forall |k2: u64| k2 != k && map_has(t, k2)
            implies map_has(s, k2) by {
            let j = map_index_of(t, k2);
            assert(j != i);
            assert(t[j] == s[j]);
        }
        assert forall |j: int| 0 <= j < assoc_set(s, k, v).len()
            implies #[trigger] assoc_set(s, k, v)[j] == (k, v)
                || s.contains(assoc_set(s, k, v)[j]) by {
            if j != i {
                assert(s[j] == assoc_set(s, k, v)[j]);
            }
        }
    } else {
        assert(t == s.push((k, v)));
        assert(t[s.len() as int] == (k, v));
        assert forall |a: int, b: int| 0 <= a < b < t.len()
            implies (#[trigger] t[a]).0 != (#[trigger] t[b]).0 by {
            if b < s.len() {
                assert(t[a] == s[a] && t[b] == s[b]);
            } else {
                assert(t[b] == (k, v));
                assert(t[a] == s[a]);
                if s[a].0 == k {
                    assert(map_has(s, k));
                }
            }
        }
        lemma_map_at_index(t, s.len() as int);
        assert forall |k2: u64| k2 != k && map_has(s, k2)
            implies #[trigger] map_has(t, k2) by {
            let j0 = map_index_of(s, k2);
            assert(t[j0] == s[j0]);
            lemma_map_at_index(t, j0);
        }
        assert forall |k2: u64| k2 != k && map_has(s, k2)
            implies #[trigger] map_get(t, k2) == map_get(s, k2) by {
            let j0 = map_index_of(s, k2);
            assert(t[j0] == s[j0]);
            lemma_map_at_index(t, j0);
            lemma_map_at_index(s, j0);
        }
        assert forall |k2: u64| k2 != k && map_has(t, k2)
            implies map_has(s, k2) by {
            let j = map_index_of(t, k2);
            assert(j != s.len());
            assert(t[j] == s[j]);
        }
        assert forall |j: int| 0 <= j < assoc_set(s, k, v).len()
            implies #[trigger] assoc_set(s, k, v)[j] == (k, v)
                || s.contains(assoc_set(s, k, v)[j]) by {
            if j < s.len() {
                assert(s[j] == assoc_set(s, k, v)[j]);
            }
        }
    }
}

/// Remove the entry with the key from an association vector.
fn assoc_remove_exec<V>(v: &mut Vec<(u64, V)>, k: u64)
    requires
        map_keys_unique(old(v)@),
    ensures
        final(v)@ == assoc_remove(old(v)@, k),
{
    let mut i: usize = 0;
    while i < v.len()
        invariant
            *v == *old(v),
            map_keys_unique(v@),
            i <= v@.len(),
            forall |j: int| 0 <= j < i ==> (#[trigger] v@[j]).0 != k,
        decreases v@.len() - i,
    {
        if v[i].0 == k {
            proof {
                lemma_map_at_index(v@, i as int);
            }
            v.remove(i);
            return;
        }
        i += 1;
    }
}

/// Set the entry with the key in an association vector: update in place if
/// present, append otherwise.
fn assoc_set_exec<V>(v: &mut Vec<(u64, V)>, k: u64, value: V)
    requires
        map_keys_unique(old(v)@),
    ensures
        final(v)@ == assoc_set(old(v)@, k, value),
{
    let mut i: usize = 0;
    while i < v.len()
        invariant
            *v == *old(v),
            map_keys_unique(v@),
            i <= v@.len(),
            forall |j: int| 0 <= j < i ==> (#[trigger] v@[j]).0 != k,
        decreases v@.len() - i,
    {
        if v[i].0 == k {
            proof {
                lemma_map_at_index(v@, i as int);
            }
            v.remove(i);
            v.insert(i, (k, value));
            proof {
                assert(v@ =~= old(v)@.update(i as int, (k, value)));
            }
            return;
        }
        i += 1;
    }
    v.push((k, value));
}

impl TerrainStreaming {
    /// Classify one spawned-but-no-longer-selected region and apply the
    /// outcome: a subdividing parent stays until its selected children all
    /// spawn, a merging child stays until its parent spawns, and a region
    /// that simply left the view goes away with its waits.
    #[verifier::rlimit(100)]
    fn classify_one(&mut self, id: u64, selected_ids: &Vec<u64>)
        requires
            old(self).wf(),
            id < MAX_REGION_ID,
        ensures
            final(self).wf(),
            ({
                let (sp, wc, wp) = spec_classify_one(
                    old(self).spawned@,
                    wfc_view(old(self).waiting_for_children@),
                    old(self).waiting_for_parent@,
                    set_of_ids(selected_ids@),
                    id);
                &&& final(self).spawned@ == sp
                &&& wfc_view(final(self).waiting_for_children@) == wc
                &&& final(self).waiting_for_parent@ == wp
            }),
            final(self).pending@ == old(self).pending@,
            final(self).in_flight@ == old(self).in_flight@,
            final(self).completed@ == old(self).completed@,
    {
        let ghost sel = set_of_ids(selected_ids@);
        let ghost sp0 = self.spawned@;
        let ghost wc0 = wfc_view(self.waiting_for_children@);
        let ghost wp0 = self.waiting_for_parent@;

        let c1 = 4 * id + 1;
        let c2 = 4 * id + 2;
        let c3 = 4 * id + 3;
        let c4 = 4 * id + 4;

        let s1 = vec_has_id(selected_ids, c1);
        let s2 = vec_has_id(selected_ids, c2);
        let s3 = vec_has_id(selected_ids, c3);
        let s4 = vec_has_id(selected_ids, c4);

        if s1 || s2 || s3 || s4 {
            let m1 = s1 && !self.is_spawned(c1);
            let m2 = s2 && !self.is_spawned(c2);
            let m3 = s3 && !self.is_spawned(c3);
            let m4 = s4 && !self.is_spawned(c4);

            proof {
                assert(spec_children_in_sel(sel, id).len() > 0);
            }

            if !m1 && !m2 && !m3 && !m4 {
                proof {
                    assert(spec_missing_children(sp0, sel, id) =~= Seq::<u64>::empty());
                    lemma_assoc_remove_props(sp0, id);
                    lemma_assoc_remove_props(wc0, id);
                }
                assoc_remove_exec(&mut self.spawned, id);
                assoc_remove_exec(&mut self.waiting_for_children, id);
                proof {
                    lemma_wfc_view_remove(old(self).waiting_for_children@, id);
                    lemma_classify_wf(*old(self), *self, id);
                }
            } else {
                let mut missing: Vec<u64> = Vec::new();
                if m1 {
                    missing.push(c1);
                }
                if m2 {
                    missing.push(c2);
                }
                if m3 {
                    missing.push(c3);
                }
                if m4 {
                    missing.push(c4);
                }
                proof {
                    assert(missing@ =~= spec_missing_children(sp0, sel, id));
                    assert(missing@.len() > 0);
                    assert(ids_unique(missing@));
                    lemma_assoc_set_props(wc0, id, missing@);
                }
                let ghost mview = missing@;
                assoc_set_exec(&mut self.waiting_for_children, id, missing);
                proof {
                    lemma_wfc_view_set(old(self).waiting_for_children@, id, mview);
                    lemma_classify_wf(*old(self), *self, id);
                }
            }
        } else {
            let parent: u64 = if id > 4 { (id - 1) / 4 } else { 0 };
            if id > 4 && vec_has_id(selected_ids, parent) {
                proof {
                    assert(spec_children_in_sel(sel, id) =~= Seq::<u64>::empty());
                }
                if self.is_spawned(parent) {
                    proof {
                        lemma_assoc_remove_props(sp0, id);
                        lemma_assoc_remove_props(wp0, id);
                    }
                    assoc_remove_exec(&mut self.spawned, id);
                    assoc_remove_exec(&mut self.waiting_for_parent, id);
                    proof {
                        lemma_classify_wf(*old(self), *self, id);
                    }
                } else {
                    proof {
                        lemma_assoc_set_props(wp0, id, parent);
                    }
                    assoc_set_exec(&mut self.waiting_for_parent, id, parent);
                    proof {
                        lemma_classify_wf(*old(self), *self, id);
                    }
                }
            } else {
                proof {
                    assert(spec_children_in_sel(sel, id) =~= Seq::<u64>::empty());
                    lemma_assoc_remove_props(sp0, id);
                    lemma_assoc_remove_props(wc0, id);
                    lemma_assoc_remove_props(wp0, id);
                }
                assoc_remove_exec(&mut self.spawned, id);
                assoc_remove_exec(&mut self.waiting_for_children, id);
                assoc_remove_exec(&mut self.waiting_for_parent, id);
                proof {
                    lemma_wfc_view_remove(old(self).waiting_for_children@, id);
                    lemma_classify_wf(*old(self), *self, id);
                }
            }
        }
    }
}

/// The view of the waiting-for-children map commutes with removing a key.
proof fn lemma_wfc_view_remove(s: Seq<(u64, Vec<u64>)>, k: u64)
    requires
        map_keys_unique(s),
    ensures
        map_keys_unique(wfc_view(s)),
        wfc_view(assoc_remove(s, k)) == assoc_remove(wfc_view(s), k),
{
    lemma_wfc_view_basic(s);
    if map_has(s, k) {
        let i = map_index_of(s, k);
        assert(0 <= i < s.len() && s[i].0 == k);
        assert(wfc_view(s)[i].0 == k);
        lemma_map_at_index(s, i);
        lemma_map_at_index(wfc_view(s), i);
        s.remove_ensures(i);
        wfc_view(s).remove_ensures(i);
        assert(wfc_view(assoc_remove(s, k)) =~= assoc_remove(wfc_view(s), k));
    } else {
        if map_has(wfc_view(s), k) {
            let i = map_index_of(wfc_view(s), k);
            assert(s[i].0 == k);
        }
    }
}

/// The view of the waiting-for-children map commutes with setting a key.
proof fn lemma_wfc_view_set(s: Seq<(u64, Vec<u64>)>, k: u64, v: Seq<u64>)
    requires
        map_keys_unique(s),
    ensures
        forall |vv: Vec<u64>| vv@ == v
            ==> wfc_view(#[trigger] assoc_set(s, k, vv)) == assoc_set(wfc_view(s), k, v),
{
    lemma_wfc_view_basic(s);
    assert forall |vv: Vec<u64>| vv@ == v
        implies wfc_view(#[trigger] assoc_set(s, k, vv)) == assoc_set(wfc_view(s), k, v) by {
        if map_has(s, k) {
            let i = map_index_of(s, k);
            assert(0 <= i < s.len() && s[i].0 == k);
            assert(wfc_view(s)[i].0 == k);
            lemma_map_at_index(s, i);
            lemma_map_at_index(wfc_view(s), i);
            assert(wfc_view(assoc_set(s, k, vv)) =~= assoc_set(wfc_view(s), k, v));
        } else {
            if map_has(wfc_view(s), k) {
                let i = map_index_of(wfc_view(s), k);
                assert(s[i].0 == k);
            }
            assert(wfc_view(assoc_set(s, k, vv)) =~= assoc_set(wfc_view(s), k, v));
        }
    }
}

/// Basic correspondence between the waiting-for-children map and its view:
/// same length, same keys, entrywise viewed values.
proof fn lemma_wfc_view_basic(s: Seq<(u64, Vec<u64>)>)
    ensures
        wfc_view(s).len() == s.len(),
        forall |i: int| 0 <= i < s.len()
            ==> #[trigger] wfc_view(s)[i] == (s[i].0, s[i].1@),
        map_keys_unique(s) ==> map_keys_unique(wfc_view(s)),
        forall |k: u64| #[trigger] map_has(wfc_view(s), k) <==> map_has(s, k),
{
    assert forall |k: u64| #[trigger] map_has(wfc_view(s), k) <==> map_has(s, k) by {
        if map_has(wfc_view(s), k) {
            let i = map_index_of(wfc_view(s), k);
            assert(s[i].0 == k);
        }
        if map_has(s, k) {
            let i = map_index_of(s, k);
            assert(wfc_view(s)[i].0 == k);
        }
    }
}

/// After one classification step the scheduler invariant still holds.
proof fn lemma_classify_wf(pre: TerrainStreaming, post: TerrainStreaming, id: u64)
    requires
        pre.wf(),
        post.pending@ == pre.pending@,
        post.in_flight@ == pre.in_flight@,
        post.spawned@ == pre.spawned@ || post.spawned@ == assoc_remove(pre.spawned@, id),
        post.waiting_for_parent@ == pre.waiting_for_parent@
            || post.waiting_for_parent@ == assoc_remove(pre.waiting_for_parent@, id)
            || (exists |p: u64| post.waiting_for_parent@
                == #[trigger] assoc_set(pre.waiting_for_parent@, id, p)
                && !map_has(post.spawned@, p)),
        ({
            ||| post.waiting_for_children@ == pre.waiting_for_children@
            ||| post.waiting_for_children@
                == assoc_remove(pre.waiting_for_children@, id)
            ||| (exists |m: Vec<u64>| post.waiting_for_children@
                == #[trigger] assoc_set(pre.waiting_for_children@, id, m)
                && m@.len() > 0 && ids_unique(m@))
        }),
    ensures
        post.wf(),
{
    lemma_assoc_remove_props(pre.spawned@, id);
    lemma_assoc_remove_props(pre.waiting_for_parent@, id);
    lemma_assoc_remove_props(pre.waiting_for_children@, id);
    if post.spawned@ == assoc_remove(pre.spawned@, id) {
        assert forall |i: int| 0 <= i < post.spawned@.len()
            implies (#[trigger] post.spawned@[i]).0 < MAX_REGION_ID by {
            assert(pre.spawned@.contains(post.spawned@[i]));
            let j = choose |j: int| 0 <= j < pre.spawned@.len()
                && pre.spawned@[j] == post.spawned@[i];
            assert(pre.spawned@[j].0 < MAX_REGION_ID);
        }
    }
    if post.waiting_for_children@ == assoc_remove(pre.waiting_for_children@, id) {
        assert forall |i: int| 0 <= i < post.waiting_for_children@.len()
            implies (#[trigger] post.waiting_for_children@[i]).1@.len() > 0
                && ids_unique(post.waiting_for_children@[i].1@) by {
            assert(pre.waiting_for_children@.contains(post.waiting_for_children@[i]));
            let j = choose |j: int| 0 <= j < pre.waiting_for_children@.len()
                && pre.waiting_for_children@[j] == post.waiting_for_children@[i];
            assert(pre.waiting_for_children@[j].1@.len() > 0);
            assert(ids_unique(pre.waiting_for_children@[j].1@));
        }
    }
    if exists |m: Vec<u64>| post.waiting_for_children@
        == #[trigger] assoc_set(pre.waiting_for_children@, id, m)
        && m@.len() > 0 && ids_unique(m@) {
        let m = choose |m: Vec<u64>| post.waiting_for_children@
            == #[trigger] assoc_set(pre.waiting_for_children@, id, m)
            && m@.len() > 0 && ids_unique(m@);
        lemma_assoc_set_props(pre.waiting_for_children@, id, m);
        assert forall |i: int| 0 <= i < post.waiting_for_children@.len()
            implies (#[trigger] post.waiting_for_children@[i]).1@.len() > 0
                && ids_unique(post.waiting_for_children@[i].1@) by {
            if post.waiting_for_children@[i] != (id, m) {
                assert(pre.waiting_for_children@.contains(post.waiting_for_children@[i]));
                let j = choose |j: int| 0 <= j < pre.waiting_for_children@.len()
                    && pre.waiting_for_children@[j] == post.waiting_for_children@[i];
                assert(pre.waiting_for_children@[j].1@.len() > 0);
                assert(ids_unique(pre.waiting_for_children@[j].1@));
            }
        }
    }
    // merge waits still reference unspawned parents
    assert forall |i: int| 0 <= i < post.waiting_for_parent@.len()
        implies !map_has(post.spawned@, (#[trigger] post.waiting_for_parent@[i]).1) by {
        let e = post.waiting_for_parent@[i];
        if post.waiting_for_parent@ == pre.waiting_for_parent@
            || post.waiting_for_parent@ == assoc_remove(pre.waiting_for_parent@, id) {
            if post.waiting_for_parent@ != pre.waiting_for_parent@ {
                assert(pre.waiting_for_parent@.contains(e));
                let j = choose |j: int| 0 <= j < pre.waiting_for_parent@.len()
                    && pre.waiting_for_parent@[j] == e;
                assert(!map_has(pre.spawned@, e.1));
            } else {
                assert(!map_has(pre.spawned@, e.1));
            }
            if post.spawned@ == assoc_remove(pre.spawned@, id) {
                if map_has(post.spawned@, e.1) {
                    assert(e.1 != id ==> map_has(pre.spawned@, e.1));
                    assert(!map_has(post.spawned@, id));
                }
            }
        } else {
            let p = choose |p: u64| post.waiting_for_parent@
                == #[trigger] assoc_set(pre.waiting_for_parent@, id, p)
                && !map_has(post.spawned@, p);
            lemma_assoc_set_props(pre.waiting_for_parent@, id, p);
            if e != (id, p) {
                assert(pre.waiting_for_parent@.contains(e));
                let j = choose |j: int| 0 <= j < pre.waiting_for_parent@.len()
                    && pre.waiting_for_parent@[j] == e;
                assert(!map_has(pre.spawned@, e.1));
            }
        }
    }
    // pending stays disjoint from in-flight
    assert(post.pending@ == pre.pending@ && post.in_flight@ == pre.in_flight@);
    // key uniqueness of the three maps
    if exists |p: u64| post.waiting_for_parent@
        == #[trigger] assoc_set(pre.waiting_for_parent@, id, p)
        && !map_has(post.spawned@, p) {
        let p = choose |p: u64| post.waiting_for_parent@
            == #[trigger] assoc_set(pre.waiting_for_parent@, id, p)
            && !map_has(post.spawned@, p);
        lemma_assoc_set_props(pre.waiting_for_parent@, id, p);
    }
}

impl TerrainStreaming {
    /// Reconcile the scheduler with the current selection, the first two
    /// stages of a step. Every selected region that is not yet spawned gets a
    /// generation request (deduplicated, priority the squared planar camera
    /// distance); every spawned region that fell out of the selection is
    /// classified as a subdivision wait, a merge wait, or an immediate
    /// removal, in map order.
    #[verifier::rlimit(100)]
    pub fn sync_selection(&mut self, selected: &Vec<SelectedNode>, cam_x: i64, cam_z: i64)
        requires
            old(self).wf(),
            -0x4000_0000 <= cam_x <= 0x4000_0000,
            -0x4000_0000 <= cam_z <= 0x4000_0000,
            forall |i: int| 0 <= i < selected@.len() ==> {
                let n = #[trigger] selected@[i];
                &&& n.id < MAX_REGION_ID
                &&& -0x4000_0000 <= n.center_x <= 0x4000_0000
                &&& -0x4000_0000 <= n.center_z <= 0x4000_0000
                &&& 0 <= n.half_size <= 0x4000_0000
            },
        ensures
            final(self).wf(),
            final(self).pending@ == spec_enqueue_all(
                old(self).pending@, old(self).spawned@, old(self).in_flight@,
                selected@, cam_x as int, cam_z as int),
            ({
                let sel = sel_id_set(selected@);
                let (sp, wc, wp) = spec_classify_all(
                    old(self).spawned@,
                    wfc_view(old(self).waiting_for_children@),
                    old(self).waiting_for_parent@,
                    sel,
                    spec_unselected_ids(old(self).spawned@, sel));
                &&& final(self).spawned@ == sp
                &&& wfc_view(final(self).waiting_for_children@) == wc
                &&& final(self).waiting_for_parent@ == wp
            }),
            final(self).in_flight@ == old(self).in_flight@,
            final(self).completed@ == old(self).completed@,
    {
        let ghost sel = sel_id_set(selected@);

        // Enqueue a request for every selected region not yet spawned.
        let mut i: usize = 0;
        while i < selected.len()
            invariant
                self.wf(),
                -0x4000_0000 <= cam_x <= 0x4000_0000,
                -0x4000_0000 <= cam_z <= 0x4000_0000,
                forall |j: int| 0 <= j < selected@.len() ==> {
                    let n = #[trigger] selected@[j];
                    &&& n.id < MAX_REGION_ID
                    &&& -0x4000_0000 <= n.center_x <= 0x4000_0000
                    &&& -0x4000_0000 <= n.center_z <= 0x4000_0000
                    &&& 0 <= n.half_size <= 0x4000_0000
                },
                i <= selected@.len(),
                self.pending@ == spec_enqueue_all(
                    old(self).pending@, old(self).spawned@, old(self).in_flight@,
                    selected@.take(i as int), cam_x as int, cam_z as int),
                self.in_flight@ == old(self).in_flight@,
                self.completed@ == old(self).completed@,
                self.spawned@ == old(self).spawned@,
                self.waiting_for_children@ == old(self).waiting_for_children@,
                self.waiting_for_parent@ == old(self).waiting_for_parent@,
            decreases selected@.len() - i,
        {
            proof {
                assert(selected@.take(i + 1).drop_last() =~= selected@.take(i as int));
                assert(selected@.take(i + 1).last() == selected@[i as int]);
            }
            let node = &selected[i];
            if !self.is_spawned(node.id) {
                let dx = node.center_x - cam_x;
                let dz = node.center_z - cam_z;
                proof {
                    assert(0 <= dx * dx <= 0x4000_0000_0000_0000
                        && 0 <= dz * dz <= 0x4000_0000_0000_0000) by (nonlinear_arith)
                        requires
                            -0x8000_0000 <= dx <= 0x8000_0000,
                            -0x8000_0000 <= dz <= 0x8000_0000;
                }
                let priority = (dx * dx) as u64 + (dz * dz) as u64;
                let request = MeshRequest {
                    node_id: node.id,
                    center_x: node.center_x,
                    center_z: node.center_z,
                    size: node.half_size * 2,
                    lod: node.lod_level,
                    priority,
                    coords: node.coords,
                };
                proof {
                    assert(request == spec_request_of(selected@[i as int], cam_x as int, cam_z as int));
                }
                self.queue_request(request);
            }
            i += 1;
        }
        proof {
            assert(selected@.take(selected@.len() as int) =~= selected@);
        }

        // Snapshot the ids of the selection for membership tests.
        let mut selected_ids: Vec<u64> = Vec::new();
        let mut i: usize = 0;
        while i < selected.len()
            invariant
                i <= selected@.len(),
                selected_ids@.len() == i,
                forall |j: int| 0 <= j < i ==> selected_ids@[j] == (#[trigger] selected@[j]).id,
            decreases selected@.len() - i,
        {
            selected_ids.push(selected[i].id);
            i += 1;
        }
        proof {
            assert forall |id: u64| sel.contains(id) implies #[trigger] ids_have(selected_ids@, id) by {
                let j = choose |j: int| 0 <= j < selected@.len() && (#[trigger] selected@[j]).id == id;
                assert(selected_ids@[j] == id);
            }
            assert forall |id: u64| #[trigger] ids_have(selected_ids@, id) implies sel.contains(id) by {
                let j = choose |j: int| 0 <= j < selected_ids@.len() && selected_ids@[j] == id;
                assert(selected@[j].id == id);
            }
            assert(set_of_ids(selected_ids@) =~= sel);
        }

        // Snapshot the spawned regions that fell out of the selection.
        let ghost spawned_mid = self.spawned@;
        let mut work: Vec<u64> = Vec::new();
        let mut i: usize = 0;
        while i < self.spawned.len()
            invariant
                self.spawned@ == spawned_mid,
                set_of_ids(selected_ids@) == sel,
                i <= self.spawned@.len(),
                work@ == spec_unselected_ids(self.spawned@.take(i as int), sel),
                forall |j: int| 0 <= j < self.spawned@.len()
                    ==> (#[trigger] self.spawned@[j]).0 < MAX_REGION_ID,
            decreases self.spawned@.len() - i,
        {
            proof {
                assert(self.spawned@.take(i + 1).drop_last() =~= self.spawned@.take(i as int));
                assert(self.spawned@.take(i + 1).last() == self.spawned@[i as int]);
            }
            let id = self.spawned[i].0;
            if !vec_has_id(&selected_ids, id) {
                work.push(id);
            }
            i += 1;
        }
        proof {
            assert(self.spawned@.take(self.spawned@.len() as int) =~= self.spawned@);
            lemma_unselected_ids_bounded(self.spawned@, sel);
        }

        // Classify each of them, in order.
        let ghost sp0 = self.spawned@;
        let ghost wc0 = wfc_view(self.waiting_for_children@);
        let ghost wp0 = self.waiting_for_parent@;
        let ghost pending_mid = self.pending@;
        let mut i: usize = 0;
        while i < work.len()
            invariant
                self.wf(),
                set_of_ids(selected_ids@) == sel,
                i <= work@.len(),
                forall |j: int| 0 <= j < work@.len() ==> #[trigger] work@[j] < MAX_REGION_ID,
                ({
                    let (sp, wc, wp) = spec_classify_all(sp0, wc0, wp0, sel, work@.take(i as int));
                    &&& self.spawned@ == sp
                    &&& wfc_view(self.waiting_for_children@) == wc
                    &&& self.waiting_for_parent@ == wp
                }),
                self.pending@ == pending_mid,
                self.in_flight@ == old(self).in_flight@,
                self.completed@ == old(self).completed@,
            decreases work@.len() - i,
        {
            proof {
                assert(work@.take(i + 1).drop_last() =~= work@.take(i as int));
                assert(work@.take(i + 1).last() == work@[i as int]);
            }
            let id = work[i];
            self.classify_one(id, &selected_ids);
            i += 1;
        }
        proof {
            assert(work@.take(work@.len() as int) =~= work@);
        }
    }
}

/// The unselected ids of a spawned map are drawn from its keys.
proof fn lemma_unselected_ids_bounded(spawned: Seq<(u64, u64)>, sel: Set<u64>)
    requires
        forall |i: int| 0 <= i < spawned.len() ==> (#[trigger] spawned[i]).0 < MAX_REGION_ID,
    ensures
        forall |j: int| 0 <= j < spec_unselected_ids(spawned, sel).len()
            ==> #[trigger] spec_unselected_ids(spawned, sel)[j] < MAX_REGION_ID,
    decreases spawned.len(),
{
    if spawned.len() > 0 {
        assert forall |i: int| 0 <= i < spawned.drop_last().len()
            implies (#[trigger] spawned.drop_last()[i]).0 < MAX_REGION_ID by {
            assert(spawned.drop_last()[i] == spawned[i]);
        }
        lemma_unselected_ids_bounded(spawned.drop_last(), sel);
        let rest = spec_unselected_ids(spawned.drop_last(), sel);
        assert forall |j: int| 0 <= j < spec_unselected_ids(spawned, sel).len()
            implies #[trigger] spec_unselected_ids(spawned, sel)[j] < MAX_REGION_ID by {
            if !sel.contains(spawned.last().0) {
                if j < rest.len() {
                    assert(spec_unselected_ids(spawned, sel)[j] == rest[j]);
                } else {
                    assert(spec_unselected_ids(spawned, sel)[j] == spawned.last().0);
                }
            } else {
                assert(spec_unselected_ids(spawned, sel)[j] == rest[j]);
            }
        }
    }
}

/// `s` without every occurrence of `id`, order kept.
pub open spec fn remove_id(s: Seq<u64>, id: u64) -> Seq<u64>
    decreases s.len(),
{
    if s.len() == 0 {
        Seq::empty()
    } else {
        let rest = remove_id(s.drop_last(), id);
        if s.last() == id {
            rest
        } else {
            rest.push(s.last())
        }
    }
}

/// Removing an id keeps the rest unique and drawn from the source sequence.
proof fn lemma_remove_id(s: Seq<u64>, id: u64)
    requires
        ids_unique(s),
    ensures
        ids_unique(remove_id(s, id)),
        forall |j: int| 0 <= j < remove_id(s, id).len()
            ==> ids_have(s, #[trigger] remove_id(s, id)[j]),
    decreases s.len(),
{
    if s.len() > 0 {
        assert forall |a: int, b: int| 0 <= a < b < s.drop_last().len()
            implies s.drop_last()[a] != s.drop_last()[b] by {
            assert(s.drop_last()[a] == s[a] && s.drop_last()[b] == s[b]);
        }
        lemma_remove_id(s.drop_last(), id);
        let rest = remove_id(s.drop_last(), id);
        assert forall |j: int| 0 <= j < remove_id(s, id).len()
            implies ids_have(s, #[trigger] remove_id(s, id)[j]) by {
            if s.last() != id && j == remove_id(s, id).len() - 1 {
                assert(remove_id(s, id)[j] == s.last());
                assert(s[s.len() - 1] == s.last());
            } else {
                assert(remove_id(s, id)[j] == rest[j]);
                assert(ids_have(s.drop_last(), rest[j]));
                let j0 = choose |j0: int| 0 <= j0 < s.drop_last().len()
                    && s.drop_last()[j0] == rest[j];
                assert(s[j0] == rest[j]);
            }
        }
        if s.last() != id {
            assert forall |a: int, b: int| 0 <= a < b < remove_id(s, id).len()
                implies remove_id(s, id)[a] != remove_id(s, id)[b] by {
                if b == remove_id(s, id).len() - 1 {
                    assert(remove_id(s, id)[b] == s.last());
                    assert(remove_id(s, id)[a] == rest[a]);
                    assert(ids_have(s.drop_last(), rest[a]));
                    let j0 = choose |j0: int| 0 <= j0 < s.drop_last().len()
                        && s.drop_last()[j0] == rest[a];
                    assert(s[j0] == rest[a] && j0 < s.len() - 1);
                } else {
                    assert(remove_id(s, id)[a] == rest[a] && remove_id(s, id)[b] == rest[b]);
                }
            }
        }
    }
}

/// The id never survives its own removal.
proof fn lemma_remove_id_gone(s: Seq<u64>, id: u64)
    ensures
        !ids_have(remove_id(s, id), id),
    decreases s.len(),
{
    if s.len() > 0 {
        lemma_remove_id_gone(s.drop_last(), id);
        let rest = remove_id(s.drop_last(), id);
        if ids_have(remove_id(s, id), id) {
            let j = choose |j: int| 0 <= j < remove_id(s, id).len()
                && remove_id(s, id)[j] == id;
            if s.last() != id && j == remove_id(s, id).len() - 1 {
                assert(remove_id(s, id)[j] == s.last());
            } else {
                assert(remove_id(s, id)[j] == rest[j]);
                assert(ids_have(rest, id));
            }
        }
    }
}

/// Resolving the merge waits that point at a freshly spawned parent: every
/// waiting child leaves the spawned map, and its wait entry is dropped;
/// other entries are kept in order.
pub open spec fn spec_resolve_merge_waits(
    spawned: Seq<(u64, u64)>,
    wfp: Seq<(u64, u64)>,
    id: u64,
) -> (Seq<(u64, u64)>, Seq<(u64, u64)>)
    decreases wfp.len(),
{
    if wfp.len() == 0 {
        (spawned, Seq::empty())
    } else {
        let (sp1, wp1) = spec_resolve_merge_waits(spawned, wfp.drop_last(), id);
        let e = wfp.last();
        if e.1 == id {
            (assoc_remove(sp1, e.0), wp1)
        } else {
            (sp1, wp1.push(e))
        }
    }
}

/// What instantiating one finished region does: its handle enters the
/// spawned map; if its parent was waiting on it, that wait shrinks (and a
/// fully satisfied parent leaves the spawned map); any children waiting on
/// it leave the spawned map with their waits.
pub open spec fn spec_register(
    spawned: Seq<(u64, u64)>,
    wfc: Seq<(u64, Seq<u64>)>,
    wfp: Seq<(u64, u64)>,
    node_id: u64,
    entity: u64,
) -> (Seq<(u64, u64)>, Seq<(u64, Seq<u64>)>, Seq<(u64, u64)>) {
    let sp1 = assoc_set(spawned, node_id, entity);
    let parent = ((node_id - 1) / 4) as u64;
    let r = if node_id > 4 && map_has(wfc, parent) {
        let set1 = remove_id(map_get(wfc, parent), node_id);
        if set1.len() == 0 {
            (assoc_remove(sp1, parent), assoc_remove(wfc, parent))
        } else {
            (sp1, assoc_set(wfc, parent, set1))
        }
    } else {
        (sp1, wfc)
    };
    let (sp3, wp3) = spec_resolve_merge_waits(r.0, wfp, node_id);
    (sp3, r.1, wp3)
}

/// Resolving merge waits keeps keys unique, only removes spawned entries,
/// and keeps exactly the waits on other parents.
proof fn lemma_resolve_props(spawned: Seq<(u64, u64)>, wfp: Seq<(u64, u64)>, id: u64)
    requires
        map_keys_unique(spawned),
        map_keys_unique(wfp),
    ensures
        ({
            let (sp, wp) = spec_resolve_merge_waits(spawned, wfp, id);
            &&& map_keys_unique(sp)
            &&& map_keys_unique(wp)
            &&& forall |x: u64| #[trigger] map_has(sp, x) ==> map_has(spawned, x)
            &&& forall |j: int| 0 <= j < sp.len() ==> spawned.contains(#[trigger] sp[j])
            &&& forall |j: int| 0 <= j < wp.len()
                ==> wfp.contains(#[trigger] wp[j]) && wp[j].1 != id
        }),
    decreases wfp.len(),
{
    if wfp.len() == 0 {
    } else {
        assert forall |a: int, b: int| 0 <= a < b < wfp.drop_last().len()
            implies (#[trigger] wfp.drop_last()[a]).0 != (#[trigger] wfp.drop_last()[b]).0 by {
            assert(wfp.drop_last()[a] == wfp[a] && wfp.drop_last()[b] == wfp[b]);
        }
        lemma_resolve_props(spawned, wfp.drop_last(), id);
        let (sp1, wp1) = spec_resolve_merge_waits(spawned, wfp.drop_last(), id);
        let e = wfp.last();
        let (sp, wp) = spec_resolve_merge_waits(spawned, wfp, id);
        assert forall |j: int| 0 <= j < wp1.len()
            implies wfp.contains(#[trigger] wp1[j]) by {
            assert(wfp.drop_last().contains(wp1[j]));
            let j0 = choose |j0: int| 0 <= j0 < wfp.drop_last().len()
                && wfp.drop_last()[j0] == wp1[j];
            assert(wfp[j0] == wp1[j]);
        }
        if e.1 == id {
            lemma_assoc_remove_props(sp1, e.0);
            assert forall |x: u64| #[trigger] map_has(sp, x) implies map_has(spawned, x) by {
                if x != e.0 {
                    assert(map_has(sp1, x));
                }
            }
            assert forall |j: int| 0 <= j < sp.len() implies spawned.contains(#[trigger] sp[j]) by {
                assert(sp1.contains(sp[j]));
                let j0 = choose |j0: int| 0 <= j0 < sp1.len() && sp1[j0] == sp[j];
                assert(spawned.contains(sp1[j0]));
            }
        } else {
            assert(wp == wp1.push(e));
            assert(wfp[wfp.len() - 1] == e);
            assert forall |j: int| 0 <= j < wp.len()
                implies wfp.contains(#[trigger] wp[j]) && wp[j].1 != id by {
                if j < wp1.len() {
                    assert(wp[j] == wp1[j]);
                } else {
                    assert(wp[j] == e);
                }
            }
            assert forall |a: int, b: int| 0 <= a < b < wp.len()
                implies (#[trigger] wp[a]).0 != (#[trigger] wp[b]).0 by {
                if b == wp.len() - 1 {
                    assert(wp[a] == wp1[a] && wp[b] == e);
                    assert(wfp.drop_last().contains(wp1[a]));
                    let j0 = choose |j0: int| 0 <= j0 < wfp.drop_last().len()
                        && wfp.drop_last()[j0] == wp1[a];
                    assert(wfp[j0] == wp1[a] && j0 < wfp.len() - 1);
                } else {
                    assert(wp[a] == wp1[a] && wp[b] == wp1[b]);
                }
            }
        }
    }
}

impl TerrainStreaming {
    /// Record that a finished region now has a render handle, and resolve the
    /// transition waits it satisfies: the region enters the spawned map; if
    /// its parent was waiting on it, the wait shrinks and a fully satisfied
    /// parent is despawned; any children waiting on this region as their
    /// parent are despawned and their waits dropped.
    #[verifier::rlimit(100)]
    pub fn register_spawned(&mut self, node_id: u64, entity: u64)
        requires
            old(self).wf(),
            node_id < MAX_REGION_ID,
        ensures
            final(self).wf(),
            ({
                let (sp, wc, wp) = spec_register(
                    old(self).spawned@,
                    wfc_view(old(self).waiting_for_children@),
                    old(self).waiting_for_parent@,
                    node_id,
                    entity);
                &&& final(self).spawned@ == sp
                &&& wfc_view(final(self).waiting_for_children@) == wc
                &&& final(self).waiting_for_parent@ == wp
            }),
            final(self).pending@ == old(self).pending@,
            final(self).in_flight@ == old(self).in_flight@,
            final(self).completed@ == old(self).completed@,
    {
        let ghost wc0raw = self.waiting_for_children@;
        let ghost wc0 = wfc_view(self.waiting_for_children@);
        let ghost wp0 = self.waiting_for_parent@;

        proof {
            lemma_assoc_set_props(self.spawned@, node_id, entity);
            lemma_wfc_view_basic(wc0raw);
        }
        assoc_set_exec(&mut self.spawned, node_id, entity);
        let ghost sp1 = self.spawned@;

        if node_id > 4 {
            let parent = (node_id - 1) / 4;
            let found = assoc_index_of(&self.waiting_for_children, parent);
            if let Some(i) = found {
                proof {
                    lemma_wfc_view_basic(wc0raw);
                    lemma_map_at_index(wc0raw, i as int);
                    lemma_map_at_index(wc0, i as int);
                }
                let entry = self.waiting_for_children.remove(i);
                let pset = entry.1;
                let ghost pseq = pset@;
                proof {
                    assert(pseq == map_get(wc0, parent));
                }

                let mut remaining: Vec<u64> = Vec::new();
                let mut j: usize = 0;
                while j < pset.len()
                    invariant
                        j <= pset@.len(),
                        pset@ == pseq,
                        remaining@ == remove_id(pset@.take(j as int), node_id),
                    decreases pset@.len() - j,
                {
                    proof {
                        assert(pset@.take(j + 1).drop_last() =~= pset@.take(j as int));
                        assert(pset@.take(j + 1).last() == pset@[j as int]);
                    }
                    if pset[j] != node_id {
                        remaining.push(pset[j]);
                    }
                    j += 1;
                }
                proof {
                    assert(pset@.take(pset@.len() as int) =~= pset@);
                    assert(remaining@ == remove_id(map_get(wc0, parent), node_id));
                }

                if remaining.len() == 0 {
                    proof {
                        lemma_assoc_remove_props(sp1, parent);
                        lemma_wfc_view_remove(wc0raw, parent);
                        assert(self.waiting_for_children@ == assoc_remove(wc0raw, parent));
                    }
                    assoc_remove_exec(&mut self.spawned, parent);
                } else {
                    proof {
                        lemma_wfc_view_set(wc0raw, parent, remaining@);
                    }
                    let ghost rview = remaining@;
                    self.waiting_for_children.insert(i, (parent, remaining));
                    proof {
                        assert(self.waiting_for_children@
                            =~= wc0raw.update(i as int, (parent, self.waiting_for_children@[i as int].1)));
                        assert(self.waiting_for_children@[i as int].1@ == rview);
                        assert(self.waiting_for_children@
                            == assoc_set(wc0raw, parent, self.waiting_for_children@[i as int].1));
                    }
                }
            }
        }

        let ghost sp2 = self.spawned@;
        let ghost wc2raw = self.waiting_for_children@;

        // Resolve merge waits pointing at this region.
        let mut kept: Vec<(u64, u64)> = Vec::new();
        let mut j: usize = 0;
        while j < self.waiting_for_parent.len()
            invariant
                self.waiting_for_parent@ == wp0,
                self.waiting_for_children@ == wc2raw,
                self.pending@ == old(self).pending@,
                self.in_flight@ == old(self).in_flight@,
                self.completed@ == old(self).completed@,
                map_keys_unique(self.spawned@),
                map_keys_unique(wp0),
                j <= wp0.len(),
                (self.spawned@, kept@)
                    == spec_resolve_merge_waits(sp2, wp0.take(j as int), node_id),
            decreases wp0.len() - j,
        {
            proof {
                assert(wp0.take(j + 1).drop_last() =~= wp0.take(j as int));
                assert(wp0.take(j + 1).last() == wp0[j as int]);
            }
            let c = self.waiting_for_parent[j].0;
            let p = self.waiting_for_parent[j].1;
            if p == node_id {
                proof {
                    lemma_assoc_remove_props(self.spawned@, c);
                }
                assoc_remove_exec(&mut self.spawned, c);
            } else {
                kept.push((c, p));
            }
            j += 1;
        }
        proof {
            assert(wp0.take(wp0.len() as int) =~= wp0);
        }
        core::mem::swap(&mut self.waiting_for_parent, &mut kept);

        proof {
            lemma_register_wf(*old(self), *self, node_id, entity);
        }
    }
}

/// After registering one spawned region the scheduler invariant holds again.
proof fn lemma_register_wf(pre: TerrainStreaming, post: TerrainStreaming, node_id: u64, entity: u64)
    requires
        pre.wf(),
        node_id < MAX_REGION_ID,
        ({
            let (sp, wc, wp) = spec_register(
                pre.spawned@, wfc_view(pre.waiting_for_children@), pre.waiting_for_parent@,
                node_id, entity);
            &&& post.spawned@ == sp
            &&& wfc_view(post.waiting_for_children@) == wc
            &&& post.waiting_for_parent@ == wp
        }),
        post.pending@ == pre.pending@,
        post.in_flight@ == pre.in_flight@,
    ensures
        post.wf(),
{
    let spawned = pre.spawned@;
    let wc0raw = pre.waiting_for_children@;
    let wc0 = wfc_view(wc0raw);
    let wp0 = pre.waiting_for_parent@;
    lemma_wfc_view_basic(wc0raw);
    lemma_assoc_set_props(spawned, node_id, entity);
    let sp1 = assoc_set(spawned, node_id, entity);
    let parent = ((node_id - 1) / 4) as u64;

    assert forall |j: int| 0 <= j < sp1.len()
        implies (#[trigger] sp1[j]).0 < MAX_REGION_ID by {
        if sp1[j] != (node_id, entity) {
            assert(spawned.contains(sp1[j]));
            let j0 = choose |j0: int| 0 <= j0 < spawned.len() && spawned[j0] == sp1[j];
            assert(spawned[j0].0 < MAX_REGION_ID);
        }
    }

    let r = if node_id > 4 && map_has(wc0, parent) {
        let set1 = remove_id(map_get(wc0, parent), node_id);
        if set1.len() == 0 {
            (assoc_remove(sp1, parent), assoc_remove(wc0, parent))
        } else {
            (sp1, assoc_set(wc0, parent, set1))
        }
    } else {
        (sp1, wc0)
    };
    lemma_assoc_remove_props(sp1, parent);
    if node_id > 4 && map_has(wc0, parent) {
        let i = map_index_of(wc0, parent);
        lemma_map_at_index(wc0, i);
        assert(wc0raw[i].0 == parent && wc0raw[i].1@ == wc0[i].1);
        assert(ids_unique(map_get(wc0, parent)));
        lemma_remove_id(map_get(wc0, parent), node_id);
        lemma_assoc_remove_props(wc0, parent);
        lemma_assoc_set_props(wc0, parent, remove_id(map_get(wc0, parent), node_id));
    }
    assert(map_keys_unique(r.0));
    assert(map_keys_unique(r.1));
    assert forall |j: int| 0 <= j < r.0.len()
        implies (#[trigger] r.0[j]).0 < MAX_REGION_ID by {
        if r.0 != sp1 {
            assert(sp1.contains(r.0[j]));
            let j0 = choose |j0: int| 0 <= j0 < sp1.len() && sp1[j0] == r.0[j];
        }
    }
    assert forall |j: int| 0 <= j < r.1.len()
        implies (#[trigger] r.1[j]).1.len() > 0 && ids_unique(r.1[j].1) by {
        let set1 = remove_id(map_get(wc0, parent), node_id);
        if node_id > 4 && map_has(wc0, parent) && set1.len() > 0 && r.1[j] == (parent, set1) {
            lemma_remove_id(map_get(wc0, parent), node_id);
        } else {
            if r.1 == wc0 {
                assert(r.1[j] == (wc0raw[j].0, wc0raw[j].1@));
                assert(wc0raw[j].1@.len() > 0 && ids_unique(wc0raw[j].1@));
            } else {
                assert(wc0.contains(r.1[j]));
                let j0 = choose |j0: int| 0 <= j0 < wc0.len() && wc0[j0] == r.1[j];
                assert(wc0[j0] == (wc0raw[j0].0, wc0raw[j0].1@));
                assert(wc0raw[j0].1@.len() > 0 && ids_unique(wc0raw[j0].1@));
            }
        }
    }

    lemma_resolve_props(r.0, wp0, node_id);
    let (sp3, wp3) = spec_resolve_merge_waits(r.0, wp0, node_id);
    assert forall |j: int| 0 <= j < sp3.len()
        implies (#[trigger] sp3[j]).0 < MAX_REGION_ID by {
        assert(r.0.contains(sp3[j]));
        let j0 = choose |j0: int| 0 <= j0 < r.0.len() && r.0[j0] == sp3[j];
    }
    assert forall |j: int| 0 <= j < wp3.len()
        implies !map_has(sp3, (#[trigger] wp3[j]).1) by {
        assert(wp0.contains(wp3[j]) && wp3[j].1 != node_id);
        let j0 = choose |j0: int| 0 <= j0 < wp0.len() && wp0[j0] == wp3[j];
        assert(!map_has(spawned, wp3[j].1));
        if map_has(sp3, wp3[j].1) {
            assert(map_has(r.0, wp3[j].1));
            assert(map_has(sp1, wp3[j].1));
        }
    }

    // the waiting-for-children invariant carries from the view to the map
    assert forall |i: int| 0 <= i < post.waiting_for_children@.len()
        implies (#[trigger] post.waiting_for_children@[i]).1@.len() > 0
            && ids_unique(post.waiting_for_children@[i].1@) by {
        lemma_wfc_view_basic(post.waiting_for_children@);
        assert(wfc_view(post.waiting_for_children@)[i]
            == (post.waiting_for_children@[i].0, post.waiting_for_children@[i].1@));
        assert(r.1[i].1.len() > 0 && ids_unique(r.1[i].1));
    }
    assert(map_keys_unique(post.waiting_for_children@)) by {
        lemma_wfc_view_basic(post.waiting_for_children@);
        assert forall |a: int, b: int| 0 <= a < b < post.waiting_for_children@.len()
            implies (#[trigger] post.waiting_for_children@[a]).0
                != (#[trigger] post.waiting_for_children@[b]).0 by {
            assert(wfc_view(post.waiting_for_children@)[a].0 == post.waiting_for_children@[a].0);
            assert(wfc_view(post.waiting_for_children@)[b].0 == post.waiting_for_children@[b].0);
        }
    }
}

/// Enqueueing the same region id twice before it is admitted results in
/// exactly one pending entry: once the first enqueue has put the id into the
/// queue (or it was already there), the second changes nothing, and the
/// queue's ids stay pairwise distinct.
pub proof fn lemma_queue_dedup(s: TerrainStreaming, r1: MeshRequest, r2: MeshRequest)
    requires
        s.wf(),
        r1.node_id == r2.node_id,
    ensures
        pending_has(s.spec_queue_pending(r1), r1.node_id)
            || map_has(s.spawned@, r1.node_id) || ids_have(s.in_flight@, r1.node_id),
        forall |t: TerrainStreaming| t.pending@ == s.spec_queue_pending(r1)
            && t.spawned@ == s.spawned@ && t.in_flight@ == s.in_flight@
            ==> #[trigger] t.spec_queue_pending(r2) == s.spec_queue_pending(r1),
        pending_ids_unique(s.spec_queue_pending(r1)),
{
    let p1 = s.spec_queue_pending(r1);
    if !(map_has(s.spawned@, r1.node_id) || ids_have(s.in_flight@, r1.node_id)
        || pending_has(s.pending@, r1.node_id)) {
        assert(p1 == s.pending@.push(r1));
        assert(p1[s.pending@.len() as int] == r1);
        assert(pending_has(p1, r1.node_id));
        assert forall |a: int, b: int| 0 <= a < b < p1.len()
            implies (#[trigger] p1[a]).node_id != (#[trigger] p1[b]).node_id by {
            if b < s.pending@.len() {
                assert(p1[a] == s.pending@[a] && p1[b] == s.pending@[b]);
            } else {
                assert(p1[b] == r1);
                assert(p1[a] == s.pending@[a]);
                if s.pending@[a].node_id == r1.node_id {
                    assert(pending_has(s.pending@, r1.node_id));
                }
            }
        }
    }
}

impl Default for TerrainStreaming {
    /// An empty scheduler.
    fn default() -> (s: Self)
        ensures
            s.wf(),
            s.pending@.len() == 0,
            s.in_flight@.len() == 0,
            s.completed@.len() == 0,
            s.spawned@.len() == 0,
            s.waiting_for_children@.len() == 0,
            s.waiting_for_parent@.len() == 0,
    {
        TerrainStreaming::new()
    }
}

/// No orphaned waits: in every well-formed scheduler state, as every method
/// leaves behind, each subdivision wait still waits for at least one child,
/// and each merge wait names a parent that is not currently spawned.
pub proof fn lemma_no_orphaned_waits(s: TerrainStreaming)
    requires
        s.wf(),
    ensures
        forall |i: int| 0 <= i < s.waiting_for_children@.len()
            ==> (#[trigger] s.waiting_for_children@[i]).1@.len() > 0,
        forall |i: int| 0 <= i < s.waiting_for_parent@.len()
            ==> !map_has(s.spawned@, (#[trigger] s.waiting_for_parent@[i]).1),
{
}

/// Admission respects the priority order: everything it dispatches is drawn
/// from the pending queue, and the dispatched requests leave in nondecreasing
/// priority (nearest first).
pub proof fn lemma_admit_priority_order(
    pending: Seq<MeshRequest>,
    in_flight: Seq<u64>,
    spawned: Seq<(u64, u64)>,
    max: int,
)
    ensures
        ({
            let (p, f, d) = spec_admit(pending, in_flight, spawned, max);
            &&& forall |j: int| 0 <= j < d.len() ==> pending.contains(#[trigger] d[j])
            &&& forall |a: int, b: int| 0 <= a < b < d.len()
                ==> (#[trigger] d[a]).priority <= (#[trigger] d[b]).priority
        }),
    decreases pending.len(),
{
    if in_flight.len() >= max || pending.len() == 0 {
        return;
    }
    lemma_min_priority_index(pending);
    let m = min_priority_index(pending);
    let r = pending[m];
    let rest = pending.remove(m);
    pending.remove_ensures(m);
    assert forall |x: MeshRequest| rest.contains(x) implies pending.contains(x) by {
        let j = choose |j: int| 0 <= j < rest.len() && rest[j] == x;
        let j0: int = if j < m { j } else { j + 1 };
        assert(pending[j0] == x);
    }
    if map_has(spawned, r.node_id) {
        lemma_admit_priority_order(rest, in_flight, spawned, max);
        let (p2, f2, d2) = spec_admit(rest, in_flight, spawned, max);
        assert forall |j: int| 0 <= j < d2.len() implies pending.contains(#[trigger] d2[j]) by {
            assert(rest.contains(d2[j]));
        }
    } else {
        lemma_admit_priority_order(rest, in_flight.push(r.node_id), spawned, max);
        let (p2, f2, d2) = spec_admit(rest, in_flight.push(r.node_id), spawned, max);
        let d = seq![r] + d2;
        assert(pending.contains(r)) by {
            assert(pending[m] == r);
        }
        assert forall |j: int| 0 <= j < d.len() implies pending.contains(#[trigger] d[j]) by {
            if j == 0 {
                assert(d[j] == r);
            } else {
                assert(d[j] == d2[j - 1]);
                assert(rest.contains(d2[j - 1]));
            }
        }
        assert forall |a: int, b: int| 0 <= a < b < d.len()
            implies (#[trigger] d[a]).priority <= (#[trigger] d[b]).priority by {
            if a == 0 {
                assert(d[a] == r && d[b] == d2[b - 1]);
                assert(rest.contains(d2[b - 1]));
                let j = choose |j: int| 0 <= j < rest.len() && rest[j] == d2[b - 1];
                let j0: int = if j < m { j } else { j + 1 };
                assert(pending[j0] == d2[b - 1]);
                assert(pending[j0].priority >= r.priority);
            } else {
                assert(d[a] == d2[a - 1] && d[b] == d2[b - 1]);
            }
        }
    }
}
} // verus!
