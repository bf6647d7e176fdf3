//! Bookkeeping of the GPU tile atlas: which quad-tree tile occupies which atlas slot, which tiles
//! wait to be read, are being read or are resident, and the queue of reads to start.
use vstd::prelude::*;
use crate::quad_tree::QuadTreeId;
use vstd::std_specs::iter::IteratorSpec;
use vstd::std_specs::cmp::OrdSpec;

verus! {

broadcast use vstd::std_specs::btree::group_btree_axioms, vstd::laws_cmp::group_laws_cmp;

/// The most reads that may be outstanding at once.
pub const MAX_CONCURRENT_READS: usize = 5;

/// Where a visible tile is in its journey into the atlas.
#[derive(Copy, Clone, Debug, PartialEq, Eq, Structural)]
pub enum TileState {
    /// No atlas slot was free when the tile became visible.
    NoSpace,
    /// A slot is reserved; the tile waits in the load queue.
    Pending(usize),
    /// A slot is reserved and a background read is outstanding.
    Reading(usize),
    /// The tile is uploaded into its slot.
    Active(usize),
}

/// The slot a state holds, if any.
pub open spec fn slot_of(s: TileState) -> Option<usize> {
    match s {
        TileState::NoSpace => None,
        TileState::Pending(k) => Some(k),
        TileState::Reading(k) => Some(k),
        TileState::Active(k) => Some(k),
    }
}

impl TileState {
    /// Waiting in the load queue.
    pub fn is_pending(&self) -> (r: bool)
        ensures
            r == (*self is Pending),
    {
        match self {
            Self::NoSpace => false,
            Self::Pending(_) => true,
            Self::Reading(_) => false,
            Self::Active(_) => false,
        }
    }

    /// A read is outstanding.
    pub fn is_reading(&self) -> (r: bool)
        ensures
            r == (*self is Reading),
    {
        match self {
            Self::NoSpace => false,
            Self::Pending(_) => false,
            Self::Reading(_) => true,
            Self::Active(_) => false,
        }
    }

    /// The atlas slot of a tile that has one.
    pub fn atlas_slot(&self) -> (r: usize)
        requires
            !(*self is NoSpace),
        ensures
            slot_of(*self) == Some(r),
    {
        match *self {
            Self::NoSpace => 0,
            Self::Pending(slot) => slot,
            Self::Reading(slot) => slot,
            Self::Active(slot) => slot,
        }
    }
}

/// A load request: the vote count of the tile and its id. Requests are served greatest first.
pub type LoadRequest = (u32, u32);

/// The order in which load requests are served: by votes, then by tile id.
pub open spec fn request_le(a: LoadRequest, b: LoadRequest) -> bool {
    a.0 < b.0 || (a.0 == b.0 && a.1 <= b.1)
}

/// The abstract state of the tile cache.
pub struct CacheView {
    /// For each atlas slot, the tile in it.
    pub slots: Seq<Option<u32>>,
    /// The free slots, the next one to hand out last.
    pub free: Seq<usize>,
    /// The state of every visible tile.
    pub states: Map<u32, TileState>,
    /// Outstanding load requests.
    pub queue: Seq<LoadRequest>,
    /// Reads started and not yet completed.
    pub reads: int,
}

/// The slot map and the states agree: a slot holds a tile exactly when that tile's state holds
/// the slot, and the free list is exactly the empty slots, each once.
pub open spec fn cache_ok(v: CacheView) -> bool {
    &&& v.free.no_duplicates()
    &&& forall|i: int|
        0 <= i < v.free.len() ==> #[trigger] v.free[i] < v.slots.len() && v.slots[v.free[i] as int]
            is None
    &&& forall|s: int| 0 <= s < v.slots.len() && v.slots[s] is None ==> v.free.contains(s as usize)
    &&& forall|s: int|
        #![trigger v.slots[s]]
        0 <= s < v.slots.len() && v.slots[s] is Some ==> {
            let q = v.slots[s]->Some_0;
            v.states.contains_key(q) && slot_of(v.states[q]) == Some(s as usize)
        }
    &&& forall|q: u32|
        #![trigger v.states[q]]
        v.states.contains_key(q) && slot_of(v.states[q]) is Some ==> {
            let s = slot_of(v.states[q])->Some_0;
            s < v.slots.len() && v.slots[s as int] == Some(q)
        }
    &&& 0 <= v.reads <= usize::MAX
    &&& v.slots.len() <= usize::MAX
}

/// The state after a tile becomes visible: it takes the last free slot and joins the load
/// queue, or is noted as having no space.
pub open spec fn allocated(v: CacheView, votes: u32, q: u32) -> CacheView {
    if v.free.len() > 0 {
        let s = v.free.last();
        CacheView {
            slots: v.slots.update(s as int, Some(q)),
            free: v.free.drop_last(),
            states: v.states.insert(q, TileState::Pending(s)),
            queue: v.queue.push((votes, q)),
            ..v
        }
    } else {
        CacheView { states: v.states.insert(q, TileState::NoSpace), ..v }
    }
}

/// The state after a tile goes out of view: its slot, if it had one, is freed.
pub open spec fn deallocated(v: CacheView, q: u32) -> CacheView {
    match slot_of(v.states[q]) {
        Some(s) => CacheView {
            slots: v.slots.update(s as int, None),
            free: v.free.push(s),
            states: v.states.remove(q),
            ..v
        },
        None => CacheView { states: v.states.remove(q), ..v },
    }
}

/// The index of the first greatest request of a non-empty queue.
pub open spec fn max_index(queue: Seq<LoadRequest>) -> int
    decreases queue.len(),
{
    if queue.len() <= 1 {
        0
    } else {
        let m = max_index(queue.drop_last());
        if request_le(queue.last(), queue[m]) {
            m
        } else {
            queue.len() - 1
        }
    }
}

/// The first greatest request is a request of the queue, and no request is greater.
pub proof fn lemma_max_index(queue: Seq<LoadRequest>)
    requires
        queue.len() > 0,
    ensures
        0 <= max_index(queue) < queue.len(),
        forall|i: int| 0 <= i < queue.len() ==> request_le(#[trigger] queue[i], queue[max_index(queue)]),
    decreases queue.len(),
{
    if queue.len() > 1 {
        let d = queue.drop_last();
        lemma_max_index(d);
        assert forall|i: int| 0 <= i < queue.len() implies request_le(
            #[trigger] queue[i],
            queue[max_index(queue)],
        ) by {
            if i < queue.len() - 1 {
                assert(queue[i] == d[i]);
            }
        }
    }
}

/// Pop requests, greatest first, until one is for a pending tile, which then starts reading; stop
/// when the queue is empty or the read budget is used up.
pub open spec fn next_read_spec(v: CacheView) -> (Option<(u32, usize)>, CacheView)
    decreases v.queue.len(),
{
    if v.queue.len() == 0 || v.reads >= MAX_CONCURRENT_READS {
        (None, v)
    } else {
        let m = max_index(v.queue);
        proof {
            lemma_max_index(v.queue);
        }
        let q = v.queue[m].1;
        let rest = CacheView { queue: v.queue.remove(m), ..v };
        if v.states.contains_key(q) && v.states[q] is Pending {
            let s = slot_of(v.states[q])->Some_0;
            (
                Some((q, s)),
                CacheView { states: v.states.insert(q, TileState::Reading(s)), reads: v.reads + 1, ..rest },
            )
        } else {
            next_read_spec(rest)
        }
    }
}

/// Starting a read takes at least one request off the queue; finding none takes none on.
pub proof fn lemma_next_read_shrinks(v: CacheView)
    ensures
        next_read_spec(v).1.queue.len() <= v.queue.len(),
        next_read_spec(v).0 is Some ==> next_read_spec(v).1.queue.len() < v.queue.len(),
    decreases v.queue.len(),
{
    if v.queue.len() > 0 && v.reads < MAX_CONCURRENT_READS {
        lemma_max_index(v.queue);
        let m = max_index(v.queue);
        let rest = CacheView { queue: v.queue.remove(m), ..v };
        lemma_next_read_shrinks(rest);
    }
}

/// The reads started by starting reads until none can start, in order, and the state after.
pub open spec fn reads_started(v: CacheView) -> (Seq<(u32, usize)>, CacheView)
    decreases v.queue.len(),
{
    let (first, w) = next_read_spec(v);
    match first {
        None => (seq![], w),
        Some(x) => {
            proof {
                lemma_next_read_shrinks(v);
            }
            let (rest, u) = reads_started(w);
            (seq![x] + rest, u)
        },
    }
}

/// The state after tiles go out of view, in order.
pub open spec fn deallocated_all(v: CacheView, qs: Seq<u32>) -> CacheView
    decreases qs.len(),
{
    if qs.len() == 0 {
        v
    } else {
        deallocated(deallocated_all(v, qs.drop_last()), qs.last())
    }
}

/// The state after tiles come into view, in order.
pub open spec fn allocated_all(v: CacheView, adds: Seq<LoadRequest>) -> CacheView
    decreases adds.len(),
{
    if adds.len() == 0 {
        v
    } else {
        let a = adds.last();
        allocated(allocated_all(v, adds.drop_last()), a.0, a.1)
    }
}

/// The state after a completed read of tile `q`: a tile that is still being read becomes active;
/// the read no longer counts as outstanding either way.
pub open spec fn completed(v: CacheView, q: u32) -> CacheView {
    if v.states.contains_key(q) && v.states[q] is Reading {
        CacheView {
            states: v.states.insert(q, TileState::Active(slot_of(v.states[q])->Some_0)),
            reads: v.reads - 1,
            ..v
        }
    } else {
        CacheView { reads: v.reads - 1, ..v }
    }
}

/// Tile `q` is waiting for its read to start.
pub open spec fn is_pending(v: CacheView, q: u32) -> bool {
    v.states.contains_key(q) && v.states[q] is Pending
}

/// The read that starts next is for a pending tile, from its slot, and its request is a
/// greatest one: no request in the queue for a pending tile has more votes, and among those with
/// as many votes none has a greater tile id.
pub proof fn lemma_next_read_most_voted(v: CacheView)
    ensures
        next_read_spec(v).0 matches Some((q, s)) ==> {
            &&& is_pending(v, q)
            &&& slot_of(v.states[q]) == Some(s)
            &&& exists|k: int|
                0 <= k < v.queue.len() && v.queue[k].1 == q && forall|i: int|
                    0 <= i < v.queue.len() && is_pending(v, (#[trigger] v.queue[i]).1) ==> (
                    v.queue[i].0 < v.queue[k].0 || (v.queue[i].0 == v.queue[k].0 && v.queue[i].1
                        <= q))
        },
    decreases v.queue.len(),
{
    if v.queue.len() > 0 && v.reads < MAX_CONCURRENT_READS {
        lemma_max_index(v.queue);
        let m = max_index(v.queue);
        let q = v.queue[m].1;
        let rest = CacheView { queue: v.queue.remove(m), ..v };
        if is_pending(v, q) {
            assert forall|i: int|
                0 <= i < v.queue.len() && is_pending(v, (#[trigger] v.queue[i]).1) implies (
                v.queue[i].0 < v.queue[m].0 || (v.queue[i].0 == v.queue[m].0 && v.queue[i].1 <= q)) by {
                assert(request_le(v.queue[i], v.queue[m]));
            }
        } else {
            lemma_next_read_most_voted(rest);
            if next_read_spec(rest).0 is Some {
                let q2 = next_read_spec(rest).0->Some_0.0;
                let k2 = choose|k: int|
                    0 <= k < rest.queue.len() && rest.queue[k].1 == q2 && forall|i: int|
                        0 <= i < rest.queue.len() && is_pending(rest, (#[trigger] rest.queue[i]).1)
                            ==> (rest.queue[i].0 < rest.queue[k].0 || (rest.queue[i].0
                            == rest.queue[k].0 && rest.queue[i].1 <= q2));
                let k = if k2 < m {
                    k2
                } else {
                    k2 + 1
                };
                assert(v.queue[k] == rest.queue[k2]);
                assert forall|i: int|
                    0 <= i < v.queue.len() && is_pending(v, (#[trigger] v.queue[i]).1) implies (
                    v.queue[i].0 < v.queue[k].0 || (v.queue[i].0 == v.queue[k].0 && v.queue[i].1
                        <= q2)) by {
                    if i < m {
                        assert(rest.queue[i] == v.queue[i]);
                    } else if i > m {
                        assert(rest.queue[i - 1] == v.queue[i]);
                    }
                }
            }
        }
    }
}

/// Starting reads counts each read started as outstanding, and never takes the outstanding
/// reads past the read budget when they were within it.
pub proof fn lemma_reads_within_budget(v: CacheView)
    ensures
        reads_started(v).1.reads == v.reads + reads_started(v).0.len(),
        v.reads <= MAX_CONCURRENT_READS ==> reads_started(v).1.reads <= MAX_CONCURRENT_READS,
    decreases v.queue.len(),
{
    lemma_next_read_counts(v);
    let (first, w) = next_read_spec(v);
    if first is Some {
        lemma_next_read_shrinks(v);
        lemma_reads_within_budget(w);
    }
}

/// Looking for the next read counts it as outstanding when one starts, and starts none once the
/// budget is used up.
pub proof fn lemma_next_read_counts(v: CacheView)
    ensures
        next_read_spec(v).1.reads == v.reads + if next_read_spec(v).0 is Some {
            1int
        } else {
            0int
        },
        next_read_spec(v).0 is Some ==> v.reads < MAX_CONCURRENT_READS,
    decreases v.queue.len(),
{
    if v.queue.len() > 0 && v.reads < MAX_CONCURRENT_READS {
        lemma_max_index(v.queue);
        let m = max_index(v.queue);
        let rest = CacheView { queue: v.queue.remove(m), ..v };
        lemma_next_read_counts(rest);
    }
}

/// A read whose tile went out of view before its data came back is dropped: completing it leaves
/// everything as the departure left it, except that one read fewer is outstanding.
pub proof fn lemma_orphaned_read_dropped(c: CacheView, q: u32)
    requires
        c.states.contains_key(q),
        c.states[q] is Reading,
    ensures
        ({
            let d = deallocated(c, q);
            &&& !d.states.contains_key(q)
            &&& completed(d, q) == (CacheView { reads: c.reads - 1, ..d })
        }),
{
}

/// A tile that comes into view and goes out of view again leaves the slots, the free list and
/// the states as they were; only its load request stays behind in the queue, to be skipped.
pub proof fn lemma_allocate_deallocate(v: CacheView, votes: u32, q: u32)
    requires
        cache_ok(v),
        !v.states.contains_key(q),
    ensures
        ({
            let a = allocated(v, votes, q);
            let d = deallocated(a, q);
            &&& d.slots == v.slots
            &&& d.free == v.free
            &&& d.states == v.states
            &&& d.reads == v.reads
            &&& d.queue == (if v.free.len() > 0 {
                v.queue.push((votes, q))
            } else {
                v.queue
            })
        }),
{
    let a = allocated(v, votes, q);
    let d = deallocated(a, q);
    assert(d.states =~= v.states);
    if v.free.len() > 0 {
        let s = v.free.last();
        let k = v.free.len() - 1;
        assert(v.free[k] < v.slots.len() && v.slots[v.free[k] as int] is None);
        assert(d.slots =~= v.slots);
        assert(d.free =~= v.free);
    }
}

/// The keys that a map of tile states hands out when walked come in increasing order.
proof fn lemma_iter_keys_increase(
    m: &std::collections::BTreeMap<u32, TileState>,
    walk: Seq<(&u32, &TileState)>,
)
    requires
        walk == vstd::std_specs::btree::spec_btree_map_iter(m).remaining(),
        vstd::std_specs::btree::increasing_seq(walk.map_values(|kv: (&u32, &TileState)| *kv.0)),
    ensures
        forall|i: int, j: int| 0 <= i < j < walk.len() ==> *(#[trigger] walk[i]).0 < *(
        #[trigger] walk[j]).0,
{
    let keys = walk.map_values(|kv: (&u32, &TileState)| *kv.0);
    assert(vstd::laws_cmp::obeys_cmp::<u32>());
    vstd::std_specs::btree::axiom_increasing_seq_meaning(keys);
    assert forall|i: int, j: int| 0 <= i < j < walk.len() implies *(#[trigger] walk[i]).0 < *(
    #[trigger] walk[j]).0 by {
        assert(keys[i] == *walk[i].0);
        assert(keys[j] == *walk[j].0);
        assert(keys[i].cmp_spec(&keys[j]) is Less);
    }
}

/// The tile cache.
pub struct TileCache {
    atlas_tile_map: Vec<Option<QuadTreeId>>,
    atlas_free_list: Vec<usize>,
    tile_state: std::collections::BTreeMap<u32, TileState>,
    tile_load_queue: Vec<LoadRequest>,
    tile_read_count: usize,
}

impl View for TileCache {
    type V = CacheView;

    closed spec fn view(&self) -> CacheView {
        CacheView {
            slots: self.atlas_tile_map@.map_values(
                |t: Option<QuadTreeId>|
                    match t {
                        Some(x) => Some(x.id),
                        None => None,
                    },
            ),
            free: self.atlas_free_list@,
            states: self.tile_state@,
            queue: self.tile_load_queue@,
            reads: self.tile_read_count as int,
        }
    }
}

impl TileCache {
    /// The cache is consistent.
    pub open spec fn wf(&self) -> bool {
        cache_ok(self@)
    }

    /// An empty cache with `capacity` atlas slots, all free, handed out from the highest down.
    pub fn new(capacity: usize) -> (r: Self)
        ensures
            r.wf(),
            r@.slots == Seq::new(capacity as nat, |i: int| None::<u32>),
            r@.free == Seq::new(capacity as nat, |i: int| i as usize),
            r@.states.is_empty(),
            r@.queue.len() == 0,
            r@.reads == 0,
    {
        let mut atlas_tile_map: Vec<Option<QuadTreeId>> = Vec::new();
        let mut atlas_free_list: Vec<usize> = Vec::new();
        let mut i: usize = 0;
        while i < capacity
            invariant
                0 <= i <= capacity,
                atlas_tile_map@.len() == i,
                atlas_free_list@.len() == i,
                forall|j: int| 0 <= j < i ==> atlas_tile_map@[j] is None,
                forall|j: int| 0 <= j < i ==> atlas_free_list@[j] == j,
            decreases capacity - i,
        {
            atlas_tile_map.push(None);
            atlas_free_list.push(i);
            i = i + 1;
        }
        let r = Self {
            atlas_tile_map,
            atlas_free_list,
            tile_state: std::collections::BTreeMap::new(),
            tile_load_queue: Vec::new(),
            tile_read_count: 0,
        };
        assert(r@.slots =~= Seq::new(capacity as nat, |i: int| None::<u32>));
        assert(r@.free =~= Seq::new(capacity as nat, |i: int| i as usize));
        assert forall|s: int| 0 <= s < r@.slots.len() && r@.slots[s] is None implies r@.free.contains(
            s as usize,
        ) by {
            assert(r@.free[s] == s as usize);
        }
        r
    }

    /// Reads started and not yet completed.
    pub fn tile_read_count(&self) -> (r: usize)
        ensures
            r == self@.reads,
    {
        self.tile_read_count
    }

    /// The state of a tile, if it is visible.
    pub fn state(&self, qtid: QuadTreeId) -> (r: Option<TileState>)
        ensures
            r == (if self@.states.contains_key(qtid.id) {
                Some(self@.states[qtid.id])
            } else {
                None
            }),
    {
        match self.tile_state.get(&qtid.id) {
            Some(s) => Some(*s),
            None => None,
        }
    }

    /// A tile came into view: give it the last free slot and queue it for loading, or note that
    /// there was no space.
    pub fn allocate_atlas_slot(&mut self, votes: u32, qtid: QuadTreeId)
        requires
            old(self).wf(),
            !old(self)@.states.contains_key(qtid.id),
        ensures
            final(self).wf(),
            final(self)@ == allocated(old(self)@, votes, qtid.id),
    {
        let ghost v = self@;
        let state = match self.atlas_free_list.pop() {
            Some(atlas_slot) => {
                proof {
                    let k = v.free.len() - 1;
                    assert(v.free[k] == atlas_slot);
                }
                self.atlas_tile_map.set(atlas_slot, Some(qtid));
                self.tile_load_queue.push((votes, qtid.id));
                TileState::Pending(atlas_slot)
            },
            None => TileState::NoSpace,
        };
        self.tile_state.insert(qtid.id, state);
        proof {
            let a = allocated(v, votes, qtid.id);
            assert(self@.slots =~= a.slots);
            assert(self@.free =~= a.free);
            assert(self@.states =~= a.states);
            assert(self@.queue =~= a.queue);
            if v.free.len() > 0 {
                let s = v.free.last();
                let k = v.free.len() - 1;
                assert forall|i: int| 0 <= i < a.free.len() implies #[trigger] a.free[i]
                    < a.slots.len() && a.slots[a.free[i] as int] is None by {
                    assert(a.free[i] == v.free[i]);
                    assert(v.free[i] != v.free[k]);
                }
                assert forall|t: int| 0 <= t < a.slots.len() && a.slots[t] is None implies a.free.contains(
                    t as usize,
                ) by {
                    assert(t != s);
                    assert(v.free.contains(t as usize));
                    let j = choose|j: int| 0 <= j < v.free.len() && v.free[j] == t as usize;
                    assert(v.free[k] == s);
                    assert(v.free[j] != s);
                    assert(j != k);
                    assert(a.free[j] == t as usize);
                }
                assert forall|q: u32|
                    #![trigger a.states[q]]
                    a.states.contains_key(q) && slot_of(a.states[q]) is Some implies {
                    let t = slot_of(a.states[q])->Some_0;
                    t < a.slots.len() && a.slots[t as int] == Some(q)
                } by {
                    if q != qtid.id {
                        let t = slot_of(v.states[q])->Some_0;
                        assert(v.slots[t as int] == Some(q));
                    }
                }
            }
        }
    }

    /// Index of the first greatest request in the load queue.
    fn max_request_index(&self) -> (r: usize)
        requires
            self@.queue.len() > 0,
        ensures
            r == max_index(self@.queue),
    {
        let q = &self.tile_load_queue;
        let mut m: usize = 0;
        let mut i: usize = 1;
        while i < q.len()
            invariant
                1 <= i <= q.len(),
                q@ == self@.queue,
                m == max_index(q@.take(i as int)),
            decreases q.len() - i,
        {
            assert(q@.take(i + 1).drop_last() =~= q@.take(i as int));
            proof {
                lemma_max_index(q@.take(i as int));
            }
            let a = q[i];
            let b = q[m];
            if !(a.0 < b.0 || (a.0 == b.0 && a.1 <= b.1)) {
                m = i;
            }
            i = i + 1;
        }
        assert(q@.take(q.len() as int) =~= q@);
        m
    }

    /// Start the next read: pop load requests, greatest first, skipping those whose tile is no
    /// longer pending, until a pending tile is found; it moves to reading and is returned with its
    /// slot. Nothing starts when the queue runs dry or the read budget is used up.
    pub fn next_read(&mut self) -> (r: Option<(QuadTreeId, usize)>)
        requires
            old(self).wf(),
        ensures
            final(self).wf(),
            final(self)@ == next_read_spec(old(self)@).1,
            match r {
                Some((q, s)) => next_read_spec(old(self)@).0 == Some((q.id, s)),
                None => next_read_spec(old(self)@).0 is None,
            },
    {
        while self.tile_load_queue.len() > 0 && self.tile_read_count < MAX_CONCURRENT_READS
            invariant
                self.wf(),
                next_read_spec(self@) == next_read_spec(old(self)@),
            decreases self@.queue.len(),
        {
            let ghost v = self@;
            let m = self.max_request_index();
            proof {
                lemma_max_index(v.queue);
            }
            let (_, qid) = self.tile_load_queue.remove(m);
            let st = self.tile_state.get(&qid);
            if let Some(TileState::Pending(slot)) = st {
                let slot = *slot;
                self.tile_state.insert(qid, TileState::Reading(slot));
                self.tile_read_count = self.tile_read_count + 1;
                proof {
                    let (_, nv) = next_read_spec(v);
                    assert(self@.states =~= nv.states);
                    assert(self@.queue =~= nv.queue);
                    assert forall|q: u32|
                        #![trigger self@.states[q]]
                        self@.states.contains_key(q) && slot_of(self@.states[q]) is Some implies {
                        let t = slot_of(self@.states[q])->Some_0;
                        t < self@.slots.len() && self@.slots[t as int] == Some(q)
                    } by {
                        assert(slot_of(v.states[q]) is Some);
                    }
                }
                return Some((QuadTreeId { id: qid }, slot));
            }
            proof {
                assert(self@.queue =~= v.queue.remove(max_index(v.queue)));
            }
        }
        None
    }

    /// Start reads, each as `next_read` does, until none can start: the queue ran dry or the read
    /// budget is used up. The tiles to read are returned with their slots, in the order started.
    pub fn start_reads(&mut self) -> (r: Vec<(QuadTreeId, usize)>)
        requires
            old(self).wf(),
        ensures
            final(self).wf(),
            final(self)@ == reads_started(old(self)@).1,
            r@.map_values(|x: (QuadTreeId, usize)| (x.0.id, x.1)) == reads_started(old(self)@).0,
    {
        let ghost v0 = self@;
        let mut r: Vec<(QuadTreeId, usize)> = Vec::new();
        loop
            invariant_except_break
                r@.map_values(|x: (QuadTreeId, usize)| (x.0.id, x.1)) + reads_started(self@).0
                    == reads_started(v0).0,
                reads_started(self@).1 == reads_started(v0).1,
            invariant
                self.wf(),
            ensures
                self.wf(),
                r@.map_values(|x: (QuadTreeId, usize)| (x.0.id, x.1)) == reads_started(v0).0,
                self@ == reads_started(v0).1,
            decreases self@.queue.len(),
        {
            let ghost s = self@;
            match self.next_read() {
                Some(x) => {
                    proof {
                        lemma_next_read_shrinks(s);
                    }
                    let ghost before = r@.map_values(|y: (QuadTreeId, usize)| (y.0.id, y.1));
                    r.push(x);
                    assert(r@.map_values(|y: (QuadTreeId, usize)| (y.0.id, y.1)) =~= before.push(
                        (x.0.id, x.1),
                    ));
                    assert(before.push((x.0.id, x.1)) + reads_started(self@).0 =~= before
                        + reads_started(s).0);
                },
                None => {
                    assert(reads_started(s).0 =~= Seq::<(u32, usize)>::empty());
                    assert(r@.map_values(|y: (QuadTreeId, usize)| (y.0.id, y.1)) + reads_started(
                        s,
                    ).0 =~= r@.map_values(|y: (QuadTreeId, usize)| (y.0.id, y.1)));
                    break ;
                },
            }
        }
        r
    }

    /// A read of `qtid` completed: if the tile is still being read it becomes active and its
    /// slot is returned for the upload; otherwise the bytes are to be dropped. Either way the
    /// read no longer counts as outstanding.
    pub fn complete_read(&mut self, qtid: QuadTreeId) -> (r: Option<usize>)
        requires
            old(self).wf(),
            old(self)@.reads > 0,
        ensures
            final(self).wf(),
            final(self)@ == completed(old(self)@, qtid.id),
            r == (if old(self)@.states.contains_key(qtid.id) && old(self)@.states[qtid.id] is Reading {
                slot_of(old(self)@.states[qtid.id])
            } else {
                None
            }),
    {
        let ghost v = self@;
        self.tile_read_count = self.tile_read_count - 1;
        let st = self.tile_state.get(&qtid.id);
        if let Some(TileState::Reading(slot)) = st {
            let slot = *slot;
            self.tile_state.insert(qtid.id, TileState::Active(slot));
            proof {
                let c = completed(v, qtid.id);
                assert(self@.states =~= c.states);
                assert forall|q: u32|
                    #![trigger self@.states[q]]
                    self@.states.contains_key(q) && slot_of(self@.states[q]) is Some implies {
                    let t = slot_of(self@.states[q])->Some_0;
                    t < self@.slots.len() && self@.slots[t as int] == Some(q)
                } by {
                    assert(slot_of(v.states[q]) is Some);
                }
            }
            Some(slot)
        } else {
            None
        }
    }

    /// Apply the tiles that went out of view, then those that came into view.
    pub fn apply_visibility(&mut self, additions: &Vec<(u32, QuadTreeId)>, removals: &Vec<QuadTreeId>)
        requires
            old(self).wf(),
            forall|i: int, j: int|
                0 <= i < j < removals@.len() ==> removals@[i].id != removals@[j].id,
            forall|i: int| 0 <= i < removals@.len() ==> old(self)@.states.contains_key(
                #[trigger] removals@[i].id,
            ),
            forall|i: int, j: int|
                0 <= i < j < additions@.len() ==> additions@[i].1.id != additions@[j].1.id,
            forall|i: int|
                0 <= i < additions@.len() ==> {
                    let q = (#[trigger] additions@[i]).1.id;
                    !old(self)@.states.contains_key(q) || exists|j: int|
                        0 <= j < removals@.len() && removals@[j].id == q
                },
        ensures
            final(self).wf(),
            final(self)@ == allocated_all(
                deallocated_all(old(self)@, removals@.map_values(|r: QuadTreeId| r.id)),
                additions@.map_values(|a: (u32, QuadTreeId)| (a.0, a.1.id)),
            ),
    {
        let ghost v = self@;
        let ghost rs = removals@.map_values(|r: QuadTreeId| r.id);
        let ghost adds = additions@.map_values(|a: (u32, QuadTreeId)| (a.0, a.1.id));
        let mut i: usize = 0;
        while i < removals.len()
            invariant
                self.wf(),
                0 <= i <= removals.len(),
                rs == removals@.map_values(|r: QuadTreeId| r.id),
                self@ == deallocated_all(v, rs.take(i as int)),
                forall|q: u32| #[trigger]
                    self@.states.contains_key(q) <==> v.states.contains_key(q) && !rs.take(
                        i as int,
                    ).contains(q),
                forall|a: int, b: int| 0 <= a < b < rs.len() ==> rs[a] != rs[b],
                forall|a: int| 0 <= a < rs.len() ==> v.states.contains_key(#[trigger] rs[a]),
            decreases removals.len() - i,
        {
            proof {
                assert(rs.take(i + 1).drop_last() =~= rs.take(i as int));
                assert(rs[i as int] == removals@[i as int].id);
                if rs.take(i as int).contains(rs[i as int]) {
                    let j = choose|j: int| 0 <= j < i && rs.take(i as int)[j] == rs[i as int];
                    assert(rs[j] == rs[i as int]);
                }
            }
            let ghost pre = self@;
            self.deallocate_atlas_slot(removals[i]);
            proof {
                assert(self@.states == pre.states.remove(rs[i as int]));
                let t0 = rs.take(i as int);
                let t1 = rs.take(i + 1);
                assert(t1 =~= t0.push(rs[i as int]));
                assert forall|q: u32| #[trigger]
                    self@.states.contains_key(q) <==> v.states.contains_key(q) && !t1.contains(q) by {
                    if t1.contains(q) && !t0.contains(q) {
                        let j = choose|j: int| 0 <= j < t1.len() && t1[j] == q;
                        if j < i {
                            assert(t0[j] == q);
                        }
                    }
                    if t0.contains(q) {
                        let j = choose|j: int| 0 <= j < t0.len() && t0[j] == q;
                        assert(t1[j] == q);
                    }
                    if q == rs[i as int] {
                        assert(t1[i as int] == q);
                    }
                }
            }
            i = i + 1;
        }
        assert(rs.take(removals.len() as int) =~= rs);
        let ghost d = self@;
        let mut k: usize = 0;
        while k < additions.len()
            invariant
                self.wf(),
                0 <= k <= additions.len(),
                rs == removals@.map_values(|r: QuadTreeId| r.id),
                adds == additions@.map_values(|a: (u32, QuadTreeId)| (a.0, a.1.id)),
                self@ == allocated_all(d, adds.take(k as int)),
                forall|q: u32| #[trigger]
                    d.states.contains_key(q) <==> v.states.contains_key(q) && !rs.contains(q),
                forall|q: u32| #[trigger]
                    self@.states.contains_key(q) <==> d.states.contains_key(q) || exists|j: int|
                        0 <= j < k && adds[j].1 == q,
                forall|a: int, b: int|
                    0 <= a < b < additions@.len() ==> additions@[a].1.id != additions@[b].1.id,
                forall|a: int|
                    0 <= a < additions@.len() ==> {
                        let q = (#[trigger] additions@[a]).1.id;
                        !v.states.contains_key(q) || exists|j: int|
                            0 <= j < removals@.len() && removals@[j].id == q
                    },
            decreases additions.len() - k,
        {
            let (votes, qtid) = additions[k];
            proof {
                assert(adds.take(k + 1).drop_last() =~= adds.take(k as int));
                assert(adds[k as int] == (votes, qtid.id));
                if !d.states.contains_key(qtid.id) {
                } else {
                    assert(v.states.contains_key(qtid.id) && !rs.contains(qtid.id));
                    let j = choose|j: int| 0 <= j < removals@.len() && removals@[j].id == qtid.id;
                    assert(rs[j] == qtid.id);
                }
                if exists|j: int| 0 <= j < k && adds[j].1 == qtid.id {
                    let j = choose|j: int| 0 <= j < k && adds[j].1 == qtid.id;
                    assert(additions@[j].1.id == qtid.id);
                }
            }
            self.allocate_atlas_slot(votes, qtid);
            proof {
                assert forall|q: u32| #[trigger]
                    self@.states.contains_key(q) <==> d.states.contains_key(q) || exists|j: int|
                        0 <= j < k + 1 && adds[j].1 == q by {
                    if q == qtid.id {
                        assert(adds[k as int].1 == q);
                    }
                }
            }
            k = k + 1;
        }
        assert(adds.take(additions.len() as int) =~= adds);
    }

    /// The resident tiles with their slots, in increasing tile id order (which is breadth-first
    /// tree order, coarse tiles first): the paint list for the atlas index.
    pub fn active_tiles(&self) -> (r: Vec<(QuadTreeId, usize)>)
        ensures
            forall|i: int|
                0 <= i < r@.len() ==> self@.states.contains_key((#[trigger] r@[i]).0.id)
                    && self@.states[r@[i].0.id] == TileState::Active(r@[i].1),
            forall|q: u32|
                self@.states.contains_key(q) && (#[trigger] self@.states[q]) is Active ==> exists|
                    i: int,
                | 0 <= i < r@.len() && r@[i].0.id == q,
            forall|i: int, j: int| 0 <= i < j < r@.len() ==> r@[i].0.id < r@[j].0.id,
    {
        let mut r: Vec<(QuadTreeId, usize)> = Vec::new();
        let m = &self.tile_state;
        for (k, st) in it: m.iter()
            invariant
                m@ == self@.states,
                it.seq() == vstd::std_specs::btree::spec_btree_map_iter(m).remaining(),
                vstd::std_specs::btree::increasing_seq(
                    it.seq().map_values(|kv: (&u32, &TileState)| *kv.0),
                ),
                forall|i: int|
                    0 <= i < r@.len() ==> m@.contains_key((#[trigger] r@[i]).0.id) && m@[r@[i].0.id]
                        == TileState::Active(r@[i].1),
                forall|i: int, j: int|
                    0 <= i < r@.len() && it.index() <= j < it.seq().len() ==> (#[trigger] r@[i]).0.id
                        < *(#[trigger] it.seq()[j]).0,
                forall|j: int|
                    0 <= j < it.index() && (*it.seq()[j].1) is Active ==> exists|i: int|
                        0 <= i < r@.len() && r@[i].0.id == *(#[trigger] it.seq()[j]).0,
                forall|i: int, j: int| 0 <= i < j < r@.len() ==> r@[i].0.id < r@[j].0.id,
        {
            let ghost idx = it.index() as int;
            proof {
                lemma_iter_keys_increase(m, it.seq());
            }
            assert(*k == *it.seq()[idx].0);
            assert(*st == *it.seq()[idx].1);
            let ghost r_old = r@;
            if let TileState::Active(slot) = st {
                r.push((QuadTreeId { id: *k }, *slot));
                proof {
                    assert forall|j: int|
                        0 <= j < idx + 1 && (*it.seq()[j].1) is Active implies exists|i: int|
                            0 <= i < r@.len() && r@[i].0.id == *(#[trigger] it.seq()[j]).0 by {
                        if j == idx {
                            assert(r@[r@.len() - 1].0.id == *it.seq()[j].0);
                        } else {
                            let i = choose|i: int|
                                0 <= i < r_old.len() && r_old[i].0.id == *it.seq()[j].0;
                            assert(r@[i] == r_old[i]);
                        }
                    }
                }
            }
        }
        r
    }

    /// A tile went out of view: free its slot, if it had one. Any queued request or outstanding
    /// read for it is orphaned and ignored when it comes up.
    pub fn deallocate_atlas_slot(&mut self, qtid: QuadTreeId)
        requires
            old(self).wf(),
            old(self)@.states.contains_key(qtid.id),
        ensures
            final(self).wf(),
            final(self)@ == deallocated(old(self)@, qtid.id),
    {
        let ghost v = self@;
        let state = self.tile_state.remove(&qtid.id);
        assert(state == Some(v.states[qtid.id]));
        let atlas_slot = match state {
            Some(TileState::Pending(slot)) => slot,
            Some(TileState::Reading(slot)) => slot,
            Some(TileState::Active(slot)) => slot,
            _ => {
                proof {
                    let d = deallocated(v, qtid.id);
                    assert(self@.states =~= d.states);
                    assert(self@ == d);
                }
                return;
            },
        };
        self.atlas_tile_map.set(atlas_slot, None);
        self.atlas_free_list.push(atlas_slot);
        proof {
            let d = deallocated(v, qtid.id);
            assert(self@.slots =~= d.slots);
            assert(self@.free =~= d.free);
            assert(self@.states =~= d.states);
            let k = v.free.len() as int;
            assert(!v.free.contains(atlas_slot)) by {
                if v.free.contains(atlas_slot) {
                    let j = choose|j: int| 0 <= j < v.free.len() && v.free[j] == atlas_slot;
                    assert(v.slots[v.free[j] as int] is None);
                }
            }
            assert forall|i: int, j: int|
                0 <= i < d.free.len() && 0 <= j < d.free.len() && i != j implies d.free[i]
                != d.free[j] by {
                if i == k {
                    assert(v.free.contains(d.free[j]));
                } else if j == k {
                    assert(v.free.contains(d.free[i]));
                }
            }
            assert forall|i: int| 0 <= i < d.free.len() implies #[trigger] d.free[i] < d.slots.len()
                && d.slots[d.free[i] as int] is None by {
                if i < k {
                    assert(d.free[i] == v.free[i]);
                }
            }
            assert forall|t: int| 0 <= t < d.slots.len() && d.slots[t] is None implies d.free.contains(
                t as usize,
            ) by {
                if t == atlas_slot {
                    assert(d.free[k] == t as usize);
                } else {
                    assert(v.free.contains(t as usize));
                    let j = choose|j: int| 0 <= j < v.free.len() && v.free[j] == t as usize;
                    assert(d.free[j] == t as usize);
                }
            }
            assert forall|t: int|
                #![trigger d.slots[t]]
                0 <= t < d.slots.len() && d.slots[t] is Some implies {
                let q = d.slots[t]->Some_0;
                d.states.contains_key(q) && slot_of(d.states[q]) == Some(t as usize)
            } by {
                let q = d.slots[t]->Some_0;
                assert(t != atlas_slot);
                assert(v.slots[t] == d.slots[t]);
                assert(slot_of(v.states[qtid.id]) == Some(atlas_slot));
                assert(v.slots[t] is Some);
                assert(v.states.contains_key(q) && slot_of(v.states[q]) == Some(t as usize));
                assert(q != qtid.id);
            }
        }
    }
}

} // verus!
