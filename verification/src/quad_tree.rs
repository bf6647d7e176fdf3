//! The quad tree of available terrain tiles and the per-frame votes on which of them are needed.
use vstd::prelude::*;
use vstd::std_specs::iter::IteratorSpec;
use vstd::std_specs::cmp::OrdSpec;
use crate::layer_pack::{LayerPack, LayerPackView, LayerPackIndexItem, item_of};
use crate::tile::{TileCompression, ARCSEC_LEVEL};

verus! {

broadcast use vstd::std_specs::btree::group_btree_axioms, vstd::laws_cmp::group_laws_cmp;

/// The id of a node in the quad tree: its offset in the node list, with `u32::MAX` reserved for
/// "no node".
#[derive(Copy, Clone, Debug, PartialEq, Eq, PartialOrd, Ord, Hash, Structural)]
pub struct QuadTreeId {
    pub id: u32,
}

impl QuadTreeId {
    /// The id of the node at offset `id`; the offset must leave room for the empty marker.
    pub fn new(id: usize) -> (r: Self)
        requires
            id < u32::MAX,
        ensures
            r.id == id,
    {
        Self { id: id as u32 }
    }

    /// The marker for a missing node.
    pub fn empty() -> (r: Self)
        ensures
            r.id == u32::MAX,
    {
        Self { id: u32::MAX }
    }

    /// Whether this is the missing-node marker.
    pub fn is_empty(&self) -> (r: bool)
        ensures
            r == (self.id == u32::MAX),
    {
        self.id == u32::MAX
    }

    /// The offset of the node in the node list.
    pub fn offset(&self) -> (r: usize)
        ensures
            r == self.id,
    {
        self.id as usize
    }
}

/// The id value that marks a missing node.
pub open spec fn empty_id() -> u32 {
    u32::MAX
}

/// One tile of the tree: where its bytes are in its layer pack, its four children (or the empty
/// marker), its south-west corner as (latitude, longitude) in arcseconds, and its level.
#[derive(Copy, Clone, Debug)]
pub struct QuadTreeNode {
    pub span: (usize, usize),
    pub children: [QuadTreeId; 4],
    pub base: (i32, i32),
    pub level: u8,
}

/// How often a node was asked for in the current frame, and the frame it was last asked for in.
#[derive(Copy, Clone, Debug, PartialEq, Eq, Structural)]
pub struct NodeVotes {
    pub votes: u32,
    pub generation: u32,
}

/// An axis-aligned box of whole arcseconds, as (latitude, longitude) corners, both inclusive.
#[derive(Copy, Clone, Debug)]
pub struct Aabb2 {
    pub lo: (i32, i32),
    pub hi: (i32, i32),
}

/// Two closed boxes share at least one point.
pub open spec fn boxes_overlap(a_lo: (int, int), a_hi: (int, int), b_lo: (int, int), b_hi: (int, int)) -> bool {
    &&& a_lo.0 <= b_hi.0
    &&& b_lo.0 <= a_hi.0
    &&& a_lo.1 <= b_hi.1
    &&& b_lo.1 <= a_hi.1
}

impl Aabb2 {
    /// The box with the given corners.
    pub fn new(lo: (i32, i32), hi: (i32, i32)) -> (r: Self)
        ensures
            r.lo == lo,
            r.hi == hi,
    {
        Self { lo, hi }
    }

    /// Whether the two boxes share a point.
    pub fn overlaps(&self, other: &Aabb2) -> (r: bool)
        ensures
            r == boxes_overlap(
                (self.lo.0 as int, self.lo.1 as int),
                (self.hi.0 as int, self.hi.1 as int),
                (other.lo.0 as int, other.lo.1 as int),
                (other.hi.0 as int, other.hi.1 as int),
            ),
    {
        self.lo.0 <= other.hi.0 && other.lo.0 <= self.hi.0 && self.lo.1 <= other.hi.1
            && other.lo.1 <= self.hi.1
    }
}

/// The offset of child `c` from its parent's corner, for children `extent` wide: bit 0 of the
/// position moves east (longitude), bit 1 moves north (latitude).
pub open spec fn child_offset(c: int, extent: int) -> (int, int) {
    (if c >= 2 { extent } else { 0 }, if c % 2 == 1 { extent } else { 0 })
}

/// The abstract state of a quad tree.
pub struct QuadTreeView {
    pub nodes: Seq<QuadTreeNode>,
    pub packs: Seq<LayerPackView>,
    pub votes: Map<u32, NodeVotes>,
    pub additions: Seq<u32>,
    pub generation: u32,
}

/// The extent, in arcseconds, of the tiles of node `n`'s layer.
pub open spec fn node_extent(v: QuadTreeView, n: int) -> int {
    v.packs[v.nodes[n].level as int].angular_extent_as
}

/// Every node's level has a layer, and every child link leads to a node one level down whose
/// corner is its parent's corner moved by its position.
pub open spec fn links_ok(nodes: Seq<QuadTreeNode>, packs: Seq<LayerPackView>) -> bool {
    &&& forall|n: int| 0 <= n < nodes.len() ==> (#[trigger] nodes[n]).level < packs.len()
    &&& forall|n: int, c: int|
        0 <= n < nodes.len() && 0 <= c < 4 && (#[trigger] nodes[n].children[c]).id != empty_id()
            ==> {
            let k = nodes[n].children[c].id as int;
            &&& k < nodes.len()
            &&& nodes[k].level == nodes[n].level + 1
            &&& nodes[k].base.0 == nodes[n].base.0 + child_offset(
                c,
                packs[nodes[k].level as int].angular_extent_as,
            ).0
            &&& nodes[k].base.1 == nodes[n].base.1 + child_offset(
                c,
                packs[nodes[k].level as int].angular_extent_as,
            ).1
        }
}

/// The structural invariant of the tree: one layer pack per level, in level order; every child
/// link leads to a node one level down whose corner is its parent's corner moved by its
/// position; every voted node exists and every node noted as added this frame has votes.
pub open spec fn tree_ok(v: QuadTreeView) -> bool {
    &&& 1 <= v.packs.len()
    &&& forall|l: int| 0 <= l < v.packs.len() ==> (#[trigger] v.packs[l]).terrain_level == l
    &&& v.nodes.len() <= u32::MAX
    &&& links_ok(v.nodes, v.packs)
    &&& forall|q: u32| #[trigger] v.votes.contains_key(q) ==> q < v.nodes.len()
    &&& forall|i: int|
        0 <= i < v.additions.len() ==> v.votes.contains_key(#[trigger] v.additions[i])
}

/// In a consistent tree every child link leads to an existing node one level down, whose corner
/// is its parent's corner moved by the child's position times the child's tile extent.
pub proof fn lemma_child_below_parent(v: QuadTreeView, n: int, c: int)
    requires
        tree_ok(v),
        0 <= n < v.nodes.len(),
        0 <= c < 4,
        v.nodes[n].children[c].id != empty_id(),
    ensures
        ({
            let k = v.nodes[n].children[c].id as int;
            let e = node_extent(v, k);
            &&& 0 <= k < v.nodes.len()
            &&& v.nodes[k].level == v.nodes[n].level + 1
            &&& v.nodes[k].base.0 == v.nodes[n].base.0 + (if c >= 2 {
                e
            } else {
                0
            })
            &&& v.nodes[k].base.1 == v.nodes[n].base.1 + (if c % 2 == 1 {
                e
            } else {
                0
            })
        }),
{
    assert(v.nodes[n].children[c].id != empty_id());
}

/// A node is stale when its votes are from an earlier frame.
pub open spec fn is_stale(v: QuadTreeView, q: u32) -> bool {
    v.votes.contains_key(q) && v.votes[q].generation != v.generation
}

/// The votes that survive the end of a frame: those cast in it.
pub open spec fn kept_votes(v: QuadTreeView) -> Map<u32, NodeVotes> {
    Map::new(
        |q: u32| v.votes.contains_key(q) && v.votes[q].generation == v.generation,
        |q: u32| v.votes[q],
    )
}

/// The nodes added in this frame, in the order they were first asked for, each with its votes.
pub open spec fn reported_additions(v: QuadTreeView) -> Seq<(u32, QuadTreeId)> {
    v.additions.map_values(|q: u32| (v.votes[q].votes, QuadTreeId { id: q }))
}

/// `r` lists each stale node once, in increasing id order, and nothing else.
pub open spec fn lists_stale(v: QuadTreeView, r: Seq<QuadTreeId>) -> bool {
    &&& forall|i: int| 0 <= i < r.len() ==> is_stale(v, (#[trigger] r[i]).id)
    &&& forall|i: int, j: int| 0 <= i < j < r.len() ==> (#[trigger] r[i]).id < (#[trigger] r[j]).id
    &&& forall|q: u32| #[trigger] is_stale(v, q) ==> exists|i: int| 0 <= i < r.len() && r[i].id == q
}

/// `x` is among the first `n` entries of `s`.
pub open spec fn in_prefix(s: Seq<u32>, n: int, x: u32) -> bool {
    exists|i: int| 0 <= i < n && s[i] == x
}

/// The keys that a vote map hands out when walked come in increasing order.
proof fn lemma_vote_keys_increase(
    m: &std::collections::BTreeMap<u32, NodeVotes>,
    walk: Seq<(&u32, &NodeVotes)>,
)
    requires
        walk == vstd::std_specs::btree::spec_btree_map_iter(m).remaining(),
        vstd::std_specs::btree::increasing_seq(walk.map_values(|kv: (&u32, &NodeVotes)| *kv.0)),
    ensures
        forall|i: int, j: int| 0 <= i < j < walk.len() ==> *(#[trigger] walk[i]).0 < *(
        #[trigger] walk[j]).0,
{
    let keys = walk.map_values(|kv: (&u32, &NodeVotes)| *kv.0);
    assert(vstd::laws_cmp::obeys_cmp::<u32>());
    vstd::std_specs::btree::axiom_increasing_seq_meaning(keys);
    assert forall|i: int, j: int| 0 <= i < j < walk.len() implies *(#[trigger] walk[i]).0 < *(
    #[trigger] walk[j]).0 by {
        assert(keys[i] == *walk[i].0);
        assert(keys[j] == *walk[j].0);
        assert(keys[i].cmp_spec(&keys[j]) is Less);
    }
}

/// The extent of node `n` from the node list and the layer packs.
pub open spec fn extent_of(nodes: Seq<QuadTreeNode>, packs: Seq<LayerPackView>, n: int) -> int {
    packs[nodes[n].level as int].angular_extent_as
}

/// Child `c` of node `id` exists and its box shares a point with `window`.
pub open spec fn child_visited(
    nodes: Seq<QuadTreeNode>,
    packs: Seq<LayerPackView>,
    id: u32,
    c: int,
    window: Aabb2,
) -> bool {
    let k = nodes[id as int].children[c].id;
    let b = nodes[k as int].base;
    let e = extent_of(nodes, packs, k as int);
    &&& k != empty_id()
    &&& boxes_overlap(
        (b.0 as int, b.1 as int),
        (b.0 + e, b.1 + e),
        (window.lo.0 as int, window.lo.1 as int),
        (window.hi.0 as int, window.hi.1 as int),
    )
}

/// The nodes visited, in order, when node `id` is asked for: the node itself, then, unless it
/// is narrower than `stop_extent`, each child whose box meets `window`, in position order,
/// recursively. `depth` bounds how many levels are walked.
pub open spec fn visit_order(
    nodes: Seq<QuadTreeNode>,
    packs: Seq<LayerPackView>,
    id: u32,
    window: Aabb2,
    stop_extent: int,
    depth: nat,
) -> Seq<u32>
    decreases depth, 0int, 0int,
{
    if depth == 0 {
        seq![]
    } else {
        seq![id] + if extent_of(nodes, packs, id as int) < stop_extent {
            seq![]
        } else {
            kids_visit_order(nodes, packs, id, window, stop_extent, (depth - 1) as nat, 4)
        }
    }
}

/// The visits below the first `c` children of node `id`.
pub open spec fn kids_visit_order(
    nodes: Seq<QuadTreeNode>,
    packs: Seq<LayerPackView>,
    id: u32,
    window: Aabb2,
    stop_extent: int,
    depth: nat,
    c: int,
) -> Seq<u32>
    decreases depth, 1int, c,
{
    if c <= 0 {
        seq![]
    } else {
        kids_visit_order(nodes, packs, id, window, stop_extent, depth, c - 1) + if child_visited(
            nodes,
            packs,
            id,
            c - 1,
            window,
        ) {
            visit_order(
                nodes,
                packs,
                nodes[id as int].children[c - 1].id,
                window,
                stop_extent,
                depth,
            )
        } else {
            seq![]
        }
    }
}

/// The box of node `k` shares a point with `window`.
pub open spec fn node_meets(
    nodes: Seq<QuadTreeNode>,
    packs: Seq<LayerPackView>,
    k: u32,
    window: Aabb2,
) -> bool {
    let b = nodes[k as int].base;
    let e = extent_of(nodes, packs, k as int);
    boxes_overlap(
        (b.0 as int, b.1 as int),
        (b.0 + e, b.1 + e),
        (window.lo.0 as int, window.lo.1 as int),
        (window.hi.0 as int, window.hi.1 as int),
    )
}

/// Every node a walk visits below the node it starts from has a box that meets the window,
/// and the walk starts with that node.
pub proof fn lemma_visits_meet_window(
    nodes: Seq<QuadTreeNode>,
    packs: Seq<LayerPackView>,
    id: u32,
    window: Aabb2,
    stop_extent: int,
    depth: nat,
)
    ensures
        depth > 0 ==> visit_order(nodes, packs, id, window, stop_extent, depth)[0] == id,
        forall|i: int|
            1 <= i < visit_order(nodes, packs, id, window, stop_extent, depth).len() ==> node_meets(
                nodes,
                packs,
                #[trigger] visit_order(nodes, packs, id, window, stop_extent, depth)[i],
                window,
            ),
    decreases depth, 0int, 0int,
{
    if depth > 0 && extent_of(nodes, packs, id as int) >= stop_extent {
        lemma_kids_meet_window(nodes, packs, id, window, stop_extent, (depth - 1) as nat, 4);
        let kids = kids_visit_order(nodes, packs, id, window, stop_extent, (depth - 1) as nat, 4);
        let v = visit_order(nodes, packs, id, window, stop_extent, depth);
        assert(v == seq![id] + kids);
        assert forall|i: int| 1 <= i < v.len() implies node_meets(nodes, packs, #[trigger] v[i], window) by {
            assert(v[i] == kids[i - 1]);
        }
    }
}

/// Every node visited below the first `c` children of a node has a box that meets the window.
proof fn lemma_kids_meet_window(
    nodes: Seq<QuadTreeNode>,
    packs: Seq<LayerPackView>,
    id: u32,
    window: Aabb2,
    stop_extent: int,
    depth: nat,
    c: int,
)
    ensures
        forall|i: int|
            0 <= i < kids_visit_order(nodes, packs, id, window, stop_extent, depth, c).len()
                ==> node_meets(
                nodes,
                packs,
                #[trigger] kids_visit_order(nodes, packs, id, window, stop_extent, depth, c)[i],
                window,
            ),
    decreases depth, 1int, c,
{
    if c > 0 {
        lemma_kids_meet_window(nodes, packs, id, window, stop_extent, depth, c - 1);
        let before = kids_visit_order(nodes, packs, id, window, stop_extent, depth, c - 1);
        let all = kids_visit_order(nodes, packs, id, window, stop_extent, depth, c);
        if child_visited(nodes, packs, id, c - 1, window) {
            let k = nodes[id as int].children[c - 1].id;
            lemma_visits_meet_window(nodes, packs, k, window, stop_extent, depth);
            let sub = visit_order(nodes, packs, k, window, stop_extent, depth);
            assert(all == before + sub);
            assert forall|i: int| 0 <= i < all.len() implies node_meets(
                nodes,
                packs,
                #[trigger] all[i],
                window,
            ) by {
                if i < before.len() {
                    assert(all[i] == before[i]);
                } else {
                    let j = i - before.len();
                    assert(all[i] == sub[j]);
                    if j == 0 {
                        assert(depth > 0);
                    }
                }
            }
        } else {
            assert(all == before + Seq::<u32>::empty());
            assert(all =~= before);
        }
    }
}

/// The children the walk must ask for: every child, meeting the window, of a node in `s` that is
/// not narrower than `stop_extent` is in `s` too.
pub open spec fn meeting_children_asked(
    nodes: Seq<QuadTreeNode>,
    packs: Seq<LayerPackView>,
    window: Aabb2,
    stop_extent: int,
    s: Seq<u32>,
) -> bool {
    forall|n: u32, c: int|
        #![trigger s.contains(n), nodes[n as int].children[c]]
        s.contains(n) && extent_of(nodes, packs, n as int) >= stop_extent && 0 <= c < 4
            && nodes[n as int].children[c].id != empty_id() && node_meets(
            nodes,
            packs,
            nodes[n as int].children[c].id,
            window,
        ) ==> s.contains(nodes[n as int].children[c].id)
}

/// Node `e` is a child of a node in `s` that is not narrower than `stop_extent`.
pub open spec fn asked_through_parent(
    nodes: Seq<QuadTreeNode>,
    packs: Seq<LayerPackView>,
    stop_extent: int,
    s: Seq<u32>,
    e: u32,
) -> bool {
    exists|n: u32, c: int|
        #![trigger s.contains(n), nodes[n as int].children[c]]
        s.contains(n) && extent_of(nodes, packs, n as int) >= stop_extent && 0 <= c < 4
            && nodes[n as int].children[c].id == e
}

/// A walk of a linked tree from node `id`, given the depth left below its level, asks for
/// every child that meets the window of every node it asks for that is not narrower than
/// `stop_extent`, whatever the child's own extent; only a node already fine enough stops the
/// walk. Every node it asks for after `id` is a child of a node it asked for that is not
/// narrower than `stop_extent`.
pub proof fn lemma_walk_asks_meeting_children(
    nodes: Seq<QuadTreeNode>,
    packs: Seq<LayerPackView>,
    id: u32,
    window: Aabb2,
    stop_extent: int,
    depth: nat,
)
    requires
        links_ok(nodes, packs),
        0 <= id < nodes.len(),
        depth == packs.len() - nodes[id as int].level,
    ensures
        visit_order(nodes, packs, id, window, stop_extent, depth).contains(id),
        meeting_children_asked(
            nodes,
            packs,
            window,
            stop_extent,
            visit_order(nodes, packs, id, window, stop_extent, depth),
        ),
        forall|i: int|
            1 <= i < visit_order(nodes, packs, id, window, stop_extent, depth).len()
                ==> asked_through_parent(
                nodes,
                packs,
                stop_extent,
                visit_order(nodes, packs, id, window, stop_extent, depth),
                #[trigger] visit_order(nodes, packs, id, window, stop_extent, depth)[i],
            ),
    decreases depth, 0int, 0int,
{
    assert(nodes[id as int].level < packs.len());
    let v = visit_order(nodes, packs, id, window, stop_extent, depth);
    assert(v[0] == id);
    if extent_of(nodes, packs, id as int) >= stop_extent {
        let d = (depth - 1) as nat;
        lemma_kids_ask_meeting_children(nodes, packs, id, window, stop_extent, d, 4);
        let kids = kids_visit_order(nodes, packs, id, window, stop_extent, d, 4);
        assert(v == seq![id] + kids);
        assert forall|i: int| 1 <= i < v.len() implies asked_through_parent(
            nodes,
            packs,
            stop_extent,
            v,
            #[trigger] v[i],
        ) by {
            let e = v[i];
            assert(kids[i - 1] == e);
            if exists|j: int| 0 <= j < 4 && nodes[id as int].children[j].id == e {
                let j = choose|j: int| 0 <= j < 4 && nodes[id as int].children[j].id == e;
                assert(v.contains(id));
                assert(v.contains(id) && extent_of(nodes, packs, id as int) >= stop_extent && 0 <= j
                    < 4 && nodes[id as int].children[j].id == e);
            } else {
                assert(asked_through_parent(nodes, packs, stop_extent, kids, e));
                let (n, c) = choose|n: u32, c: int|
                    kids.contains(n) && extent_of(nodes, packs, n as int) >= stop_extent && 0 <= c < 4
                        && nodes[n as int].children[c].id == e;
                let t = choose|t: int| 0 <= t < kids.len() && kids[t] == n;
                assert(v[t + 1] == n);
                assert(v.contains(n));
            }
        }
        assert forall|n: u32, c: int|
            #![trigger v.contains(n), nodes[n as int].children[c]]
            v.contains(n) && extent_of(nodes, packs, n as int) >= stop_extent && 0 <= c < 4
                && nodes[n as int].children[c].id != empty_id() && node_meets(
                nodes,
                packs,
                nodes[n as int].children[c].id,
                window,
            ) implies v.contains(nodes[n as int].children[c].id) by {
            let k = nodes[n as int].children[c].id;
            if n == id {
                assert(child_visited(nodes, packs, id, c, window));
                assert(kids.contains(k));
                let i = choose|i: int| 0 <= i < kids.len() && kids[i] == k;
                assert(v[i + 1] == k);
            } else {
                let i = choose|i: int| 0 <= i < v.len() && v[i] == n;
                assert(i >= 1);
                assert(kids[i - 1] == n);
                assert(kids.contains(n));
                assert(kids.contains(k));
                let j = choose|j: int| 0 <= j < kids.len() && kids[j] == k;
                assert(v[j + 1] == k);
            }
        }
    } else {
        assert(v =~= seq![id]);
        assert forall|n: u32, c: int|
            #![trigger v.contains(n), nodes[n as int].children[c]]
            v.contains(n) && extent_of(nodes, packs, n as int) >= stop_extent && 0 <= c < 4
                && nodes[n as int].children[c].id != empty_id() && node_meets(
                nodes,
                packs,
                nodes[n as int].children[c].id,
                window,
            ) implies v.contains(nodes[n as int].children[c].id) by {
            let i = choose|i: int| 0 <= i < v.len() && v[i] == n;
            assert(n == id);
        }
    }
}

/// The walks below the first `c` children of node `id` (with `depth` left below the
/// children's level) ask for each of those children that meets the window, and are closed in
/// the same way as a whole walk.
proof fn lemma_kids_ask_meeting_children(
    nodes: Seq<QuadTreeNode>,
    packs: Seq<LayerPackView>,
    id: u32,
    window: Aabb2,
    stop_extent: int,
    depth: nat,
    c: int,
)
    requires
        links_ok(nodes, packs),
        0 <= id < nodes.len(),
        depth + 1 == packs.len() - nodes[id as int].level,
        c <= 4,
    ensures
        forall|j: int|
            0 <= j < c && child_visited(nodes, packs, id, j, window) ==> kids_visit_order(
                nodes,
                packs,
                id,
                window,
                stop_extent,
                depth,
                c,
            ).contains(#[trigger] nodes[id as int].children[j].id),
        meeting_children_asked(
            nodes,
            packs,
            window,
            stop_extent,
            kids_visit_order(nodes, packs, id, window, stop_extent, depth, c),
        ),
        forall|i: int|
            0 <= i < kids_visit_order(nodes, packs, id, window, stop_extent, depth, c).len() ==> (
            exists|j: int|
                0 <= j < 4 && nodes[id as int].children[j].id == #[trigger] kids_visit_order(
                    nodes,
                    packs,
                    id,
                    window,
                    stop_extent,
                    depth,
                    c,
                )[i]) || asked_through_parent(
                nodes,
                packs,
                stop_extent,
                kids_visit_order(nodes, packs, id, window, stop_extent, depth, c),
                kids_visit_order(nodes, packs, id, window, stop_extent, depth, c)[i],
            ),
    decreases depth, 1int, c,
{
    let all = kids_visit_order(nodes, packs, id, window, stop_extent, depth, c);
    if c <= 0 {
        assert(all =~= Seq::<u32>::empty());
        assert forall|n: u32, c2: int|
            #![trigger all.contains(n), nodes[n as int].children[c2]]
            all.contains(n) && extent_of(nodes, packs, n as int) >= stop_extent && 0 <= c2 < 4
                && nodes[n as int].children[c2].id != empty_id() && node_meets(
                nodes,
                packs,
                nodes[n as int].children[c2].id,
                window,
            ) implies all.contains(nodes[n as int].children[c2].id) by {
            let i = choose|i: int| 0 <= i < all.len() && all[i] == n;
        }
    } else {
        lemma_kids_ask_meeting_children(nodes, packs, id, window, stop_extent, depth, c - 1);
        let before = kids_visit_order(nodes, packs, id, window, stop_extent, depth, c - 1);
        if child_visited(nodes, packs, id, c - 1, window) {
            let k = nodes[id as int].children[c - 1].id;
            assert(nodes[id as int].children[c - 1].id != empty_id());
            assert(k < nodes.len() && nodes[k as int].level == nodes[id as int].level + 1);
            lemma_walk_asks_meeting_children(nodes, packs, k, window, stop_extent, depth);
            let sub = visit_order(nodes, packs, k, window, stop_extent, depth);
            assert(all == before + sub);
            assert forall|i: int| 0 <= i < all.len() implies (exists|j: int|
                0 <= j < 4 && nodes[id as int].children[j].id == #[trigger] all[i])
                || asked_through_parent(nodes, packs, stop_extent, all, all[i]) by {
                let e = all[i];
                if i < before.len() {
                    assert(before[i] == e);
                    if !(exists|j: int| 0 <= j < 4 && nodes[id as int].children[j].id == e) {
                        assert(asked_through_parent(nodes, packs, stop_extent, before, e));
                        let (n, c2) = choose|n: u32, c2: int|
                            before.contains(n) && extent_of(nodes, packs, n as int) >= stop_extent
                                && 0 <= c2 < 4 && nodes[n as int].children[c2].id == e;
                        let t = choose|t: int| 0 <= t < before.len() && before[t] == n;
                        assert(all[t] == n);
                        assert(all.contains(n));
                    }
                } else {
                    let t = i - before.len();
                    assert(sub[t] == e);
                    if t == 0 {
                        assert(nodes[id as int].children[c - 1].id == e);
                    } else {
                        assert(asked_through_parent(nodes, packs, stop_extent, sub, sub[t]));
                        let (n, c2) = choose|n: u32, c2: int|
                            sub.contains(n) && extent_of(nodes, packs, n as int) >= stop_extent
                                && 0 <= c2 < 4 && nodes[n as int].children[c2].id == e;
                        let u = choose|u: int| 0 <= u < sub.len() && sub[u] == n;
                        assert(all[before.len() + u] == n);
                        assert(all.contains(n));
                    }
                }
            }
            assert forall|j: int|
                0 <= j < c && child_visited(nodes, packs, id, j, window) implies all.contains(
                #[trigger] nodes[id as int].children[j].id,
            ) by {
                if j < c - 1 {
                    let kj = nodes[id as int].children[j].id;
                    assert(before.contains(kj));
                    let i = choose|i: int| 0 <= i < before.len() && before[i] == kj;
                    assert(all[i] == kj);
                } else {
                    let i = choose|i: int| 0 <= i < sub.len() && sub[i] == k;
                    assert(all[before.len() + i] == k);
                }
            }
            assert forall|n: u32, c2: int|
                #![trigger all.contains(n), nodes[n as int].children[c2]]
                all.contains(n) && extent_of(nodes, packs, n as int) >= stop_extent && 0 <= c2 < 4
                    && nodes[n as int].children[c2].id != empty_id() && node_meets(
                    nodes,
                    packs,
                    nodes[n as int].children[c2].id,
                    window,
                ) implies all.contains(nodes[n as int].children[c2].id) by {
                let kc = nodes[n as int].children[c2].id;
                let i = choose|i: int| 0 <= i < all.len() && all[i] == n;
                if i < before.len() {
                    assert(before[i] == n);
                    assert(before.contains(n));
                    assert(before.contains(kc));
                    let t = choose|t: int| 0 <= t < before.len() && before[t] == kc;
                    assert(all[t] == kc);
                } else {
                    assert(sub[i - before.len()] == n);
                    assert(sub.contains(n));
                    assert(sub.contains(kc));
                    let t = choose|t: int| 0 <= t < sub.len() && sub[t] == kc;
                    assert(all[before.len() + t] == kc);
                }
            }
        } else {
            assert(all =~= before);
            assert forall|j: int|
                0 <= j < c && child_visited(nodes, packs, id, j, window) implies all.contains(
                #[trigger] nodes[id as int].children[j].id,
            ) by {
                assert(j < c - 1);
            }
        }
    }
}

/// One more vote for node `q` in the current frame; a node not yet voted for is noted as added.
pub open spec fn vote(v: QuadTreeView, q: u32) -> QuadTreeView {
    let known = v.votes.contains_key(q);
    let before = if known {
        v.votes[q].votes
    } else {
        0u32
    };
    QuadTreeView {
        votes: v.votes.insert(
            q,
            NodeVotes { votes: before.wrapping_add(1), generation: v.generation },
        ),
        additions: if known {
            v.additions
        } else {
            v.additions.push(q)
        },
        ..v
    }
}

/// One vote for each node of `s`, in order.
pub open spec fn voted(v: QuadTreeView, s: Seq<u32>) -> QuadTreeView
    decreases s.len(),
{
    if s.len() == 0 {
        v
    } else {
        vote(voted(v, s.drop_last()), s.last())
    }
}

/// Voting for two runs of nodes is voting for the one after the other.
pub proof fn lemma_voted_append(v: QuadTreeView, s1: Seq<u32>, s2: Seq<u32>)
    ensures
        voted(v, s1 + s2) == voted(voted(v, s1), s2),
    decreases s2.len(),
{
    if s2.len() == 0 {
        assert(s1 + s2 =~= s1);
    } else {
        assert((s1 + s2).drop_last() =~= s1 + s2.drop_last());
        lemma_voted_append(v, s1, s2.drop_last());
    }
}

/// Voting changes neither the tree nor the generation.
pub proof fn lemma_voted_keeps_tree(v: QuadTreeView, s: Seq<u32>)
    ensures
        voted(v, s).nodes == v.nodes,
        voted(v, s).packs == v.packs,
        voted(v, s).generation == v.generation,
    decreases s.len(),
{
    if s.len() > 0 {
        lemma_voted_keeps_tree(v, s.drop_last());
    }
}

/// Why a set of layer packs does not form a tree.
#[derive(Copy, Clone, Debug, PartialEq, Eq, Structural)]
pub enum QuadTreeError {
    /// There are no layers.
    NoLayers,
    /// The levels of the layers are not exactly 0, 1, ... up to one less than their number.
    LevelMismatch,
    /// An index is not a whole number of items.
    IndexSize,
    /// An item's position in its parent is not below four.
    BadChildIndex,
    /// An item's parent is not in the layer above.
    MissingParent,
    /// Two items claim the same position in the same parent.
    DuplicateChild,
    /// There are more nodes than ids.
    TooManyNodes,
}

/// The items of an index, 28 bytes each.
pub open spec fn parse_items(b: Seq<u8>) -> Seq<LayerPackIndexItem> {
    Seq::new(b.len() / 28, |i: int| item_of(b.subrange(i * 28, i * 28 + 28)))
}

/// The items of each layer.
pub open spec fn all_items(bytes: Seq<Seq<u8>>) -> Seq<Seq<LayerPackIndexItem>> {
    bytes.map_values(|b: Seq<u8>| parse_items(b))
}

/// The corner of an item, as (latitude, longitude).
pub open spec fn item_base(t: LayerPackIndexItem) -> (i32, i32) {
    (t.base_lat_as, t.base_lon_as)
}

/// The corner of an item's parent, for items `extent` wide.
pub open spec fn parent_corner(t: LayerPackIndexItem, extent: int) -> (int, int) {
    (
        t.base_lat_as - child_offset(t.index_in_parent as int, extent).0,
        t.base_lon_as - child_offset(t.index_in_parent as int, extent).1,
    )
}

/// Both coordinates fit in 32 bits.
pub open spec fn corner_fits(p: (int, int)) -> bool {
    i32::MIN <= p.0 <= i32::MAX && i32::MIN <= p.1 <= i32::MAX
}

/// The corner as a pair of 32-bit integers.
pub open spec fn corner_key(p: (int, int)) -> (i32, i32) {
    (p.0 as i32, p.1 as i32)
}

/// The position of the last item of `s` with corner `b`, or -1.
pub open spec fn last_with_base(s: Seq<LayerPackIndexItem>, b: (i32, i32)) -> int
    decreases s.len(),
{
    if s.len() == 0 {
        -1
    } else if item_base(s.last()) == b {
        s.len() - 1
    } else {
        last_with_base(s.drop_last(), b)
    }
}

/// The id of the first node of layer `l`: the nodes are numbered layer by layer.
pub open spec fn layer_offset(items: Seq<Seq<LayerPackIndexItem>>, l: int) -> int
    decreases l,
{
    if l <= 0 {
        0
    } else {
        layer_offset(items, l - 1) + items[l - 1].len()
    }
}

/// The id of item `k` of layer `l`.
pub open spec fn slot(items: Seq<Seq<LayerPackIndexItem>>, l: int, k: int) -> int {
    layer_offset(items, l) + k
}

/// The node that item `k` of layer `l` hangs from: the last item of the layer above whose
/// corner is the item's parent corner.
pub open spec fn parent_of(
    items: Seq<Seq<LayerPackIndexItem>>,
    packs: Seq<LayerPackView>,
    l: int,
    k: int,
) -> int {
    let pc = parent_corner(items[l][k], packs[l].angular_extent_as);
    slot(items, l - 1, last_with_base(items[l - 1], corner_key(pc)))
}

/// What is wrong with item `k` of layer `l`, if anything, given the items before it.
pub open spec fn item_error(
    items: Seq<Seq<LayerPackIndexItem>>,
    packs: Seq<LayerPackView>,
    l: int,
    k: int,
) -> Option<QuadTreeError> {
    let t = items[l][k];
    let e = packs[l].angular_extent_as;
    let pc = parent_corner(t, e);
    if slot(items, l, k) >= u32::MAX {
        Some(QuadTreeError::TooManyNodes)
    } else if t.index_in_parent > 3 {
        Some(QuadTreeError::BadChildIndex)
    } else if l == 0 {
        None
    } else if !corner_fits(pc) || l - 1 == ARCSEC_LEVEL || last_with_base(
        items[l - 1],
        corner_key(pc),
    ) < 0 {
        Some(QuadTreeError::MissingParent)
    } else if exists|j: int|
        0 <= j < k && (#[trigger] items[l][j]).index_in_parent == t.index_in_parent
            && parent_corner(items[l][j], e) == pc {
        Some(QuadTreeError::DuplicateChild)
    } else {
        None
    }
}

/// The first error among the first `k` items of layer `l`.
pub open spec fn layer_error(
    items: Seq<Seq<LayerPackIndexItem>>,
    packs: Seq<LayerPackView>,
    l: int,
    k: int,
) -> Option<QuadTreeError>
    decreases k,
{
    if k <= 0 {
        None
    } else {
        match layer_error(items, packs, l, k - 1) {
            Some(e) => Some(e),
            None => item_error(items, packs, l, k - 1),
        }
    }
}

/// The first error in linking the first `l` layers, given each layer's index bytes.
pub open spec fn link_error(bytes: Seq<Seq<u8>>, packs: Seq<LayerPackView>, l: int) -> Option<
    QuadTreeError,
>
    decreases l,
{
    if l <= 0 {
        None
    } else {
        match link_error(bytes, packs, l - 1) {
            Some(e) => Some(e),
            None => if bytes[l - 1].len() % 28 != 0 {
                Some(QuadTreeError::IndexSize)
            } else {
                layer_error(all_items(bytes), packs, l - 1, all_items(bytes)[l - 1].len() as int)
            },
        }
    }
}

/// The child at position `c` of node `p` once the first `k` items of layer `l` are linked.
pub open spec fn children_after(
    items: Seq<Seq<LayerPackIndexItem>>,
    packs: Seq<LayerPackView>,
    l: int,
    k: int,
    p: int,
    c: int,
) -> u32
    decreases k,
{
    if k <= 0 {
        empty_id()
    } else if parent_of(items, packs, l, k - 1) == p && items[l][k - 1].index_in_parent == c {
        slot(items, l, k - 1) as u32
    } else {
        children_after(items, packs, l, k - 1, p, c)
    }
}

/// The child at position `c` of item `k` of layer `l` once the layers before `lk` and the first
/// `kk` items of layer `lk` are linked.
pub open spec fn expected_child(
    items: Seq<Seq<LayerPackIndexItem>>,
    packs: Seq<LayerPackView>,
    l: int,
    k: int,
    lk: int,
    kk: int,
    c: int,
) -> u32 {
    if l + 1 < lk {
        children_after(items, packs, l + 1, items[l + 1].len() as int, slot(items, l, k), c)
    } else if l + 1 == lk {
        children_after(items, packs, lk, kk, slot(items, l, k), c)
    } else {
        empty_id()
    }
}

/// `node` is the node of item `k` of layer `l`, with the children linked so far.
pub open spec fn node_matches(
    node: QuadTreeNode,
    items: Seq<Seq<LayerPackIndexItem>>,
    packs: Seq<LayerPackView>,
    l: int,
    k: int,
    lk: int,
    kk: int,
) -> bool {
    let t = items[l][k];
    &&& node.span == (t.tile_start as usize, t.tile_end as usize)
    &&& node.base == item_base(t)
    &&& node.level == l as u8
    &&& forall|c: int|
        0 <= c < 4 ==> (#[trigger] node.children[c]).id == expected_child(
            items,
            packs,
            l,
            k,
            lk,
            kk,
            c,
        )
}

/// `nodes` are the nodes built from all `items` of all layers, in layer order, fully linked.
pub open spec fn built_nodes(
    nodes: Seq<QuadTreeNode>,
    items: Seq<Seq<LayerPackIndexItem>>,
    packs: Seq<LayerPackView>,
) -> bool {
    let n = items.len() as int;
    &&& nodes.len() == layer_offset(items, n)
    &&& forall|l: int, k: int|
        0 <= l < n && 0 <= k < items[l].len() ==> node_matches(
            #[trigger] nodes[slot(items, l, k)],
            items,
            packs,
            l,
            k,
            n,
            0,
        )
}

/// The layers' levels are exactly 0, 1, ... up to one less than their number.
pub open spec fn levels_exact(ps: Seq<LayerPackView>) -> bool {
    &&& forall|j: int| 0 <= j < ps.len() ==> (#[trigger] ps[j]).terrain_level < ps.len()
    &&& forall|i: int, j: int|
        0 <= i < j < ps.len() ==> (#[trigger] ps[i]).terrain_level != (#[trigger] ps[j]).terrain_level
    &&& forall|l: int| 0 <= l < ps.len() ==> #[trigger] has_level(ps, l)
}

/// Some layer has level `l`.
pub open spec fn has_level(ps: Seq<LayerPackView>, l: int) -> bool {
    exists|j: int| 0 <= j < ps.len() && (#[trigger] ps[j]).terrain_level == l
}

/// The packs of the given layers.
pub open spec fn pack_views(ls: Seq<(LayerPack, Vec<u8>)>) -> Seq<LayerPackView> {
    ls.map_values(|e: (LayerPack, Vec<u8>)| e.0@)
}

/// The index bytes of the given layers.
pub open spec fn index_views(ls: Seq<(LayerPack, Vec<u8>)>) -> Seq<Seq<u8>> {
    ls.map_values(|e: (LayerPack, Vec<u8>)| e.1@)
}

/// Where the layer of level `l` is among the given layers.
pub open spec fn layer_position(ps: Seq<LayerPackView>, l: int) -> int {
    choose|j: int| 0 <= j < ps.len() && ps[j].terrain_level == l
}

/// The given layers' packs, in level order.
pub open spec fn sorted_packs(ps: Seq<LayerPackView>) -> Seq<LayerPackView> {
    Seq::new(ps.len(), |l: int| ps[layer_position(ps, l)])
}

/// The given layers' index bytes, in level order.
pub open spec fn sorted_indices(ps: Seq<LayerPackView>, bs: Seq<Seq<u8>>) -> Seq<Seq<u8>> {
    Seq::new(ps.len(), |l: int| bs[layer_position(ps, l)])
}

proof fn lemma_last_with_base(s: Seq<LayerPackIndexItem>, b: (i32, i32))
    ensures
        -1 <= last_with_base(s, b) < s.len(),
        last_with_base(s, b) >= 0 ==> item_base(s[last_with_base(s, b)]) == b,
        last_with_base(s, b) < 0 ==> forall|j: int| 0 <= j < s.len() ==> item_base(#[trigger] s[j]) != b,
    decreases s.len(),
{
    if s.len() > 0 {
        lemma_last_with_base(s.drop_last(), b);
        if item_base(s.last()) != b {
            assert forall|j: int| 0 <= j < s.len() && last_with_base(s, b) < 0 implies item_base(
                #[trigger] s[j],
            ) != b by {
                if j < s.len() - 1 {
                    assert(s[j] == s.drop_last()[j]);
                }
            }
        }
    }
}

proof fn lemma_last_with_base_push(s: Seq<LayerPackIndexItem>, t: LayerPackIndexItem, b: (i32, i32))
    ensures
        last_with_base(s.push(t), b) == if item_base(t) == b {
            s.len() as int
        } else {
            last_with_base(s, b)
        },
{
    assert(s.push(t).drop_last() =~= s);
}

proof fn lemma_layer_offset_mono(items: Seq<Seq<LayerPackIndexItem>>, a: int, b: int)
    requires
        0 <= a <= b,
    ensures
        layer_offset(items, a) <= layer_offset(items, b),
        a < b ==> layer_offset(items, a) + items[a].len() <= layer_offset(items, b),
    decreases b - a,
{
    if a < b {
        lemma_layer_offset_mono(items, a, b - 1);
    }
}

proof fn lemma_layer_error_stays(
    items: Seq<Seq<LayerPackIndexItem>>,
    packs: Seq<LayerPackView>,
    l: int,
    k: int,
    m: int,
)
    requires
        0 <= k <= m,
        layer_error(items, packs, l, k) is Some,
    ensures
        layer_error(items, packs, l, m) == layer_error(items, packs, l, k),
    decreases m - k,
{
    if k < m {
        lemma_layer_error_stays(items, packs, l, k, m - 1);
    }
}

proof fn lemma_link_error_stays(bytes: Seq<Seq<u8>>, packs: Seq<LayerPackView>, l: int, m: int)
    requires
        0 <= l <= m,
        link_error(bytes, packs, l) is Some,
    ensures
        link_error(bytes, packs, m) == link_error(bytes, packs, l),
    decreases m - l,
{
    if l < m {
        lemma_link_error_stays(bytes, packs, l, m - 1);
    }
}

/// Child slot `c` of node `p` is taken after the first `k` items of layer `l` exactly when one
/// of those items hangs from `p` at `c`, and it then holds that item.
proof fn lemma_children_after(
    items: Seq<Seq<LayerPackIndexItem>>,
    packs: Seq<LayerPackView>,
    l: int,
    k: int,
    p: int,
    c: int,
)
    requires
        0 <= k,
        slot(items, l, k) <= u32::MAX,
        0 <= layer_offset(items, l),
    ensures
        children_after(items, packs, l, k, p, c) != empty_id() <==> exists|j: int|
            0 <= j < k && parent_of(items, packs, l, j) == p && (#[trigger] items[l][j]).index_in_parent == c,
        children_after(items, packs, l, k, p, c) != empty_id() ==> exists|j: int|
            0 <= j < k && parent_of(items, packs, l, j) == p && (#[trigger] items[l][j]).index_in_parent == c
                && children_after(items, packs, l, k, p, c) == slot(items, l, j),
    decreases k,
{
    if k > 0 {
        lemma_children_after(items, packs, l, k - 1, p, c);
        if parent_of(items, packs, l, k - 1) == p && items[l][k - 1].index_in_parent == c {
            assert(slot(items, l, k - 1) < u32::MAX);
        }
    }
}

/// The node list holds the layers before `lk` and the first `kk` items of layer `lk`, linked.
pub open spec fn linked_upto(
    nodes: Seq<QuadTreeNode>,
    items: Seq<Seq<LayerPackIndexItem>>,
    packs: Seq<LayerPackView>,
    lk: int,
    kk: int,
) -> bool {
    &&& nodes.len() == slot(items, lk, kk)
    &&& forall|l: int, k: int|
        ((0 <= l < lk && 0 <= k < items[l].len()) || (l == lk && 0 <= k < kk)) ==> node_matches(
            #[trigger] nodes[slot(items, l, k)],
            items,
            packs,
            l,
            k,
            lk,
            kk,
        )
}

/// The corners of the items of layer `l`, each mapped to the id of the last item there.
pub open spec fn corner_index(items: Seq<Seq<LayerPackIndexItem>>, l: int) -> Map<
    (i32, i32),
    QuadTreeId,
> {
    Map::new(
        |b: (i32, i32)| last_with_base(items[l], b) >= 0,
        |b: (i32, i32)| QuadTreeId { id: slot(items, l, last_with_base(items[l], b)) as u32 },
    )
}

/// What the parent lookup holds when layer `lk` is linked: the corners of the layer above,
/// except above the first and below the finest arcsecond level.
pub open spec fn lookup_for(items: Seq<Seq<LayerPackIndexItem>>, lk: int) -> Map<
    (i32, i32),
    QuadTreeId,
> {
    if lk == 0 || lk - 1 == ARCSEC_LEVEL {
        Map::empty()
    } else {
        corner_index(items, lk - 1)
    }
}

/// Layers past the finest arcsecond level, before `lk`, hold nothing.
pub open spec fn quiet_below(items: Seq<Seq<LayerPackIndexItem>>, lk: int) -> bool {
    forall|l: int| ARCSEC_LEVEL < l < lk ==> (#[trigger] items[l]).len() == 0
}

proof fn lemma_slot_injective(items: Seq<Seq<LayerPackIndexItem>>, l1: int, k1: int, l2: int, k2: int)
    requires
        0 <= l1,
        0 <= l2,
        0 <= k1 < items[l1].len(),
        0 <= k2 < items[l2].len(),
        slot(items, l1, k1) == slot(items, l2, k2),
    ensures
        l1 == l2,
        k1 == k2,
{
    if l1 < l2 {
        lemma_layer_offset_mono(items, l1, l2);
    } else if l2 < l1 {
        lemma_layer_offset_mono(items, l2, l1);
    }
}

proof fn lemma_layer_error_none(
    items: Seq<Seq<LayerPackIndexItem>>,
    packs: Seq<LayerPackView>,
    l: int,
    k: int,
)
    requires
        layer_error(items, packs, l, k) is None,
    ensures
        forall|j: int| 0 <= j < k ==> #[trigger] item_error(items, packs, l, j) is None,
    decreases k,
{
    if k > 0 {
        lemma_layer_error_none(items, packs, l, k - 1);
    }
}

/// Linking one more item keeps the node list matching the items: the new node has no
/// children yet, and its parent gains it at its position.
proof fn lemma_link_step(
    old_nodes: Seq<QuadTreeNode>,
    new_nodes: Seq<QuadTreeNode>,
    items: Seq<Seq<LayerPackIndexItem>>,
    packs: Seq<LayerPackView>,
    lk: int,
    kk: int,
)
    requires
        linked_upto(old_nodes, items, packs, lk, kk),
        0 <= lk,
        0 <= kk < items[lk].len(),
        layer_offset(items, lk) >= 0,
        item_error(items, packs, lk, kk) is None,
        new_nodes.len() == old_nodes.len() + 1,
        new_nodes.last().span == (items[lk][kk].tile_start as usize, items[lk][kk].tile_end as usize),
        new_nodes.last().base == item_base(items[lk][kk]),
        new_nodes.last().level == lk as u8,
        forall|c: int| 0 <= c < 4 ==> (#[trigger] new_nodes.last().children[c]).id == empty_id(),
        lk == 0 ==> forall|m: int| 0 <= m < old_nodes.len() ==> new_nodes[m] == old_nodes[m],
        lk > 0 ==> {
            let p = parent_of(items, packs, lk, kk);
            let c = items[lk][kk].index_in_parent as int;
            &&& forall|m: int| 0 <= m < old_nodes.len() && m != p ==> new_nodes[m] == old_nodes[m]
            &&& new_nodes[p].span == old_nodes[p].span
            &&& new_nodes[p].base == old_nodes[p].base
            &&& new_nodes[p].level == old_nodes[p].level
            &&& forall|d: int|
                0 <= d < 4 && d != c ==> (#[trigger] new_nodes[p].children[d]) == old_nodes[p].children[d]
            &&& new_nodes[p].children[c].id == slot(items, lk, kk)
        },
    ensures
        linked_upto(new_nodes, items, packs, lk, kk + 1),
{
    let p = parent_of(items, packs, lk, kk);
    let cc = items[lk][kk].index_in_parent as int;
    assert forall|l: int, k: int|
        ((0 <= l < lk && 0 <= k < items[l].len()) || (l == lk && 0 <= k < kk + 1)) implies node_matches(
        #[trigger] new_nodes[slot(items, l, k)],
        items,
        packs,
        l,
        k,
        lk,
        kk + 1,
    ) by {
        if l < lk {
            lemma_layer_offset_mono(items, l, lk);
        }
        lemma_layer_offset_mono(items, 0, l);
        if l == lk && k == kk {
            assert(new_nodes[slot(items, l, k)] == new_nodes.last());
        } else {
            let m = slot(items, l, k);
            assert(m < old_nodes.len());
            assert(node_matches(old_nodes[m], items, packs, l, k, lk, kk));
            if lk > 0 && m == p {
                let t = items[lk][kk];
                let pc = parent_corner(t, packs[lk].angular_extent_as);
                let jp = last_with_base(items[lk - 1], corner_key(pc));
                lemma_last_with_base(items[lk - 1], corner_key(pc));
                lemma_slot_injective(items, l, k, lk - 1, jp);
                assert forall|c: int| 0 <= c < 4 implies (#[trigger] new_nodes[m].children[c]).id
                    == expected_child(items, packs, l, k, lk, kk + 1, c) by {
                    if c != cc {
                        assert(new_nodes[m].children[c] == old_nodes[m].children[c]);
                    }
                }
            } else {
                if lk > 0 {
                    assert(m != p);
                    assert(0 <= m < old_nodes.len() && m != p);
                    assert(new_nodes[m] == old_nodes[m]);
                } else {
                    assert(new_nodes[m] == old_nodes[m]);
                }
                assert forall|c: int| 0 <= c < 4 implies (#[trigger] new_nodes[m].children[c]).id
                    == expected_child(items, packs, l, k, lk, kk + 1, c) by {
                    assert(old_nodes[m].children[c].id == expected_child(items, packs, l, k, lk, kk, c));
                }
            }
        }
    }
}

/// A fully linked layer is the same as the next layer before its first item.
proof fn lemma_layer_done(
    nodes: Seq<QuadTreeNode>,
    items: Seq<Seq<LayerPackIndexItem>>,
    packs: Seq<LayerPackView>,
    lk: int,
)
    requires
        0 <= lk < items.len(),
        linked_upto(nodes, items, packs, lk, items[lk].len() as int),
    ensures
        linked_upto(nodes, items, packs, lk + 1, 0),
{
    let kk = items[lk].len() as int;
    assert forall|l: int, k: int|
        ((0 <= l < lk + 1 && 0 <= k < items[l].len()) || (l == lk + 1 && 0 <= k < 0)) implies node_matches(
        #[trigger] nodes[slot(items, l, k)],
        items,
        packs,
        l,
        k,
        lk + 1,
        0,
    ) by {
        assert(node_matches(nodes[slot(items, l, k)], items, packs, l, k, lk, kk));
        assert forall|c: int| 0 <= c < 4 implies (#[trigger] nodes[slot(items, l, k)].children[c]).id
            == expected_child(items, packs, l, k, lk + 1, 0, c) by {
            assert(nodes[slot(items, l, k)].children[c].id == expected_child(
                items,
                packs,
                l,
                k,
                lk,
                kk,
                c,
            ));
        }
    }
}

/// The tree of tiles available in a set of layer packs, with the bookkeeping of which tiles the
/// current frame asks for.
pub struct QuadTree {
    nodes: Vec<QuadTreeNode>,
    layer_packs: Vec<LayerPack>,
    votes: std::collections::BTreeMap<u32, NodeVotes>,
    additions: Vec<QuadTreeId>,
    generation: u32,
}

impl View for QuadTree {
    type V = QuadTreeView;

    closed spec fn view(&self) -> QuadTreeView {
        QuadTreeView {
            nodes: self.nodes@,
            packs: self.layer_packs@.map_values(|p: LayerPack| p@),
            votes: self.votes@,
            additions: self.additions@.map_values(|q: QuadTreeId| q.id),
            generation: self.generation,
        }
    }
}

impl QuadTree {
    /// The tree is consistent.
    pub open spec fn wf(&self) -> bool {
        tree_ok(self@)
    }

    /// Build the tree from its layers, each a layer pack with its index bytes, given in any
    /// order: sort them by level, then link the layers from the coarsest down.
    pub fn from_layer_packs(layers: Vec<(LayerPack, Vec<u8>)>) -> (r: Result<QuadTree, QuadTreeError>)
        ensures
            layers@.len() == 0 ==> r == Err::<QuadTree, QuadTreeError>(QuadTreeError::NoLayers),
            layers@.len() > 0 && !levels_exact(pack_views(layers@)) ==> r == Err::<
                QuadTree,
                QuadTreeError,
            >(QuadTreeError::LevelMismatch),
            layers@.len() > 0 && levels_exact(pack_views(layers@)) ==> {
                let ps = sorted_packs(pack_views(layers@));
                let bs = sorted_indices(pack_views(layers@), index_views(layers@));
                match r {
                    Ok(t) => {
                        &&& link_error(bs, ps, ps.len() as int) is None
                        &&& t.wf()
                        &&& t@.packs == ps
                        &&& built_nodes(t@.nodes, all_items(bs), ps)
                        &&& t@.votes.is_empty()
                        &&& t@.additions.len() == 0
                        &&& t@.generation == 0
                    },
                    Err(e) => link_error(bs, ps, ps.len() as int) == Some(e),
                }
            },
    {
        let ghost ps = pack_views(layers@);
        let ghost bsu = index_views(layers@);
        let n = layers.len();
        if n == 0 {
            return Err(QuadTreeError::NoLayers);
        }
        let mut order: Vec<usize> = Vec::new();
        let mut i: usize = 0;
        while i < n
            invariant
                0 <= i <= n,
                order@.len() == i,
                forall|l: int| 0 <= l < i ==> order@[l] == n,
            decreases n - i,
        {
            order.push(n);
            i = i + 1;
        }
        let mut j: usize = 0;
        while j < n
            invariant
                n == layers@.len(),
                ps == pack_views(layers@),
                0 <= j <= n,
                order@.len() == n,
                forall|l: int|
                    0 <= l < n ==> order@[l] == n || (order@[l] < j && ps[order@[l] as int].terrain_level
                        == l),
                forall|i: int| 0 <= i < j ==> #[trigger] ps[i].terrain_level < n && order@[ps[i].terrain_level as int] == i,
            decreases n - j,
        {
            let level = layers[j].0.terrain_level().offset();
            assert(level == ps[j as int].terrain_level);
            if level >= n || order[level] != n {
                proof {
                    if level < n {
                        let i = order@[level as int] as int;
                        assert(ps[i].terrain_level == ps[j as int].terrain_level);
                    }
                }
                return Err(QuadTreeError::LevelMismatch);
            }
            order.set(level, j);
            j = j + 1;
        }
        let mut l: usize = 0;
        while l < n
            invariant
                n == layers@.len(),
                ps == pack_views(layers@),
                0 <= l <= n,
                order@.len() == n,
                forall|m: int|
                    0 <= m < n ==> order@[m] == n || (order@[m] < n && ps[order@[m] as int].terrain_level
                        == m),
                forall|i: int| 0 <= i < n ==> #[trigger] ps[i].terrain_level < n && order@[ps[i].terrain_level as int] == i,
                forall|m: int| 0 <= m < l ==> order@[m] != n,
            decreases n - l,
        {
            if order[l] == n {
                proof {
                    if has_level(ps, l as int) {
                        let i = choose|i: int| 0 <= i < ps.len() && (#[trigger] ps[i]).terrain_level == l;
                        assert(order@[ps[i].terrain_level as int] == i);
                    }
                }
                return Err(QuadTreeError::LevelMismatch);
            }
            l = l + 1;
        }
        proof {
            assert forall|m: int| 0 <= m < ps.len() implies #[trigger] has_level(ps, m) by {
                assert(ps[order@[m] as int].terrain_level == m);
            }
            assert forall|a: int, b: int| 0 <= a < b < ps.len() implies (#[trigger] ps[a]).terrain_level
                != (#[trigger] ps[b]).terrain_level by {
                assert(order@[ps[a].terrain_level as int] == a);
                assert(order@[ps[b].terrain_level as int] == b);
            }
            assert(levels_exact(ps));
            assert forall|m: int| 0 <= m < n implies layer_position(ps, m) == order@[m] by {
                assert(has_level(ps, m));
                let q = layer_position(ps, m);
                assert(ps[order@[m] as int].terrain_level == m);
                assert(order@[ps[q].terrain_level as int] == q);
            }
        }
        let ghost sp = sorted_packs(ps);
        let ghost sb = sorted_indices(ps, bsu);
        let mut packs: Vec<LayerPack> = Vec::new();
        let mut m: usize = 0;
        while m < n
            invariant
                n == layers@.len(),
                ps == pack_views(layers@),
                sp == sorted_packs(ps),
                levels_exact(ps),
                0 <= m <= n,
                order@.len() == n,
                forall|q: int| 0 <= q < n ==> layer_position(ps, q) == order@[q],
                forall|q: int| 0 <= q < n ==> order@[q] < n,
                packs@.len() == m,
                forall|q: int| 0 <= q < m ==> (#[trigger] packs@[q])@ == sp[q],
            decreases n - m,
        {
            packs.push(layers[order[m]].0);
            m = m + 1;
        }
        assert(packs@.map_values(|p: LayerPack| p@) =~= sp);
        let mut tree = QuadTree {
            nodes: Vec::new(),
            layer_packs: packs,
            votes: std::collections::BTreeMap::new(),
            additions: Vec::new(),
            generation: 0,
        };
        let mut acc: std::collections::BTreeMap<(i32, i32), QuadTreeId> =
            std::collections::BTreeMap::new();
        proof {
            assert(tree@.packs == sp);
            assert(acc@ =~= lookup_for(all_items(sb), 0));
            assert forall|q: int| 0 <= q < sp.len() implies (#[trigger] sp[q]).terrain_level == q by {
                assert(ps[layer_position(ps, q)].terrain_level == q);
            }
        }
        let mut layer: usize = 0;
        while layer < n
            invariant
                n == layers@.len(),
                ps == pack_views(layers@),
                bsu == index_views(layers@),
                sp == sorted_packs(ps),
                sb == sorted_indices(ps, bsu),
                sb.len() == n,
                sp.len() == n,
                n > 0,
                levels_exact(ps),
                0 <= layer <= n,
                order@.len() == n,
                forall|q: int| 0 <= q < n ==> layer_position(ps, q) == order@[q],
                forall|q: int| 0 <= q < n ==> order@[q] < n,
                forall|q: int| 0 <= q < sp.len() ==> (#[trigger] sp[q]).terrain_level == q,
                tree@.packs == sp,
                tree@.votes.is_empty(),
                tree@.additions.len() == 0,
                tree@.generation == 0,
                link_error(sb, sp, layer as int) is None,
                linked_upto(tree@.nodes, all_items(sb), sp, layer as int, 0),
                links_ok(tree@.nodes, sp),
                tree@.nodes.len() <= u32::MAX,
                quiet_below(all_items(sb), layer as int),
                acc@ == lookup_for(all_items(sb), layer as int),
            decreases n - layer,
        {
            let idx = order[layer];
            assert(sb[layer as int] == layers@[idx as int].1@);
            match tree.link_layer(&mut acc, layer, layers[idx].1.as_slice(), Ghost(sb)) {
                Ok(()) => {},
                Err(e) => {
                    proof {
                        lemma_link_error_stays(sb, sp, layer + 1, n as int);
                    }
                    return Err(e);
                },
            }
            layer = layer + 1;
        }
        proof {
            assert(tree@.votes =~= Map::<u32, NodeVotes>::empty());
            assert(all_items(sb).len() == n);
            assert(built_nodes(tree@.nodes, all_items(sb), sp));
            assert(tree_ok(tree@));
        }
        Ok(tree)
    }

    /// Add the nodes of layer `layer_num`, whose index is `index_bytes`, hang each from its
    /// parent in the layer above (found by corner in `acc`), and leave in `acc` the corners of
    /// this layer for the next.
    fn link_layer(
        &mut self,
        acc: &mut std::collections::BTreeMap<(i32, i32), QuadTreeId>,
        layer_num: usize,
        index_bytes: &[u8],
        Ghost(bytes): Ghost<Seq<Seq<u8>>>,
    ) -> (r: Result<(), QuadTreeError>)
        requires
            layer_num < bytes.len(),
            bytes[layer_num as int] == index_bytes@,
            old(self)@.packs.len() == bytes.len(),
            forall|l: int| 0 <= l < old(self)@.packs.len() ==> (#[trigger] old(self)@.packs[l]).terrain_level == l,
            link_error(bytes, old(self)@.packs, layer_num as int) is None,
            linked_upto(old(self)@.nodes, all_items(bytes), old(self)@.packs, layer_num as int, 0),
            links_ok(old(self)@.nodes, old(self)@.packs),
            old(self)@.nodes.len() <= u32::MAX,
            quiet_below(all_items(bytes), layer_num as int),
            old(acc)@ == lookup_for(all_items(bytes), layer_num as int),
        ensures
            final(self)@.packs == old(self)@.packs,
            final(self)@.votes == old(self)@.votes,
            final(self)@.additions == old(self)@.additions,
            final(self)@.generation == old(self)@.generation,
            match r {
                Ok(()) => {
                    &&& link_error(bytes, old(self)@.packs, layer_num + 1) is None
                    &&& linked_upto(
                        final(self)@.nodes,
                        all_items(bytes),
                        old(self)@.packs,
                        layer_num + 1,
                        0,
                    )
                    &&& links_ok(final(self)@.nodes, old(self)@.packs)
                    &&& final(self)@.nodes.len() <= u32::MAX
                    &&& quiet_below(all_items(bytes), layer_num + 1)
                    &&& final(acc)@ == lookup_for(all_items(bytes), layer_num + 1)
                },
                Err(e) => link_error(bytes, old(self)@.packs, layer_num + 1) == Some(e),
            },
    {
        let ghost items = all_items(bytes);
        let ghost packs = self@.packs;
        let ghost lk = layer_num as int;
        let extent = self.layer_packs[layer_num].angular_extent_as();
        let id_update_cursor = self.nodes.len();
        let raw_index = match LayerPackIndexItem::overlay_slice(index_bytes) {
            Ok(v) => v,
            Err(_) => {
                return Err(QuadTreeError::IndexSize);
            },
        };
        assert(raw_index@ =~= items[lk]);
        proof {
            lemma_layer_offset_mono(items, 0, lk);
        }
        let mut k: usize = 0;
        while k < raw_index.len()
            invariant
                0 <= k <= raw_index@.len(),
                raw_index@ == items[lk],
                items == all_items(bytes),
                lk == layer_num,
                lk < bytes.len(),
                bytes[lk].len() % 28 == 0,
                extent == packs[lk].angular_extent_as,
                packs.len() == bytes.len(),
                forall|l: int| 0 <= l < packs.len() ==> (#[trigger] packs[l]).terrain_level == l,
                self@.packs == packs,
                packs == old(self)@.packs,
                self@.votes == old(self)@.votes,
                self@.additions == old(self)@.additions,
                self@.generation == old(self)@.generation,
                self.layer_packs@.len() == packs.len(),
                id_update_cursor == layer_offset(items, lk),
                layer_offset(items, lk) >= 0,
                link_error(bytes, packs, lk) is None,
                layer_error(items, packs, lk, k as int) is None,
                linked_upto(self@.nodes, items, packs, lk, k as int),
                links_ok(self@.nodes, packs),
                self@.nodes.len() <= u32::MAX,
                quiet_below(items, lk),
                k > 0 ==> lk <= ARCSEC_LEVEL,
                acc@ == lookup_for(items, lk),
            decreases raw_index@.len() - k,
        {
            let item = raw_index[k];
            let ghost kk = k as int;
            let ghost t = items[lk][kk];
            assert(item == t);
            proof {
                lemma_layer_error_none(items, packs, lk, kk);
            }
            let base = (item.base_lat_as, item.base_lon_as);
            if self.nodes.len() >= 4294967295usize {
                proof {
                    assert(item_error(items, packs, lk, kk) == Some(QuadTreeError::TooManyNodes));
                    lemma_layer_error_stays(items, packs, lk, kk + 1, items[lk].len() as int);
                }
                return Err(QuadTreeError::TooManyNodes);
            }
            if item.index_in_parent > 3 {
                proof {
                    assert(item_error(items, packs, lk, kk) == Some(QuadTreeError::BadChildIndex));
                    lemma_layer_error_stays(items, packs, lk, kk + 1, items[lk].len() as int);
                }
                return Err(QuadTreeError::BadChildIndex);
            }
            let c = item.index_in_parent as usize;
            let ghost pc = parent_corner(t, extent as int);
            let mut parent: Option<usize> = None;
            if layer_num != 0 {
                let lat_off: i64 = if c >= 2 {
                    extent as i64
                } else {
                    0
                };
                let lon_off: i64 = if c % 2 == 1 {
                    extent as i64
                } else {
                    0
                };
                let plat = base.0 as i64 - lat_off;
                let plon = base.1 as i64 - lon_off;
                assert(plat == pc.0 && plon == pc.1);
                if plat < -2147483648i64 || plat > 2147483647i64 || plon < -2147483648i64 || plon
                    > 2147483647i64 {
                    proof {
                        assert(item_error(items, packs, lk, kk) == Some(QuadTreeError::MissingParent));
                        lemma_layer_error_stays(items, packs, lk, kk + 1, items[lk].len() as int);
                    }
                    return Err(QuadTreeError::MissingParent);
                }
                let key = (plat as i32, plon as i32);
                assert(key == corner_key(pc));
                proof {
                    lemma_last_with_base(items[lk - 1], key);
                }
                match acc.get(&key) {
                    None => {
                        proof {
                            assert(item_error(items, packs, lk, kk) == Some(QuadTreeError::MissingParent));
                            lemma_layer_error_stays(items, packs, lk, kk + 1, items[lk].len() as int);
                        }
                        return Err(QuadTreeError::MissingParent);
                    },
                    Some(pid) => {
                        let ghost jp = last_with_base(items[lk - 1], key);
                        assert(lk - 1 != ARCSEC_LEVEL);
                        assert(jp >= 0);
                        proof {
                            lemma_layer_offset_mono(items, lk - 1, lk);
                            lemma_layer_offset_mono(items, 0, lk - 1);
                        }
                        assert(acc@.contains_key(key) && acc@[key] == *pid);
                        assert(pid.id == slot(items, lk - 1, jp));
                        let p = pid.offset();
                        assert(p == parent_of(items, packs, lk, kk));
                        assert(node_matches(self@.nodes[slot(items, lk - 1, jp)], items, packs, lk - 1, jp, lk, kk));
                        let taken = !self.nodes[p].children[c].is_empty();
                        proof {
                            lemma_children_after(items, packs, lk, kk, p as int, c as int);
                            assert(self@.nodes[p as int].children[c as int].id == children_after(
                                items,
                                packs,
                                lk,
                                kk,
                                p as int,
                                c as int,
                            ));
                            let dup = exists|j: int|
                                0 <= j < kk && (#[trigger] items[lk][j]).index_in_parent
                                    == t.index_in_parent && parent_corner(items[lk][j], extent as int) == pc;
                            if dup {
                                let j = choose|j: int|
                                    0 <= j < kk && (#[trigger] items[lk][j]).index_in_parent
                                        == t.index_in_parent && parent_corner(items[lk][j], extent as int) == pc;
                                assert(parent_of(items, packs, lk, j) == p);
                                assert(taken);
                            }
                            if taken {
                                let j = choose|j: int|
                                    0 <= j < kk && parent_of(items, packs, lk, j) == p && (
                                    #[trigger] items[lk][j]).index_in_parent == c;
                                assert(item_error(items, packs, lk, j) is None);
                                let pcj = parent_corner(items[lk][j], extent as int);
                                let jj = last_with_base(items[lk - 1], corner_key(pcj));
                                lemma_last_with_base(items[lk - 1], corner_key(pcj));
                                lemma_slot_injective(items, lk - 1, jj, lk - 1, jp);
                                assert(corner_key(pcj) == corner_key(pc));
                                assert(pcj == pc);
                                assert(dup);
                            }
                        }
                        if taken {
                            proof {
                                assert(item_error(items, packs, lk, kk) == Some(QuadTreeError::DuplicateChild));
                                lemma_layer_error_stays(items, packs, lk, kk + 1, items[lk].len() as int);
                            }
                            return Err(QuadTreeError::DuplicateChild);
                        }
                        parent = Some(p);
                    },
                }
            }
            assert(item_error(items, packs, lk, kk) is None);
            assert(lk <= ARCSEC_LEVEL) by {
                if lk > ARCSEC_LEVEL {
                    assert(items[lk - 1].len() == 0);
                }
            }
            let ghost old_nodes = self@.nodes;
            let id = QuadTreeId::new(self.nodes.len());
            let e = QuadTreeId::empty();
            self.nodes.push(
                QuadTreeNode {
                    span: (item.tile_start as usize, item.tile_end as usize),
                    children: [e, e, e, e],
                    base,
                    level: layer_num as u8,
                },
            );
            let ghost pushed = self@.nodes;
            match parent {
                Some(p) => {
                    let mut pn = self.nodes[p];
                    pn.children[c] = id;
                    self.nodes.set(p, pn);
                },
                None => {},
            }
            proof {
                assert(self@.nodes.last() == pushed.last());
                lemma_link_step(old_nodes, self@.nodes, items, packs, lk, kk);
            }
            k = k + 1;
        }
        proof {
            lemma_layer_done(self@.nodes, items, packs, lk);
        }
        acc.clear();
        if layer_num != 12 {
            let mut j: usize = 0;
            while j < raw_index.len()
                invariant
                    0 <= j <= raw_index@.len(),
                    raw_index@ == items[lk],
                    id_update_cursor == layer_offset(items, lk),
                    layer_offset(items, lk) + items[lk].len() <= u32::MAX,
                    acc@ == Map::new(
                        |b: (i32, i32)| last_with_base(items[lk].take(j as int), b) >= 0,
                        |b: (i32, i32)|
                            QuadTreeId {
                                id: slot(items, lk, last_with_base(items[lk].take(j as int), b)) as u32,
                            },
                    ),
                decreases raw_index@.len() - j,
            {
                let t = raw_index[j];
                let id = QuadTreeId::new(id_update_cursor + j);
                acc.insert((t.base_lat_as, t.base_lon_as), id);
                proof {
                    assert(items[lk].take(j + 1) =~= items[lk].take(j as int).push(t));
                    assert forall|b: (i32, i32)| #[trigger] last_with_base(items[lk].take(j + 1), b)
                        == if item_base(t) == b {
                        j as int
                    } else {
                        last_with_base(items[lk].take(j as int), b)
                    } by {
                        lemma_last_with_base_push(items[lk].take(j as int), t, b);
                    }
                    lemma_last_with_base(items[lk].take(j as int), item_base(t));
                }
                assert(acc@ =~= Map::new(
                    |b: (i32, i32)| last_with_base(items[lk].take(j + 1), b) >= 0,
                    |b: (i32, i32)|
                        QuadTreeId { id: slot(items, lk, last_with_base(items[lk].take(j + 1), b)) as u32 },
                ));
                j = j + 1;
            }
            assert(items[lk].take(j as int) =~= items[lk]);
            assert(acc@ =~= lookup_for(items, lk + 1));
        } else {
            assert(acc@ =~= lookup_for(items, lk + 1));
        }
        proof {
            assert forall|l: int| ARCSEC_LEVEL < l < lk + 1 implies (#[trigger] items[l]).len() == 0 by {
                if l == lk && items[lk].len() > 0 {
                    assert(lk <= ARCSEC_LEVEL);
                }
            }
        }
        Ok(())
    }

    /// Number of nodes.
    pub fn node_count(&self) -> (r: usize)
        ensures
            r == self@.nodes.len(),
    {
        self.nodes.len()
    }

    /// How the tiles of node `id` are stored.
    pub fn tile_compression(&self, id: &QuadTreeId) -> (r: TileCompression)
        requires
            self.wf(),
            id.id < self@.nodes.len(),
        ensures
            r == self@.packs[self@.nodes[id.id as int].level as int].tile_compression,
    {
        let level = self.nodes[id.offset()].level as usize;
        self.layer_packs[level].tile_compression()
    }

    /// The file holding node `id`.
    pub fn file_id(&self, id: &QuadTreeId) -> (r: usize)
        requires
            self.wf(),
            id.id < self@.nodes.len(),
        ensures
            r == self@.packs[self@.nodes[id.id as int].level as int].file_id,
    {
        let level = self.nodes[id.offset()].level as usize;
        self.layer_packs[level].file_id()
    }

    /// The bytes of node `id` in its file, as (start, end).
    pub fn file_extent(&self, id: &QuadTreeId) -> (r: (usize, usize))
        requires
            id.id < self@.nodes.len(),
        ensures
            r == self@.nodes[id.id as int].span,
    {
        self.nodes[id.offset()].span
    }

    /// The south-west corner of node `id`, as (latitude, longitude) in arcseconds.
    pub fn base(&self, id: &QuadTreeId) -> (r: (i32, i32))
        requires
            id.id < self@.nodes.len(),
        ensures
            r == self@.nodes[id.id as int].base,
    {
        self.nodes[id.offset()].base
    }

    /// The level of node `id`.
    pub fn level(&self, id: &QuadTreeId) -> (r: u8)
        requires
            id.id < self@.nodes.len(),
        ensures
            r == self@.nodes[id.id as int].level,
    {
        self.nodes[id.offset()].level
    }

    /// The width and height of node `id` in arcseconds.
    pub fn angular_extent_as(&self, id: &QuadTreeId) -> (r: i32)
        requires
            self.wf(),
            id.id < self@.nodes.len(),
        ensures
            r == node_extent(self@, id.id as int),
    {
        let level = self.nodes[id.offset()].level as usize;
        self.layer_packs[level].angular_extent_as()
    }

    /// The box covered by node `id`, from its corner to its corner plus its extent; `None`
    /// where the far corner does not fit in 32 bits.
    pub fn aabb_as(&self, id: &QuadTreeId) -> (r: Option<Aabb2>)
        requires
            self.wf(),
            id.id < self@.nodes.len(),
        ensures
            ({
                let n = self@.nodes[id.id as int];
                let e = node_extent(self@, id.id as int);
                let fits = i32::MIN <= n.base.0 + e <= i32::MAX && i32::MIN <= n.base.1 + e
                    <= i32::MAX;
                match r {
                    Some(b) => fits && b.lo == n.base && b.hi.0 == n.base.0 + e && b.hi.1
                        == n.base.1 + e,
                    None => !fits,
                }
            }),
    {
        let extent = self.angular_extent_as(id);
        let node = self.nodes[id.offset()];
        let hi0 = node.base.0 as i64 + extent as i64;
        let hi1 = node.base.1 as i64 + extent as i64;
        if hi0 < i32::MIN as i64 || hi0 > i32::MAX as i64 || hi1 < i32::MIN as i64 || hi1
            > i32::MAX as i64 {
            return None;
        }
        Some(Aabb2::new(node.base, (hi0 as i32, hi1 as i32)))
    }

    /// Start a frame: bump the generation and forget the additions of the last one.
    pub fn begin_update(&mut self)
        requires
            old(self).wf(),
        ensures
            final(self).wf(),
            final(self)@.nodes == old(self)@.nodes,
            final(self)@.packs == old(self)@.packs,
            final(self)@.votes == old(self)@.votes,
            final(self)@.additions.len() == 0,
            final(self)@.generation == old(self)@.generation.wrapping_add(1),
    {
        self.generation = self.generation.wrapping_add(1);
        self.additions.clear();
        assert(self@.additions =~= Seq::<u32>::empty());
        assert(self@.nodes == old(self)@.nodes);
        assert(self@.packs == old(self)@.packs);
        assert(self@.votes == old(self)@.votes);
    }

    /// Ask for node `id` and, unless it is narrower than `stop_extent`, for each child whose
    /// box meets `window`, recursively.
    fn visit_required_node(&mut self, id: QuadTreeId, window: &Aabb2, stop_extent: i64)
        requires
            old(self).wf(),
            id.id < old(self)@.nodes.len(),
        ensures
            final(self).wf(),
            final(self)@ == voted(
                old(self)@,
                visit_order(
                    old(self)@.nodes,
                    old(self)@.packs,
                    id.id,
                    *window,
                    stop_extent as int,
                    (old(self)@.packs.len() - old(self)@.nodes[id.id as int].level) as nat,
                ),
            ),
        decreases old(self)@.packs.len() - old(self)@.nodes[id.id as int].level,
    {
        let ghost v0 = self@;
        let ghost depth = (v0.packs.len() - v0.nodes[id.id as int].level) as nat;
        let prev = match self.votes.get(&id.id) {
            Some(nv) => Some(*nv),
            None => None,
        };
        let before = match prev {
            Some(nv) => nv.votes,
            None => {
                self.additions.push(id);
                0
            },
        };
        self.votes.insert(id.id, NodeVotes { votes: before.wrapping_add(1), generation: self.generation });
        proof {
            let w = vote(v0, id.id);
            assert(self@.additions =~= w.additions);
            assert(self@.votes =~= w.votes);
            assert(voted(v0, seq![id.id]) == w) by {
                assert(seq![id.id].drop_last() =~= Seq::<u32>::empty());
                reveal_with_fuel(voted, 2);
            }
            assert forall|i: int|
                0 <= i < self@.additions.len() implies self@.votes.contains_key(
                #[trigger] self@.additions[i],
            ) by {
                if i < v0.additions.len() {
                    assert(self@.additions[i] == v0.additions[i]);
                }
            }
        }
        let extent = self.angular_extent_as(&id);
        if (extent as i64) < stop_extent {
            assert(visit_order(v0.nodes, v0.packs, id.id, *window, stop_extent as int, depth)
                =~= seq![id.id]);
            return ;
        }
        let children = self.nodes[id.offset()].children;
        let mut c: usize = 0;
        while c < 4
            invariant
                0 <= c <= 4,
                old(self)@ == v0,
                self.wf(),
                self@.nodes == v0.nodes,
                self@.packs == v0.packs,
                tree_ok(v0),
                id.id < v0.nodes.len(),
                depth == v0.packs.len() - v0.nodes[id.id as int].level,
                children == v0.nodes[id.id as int].children,
                self@ == voted(
                    v0,
                    seq![id.id] + kids_visit_order(
                        v0.nodes,
                        v0.packs,
                        id.id,
                        *window,
                        stop_extent as int,
                        (depth - 1) as nat,
                        c as int,
                    ),
                ),
            decreases 4 - c,
        {
            let child = children[c];
            let ghost before_kids = kids_visit_order(
                v0.nodes,
                v0.packs,
                id.id,
                *window,
                stop_extent as int,
                (depth - 1) as nat,
                c as int,
            );
            if !child.is_empty() {
                let k = child.offset();
                assert(v0.nodes[id.id as int].children[c as int] == child);
                assert(v0.nodes[id.id as int].children[c as int].id != empty_id());
                assert(v0.nodes[k as int].level == v0.nodes[id.id as int].level + 1);
                let cb = self.nodes[k].base;
                let ce = self.angular_extent_as(&child) as i64;
                let meets = cb.0 as i64 <= window.hi.0 as i64 && window.lo.0 as i64
                    <= cb.0 as i64 + ce && cb.1 as i64 <= window.hi.1 as i64 && window.lo.1 as i64
                    <= cb.1 as i64 + ce;
                if meets {
                    assert(child_visited(v0.nodes, v0.packs, id.id, c as int, *window));
                    let ghost mid = self@;
                    assert(mid.packs.len() - mid.nodes[child.id as int].level < v0.packs.len()
                        - v0.nodes[id.id as int].level);
                    assert(0 <= mid.packs.len() - mid.nodes[child.id as int].level);
                    self.visit_required_node(child, window, stop_extent);
                    proof {
                        lemma_voted_keeps_tree(
                            mid,
                            visit_order(
                                v0.nodes,
                                v0.packs,
                                child.id,
                                *window,
                                stop_extent as int,
                                (depth - 1) as nat,
                            ),
                        );
                        let sub = visit_order(
                            v0.nodes,
                            v0.packs,
                            child.id,
                            *window,
                            stop_extent as int,
                            (depth - 1) as nat,
                        );
                        lemma_voted_append(v0, seq![id.id] + before_kids, sub);
                        assert(seq![id.id] + before_kids + sub =~= seq![id.id] + kids_visit_order(
                            v0.nodes,
                            v0.packs,
                            id.id,
                            *window,
                            stop_extent as int,
                            (depth - 1) as nat,
                            c + 1,
                        ));
                    }
                } else {
                    assert(!child_visited(v0.nodes, v0.packs, id.id, c as int, *window));
                    assert(kids_visit_order(
                        v0.nodes,
                        v0.packs,
                        id.id,
                        *window,
                        stop_extent as int,
                        (depth - 1) as nat,
                        c + 1,
                    ) =~= before_kids);
                }
            } else {
                assert(kids_visit_order(
                    v0.nodes,
                    v0.packs,
                    id.id,
                    *window,
                    stop_extent as int,
                    (depth - 1) as nat,
                    c + 1,
                ) =~= before_kids);
            }
            c = c + 1;
        }
    }

    /// Ask for the tiles that cover `window`, from the root down to the first level narrower
    /// than `stop_extent` arcseconds; each node asked for gets one vote.
    pub fn note_required(&mut self, window: &Aabb2, stop_extent: i64)
        requires
            old(self).wf(),
            old(self)@.nodes.len() > 0,
        ensures
            final(self).wf(),
            final(self)@ == voted(
                old(self)@,
                visit_order(
                    old(self)@.nodes,
                    old(self)@.packs,
                    0,
                    *window,
                    stop_extent as int,
                    (old(self)@.packs.len() - old(self)@.nodes[0].level) as nat,
                ),
            ),
    {
        let root = QuadTreeId::new(0);
        self.visit_required_node(root, window, stop_extent);
    }

    /// End a frame: report the nodes first asked for in it (with their votes) and the nodes
    /// not asked for in it (in increasing id order), and forget the latter.
    pub fn finish_update(
        &mut self,
        additions: &mut Vec<(u32, QuadTreeId)>,
        removals: &mut Vec<QuadTreeId>,
    )
        requires
            old(self).wf(),
        ensures
            final(self).wf(),
            final(self)@.nodes == old(self)@.nodes,
            final(self)@.packs == old(self)@.packs,
            final(self)@.generation == old(self)@.generation,
            final(self)@.additions.len() == 0,
            final(self)@.votes == kept_votes(old(self)@),
            final(additions)@ == old(additions)@ + reported_additions(old(self)@),
            final(removals)@.len() >= old(removals)@.len(),
            final(removals)@.take(old(removals)@.len() as int) == old(removals)@,
            lists_stale(old(self)@, final(removals)@.skip(old(removals)@.len() as int)),
    {
        let ghost v = self@;
        let ghost adds0 = additions@;
        let ghost rems0 = removals@;
        let mut i: usize = 0;
        while i < self.additions.len()
            invariant
                self@ == v,
                tree_ok(v),
                0 <= i <= self.additions.len(),
                self.additions@.len() == v.additions.len(),
                additions@ == adds0 + reported_additions(v).take(i as int),
            decreases self.additions.len() - i,
        {
            let q = self.additions[i];
            assert(v.additions[i as int] == q.id);
            match self.votes.get(&q.id) {
                Some(nv) => {
                    additions.push((nv.votes, q));
                },
                None => {
                    assert(false);
                },
            }
            assert(reported_additions(v).take(i + 1) =~= reported_additions(v).take(i as int).push(
                (v.votes[q.id].votes, q),
            ));
            i = i + 1;
        }
        assert(reported_additions(v).take(i as int) =~= reported_additions(v));
        self.additions.clear();
        let mut stale: Vec<u32> = Vec::new();
        let m = &self.votes;
        let generation = self.generation;
        let ghost walk = vstd::std_specs::btree::spec_btree_map_iter(m).remaining();
        let ghost mut done: int = 0;
        for (k, nv) in it: m.iter()
            invariant
                done == it.index(),
                walk == it.seq(),
                m@ == v.votes,
                generation == v.generation,
                it.seq() == vstd::std_specs::btree::spec_btree_map_iter(m).remaining(),
                vstd::std_specs::btree::increasing_seq(
                    it.seq().map_values(|kv: (&u32, &NodeVotes)| *kv.0),
                ),
                removals@.len() == rems0.len() + stale@.len(),
                removals@.take(rems0.len() as int) == rems0,
                forall|i: int|
                    0 <= i < stale@.len() ==> removals@[rems0.len() + i].id == #[trigger] stale@[i],
                forall|i: int| 0 <= i < stale@.len() ==> is_stale(v, #[trigger] stale@[i]),
                forall|i: int, j: int|
                    0 <= i < stale@.len() && it.index() <= j < it.seq().len() ==> #[trigger] stale@[i]
                        < *(#[trigger] it.seq()[j]).0,
                forall|j: int|
                    0 <= j < it.index() && is_stale(v, *(#[trigger] it.seq()[j]).0) ==> exists|i: int|
                        0 <= i < stale@.len() && stale@[i] == *it.seq()[j].0,
                forall|i: int, j: int| 0 <= i < j < stale@.len() ==> stale@[i] < stale@[j],
        {
            let ghost idx = it.index() as int;
            proof {
                lemma_vote_keys_increase(m, it.seq());
            }
            assert(*k == *it.seq()[idx].0);
            assert(*nv == *it.seq()[idx].1);
            assert(m@.contains_key(*k) && m@[*k] == *nv);
            let ghost stale_old = stale@;
            if nv.generation != generation {
                stale.push(*k);
                removals.push(QuadTreeId { id: *k });
                proof {
                    assert(removals@.take(rems0.len() as int) =~= rems0);
                    assert forall|j: int|
                        0 <= j < idx + 1 && is_stale(v, *(#[trigger] it.seq()[j]).0) implies exists|
                            i: int,
                        | 0 <= i < stale@.len() && stale@[i] == *it.seq()[j].0 by {
                        if j == idx {
                            assert(stale@[stale@.len() - 1] == *it.seq()[j].0);
                        } else {
                            let i = choose|i: int|
                                0 <= i < stale_old.len() && stale_old[i] == *it.seq()[j].0;
                            assert(stale@[i] == stale_old[i]);
                        }
                    }
                }
            }
            proof {
                done = idx + 1;
            }
        }
        proof {
            let r = removals@.skip(rems0.len() as int);
            assert forall|q: u32| #[trigger] is_stale(v, q) implies exists|i: int|
                0 <= i < r.len() && r[i].id == q by {
                assert(done == walk.len());
                assert(m@.contains_key(q));
                assert(walk.contains((&q, &m@[q])));
                let j = choose|j: int| 0 <= j < walk.len() && walk[j] == (&q, &m@[q]);
                assert(*walk[j].0 == q);
                let i = choose|i: int| 0 <= i < stale@.len() && stale@[i] == *walk[j].0;
                assert(r[i] == removals@[rems0.len() + i]);
            }
            assert forall|i: int| 0 <= i < r.len() implies is_stale(v, (#[trigger] r[i]).id) by {
                assert(r[i] == removals@[rems0.len() + i]);
                assert(stale@[i] == r[i].id);
            }
            assert forall|i: int, j: int| 0 <= i < j < r.len() implies (#[trigger] r[i]).id < (
            #[trigger] r[j]).id by {
                assert(r[i] == removals@[rems0.len() + i]);
                assert(r[j] == removals@[rems0.len() + j]);
                assert(stale@[i] == r[i].id);
                assert(stale@[j] == r[j].id);
            }
        }
        let mut j: usize = 0;
        while j < stale.len()
            invariant
                0 <= j <= stale@.len(),
                self.generation == v.generation,
                self.nodes@ == v.nodes,
                self@.packs == v.packs,
                self.additions@.len() == 0,
                forall|i: int| 0 <= i < stale@.len() ==> is_stale(v, #[trigger] stale@[i]),
                forall|q: u32| #[trigger] is_stale(v, q) ==> exists|i: int|
                    0 <= i < stale@.len() && stale@[i] == q,
                self.votes@ == Map::new(
                    |q: u32| v.votes.contains_key(q) && !in_prefix(stale@, j as int, q),
                    |q: u32| v.votes[q],
                ),
            decreases stale.len() - j,
        {
            let q = stale[j];
            self.votes.remove(&q);
            assert(self.votes@ =~= Map::new(
                |x: u32| v.votes.contains_key(x) && !in_prefix(stale@, j + 1, x),
                |x: u32| v.votes[x],
            )) by {
                assert forall|x: u32| #[trigger] in_prefix(stale@, j + 1, x) <==> (in_prefix(
                    stale@,
                    j as int,
                    x,
                ) || x == q) by {
                    if x == q {
                        assert(stale@[j as int] == x);
                    }
                    if in_prefix(stale@, j + 1, x) && x != q {
                        let i = choose|i: int| 0 <= i < j + 1 && stale@[i] == x;
                        assert(i < j);
                    }
                }
            }
            j = j + 1;
        }
        assert(self.votes@ =~= kept_votes(v)) by {
            assert forall|x: u32| #[trigger] in_prefix(stale@, j as int, x) <==> is_stale(v, x) by {
                if in_prefix(stale@, j as int, x) {
                    let i = choose|i: int| 0 <= i < j && stale@[i] == x;
                    assert(is_stale(v, stale@[i]));
                }
                if is_stale(v, x) {
                    let i = choose|i: int| 0 <= i < stale@.len() && stale@[i] == x;
                }
            }
        }
        assert(self@.additions =~= Seq::<u32>::empty());
        assert(self@.nodes == v.nodes);
    }
}

} // verus!
