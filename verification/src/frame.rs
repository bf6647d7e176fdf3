//! How one frame of tile bookkeeping fits together: the quad tree collects the votes of the
//! frame, reports the nodes that came into and went out of view, and the tile cache applies
//! those changes. The laws here say what a frame reports, and that the cache keeps tracking
//! exactly the nodes the tree tracks.
use vstd::prelude::*;
use crate::quad_tree::{
    NodeVotes, QuadTreeId, QuadTreeView, voted, vote, reported_additions, lists_stale, kept_votes, is_stale,
};
use crate::tile_cache::{CacheView, allocated_all, deallocated_all, allocated, deallocated};

verus! {

/// Voting through a frame: every node voted for carries the frame's generation, the others keep
/// their votes, and the additions are the voted nodes that were not known before, each once.
pub proof fn lemma_voted_frame(t0: QuadTreeView, s: Seq<u32>)
    requires
        t0.additions.len() == 0,
    ensures
        voted(t0, s).generation == t0.generation,
        forall|q: u32| #[trigger]
            voted(t0, s).votes.contains_key(q) <==> (t0.votes.contains_key(q) || s.contains(q)),
        forall|q: u32|
            s.contains(q) ==> (#[trigger] voted(t0, s).votes[q]).generation == t0.generation,
        forall|q: u32|
            t0.votes.contains_key(q) && !s.contains(q) ==> #[trigger] voted(t0, s).votes[q]
                == t0.votes[q],
        voted(t0, s).additions.no_duplicates(),
        forall|q: u32| #[trigger]
            voted(t0, s).additions.contains(q) <==> (s.contains(q) && !t0.votes.contains_key(q)),
    decreases s.len(),
{
    if s.len() > 0 {
        let p = s.drop_last();
        let x = s.last();
        lemma_voted_frame(t0, p);
        let tp = voted(t0, p);
        let t1 = voted(t0, s);
        assert(t1 == vote(tp, x));
        assert forall|q: u32| s.contains(q) <==> (p.contains(q) || q == x) by {
            if s.contains(q) {
                let i = choose|i: int| 0 <= i < s.len() && s[i] == q;
                if i < s.len() - 1 {
                    assert(p[i] == q);
                }
            }
            if p.contains(q) {
                let i = choose|i: int| 0 <= i < p.len() && p[i] == q;
                assert(s[i] == q);
            }
            if q == x {
                assert(s[s.len() - 1] == q);
            }
        }
        if !tp.votes.contains_key(x) {
            assert forall|q: u32| #[trigger] t1.additions.contains(q) <==> (tp.additions.contains(q)
                || q == x) by {
                if t1.additions.contains(q) {
                    let i = choose|i: int| 0 <= i < t1.additions.len() && t1.additions[i] == q;
                    if i < tp.additions.len() {
                        assert(tp.additions[i] == q);
                    }
                }
                if tp.additions.contains(q) {
                    let i = choose|i: int| 0 <= i < tp.additions.len() && tp.additions[i] == q;
                    assert(t1.additions[i] == q);
                }
                if q == x {
                    assert(t1.additions[tp.additions.len() as int] == q);
                }
            }
            assert(!tp.additions.contains(x));
            assert forall|i: int, j: int|
                0 <= i < t1.additions.len() && 0 <= j < t1.additions.len() && i != j implies t1.additions[i]
                != t1.additions[j] by {
                if i == tp.additions.len() {
                    assert(tp.additions.contains(t1.additions[j]));
                } else if j == tp.additions.len() {
                    assert(tp.additions.contains(t1.additions[i]));
                }
            }
        }
    }
}

/// The keys a run of departures leaves: those that were there and did not depart.
pub proof fn lemma_deallocated_keys(c: CacheView, rs: Seq<u32>)
    ensures
        forall|q: u32| #[trigger]
            deallocated_all(c, rs).states.contains_key(q) <==> (c.states.contains_key(q)
                && !rs.contains(q)),
    decreases rs.len(),
{
    if rs.len() > 0 {
        let p = rs.drop_last();
        lemma_deallocated_keys(c, p);
        assert forall|q: u32| rs.contains(q) <==> (p.contains(q) || q == rs.last()) by {
            if rs.contains(q) {
                let i = choose|i: int| 0 <= i < rs.len() && rs[i] == q;
                if i < rs.len() - 1 {
                    assert(p[i] == q);
                }
            }
            if p.contains(q) {
                let i = choose|i: int| 0 <= i < p.len() && p[i] == q;
                assert(rs[i] == q);
            }
            if q == rs.last() {
                assert(rs[rs.len() - 1] == q);
            }
        }
        let d = deallocated_all(c, p);
        assert(deallocated_all(c, rs) == deallocated(d, rs.last()));
    }
}

/// Node `q` is among the arrivals.
pub open spec fn arrives(adds: Seq<(u32, u32)>, q: u32) -> bool {
    exists|i: int| 0 <= i < adds.len() && adds[i].1 == q
}

/// The keys a run of arrivals leaves: those that were there and those that arrived.
pub proof fn lemma_allocated_keys(c: CacheView, adds: Seq<(u32, u32)>)
    ensures
        forall|q: u32| #[trigger]
            allocated_all(c, adds).states.contains_key(q) <==> (c.states.contains_key(q)
                || arrives(adds, q)),
    decreases adds.len(),
{
    if adds.len() > 0 {
        let p = adds.drop_last();
        lemma_allocated_keys(c, p);
        let a = adds.last();
        assert(allocated_all(c, adds) == allocated(allocated_all(c, p), a.0, a.1));
        assert forall|q: u32| #[trigger] arrives(adds, q) <==> (arrives(p, q) || q == a.1) by {
            if exists|i: int| 0 <= i < adds.len() && adds[i].1 == q {
                let i = choose|i: int| 0 <= i < adds.len() && adds[i].1 == q;
                if i < adds.len() - 1 {
                    assert(p[i].1 == q);
                }
            }
            if exists|i: int| 0 <= i < p.len() && p[i].1 == q {
                let i = choose|i: int| 0 <= i < p.len() && p[i].1 == q;
                assert(adds[i].1 == q);
            }
            if q == a.1 {
                assert(adds[adds.len() - 1].1 == q);
            }
        }
    }
}

/// How often node `q` occurs in `s`.
pub open spec fn visits(s: Seq<u32>, q: u32) -> nat
    decreases s.len(),
{
    if s.len() == 0 {
        0
    } else {
        visits(s.drop_last(), q) + if s.last() == q {
            1nat
        } else {
            0nat
        }
    }
}

/// The nodes of `s` without votes in `known`, each once, in the order they first occur.
pub open spec fn first_seen(known: Map<u32, NodeVotes>, s: Seq<u32>) -> Seq<u32>
    decreases s.len(),
{
    if s.len() == 0 {
        Seq::empty()
    } else {
        let p = s.drop_last();
        let x = s.last();
        if known.contains_key(x) || p.contains(x) {
            first_seen(known, p)
        } else {
            first_seen(known, p).push(x)
        }
    }
}

/// What voting through a frame records: the nodes first asked for, in the order they were first
/// asked for, and for each node asked for its votes before the frame plus the number of times it
/// was asked for (wrapping at the width of the count).
pub proof fn lemma_votes_counted(t0: QuadTreeView, s: Seq<u32>)
    requires
        t0.additions.len() == 0,
    ensures
        voted(t0, s).additions == first_seen(t0.votes, s),
        forall|q: u32| !s.contains(q) ==> visits(s, q) == 0,
        forall|q: u32|
            s.contains(q) ==> (#[trigger] voted(t0, s).votes[q]).votes as int == ((if t0.votes.contains_key(
                q,
            ) {
                t0.votes[q].votes as int
            } else {
                0
            }) + visits(s, q)) % 0x1_0000_0000,
    decreases s.len(),
{
    if s.len() > 0 {
        let p = s.drop_last();
        let x = s.last();
        lemma_votes_counted(t0, p);
        lemma_voted_frame(t0, p);
        let tp = voted(t0, p);
        let t1 = voted(t0, s);
        assert(t1 == vote(tp, x));
        assert forall|q: u32| s.contains(q) <==> (p.contains(q) || q == x) by {
            if s.contains(q) {
                let i = choose|i: int| 0 <= i < s.len() && s[i] == q;
                if i < s.len() - 1 {
                    assert(p[i] == q);
                }
            }
            if p.contains(q) {
                let i = choose|i: int| 0 <= i < p.len() && p[i] == q;
                assert(s[i] == q);
            }
            if q == x {
                assert(s[s.len() - 1] == q);
            }
        }
        assert forall|q: u32| s.contains(q) implies (#[trigger] t1.votes[q]).votes as int == ((
        if t0.votes.contains_key(q) {
            t0.votes[q].votes as int
        } else {
            0
        }) + visits(s, q)) % 0x1_0000_0000 by {
            let base: int = if t0.votes.contains_key(q) {
                t0.votes[q].votes as int
            } else {
                0
            };
            if q == x {
                let before: int = if tp.votes.contains_key(x) {
                    tp.votes[x].votes as int
                } else {
                    0
                };
                if p.contains(x) {
                    assert(before == (base + visits(p, q)) % 0x1_0000_0000);
                } else if t0.votes.contains_key(x) {
                    assert(tp.votes[x] == t0.votes[x]);
                    assert(before == (base + visits(p, q)) % 0x1_0000_0000);
                } else {
                    assert(before == (base + visits(p, q)) % 0x1_0000_0000);
                }
                assert(visits(s, q) == visits(p, q) + 1);
            } else {
                assert(t1.votes[q] == tp.votes[q]);
                assert(visits(s, q) == visits(p, q));
            }
        }
    }
}

/// One frame of the quad tree, as reported: start from a frame with no additions whose votes
/// all come from earlier frames, vote for the nodes `s` (the nodes asked for, in the order they
/// were asked for), and end the frame with `removals`. Then the additions are the nodes of `s`
/// that had no votes, once each, in the order they were first asked for, each with the number
/// of times it was asked for; the removals are exactly the nodes that had votes and were not
/// asked for, once each; no node is both added and removed; and the votes kept are exactly
/// those of the nodes of `s`.
pub proof fn lemma_frame_report(t0: QuadTreeView, s: Seq<u32>, removals: Seq<QuadTreeId>)
    requires
        t0.additions.len() == 0,
        forall|q: u32| #[trigger] t0.votes.contains_key(q) ==> t0.votes[q].generation != t0.generation,
        lists_stale(voted(t0, s), removals),
    ensures
        ({
            let t1 = voted(t0, s);
            let adds = reported_additions(t1);
            &&& adds.len() == first_seen(t0.votes, s).len()
            &&& forall|i: int|
                0 <= i < adds.len() ==> (#[trigger] adds[i]).1.id == first_seen(t0.votes, s)[i]
                    && adds[i].0 as int == visits(s, adds[i].1.id) % 0x1_0000_0000
            &&& forall|q: u32|
                (exists|i: int| 0 <= i < removals.len() && #[trigger] removals[i].id == q) <==> (
                t0.votes.contains_key(q) && !s.contains(q))
            &&& forall|i: int, j: int| 0 <= i < j < removals.len() ==> removals[i].id != removals[j].id
            &&& forall|i: int, j: int|
                0 <= i < adds.len() && 0 <= j < removals.len() ==> (#[trigger] adds[i]).1.id
                    != (#[trigger] removals[j]).id
            &&& forall|q: u32| #[trigger] kept_votes(t1).contains_key(q) <==> s.contains(q)
        }),
{
    let t1 = voted(t0, s);
    lemma_voted_frame(t0, s);
    lemma_votes_counted(t0, s);
    let adds = reported_additions(t1);
    assert forall|i: int| 0 <= i < adds.len() implies (#[trigger] adds[i]).1.id == first_seen(
        t0.votes,
        s,
    )[i] && adds[i].0 as int == visits(s, adds[i].1.id) % 0x1_0000_0000 by {
        let q = t1.additions[i];
        assert(t1.additions.contains(q));
        assert(s.contains(q));
    }
    assert forall|q: u32|
        (exists|i: int| 0 <= i < removals.len() && #[trigger] removals[i].id == q) <==> (
        t0.votes.contains_key(q) && !s.contains(q)) by {
        if t0.votes.contains_key(q) && !s.contains(q) {
            assert(t1.votes[q] == t0.votes[q]);
            assert(is_stale(t1, q));
        }
        if exists|i: int| 0 <= i < removals.len() && #[trigger] removals[i].id == q {
            let i = choose|i: int| 0 <= i < removals.len() && #[trigger] removals[i].id == q;
            assert(is_stale(t1, removals[i].id));
            if s.contains(q) {
                assert(t1.votes[q].generation == t0.generation);
            }
        }
    }
    assert forall|i: int, j: int| 0 <= i < j < removals.len() implies removals[i].id
        != removals[j].id by {
        assert(removals[i].id < removals[j].id);
    }
    assert forall|i: int, j: int|
        0 <= i < adds.len() && 0 <= j < removals.len() implies (#[trigger] adds[i]).1.id
        != (#[trigger] removals[j]).id by {
        let q = t1.additions[i];
        assert(t1.additions.contains(q));
        assert(is_stale(t1, removals[j].id));
        if q == removals[j].id {
            assert(t1.votes[q].generation == t0.generation);
        }
    }
    assert forall|q: u32| #[trigger] kept_votes(t1).contains_key(q) <==> s.contains(q) by {
        if s.contains(q) {
            assert(t1.votes[q].generation == t0.generation);
        } else if t0.votes.contains_key(q) {
            assert(t1.votes[q] == t0.votes[q]);
        }
    }
}

/// One frame keeps the tile cache in step with the quad tree. Start a frame with the cache
/// tracking exactly the nodes that have votes, all of them from earlier frames and none noted
/// as added; vote for the nodes `s`; end the frame. Then the nodes reported as gone out of
/// view are distinct and tracked by the cache, the nodes reported as added are distinct and
/// not tracked, and once the cache applies both, it tracks exactly the nodes that keep votes.
pub proof fn lemma_frame_keeps_cache_in_step(
    t0: QuadTreeView,
    s: Seq<u32>,
    c: CacheView,
    removals: Seq<QuadTreeId>,
)
    requires
        t0.additions.len() == 0,
        forall|q: u32| #[trigger] t0.votes.contains_key(q) ==> t0.votes[q].generation != t0.generation,
        forall|q: u32| #[trigger] c.states.contains_key(q) <==> t0.votes.contains_key(q),
        lists_stale(voted(t0, s), removals),
    ensures
        ({
            let t1 = voted(t0, s);
            let adds = reported_additions(t1);
            let after = allocated_all(
                deallocated_all(c, removals.map_values(|r: QuadTreeId| r.id)),
                adds.map_values(|a: (u32, QuadTreeId)| (a.0, a.1.id)),
            );
            &&& forall|i: int, j: int| 0 <= i < j < removals.len() ==> removals[i].id != removals[j].id
            &&& forall|i: int| 0 <= i < removals.len() ==> c.states.contains_key(#[trigger] removals[i].id)
            &&& forall|i: int, j: int| 0 <= i < j < adds.len() ==> adds[i].1.id != adds[j].1.id
            &&& forall|i: int| 0 <= i < adds.len() ==> !c.states.contains_key(#[trigger] adds[i].1.id)
            &&& forall|q: u32| #[trigger] after.states.contains_key(q) <==> kept_votes(t1).contains_key(q)
        }),
{
    let t1 = voted(t0, s);
    lemma_voted_frame(t0, s);
    let adds = reported_additions(t1);
    let rs = removals.map_values(|r: QuadTreeId| r.id);
    let ads = adds.map_values(|a: (u32, QuadTreeId)| (a.0, a.1.id));
    assert forall|i: int| 0 <= i < removals.len() implies c.states.contains_key(
        #[trigger] removals[i].id,
    ) by {
        let q = removals[i].id;
        assert(is_stale(t1, q));
        if !t0.votes.contains_key(q) {
            assert(s.contains(q));
        } else if s.contains(q) {
            assert(t1.votes[q].generation == t0.generation);
        }
    }
    assert forall|i: int, j: int| 0 <= i < j < adds.len() implies adds[i].1.id != adds[j].1.id by {
        assert(adds[i].1.id == t1.additions[i]);
        assert(adds[j].1.id == t1.additions[j]);
    }
    assert forall|i: int| 0 <= i < adds.len() implies !c.states.contains_key(#[trigger] adds[i].1.id) by {
        assert(adds[i].1.id == t1.additions[i]);
        assert(t1.additions.contains(t1.additions[i]));
    }
    lemma_deallocated_keys(c, rs);
    let d = deallocated_all(c, rs);
    lemma_allocated_keys(d, ads);
    assert forall|q: u32| #[trigger] allocated_all(d, ads).states.contains_key(q) <==> kept_votes(
        t1,
    ).contains_key(q) by {
        let gone = rs.contains(q);
        assert(gone <==> is_stale(t1, q)) by {
            if rs.contains(q) {
                let i = choose|i: int| 0 <= i < rs.len() && rs[i] == q;
                assert(removals[i].id == q);
            }
            if is_stale(t1, q) {
                let i = choose|i: int| 0 <= i < removals.len() && removals[i].id == q;
                assert(rs[i] == q);
            }
        }
        let arrived = arrives(ads, q);
        assert(arrived <==> t1.additions.contains(q)) by {
            if arrived {
                let i = choose|i: int| 0 <= i < ads.len() && ads[i].1 == q;
                assert(t1.additions[i] == q);
            }
            if t1.additions.contains(q) {
                let i = choose|i: int| 0 <= i < t1.additions.len() && t1.additions[i] == q;
                assert(ads[i].1 == q);
            }
        }
        if s.contains(q) {
            assert(t1.votes[q].generation == t0.generation);
        } else if t0.votes.contains_key(q) {
            assert(t1.votes[q] == t0.votes[q]);
        }
    }
}

/// Ending a frame and beginning the next leaves only votes from earlier frames and no
/// additions: the state the frame law starts from.
pub proof fn lemma_next_frame_starts_clean(v: QuadTreeView)
    ensures
        forall|q: u32| #[trigger]
            kept_votes(v).contains_key(q) ==> kept_votes(v)[q].generation != v.generation.wrapping_add(
                1,
            ),
{
    assert(v.generation.wrapping_add(1) != v.generation);
}

} // verus!
