//! In what order a walk takes its nodes, and how far it says they are.

use crate::address;
use crate::address::SheetId;
use crate::expand;
use crate::expand::{
    ExpandOptions, Hit, Reached, Role, StoredGraph, Terrain, Walk, WorkbookContext,
};
use crate::graph::{Node, NodeKind};
use vstd::prelude::*;

verus! {

/// The weight of the dependency that a node was reached along, where it was.
pub open spec fn weight_of(role: Role) -> Option<u64> {
    match role {
        Role::Input { of, kind, weight } => Some(weight),
        Role::Dependent { on, kind, weight } => Some(weight),
        _ => None,
    }
}

/// A node was taken at a distance.
pub open spec fn taken_at(reached: Seq<Reached>, node: u32, hops: int) -> bool {
    exists|k: int|
        0 <= k < reached.len() && (#[trigger] reached[k]).node == node && reached[k].hops == hops
}

/// Of two nodes reached along a dependency, the first was reached along the heavier
/// one; or along one as heavy, and it is the lower node.
pub open spec fn outweighs(w: u64, n: u32, v: u64, m: u32) -> bool {
    w > v || (w == v && n <= m)
}

/// What is added to some nodes that were taken: no dependency, and all at one
/// distance.
spec fn adds_at(v: Walk, w: Walk, hops: usize) -> bool {
    &&& v.queue == w.queue
    &&& v.level == w.level
    &&& w.reached.len() <= v.reached.len()
    &&& forall|i: int| 0 <= i < w.reached.len() ==> #[trigger] v.reached[i] == w.reached[i]
    &&& forall|i: int|
        w.reached.len() <= i < v.reached.len() ==> weight_of((#[trigger] v.reached[i]).role) is None
            && v.reached[i].hops == hops
    &&& w.pending.len() <= v.pending.len()
    &&& forall|i: int| 0 <= i < w.pending.len() ==> #[trigger] v.pending[i] == w.pending[i]
    &&& forall|i: int|
        w.pending.len() <= i < v.pending.len() ==> (#[trigger] v.pending[i]).hops == hops
            && taken_at(v.reached, v.pending[i].node, hops as int)
}

proof fn lemma_adds_on(u: Walk, v: Walk, w: Walk, hops: usize)
    requires
        adds_at(v, w, hops),
        adds_at(u, v, hops),
    ensures
        adds_at(u, w, hops),
{
    assert forall|i: int| 0 <= i < w.reached.len() implies #[trigger] u.reached[i]
        == w.reached[i] by {
        assert(v.reached[i] == w.reached[i]);
    }
    assert forall|i: int| w.reached.len() <= i < u.reached.len() implies weight_of(
        (#[trigger] u.reached[i]).role,
    ) is None && u.reached[i].hops == hops by {
        if i < v.reached.len() {
            assert(u.reached[i] == v.reached[i]);
        }
    }
    assert forall|i: int| 0 <= i < w.pending.len() implies #[trigger] u.pending[i]
        == w.pending[i] by {
        assert(v.pending[i] == w.pending[i]);
    }
    assert forall|i: int| w.pending.len() <= i < u.pending.len() implies (
    #[trigger] u.pending[i]).hops == hops && taken_at(
        u.reached,
        u.pending[i].node,
        hops as int,
    ) by {
        if i < v.pending.len() {
            assert(u.pending[i] == v.pending[i]);
            let k = choose|k: int|
                0 <= k < v.reached.len() && (#[trigger] v.reached[k]).node == v.pending[i].node
                    && v.reached[k].hops == hops;
            assert(u.reached[k] == v.reached[k]);
        }
    }
}

proof fn lemma_queued(t: Terrain, w: Walk, r: Reached, asked: bool)
    requires
        weight_of(r.role) is None,
    ensures
        adds_at(t.queued(w, r, asked), w, r.hops),
        adds_at(t.joined(w, r), w, r.hops),
{
    let v = t.queued(w, r, asked);
    let n = w.reached.len() as int;
    assert(v.reached[n] == r);
    assert forall|i: int| w.pending.len() <= i < v.pending.len() implies (
    #[trigger] v.pending[i]).hops == r.hops && taken_at(
        v.reached,
        v.pending[i].node,
        r.hops as int,
    ) by {
        assert(v.reached[n].node == v.pending[i].node);
    }
}

proof fn lemma_descended(t: Terrain, w: Walk, children: Seq<u32>, of: u32, hops: usize)
    ensures
        adds_at(t.descended(w, children, of, hops), w, hops),
    decreases children.len(),
{
    if children.len() > 0 {
        let rest = children.drop_first();
        let r = Reached { node: children[0], role: Role::Child { of }, hops, score: None };
        let q = t.queued(w, r, true);
        if expand::taken(w.reached, children[0]) {
            lemma_descended(t, w, rest, of, hops);
        } else if !t.full(w) {
            lemma_queued(t, w, r, true);
            lemma_descended(t, q, rest, of, hops);
            lemma_adds_on(t.descended(q, rest, of, hops), q, w, hops);
        }
    }
}

proof fn lemma_climbed(t: Terrain, w: Walk, child: u32, hops: usize, left: nat)
    ensures
        adds_at(t.climbed(w, child, hops, left), w, hops),
    decreases left,
{
    if let Some(parent) = expand::container(t.links, child) {
        if left > 0 {
            let r = Reached { node: parent, role: Role::Ancestor { of: child }, hops, score: None };
            let q = t.queued(w, r, false);
            if expand::taken(w.reached, parent) {
                lemma_climbed(t, w, parent, hops, (left - 1) as nat);
            } else if !t.full(w) {
                lemma_queued(t, w, r, false);
                lemma_climbed(t, q, parent, hops, (left - 1) as nat);
                lemma_adds_on(t.climbed(q, parent, hops, (left - 1) as nat), q, w, hops);
            }
        }
    }
}

proof fn lemma_enumerated(t: Terrain, w: Walk, children: Seq<u32>, of: u32, hops: usize)
    ensures
        adds_at(t.enumerated(w, children, of, hops), w, hops),
    decreases children.len(),
{
    if children.len() > 0 && !t.full(w) {
        let rest = children.drop_first();
        let r = Reached { node: children[0], role: Role::Child { of }, hops, score: None };
        let q = t.joined(w, r);
        if expand::taken(w.reached, children[0]) {
            lemma_enumerated(t, w, rest, of, hops);
        } else {
            lemma_queued(t, w, r, true);
            lemma_enumerated(t, q, rest, of, hops);
            lemma_adds_on(t.enumerated(q, rest, of, hops), q, w, hops);
        }
    }
}

/// Every step in the queue leads on from where its start was taken.
spec fn steps_on(w: Walk) -> bool {
    forall|i: int|
        0 <= i < w.queue.len() ==> w.level <= (#[trigger] w.queue[i]).hops && taken_at(
            w.reached,
            w.queue[i].from,
            w.queue[i].hops - 1,
        )
}

spec fn waits_here(w: Walk) -> bool {
    forall|i: int|
        0 <= i < w.pending.len() ==> (#[trigger] w.pending[i]).hops == w.level && taken_at(
            w.reached,
            w.pending[i].node,
            w.level as int,
        )
}

/// A node reached along a dependency is one hop further than what it was reached
/// from.
spec fn hops_on(w: Walk) -> bool {
    forall|i: int|
        0 <= i < w.reached.len() ==> (#[trigger] w.reached[i]).hops <= w.level && (weight_of(
            w.reached[i].role,
        ) is Some ==> taken_at(
            w.reached,
            w.reached[i].role.origin()->0,
            w.reached[i].hops - 1,
        ))
}

spec fn heaviest_first(w: Walk) -> bool {
    &&& forall|i: int, j: int|
        0 <= i < j < w.reached.len() && weight_of((#[trigger] w.reached[i]).role) is Some
            && weight_of((#[trigger] w.reached[j]).role) is Some && w.reached[i].hops
            == w.reached[j].hops ==> outweighs(
            weight_of(w.reached[i].role)->0,
            w.reached[i].node,
            weight_of(w.reached[j].role)->0,
            w.reached[j].node,
        )
    &&& forall|i: int, k: int|
        0 <= i < w.reached.len() && weight_of((#[trigger] w.reached[i]).role) is Some
            && w.reached[i].hops == w.level && 0 <= k < w.queue.len() && (
        #[trigger] w.queue[k]).hops == w.level ==> outweighs(
            weight_of(w.reached[i].role)->0,
            w.reached[i].node,
            w.queue[k].weight,
            w.queue[k].to,
        )
}

#[verifier::opaque]
spec fn goes_well(w: Walk) -> bool {
    steps_on(w) && waits_here(w) && hops_on(w) && heaviest_first(w)
}

proof fn lemma_taken_later(v: Walk, w: Walk, node: u32, hops: int)
    requires
        w.reached.len() <= v.reached.len(),
        forall|i: int| 0 <= i < w.reached.len() ==> #[trigger] v.reached[i] == w.reached[i],
        taken_at(w.reached, node, hops),
    ensures
        taken_at(v.reached, node, hops),
{
    let k = choose|k: int|
        0 <= k < w.reached.len() && (#[trigger] w.reached[k]).node == node && w.reached[k].hops
            == hops;
    assert(v.reached[k] == w.reached[k]);
}

proof fn lemma_added(v: Walk, w: Walk)
    requires
        goes_well(w),
        adds_at(v, w, w.level),
    ensures
        goes_well(v),
{
    reveal(goes_well);
    assert(steps_on(v)) by {
        assert forall|i: int| 0 <= i < v.queue.len() implies v.level <= (
        #[trigger] v.queue[i]).hops && taken_at(
            v.reached,
            v.queue[i].from,
            v.queue[i].hops - 1,
        ) by {
            assert(v.queue[i] == w.queue[i]);
            lemma_taken_later(v, w, w.queue[i].from, w.queue[i].hops - 1);
        }
    }
    assert(waits_here(v)) by {
        assert forall|i: int| 0 <= i < v.pending.len() implies (#[trigger] v.pending[i]).hops
            == v.level && taken_at(v.reached, v.pending[i].node, v.level as int) by {
            if i < w.pending.len() {
                assert(v.pending[i] == w.pending[i]);
                lemma_taken_later(v, w, w.pending[i].node, w.level as int);
            }
        }
    }
    assert(hops_on(v)) by {
        assert forall|i: int| 0 <= i < v.reached.len() implies (#[trigger] v.reached[i]).hops
            <= v.level && (weight_of(v.reached[i].role) is Some ==> taken_at(
            v.reached,
            v.reached[i].role.origin()->0,
            v.reached[i].hops - 1,
        )) by {
            if i < w.reached.len() {
                assert(v.reached[i] == w.reached[i]);
                if weight_of(w.reached[i].role) is Some {
                    lemma_taken_later(
                        v,
                        w,
                        w.reached[i].role.origin()->0,
                        w.reached[i].hops - 1,
                    );
                }
            }
        }
    }
    assert(heaviest_first(v)) by {
        assert forall|i: int, j: int|
            0 <= i < j < v.reached.len() && weight_of((#[trigger] v.reached[i]).role) is Some
                && weight_of((#[trigger] v.reached[j]).role) is Some && v.reached[i].hops
                == v.reached[j].hops implies outweighs(
            weight_of(v.reached[i].role)->0,
            v.reached[i].node,
            weight_of(v.reached[j].role)->0,
            v.reached[j].node,
        ) by {
            assert(j < w.reached.len());
            assert(v.reached[i] == w.reached[i] && v.reached[j] == w.reached[j]);
        }
        assert forall|i: int, k: int|
            0 <= i < v.reached.len() && weight_of((#[trigger] v.reached[i]).role) is Some
                && v.reached[i].hops == v.level && 0 <= k < v.queue.len() && (
            #[trigger] v.queue[k]).hops == v.level implies outweighs(
            weight_of(v.reached[i].role)->0,
            v.reached[i].node,
            v.queue[k].weight,
            v.queue[k].to,
        ) by {
            assert(i < w.reached.len());
            assert(v.reached[i] == w.reached[i] && v.queue[k] == w.queue[k]);
        }
    }
}

proof fn lemma_steps_from(t: Terrain, at: u32, hops: usize)
    requires
        hops < t.opts.hops,
    ensures
        forall|i: int|
            0 <= i < t.steps_from(at, hops).len() ==> (#[trigger] t.steps_from(at, hops)[i]).from
                == at && t.steps_from(at, hops)[i].hops == hops + 1,
{
    let a = expand::steps_along(t.links, at, hops, t.opts.min_weight, false);
    let b = expand::steps_along(t.links, at, hops, t.opts.min_weight, true);
    let all = t.steps_from(at, hops);
    assert forall|i: int| 0 <= i < all.len() implies (#[trigger] all[i]).from == at && all[i].hops
        == hops + 1 by {
        if i < a.len() {
            assert(all[i] == a[i]);
        } else {
            assert(all[i] == b[i - a.len()]);
        }
    }
}

proof fn lemma_offered(t: Terrain, w: Walk, at: u32)
    requires
        goes_well(w),
        w.level < t.opts.hops,
        taken_at(w.reached, at, w.level as int),
    ensures
        goes_well(Walk { queue: w.queue + t.steps_from(at, w.level), ..w }),
{
    reveal(goes_well);
    let more = t.steps_from(at, w.level);
    let v = Walk { queue: w.queue + more, ..w };
    lemma_steps_from(t, at, w.level);
    assert forall|i: int| 0 <= i < v.queue.len() implies #[trigger] v.queue[i] == (if i
        < w.queue.len() {
        w.queue[i]
    } else {
        more[i - w.queue.len()]
    }) by {}
    assert forall|i: int| w.queue.len() <= i < v.queue.len() implies (#[trigger] v.queue[i]).from
        == at && v.queue[i].hops == w.level + 1 by {
        assert(v.queue[i] == more[i - w.queue.len()]);
    }
}

proof fn lemma_attended(t: Terrain, w: Walk)
    requires
        goes_well(w),
        w.pending.len() > 0,
    ensures
        goes_well(t.attended(w)),
{
    let e = w.pending.last();
    let fresh = !w.walked.contains(e.node) && e.hops < t.opts.hops;
    let w0 = Walk { pending: w.pending.drop_last(), ..w };
    assert(goes_well(w0) && e.hops == w.level && taken_at(w.reached, e.node, w.level as int)) by {
        reveal(goes_well);
        assert(w.pending[w.pending.len() - 1] == e);
        assert forall|i: int| 0 <= i < w0.pending.len() implies #[trigger] w0.pending[i]
            == w.pending[i] by {}
    }
    let w1 = if fresh {
        Walk { queue: w0.queue + t.steps_from(e.node, e.hops), ..w0 }
    } else {
        w0
    };
    if fresh {
        lemma_offered(t, w0, e.node);
    }
    let below = t.carrying_children(e.node);
    let w2 = if fresh && e.asked {
        t.descended(w1, below, e.node, e.hops)
    } else {
        w1
    };
    if fresh && e.asked {
        lemma_descended(t, w1, below, e.node, e.hops);
        lemma_added(w2, w1);
    }
    let w3 = t.climbed(w2, e.node, e.hops, t.nodes.len());
    lemma_climbed(t, w2, e.node, e.hops, t.nodes.len());
    lemma_added(w3, w2);
    let w4 = if t.opts.children > 0 {
        t.with_children(w3, e.node, e.hops)
    } else {
        w3
    };
    let all = t.ranked_children(w3, e.node);
    lemma_enumerated(t, w3, all, e.node, e.hops);
    lemma_enumerated(t, w3, all.take(t.opts.children as int), e.node, e.hops);
    if t.opts.children > 0 && !(t.nodes[e.node as int].kind is Workbook) {
        lemma_added(w4, w3);
    }
    assert(goes_well(w4));
    assert(goes_well(t.attended(w))) by {
        reveal(goes_well);
    }
}

/// A step taken off the queue, its distance being the one at hand.
spec fn without(w: Walk, b: int) -> Walk {
    Walk { queue: w.queue.remove(b), level: w.queue[b].hops, ..w }
}

proof fn lemma_without(w: Walk, b: int)
    requires
        goes_well(w),
        w.pending.len() == 0,
        0 <= b < w.queue.len(),
        forall|i: int| 0 <= i < w.queue.len() ==> !expand::goes_first(#[trigger] w.queue[i], w.queue[b]),
    ensures
        goes_well(without(w, b)),
        taken_at(w.reached, w.queue[b].from, w.queue[b].hops - 1),
        forall|i: int|
            0 <= i < w.reached.len() && weight_of((#[trigger] w.reached[i]).role) is Some
                && w.reached[i].hops == w.queue[b].hops ==> outweighs(
                weight_of(w.reached[i].role)->0,
                w.reached[i].node,
                w.queue[b].weight,
                w.queue[b].to,
            ),
        forall|k: int|
            0 <= k < without(w, b).queue.len() && (#[trigger] without(w, b).queue[k]).hops
                == w.queue[b].hops ==> outweighs(
                w.queue[b].weight,
                w.queue[b].to,
                without(w, b).queue[k].weight,
                without(w, b).queue[k].to,
            ),
{
    reveal(goes_well);
    let v = without(w, b);
    let s = w.queue[b];
    assert forall|k: int| 0 <= k < v.queue.len() implies #[trigger] v.queue[k] == w.queue[if k < b {
        k
    } else {
        k + 1
    }] by {}
    assert forall|k: int| 0 <= k < v.queue.len() implies s.hops <= (#[trigger] v.queue[k]).hops
        && (v.queue[k].hops == s.hops ==> outweighs(
        s.weight,
        s.to,
        v.queue[k].weight,
        v.queue[k].to,
    )) && taken_at(v.reached, v.queue[k].from, v.queue[k].hops - 1) by {
        let j = if k < b {
            k
        } else {
            k + 1
        };
        assert(!expand::goes_first(w.queue[j], s));
    }
    assert(hops_on(v));
    assert(waits_here(v));
    assert(steps_on(v));
    assert(heaviest_first(v)) by {
        assert forall|i: int, k: int|
            0 <= i < v.reached.len() && weight_of((#[trigger] v.reached[i]).role) is Some
                && v.reached[i].hops == v.level && 0 <= k < v.queue.len() && (
            #[trigger] v.queue[k]).hops == v.level implies outweighs(
            weight_of(v.reached[i].role)->0,
            v.reached[i].node,
            v.queue[k].weight,
            v.queue[k].to,
        ) by {
            let j = if k < b {
                k
            } else {
                k + 1
            };
            assert(v.queue[k] == w.queue[j]);
            assert(w.reached[i].hops <= w.level);
            assert(w.level <= s.hops);
        }
    }
}

proof fn lemma_taken_step(t: Terrain, w: Walk, r: Reached)
    requires
        goes_well(w),
        w.pending.len() == 0,
        r.hops == w.level,
        weight_of(r.role) is Some,
        taken_at(w.reached, r.role.origin()->0, r.hops - 1),
        forall|i: int|
            0 <= i < w.reached.len() && weight_of((#[trigger] w.reached[i]).role) is Some
                && w.reached[i].hops == r.hops ==> outweighs(
                weight_of(w.reached[i].role)->0,
                w.reached[i].node,
                weight_of(r.role)->0,
                r.node,
            ),
        forall|k: int|
            0 <= k < w.queue.len() && (#[trigger] w.queue[k]).hops == r.hops ==> outweighs(
                weight_of(r.role)->0,
                r.node,
                w.queue[k].weight,
                w.queue[k].to,
            ),
    ensures
        goes_well(t.queued(w, r, true)),
{
    reveal(goes_well);
    let v = t.queued(w, r, true);
    let n = w.reached.len() as int;
    assert(v.reached[n] == r);
    assert forall|i: int| 0 <= i < n implies #[trigger] v.reached[i] == w.reached[i] by {}
    assert(steps_on(v)) by {
        assert forall|i: int| 0 <= i < v.queue.len() implies v.level <= (
        #[trigger] v.queue[i]).hops && taken_at(
            v.reached,
            v.queue[i].from,
            v.queue[i].hops - 1,
        ) by {
            lemma_taken_later(v, w, w.queue[i].from, w.queue[i].hops - 1);
        }
    }
    assert(hops_on(v)) by {
        assert forall|i: int| 0 <= i < v.reached.len() implies (#[trigger] v.reached[i]).hops
            <= v.level && (weight_of(v.reached[i].role) is Some ==> taken_at(
            v.reached,
            v.reached[i].role.origin()->0,
            v.reached[i].hops - 1,
        )) by {
            if i < n {
                if weight_of(w.reached[i].role) is Some {
                    lemma_taken_later(
                        v,
                        w,
                        w.reached[i].role.origin()->0,
                        w.reached[i].hops - 1,
                    );
                }
            } else {
                lemma_taken_later(v, w, r.role.origin()->0, r.hops - 1);
            }
        }
    }
    assert(waits_here(v)) by {
        assert(v.pending.len() == 1);
        assert(taken_at(v.reached, r.node, v.level as int));
    }
    assert(heaviest_first(v)) by {
        assert forall|i: int, j: int|
            0 <= i < j < v.reached.len() && weight_of((#[trigger] v.reached[i]).role) is Some
                && weight_of((#[trigger] v.reached[j]).role) is Some && v.reached[i].hops
                == v.reached[j].hops implies outweighs(
            weight_of(v.reached[i].role)->0,
            v.reached[i].node,
            weight_of(v.reached[j].role)->0,
            v.reached[j].node,
        ) by {
            assert(v.reached[i] == w.reached[i]);
            if j < n {
                assert(v.reached[j] == w.reached[j]);
            }
        }
    }
}

proof fn lemma_stepped(t: Terrain, w: Walk)
    requires
        goes_well(w),
        w.pending.len() == 0,
    ensures
        goes_well(t.stepped(w)),
{
    if w.queue.len() == 0 {
        reveal(goes_well);
    } else {
        let b = expand::next_step(w.queue);
        expand::lemma_next_step(w.queue);
        let s = w.queue[b];
        let v = without(w, b);
        lemma_without(w, b);
        if expand::taken(v.reached, s.to) {
        } else if t.full(v) {
            reveal(goes_well);
        } else {
            let r = Reached { node: s.to, role: t.step_role(s), hops: s.hops, score: None };
            lemma_taken_step(t, v, r);
        }
    }
}

proof fn lemma_seeded(t: Terrain, w: Walk, hits: Seq<Hit>)
    requires
        goes_well(w),
        w.level == 0,
    ensures
        goes_well(t.seeded(w, hits)),
        t.seeded(w, hits).level == 0,
    decreases hits.len(),
{
    if hits.len() > 0 {
        let rest = hits.drop_first();
        let r = Reached {
            node: hits[0].node,
            role: Role::Seed,
            hops: 0,
            score: Some(hits[0].score),
        };
        if hits[0].node >= t.nodes.len() {
            lemma_seeded(t, w, rest);
        } else if t.full(w) {
            reveal(goes_well);
        } else if expand::taken(w.reached, hits[0].node) {
            lemma_seeded(t, w, rest);
        } else {
            lemma_queued(t, w, r, true);
            lemma_added(t.queued(w, r, true), w);
            lemma_seeded(t, t.queued(w, r, true), rest);
        }
    }
}

proof fn lemma_after(t: Terrain, hits: Seq<Hit>, n: nat)
    ensures
        goes_well(t.after(t.start(hits), n)),
    decreases n,
{
    if n == 0 {
        let none = Walk {
            reached: Seq::empty(),
            walked: Set::empty(),
            queue: Seq::empty(),
            pending: Seq::empty(),
            level: 0,
            truncated: false,
            over: false,
        };
        assert(goes_well(none)) by {
            reveal(goes_well);
        }
        lemma_seeded(t, none, hits);
    } else {
        lemma_after(t, hits, (n - 1) as nat);
        let w = t.after(t.start(hits), (n - 1) as nat);
        if !w.over {
            if w.pending.len() > 0 {
                lemma_attended(t, w);
            } else {
                lemma_stepped(t, w);
            }
        }
    }
}

/// What is reached along a heavier dependency comes first: of two nodes at the same
/// distance that were each reached along one, the first was reached along the
/// heavier, or along one as heavy and is the lower node.
pub proof fn heavier_dependencies_are_followed_first(
    r: WorkbookContext,
    stored: StoredGraph,
    hits: Seq<Hit>,
    opts: ExpandOptions,
    i: int,
    j: int,
)
    requires
        expand::expands_to(r, stored, hits, opts),
        0 <= i < j < r.nodes@.len(),
        r.nodes@[i].hops == r.nodes@[j].hops,
        weight_of(r.nodes@[i].role) is Some,
        weight_of(r.nodes@[j].role) is Some,
    ensures
        ({
            let x = r.nodes@[i];
            let y = r.nodes@[j];
            let a = weight_of(x.role)->0;
            let b = weight_of(y.role)->0;
            a > b || (a == b && x.node <= y.node)
        }),
{
    let t = Terrain { nodes: stored.graph.nodes(), links: stored.graph.links(), opts };
    let w = expand::lemma_told(r, stored, hits, opts);
    let n = choose|n: nat| t.after(t.start(hits), n).over;
    lemma_after(t, hits, n);
    reveal(goes_well);
    assert(r.nodes@[i].role == w.reached[i].role && r.nodes@[i].hops == w.reached[i].hops);
    assert(r.nodes@[j].role == w.reached[j].role && r.nodes@[j].hops == w.reached[j].hops);
}

/// A node that was reached along a dependency is one hop further from the seeds than
/// the node that it was reached from, which is in the result.
pub proof fn a_dependency_is_one_hop(
    r: WorkbookContext,
    stored: StoredGraph,
    hits: Seq<Hit>,
    opts: ExpandOptions,
    i: int,
)
    requires
        expand::expands_to(r, stored, hits, opts),
        0 <= i < r.nodes@.len(),
    ensures
        ({
            let d = r.nodes@[i];
            let from = match d.role {
                Role::Input { of, kind, weight } => Some(of),
                Role::Dependent { on, kind, weight } => Some(on),
                _ => None,
            };
            from matches Some(n) ==> exists|k: int|
                0 <= k < r.nodes@.len() && (#[trigger] r.nodes@[k]).node == n && r.nodes@[k].hops
                    + 1 == d.hops
        }),
{
    let t = Terrain { nodes: stored.graph.nodes(), links: stored.graph.links(), opts };
    let w = expand::lemma_told(r, stored, hits, opts);
    let n = choose|n: nat| t.after(t.start(hits), n).over;
    lemma_after(t, hits, n);
    reveal(goes_well);
    assert(r.nodes@[i].role == w.reached[i].role && r.nodes@[i].hops == w.reached[i].hops);
    if weight_of(w.reached[i].role) is Some {
        let from = w.reached[i].role.origin()->0;
        let k = choose|k: int|
            0 <= k < w.reached.len() && (#[trigger] w.reached[k]).node == from && w.reached[k].hops
                == w.reached[i].hops - 1;
        assert(r.nodes@[k].node == from && r.nodes@[k].hops == w.reached[k].hops);
    }
}

// ---------------------------------------------------------------------------
// The rank of children.

/// One child comes before another: what is no formula group before what is one,
/// then the one that covers more cells, then the lower node.
pub open spec fn comes_first(nodes: Seq<Node>, a: u32, b: u32) -> bool {
    let x = nodes[a as int];
    let y = nodes[b as int];
    let grouped = |n: Node| n.kind == NodeKind::FormulaGroup;
    ||| !grouped(x) && grouped(y)
    ||| grouped(x) == grouped(y) && x.covered() > y.covered()
    ||| grouped(x) == grouped(y) && x.covered() == y.covered() && a <= b
}

proof fn lemma_placed(nodes: Seq<Node>, s: Seq<u32>, x: u32)
    requires
        forall|i: int, j: int|
            0 <= i < j < s.len() ==> comes_first(nodes, #[trigger] s[i], #[trigger] s[j]),
    ensures
        ({
            let p = expand::placed(nodes, s, x);
            &&& p.to_multiset() =~= s.to_multiset().insert(x)
            &&& forall|i: int, j: int|
                0 <= i < j < p.len() ==> comes_first(nodes, #[trigger] p[i], #[trigger] p[j])
            &&& forall|i: int|
                0 <= i < p.len() ==> (#[trigger] p[i]) == x || s.contains(p[i])
        }),
    decreases s.len(),
{
    broadcast use vstd::seq_lib::group_to_multiset_ensures;

    let p = expand::placed(nodes, s, x);
    if s.len() == 0 {
        assert(s =~= Seq::empty());
        assert(p =~= s.push(x));
    } else if expand::outranks(nodes, x, s[0]) {
        assert(p == seq![x] + s);
        vstd::seq_lib::lemma_multiset_commutative(seq![x], s);
        assert(seq![x] =~= Seq::empty().push(x));
        assert(p.to_multiset() =~= s.to_multiset().insert(x));
        assert forall|i: int, j: int| 0 <= i < j < p.len() implies comes_first(
            nodes,
            #[trigger] p[i],
            #[trigger] p[j],
        ) by {
            assert(p[j] == s[j - 1]);
            if i == 0 {
                if j > 1 {
                    assert(comes_first(nodes, s[0], s[j - 1]));
                }
            } else {
                assert(p[i] == s[i - 1]);
            }
        }
        assert forall|i: int| 0 <= i < p.len() implies (#[trigger] p[i]) == x || s.contains(
            p[i],
        ) by {
            if i > 0 {
                assert(p[i] == s[i - 1]);
            }
        }
    } else {
        let rest = s.drop_first();
        let q = expand::placed(nodes, rest, x);
        assert forall|i: int, j: int| 0 <= i < j < rest.len() implies comes_first(
            nodes,
            #[trigger] rest[i],
            #[trigger] rest[j],
        ) by {
            assert(comes_first(nodes, s[i + 1], s[j + 1]));
        }
        lemma_placed(nodes, rest, x);
        assert(p == seq![s[0]] + q);
        assert(s =~= seq![s[0]] + rest);
        vstd::seq_lib::lemma_multiset_commutative(seq![s[0]], q);
        vstd::seq_lib::lemma_multiset_commutative(seq![s[0]], rest);
        assert(p.to_multiset() =~= s.to_multiset().insert(x));
        assert forall|i: int| 0 <= i < p.len() implies (#[trigger] p[i]) == x || s.contains(
            p[i],
        ) by {
            if i > 0 {
                assert(p[i] == q[i - 1]);
                if q[i - 1] != x {
                    let k = choose|k: int| 0 <= k < rest.len() && rest[k] == q[i - 1];
                    assert(s[k + 1] == p[i]);
                }
            } else {
                assert(s[0] == p[0]);
            }
        }
        assert forall|i: int, j: int| 0 <= i < j < p.len() implies comes_first(
            nodes,
            #[trigger] p[i],
            #[trigger] p[j],
        ) by {
            assert(p[j] == q[j - 1]);
            if i == 0 {
                if q[j - 1] != x {
                    let k = choose|k: int| 0 <= k < rest.len() && rest[k] == q[j - 1];
                    assert(comes_first(nodes, s[0], s[k + 1]));
                }
            } else {
                assert(p[i] == q[i - 1]);
            }
        }
    }
}

/// The children of a node that are shown on their own account come in the order of
/// their rank, and none is lost or added by ranking them.
pub proof fn the_largest_children_come_first(nodes: Seq<Node>, s: Seq<u32>)
    ensures
        expand::by_rank(nodes, s).to_multiset() =~= s.to_multiset(),
        forall|i: int, j: int|
            0 <= i < j < expand::by_rank(nodes, s).len() ==> comes_first(
                nodes,
                #[trigger] expand::by_rank(nodes, s)[i],
                #[trigger] expand::by_rank(nodes, s)[j],
            ),
    decreases s.len(),
{
    broadcast use vstd::seq_lib::group_to_multiset_ensures;

    if s.len() > 0 {
        let d = s.drop_last();
        the_largest_children_come_first(nodes, d);
        lemma_placed(nodes, expand::by_rank(nodes, d), s.last());
        assert(s =~= d.push(s.last()));
    }
}

// ---------------------------------------------------------------------------
// What is told of a node.

/// The only node of a graph that stands for a sheet.
pub open spec fn is_only_sheet(nodes: Seq<Node>, k: int, id: SheetId) -> bool {
    &&& 0 <= k < nodes.len()
    &&& nodes[k].kind == NodeKind::Sheet
    &&& nodes[k].sheet == Some(id)
    &&& forall|j: int|
        0 <= j < nodes.len() && (#[trigger] nodes[j]).kind == NodeKind::Sheet && nodes[j].sheet
            == Some(id) ==> j == k
}

proof fn lemma_sheet_labels(nodes: Seq<Node>, id: SheetId)
    ensures
        expand::sheet_labels(nodes).contains_key(id.0) <==> exists|k: int|
            0 <= k < nodes.len() && (#[trigger] nodes[k]).kind == NodeKind::Sheet && nodes[k].sheet
                == Some(id),
        forall|k: int| #[trigger]
            is_only_sheet(nodes, k, id) ==> expand::sheet_labels(nodes)[id.0] == nodes[k].label,
    decreases nodes.len(),
{
    if nodes.len() > 0 {
        let d = nodes.drop_last();
        let n = nodes.len() - 1;
        lemma_sheet_labels(d, id);
        assert forall|j: int| 0 <= j < n implies #[trigger] d[j] == nodes[j] by {}
        assert(nodes[n] == nodes.last());
        let here = nodes[n].kind == NodeKind::Sheet && nodes[n].sheet == Some(id);
        if expand::sheet_labels(d).contains_key(id.0) {
            let k = choose|k: int|
                0 <= k < d.len() && (#[trigger] d[k]).kind == NodeKind::Sheet && d[k].sheet
                    == Some(id);
            assert(nodes[k].kind == NodeKind::Sheet);
        }
        if exists|k: int|
            0 <= k < nodes.len() && (#[trigger] nodes[k]).kind == NodeKind::Sheet && nodes[k].sheet
                == Some(id) {
            let k = choose|k: int|
                0 <= k < nodes.len() && (#[trigger] nodes[k]).kind == NodeKind::Sheet
                    && nodes[k].sheet == Some(id);
            if k < n {
                assert(d[k].kind == NodeKind::Sheet);
            }
        }
        assert forall|k: int| #[trigger] is_only_sheet(nodes, k, id) implies expand::sheet_labels(
            nodes,
        )[id.0] == nodes[k].label by {
            if k < n {
                assert(!here);
                assert(is_only_sheet(d, k, id)) by {
                    assert(d[k] == nodes[k]);
                }
            }
        }
    }
}

/// A node is told as the graph has it: its kind, its label, its range behind the name
/// of its sheet, and its sheet.
pub proof fn a_node_is_told_as_the_graph_has_it(
    r: WorkbookContext,
    stored: StoredGraph,
    hits: Seq<Hit>,
    opts: ExpandOptions,
    i: int,
    k: int,
)
    requires
        expand::expands_to(r, stored, hits, opts),
        0 <= i < r.nodes@.len(),
    ensures
        ({
            let d = r.nodes@[i];
            let n = stored.graph.nodes()[d.node as int];
            &&& d.kind == n.kind
            &&& d.label@ == n.label@
            &&& d.a1 is Some <==> n.range is Some
            &&& n.range matches Some(range) ==> is_only_sheet(
                stored.graph.nodes(),
                k,
                range.sheet,
            ) ==> d.a1->0@ == address::cited(
                stored.graph.nodes()[k].label@,
                range.local_a1(),
            )
            &&& n.sheet matches Some(id) ==> is_only_sheet(stored.graph.nodes(), k, id) ==> (
            d.sheet matches Some(name) && name@ == stored.graph.nodes()[k].label@)
            &&& d.sheet is Some ==> n.sheet is Some
        }),
{
    let nodes = stored.graph.nodes();
    let t = Terrain { nodes, links: stored.graph.links(), opts };
    let w = expand::lemma_told(r, stored, hits, opts);
    let d = r.nodes@[i];
    let n = nodes[d.node as int];
    assert(expand::tells(r.nodes@, nodes, stored.graph.links(), w.reached));
    assert(d.node == w.reached[i].node);
    if let Some(range) = n.range {
        lemma_sheet_labels(nodes, range.sheet);
        if is_only_sheet(nodes, k, range.sheet) {
            assert(nodes[k].kind == NodeKind::Sheet);
        }
    }
    if let Some(id) = n.sheet {
        lemma_sheet_labels(nodes, id);
        if is_only_sheet(nodes, k, id) {
            assert(nodes[k].kind == NodeKind::Sheet);
        }
    }
}

/// A hit that names no node of the graph is reported, and nothing else is.
pub proof fn a_hit_on_no_node_is_reported(
    r: WorkbookContext,
    stored: StoredGraph,
    hits: Seq<Hit>,
    opts: ExpandOptions,
    node: u32,
)
    requires
        expand::expands_to(r, stored, hits, opts),
    ensures
        r.stale_seeds@.contains(node) <==> node >= stored.graph.nodes().len() && exists|i: int|
            0 <= i < hits.len() && (#[trigger] hits[i]).node == node,
        r.path@ == stored.path@,
        r.content_hash@ == stored.content_hash@,
{
    let count = stored.graph.nodes().len();
    let keep = |h: Hit| h.node >= count;
    let kept = hits.filter(keep);
    let all = r.stale_seeds@;
    assert(all == kept.map_values(|h: Hit| h.node));
    if all.contains(node) {
        let k = choose|k: int| 0 <= k < all.len() && all[k] == node;
        hits.lemma_filter_pred(keep, k);
        hits.lemma_filter_contains_rev(keep, kept[k]);
        let i = choose|i: int| 0 <= i < hits.len() && hits[i] == kept[k];
        assert(hits[i].node == node);
    }
    if node >= count && exists|i: int| 0 <= i < hits.len() && (#[trigger] hits[i]).node == node {
        let i = choose|i: int| 0 <= i < hits.len() && (#[trigger] hits[i]).node == node;
        hits.lemma_filter_contains(keep, i);
        let k = choose|k: int| 0 <= k < kept.len() && kept[k] == hits[i];
        assert(all[k] == node);
    }
}

} // verus!
