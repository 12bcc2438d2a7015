//! No read is stale: a clean derived node was recomputed after the last
//! write to every value it reads from. This is stated over stamps, one per
//! node, that say when a value was last written or a derived node last
//! recomputed; each operation moves them as the laws below say, and any
//! sequence of operations keeps every read up to date.

use vstd::prelude::*;
use crate::spec::{
    Cell, NodeView, nbrs, is_walk, reaches, everything, alive, alive_mask, reached, well_formed,
    touched, after_get, after_set, after_store, run, fresh, released, with_links_to, linked,
    depending, visits,
};
use crate::laws::{
    law_kept_alive, law_change_propagates, same_structure, lemma_same_structure, lemma_in_concat,
};
use crate::graph::{lemma_depending_well_formed, lemma_linked_well_formed, lemma_same_links};

verus! {

/// `p` runs from a node through what it reads, step by step.
pub open spec fn is_chain<T>(g: Seq<NodeView<T>>, p: Seq<usize>) -> bool {
    &&& p.len() > 0
    &&& forall|i: int| 0 <= i < p.len() ==> #[trigger] p[i] < g.len()
    &&& forall|i: int| 0 <= i < p.len() - 1 ==> #[trigger] g[p[i] as int].inputs.contains(p[i + 1])
}

/// `u` feeds `d`: `d` reads from `u`, directly or through other nodes.
pub open spec fn feeds<T>(g: Seq<NodeView<T>>, u: usize, d: usize) -> bool {
    exists|p: Seq<usize>| #[trigger] is_chain(g, p) && p[0] == d && p.last() == u
}

/// Every node that another reads from links to it.
pub open spec fn inputs_linked<T>(g: Seq<NodeView<T>>) -> bool {
    forall|d: int, k: int|
        0 <= d < g.len() && 0 <= k < g[d].inputs.len() ==> nbrs(g, #[trigger] g[d].inputs[k] as int, false).contains(d as usize)
}

/// Every living clean derived node was recomputed after the last write to
/// every value that feeds it.
pub open spec fn up_to_date<T>(g: Seq<NodeView<T>>, stamps: Seq<nat>) -> bool {
    forall|d: usize, u: usize|
        d < g.len() && u < g.len() && (g[d as int].cell matches Cell::Derived { dirty, .. } && !dirty) && alive(g, d)
            && g[u as int].cell is Value && #[trigger] feeds(g, u, d) ==> stamps[u as int] < stamps[d as int]
}

/// `clock` is later than every stamp.
pub open spec fn later<T>(stamps: Seq<nat>, clock: nat) -> bool {
    forall|i: int| 0 <= i < stamps.len() ==> stamps[i] < clock
}

proof fn lemma_same_chain<T>(g: Seq<NodeView<T>>, h: Seq<NodeView<T>>, p: Seq<usize>)
    requires
        same_structure(g, h),
    ensures
        is_chain(g, p) == is_chain(h, p),
{
    assert forall|i: int| 0 <= i < p.len() && p[i] < g.len() implies g[p[i] as int].inputs == h[p[i] as int].inputs by {
        assert(h[p[i] as int].links == g[p[i] as int].links);
    }
    if is_chain(g, p) {
        assert forall|i: int| 0 <= i < p.len() - 1 implies #[trigger] h[p[i] as int].inputs.contains(p[i + 1]) by {
            assert(p[i] < g.len());
            assert(g[p[i] as int].inputs.contains(p[i + 1]));
        }
    }
    if is_chain(h, p) {
        assert forall|i: int| 0 <= i < p.len() - 1 implies #[trigger] g[p[i] as int].inputs.contains(p[i + 1]) by {
            assert(p[i] < g.len());
            assert(h[p[i] as int].inputs.contains(p[i + 1]));
        }
    }
}

/// Graphs of the same structure agree on what feeds what and on whether
/// every input links to its reader.
pub proof fn lemma_same_feeds<T>(g: Seq<NodeView<T>>, h: Seq<NodeView<T>>)
    requires
        same_structure(g, h),
    ensures
        forall|u: usize, d: usize| feeds(g, u, d) == #[trigger] feeds(h, u, d),
        well_formed(g) ==> inputs_linked(g) == inputs_linked(h),
{
    assert forall|u: usize, d: usize| feeds(g, u, d) == #[trigger] feeds(h, u, d) by {
        if feeds(g, u, d) {
            let p = choose|p: Seq<usize>| #[trigger] is_chain(g, p) && p[0] == d && p.last() == u;
            lemma_same_chain(g, h, p);
        }
        if feeds(h, u, d) {
            let p = choose|p: Seq<usize>| #[trigger] is_chain(h, p) && p[0] == d && p.last() == u;
            lemma_same_chain(g, h, p);
        }
    }
    if well_formed(g) {
        assert forall|d: int, k: int| 0 <= d < g.len() && 0 <= k < g[d].inputs.len() implies nbrs(g, #[trigger] g[d].inputs[k] as int, false)
            == nbrs(h, g[d].inputs[k] as int, false) by {
            let x = g[d].inputs[k] as int;
            assert(0 <= x < g.len());
            assert(h[x].links == g[x].links);
        }
        assert forall|d: int| 0 <= d < g.len() implies #[trigger] h[d].inputs == g[d].inputs by {
            assert(h[d].links == g[d].links);
        }
        if inputs_linked(g) {
            assert forall|d: int, k: int|
                0 <= d < h.len() && 0 <= k < h[d].inputs.len() implies nbrs(h, #[trigger] h[d].inputs[k] as int, false).contains(d as usize) by {
                assert(h[d].inputs == g[d].inputs);
                assert(nbrs(g, g[d].inputs[k] as int, false).contains(d as usize));
            }
        }
        if inputs_linked(h) {
            assert forall|d: int, k: int|
                0 <= d < g.len() && 0 <= k < g[d].inputs.len() implies nbrs(g, #[trigger] g[d].inputs[k] as int, false).contains(d as usize) by {
                assert(h[d].inputs == g[d].inputs);
                assert(nbrs(h, h[d].inputs[k] as int, false).contains(d as usize));
            }
        }
    }
}

/// A living node is reached by a change at anything that feeds it.
pub proof fn lemma_fed_reached<T>(g: Seq<NodeView<T>>, p: Seq<usize>)
    requires
        inputs_linked(g),
        is_chain(g, p),
        alive(g, p[0]),
    ensures
        reached(g, p.last(), p[0]),
    decreases p.len(),
{
    let d = p[0];
    if p.len() == 1 {
        assert(alive_mask(g)[d as int]);
        assert(is_walk(g, false, alive_mask(g), seq![d]));
    } else {
        let q = p.drop_first();
        let x = p[1];
        assert(g[d as int].inputs.contains(x));
        law_kept_alive(g, d, x);
        assert forall|i: int| 0 <= i < q.len() - 1 implies #[trigger] g[q[i] as int].inputs.contains(q[i + 1]) by {
            assert(q[i] == p[i + 1] && q[i + 1] == p[i + 2]);
        }
        assert(is_chain(g, q));
        lemma_fed_reached(g, q);
        let w = choose|w: Seq<usize>| #[trigger] is_walk(g, false, alive_mask(g), w) && w[0] == q.last() && w.last() == x;
        let k = choose|k: int| 0 <= k < g[d as int].inputs.len() && g[d as int].inputs[k] == x;
        assert(nbrs(g, x as int, false).contains(d));
        let w2 = w.push(d);
        assert forall|i: int| 0 <= i < w2.len() - 1 implies nbrs(g, #[trigger] w2[i] as int, false).contains(w2[i + 1]) by {
            if i < w.len() - 1 {
                assert(w2[i] == w[i] && w2[i + 1] == w[i + 1]);
            }
        }
        assert(alive_mask(g)[d as int]);
        assert(is_walk(g, false, alive_mask(g), w2));
        assert(reached(g, q.last(), d));
    }
}

/// A write carried to the end keeps every read up to date, once the
/// written value takes a stamp later than all others.
pub proof fn law_up_to_date_after_change<T>(g: Seq<NodeView<T>>, stamps: Seq<nat>, a: usize, value: T, clock: nat)
    requires
        up_to_date(g, stamps),
        well_formed(g),
        inputs_linked(g),
        stamps.len() == g.len(),
        later::<T>(stamps, clock),
        a < g.len(),
        g[a as int].cell is Value,
    ensures
        ({
            let g1 = after_set(g, a as int, value);
            let r = run(g1, seq![a], Seq::empty(), visits(g1, a).len()).0;
            &&& up_to_date(r, stamps.update(a as int, clock))
            &&& inputs_linked(r)
        }),
{
    let g1 = after_set(g, a as int, value);
    let r = run(g1, seq![a], Seq::empty(), visits(g1, a).len()).0;
    let st = stamps.update(a as int, clock);
    assert forall|i: int| 0 <= i < g.len() implies #[trigger] g1[i].links == g[i].links && g1[i].strong_links == g[i].strong_links
        && g1[i].inputs == g[i].inputs && g1[i].held == g[i].held by {}
    assert(same_structure(g, g1));
    lemma_same_structure(g, g1);
    law_change_propagates(g1, a);
    lemma_same_structure(g1, r);
    lemma_same_feeds(g, g1);
    lemma_same_feeds(g1, r);
    assert forall|d: usize, u: usize|
        d < r.len() && u < r.len() && (r[d as int].cell matches Cell::Derived { dirty, .. } && !dirty) && alive(r, d)
            && r[u as int].cell is Value && #[trigger] feeds(r, u, d) implies st[u as int] < st[d as int] by {
        assert(r[d as int] == r[d as int]);
        assert(r[u as int] == r[u as int]);
        // d was not reached: a reached derived node is dirty
        assert(!reached(g1, a, d));
        assert(g[d as int].cell == r[d as int].cell);
        if u == a {
            assert(feeds(g1, u, d));
            assert(alive(g1, d));
            let p = choose|p: Seq<usize>| #[trigger] is_chain(g1, p) && p[0] == d && p.last() == u;
            lemma_fed_reached(g1, p);
        }
        assert(u != a);
        assert(g[u as int].cell is Value) by {
            if reached(g1, a, u) {
                assert(touched(g1[u as int].cell) == g1[u as int].cell);
            }
        }
        assert(feeds(g, u, d));
        assert(alive(g, d));
    }
}

/// Reading a dirty derived node, which the caller then recomputes, gives it
/// a stamp later than all others; any other read changes no stamp.
pub proof fn law_up_to_date_after_get<T>(g: Seq<NodeView<T>>, stamps: Seq<nat>, id: usize, clock: nat)
    requires
        up_to_date(g, stamps),
        well_formed(g),
        stamps.len() == g.len(),
        later::<T>(stamps, clock),
        id < g.len(),
    ensures
        up_to_date(
            after_get(g, id as int).0,
            if after_get(g, id as int).1 is Stale { stamps.update(id as int, clock) } else { stamps },
        ),
        inputs_linked(g) ==> inputs_linked(after_get(g, id as int).0),
{
    let h = after_get(g, id as int).0;
    assert forall|i: int| 0 <= i < g.len() implies #[trigger] h[i].links == g[i].links && h[i].strong_links == g[i].strong_links
        && h[i].inputs == g[i].inputs && h[i].held == g[i].held by {}
    assert(same_structure(g, h));
    lemma_same_structure(g, h);
    lemma_same_feeds(g, h);
}

/// Storing a computed value changes no stamp and keeps reads up to date.
pub proof fn law_up_to_date_after_store<T>(g: Seq<NodeView<T>>, stamps: Seq<nat>, id: usize, value: T)
    requires
        up_to_date(g, stamps),
        well_formed(g),
        id < g.len(),
        g[id as int].cell is Derived,
    ensures
        up_to_date(after_store(g, id as int, value), stamps),
        inputs_linked(g) ==> inputs_linked(after_store(g, id as int, value)),
{
    let h = after_store(g, id as int, value);
    assert forall|i: int| 0 <= i < g.len() implies #[trigger] h[i].links == g[i].links && h[i].strong_links == g[i].strong_links
        && h[i].inputs == g[i].inputs && h[i].held == g[i].held by {}
    assert(same_structure(g, h));
    lemma_same_structure(g, h);
    lemma_same_feeds(g, h);
}

/// The keep-alive edges of `h` come from `g`, or lead to a node new in `h`,
/// or to a node already alive in `g`.
pub open spec fn no_revival<T>(g: Seq<NodeView<T>>, h: Seq<NodeView<T>>) -> bool {
    &&& forall|n: int| 0 <= n < g.len() && #[trigger] h[n].held ==> g[n].held
    &&& forall|u: int, w: usize|
        0 <= u < h.len() && #[trigger] nbrs(h, u, true).contains(w) ==> (u < g.len() && nbrs(g, u, true).contains(w)) || w
            >= g.len() || alive(g, w)
}

/// A chain that starts off node `e` and runs through nodes whose inputs are
/// as in `g`, where nothing reads from `e`, is a chain of `g` that never
/// passes through `e`.
#[verifier::spinoff_prover]
proof fn lemma_chain_old<T>(g: Seq<NodeView<T>>, h: Seq<NodeView<T>>, e: int, p: Seq<usize>)
    requires
        forall|i: int, k: int|
            0 <= i < g.len() && 0 <= k < g[i].inputs.len() ==> #[trigger] g[i].inputs[k] < g.len() && g[i].inputs[k] != e,
        g.len() <= h.len(),
        forall|i: int| 0 <= i < g.len() && i != e ==> #[trigger] h[i].inputs == g[i].inputs,
        is_chain(h, p),
        p[0] < g.len(),
        p[0] != e,
    ensures
        is_chain(g, p),
        forall|i: int| 0 <= i < p.len() ==> #[trigger] p[i] != e,
    decreases p.len(),
{
    if p.len() > 1 {
        let q = p.drop_last();
        assert forall|i: int| 0 <= i < q.len() - 1 implies #[trigger] h[q[i] as int].inputs.contains(q[i + 1]) by {
            assert(q[i] == p[i] && q[i + 1] == p[i + 1]);
        }
        lemma_chain_old(g, h, e, q);
        let j = p.len() - 2;
        let x = p[j];
        assert(q[q.len() - 1] == x);
        assert(x != e);
        assert(h[p[j] as int].inputs.contains(p[j + 1]));
        assert(p[j + 1] == p.last());
        assert(h[x as int].inputs == g[x as int].inputs);
        let k = choose|k: int| 0 <= k < g[x as int].inputs.len() && g[x as int].inputs[k] == p.last();
        assert(g[x as int].inputs[k] < g.len());
        assert forall|i: int| 0 <= i < p.len() - 1 implies #[trigger] g[p[i] as int].inputs.contains(p[i + 1]) by {
            if i < p.len() - 2 {
                assert(q[i] == p[i] && q[i + 1] == p[i + 1]);
                assert(g[q[i] as int].inputs.contains(q[i + 1]));
            }
        }
        assert forall|i: int| 0 <= i < p.len() implies #[trigger] p[i] < g.len() by {
            if i < p.len() - 1 {
                assert(q[i] == p[i]);
            }
        }
        assert forall|i: int| 0 <= i < p.len() implies #[trigger] p[i] != e by {
            if i < p.len() - 1 {
                assert(q[i] == p[i]);
            }
        }
    }
}

proof fn lemma_alive_walk<T>(g: Seq<NodeView<T>>, h: Seq<NodeView<T>>, q: Seq<usize>)
    requires
        well_formed(g),
        g.len() <= h.len(),
        no_revival(g, h),
        is_walk(h, true, everything(h), q),
        h[q[0] as int].held,
    ensures
        q.last() >= g.len() || alive(g, q.last()),
    decreases q.len(),
{
    if q.len() == 1 {
        let k = q[0];
        if k < g.len() {
            assert(g[k as int].held);
            assert(is_walk(g, true, everything(g), seq![k]));
            assert(reaches(g, true, everything(g), k, k));
        }
    } else {
        let r = q.drop_last();
        assert forall|i: int| 0 <= i < r.len() - 1 implies nbrs(h, #[trigger] r[i] as int, true).contains(r[i + 1]) by {
            assert(r[i] == q[i] && r[i + 1] == q[i + 1]);
        }
        assert forall|i: int| 0 <= i < r.len() implies #[trigger] r[i] < h.len() && everything(h)[r[i] as int] by {
            assert(r[i] == q[i]);
        }
        lemma_alive_walk(g, h, r);
        let u = q[q.len() - 2];
        let w = q.last();
        assert(r.last() == u);
        assert(nbrs(h, u as int, true).contains(w));
        if u < g.len() && nbrs(g, u as int, true).contains(w) && w < g.len() {
            let k = choose|k: int| 0 <= k < nbrs(g, u as int, true).len() && nbrs(g, u as int, true)[k] == w;
            if k < g[u as int].strong_links.len() {
                assert(g[u as int].strong_links[k] == w);
            } else {
                assert(g[u as int].inputs[k - g[u as int].strong_links.len()] == w);
            }
            law_kept_alive(g, u, w);
        }
    }
}

/// Reads stay up to date across any operation that keeps every old node's
/// cell and stamp, and its inputs but for node `e`, which nothing reads from
/// and which is no clean derived node; that lets go of holders only, adds no
/// clean derived node, and revives no dead node.
pub proof fn law_up_to_date_framed<T>(g: Seq<NodeView<T>>, h: Seq<NodeView<T>>, e: int, stamps: Seq<nat>, stamps2: Seq<nat>)
    requires
        up_to_date(g, stamps),
        well_formed(g),
        g.len() <= h.len(),
        stamps.len() == g.len(),
        stamps2.len() == h.len(),
        forall|i: int| 0 <= i < g.len() ==> #[trigger] h[i].cell == g[i].cell && stamps2[i] == stamps[i],
        forall|i: int| 0 <= i < g.len() && i != e ==> #[trigger] h[i].inputs == g[i].inputs,
        forall|i: int, k: int| 0 <= i < g.len() && 0 <= k < g[i].inputs.len() ==> #[trigger] g[i].inputs[k] != e,
        forall|i: int| g.len() <= i < h.len() ==> !(#[trigger] h[i].cell matches Cell::Derived { dirty, .. } && !dirty),
        0 <= e < g.len() ==> !(h[e].cell matches Cell::Derived { dirty, .. } && !dirty),
        no_revival(g, h),
    ensures
        up_to_date(h, stamps2),
{
    assert forall|d: usize, u: usize|
        d < h.len() && u < h.len() && (h[d as int].cell matches Cell::Derived { dirty, .. } && !dirty) && alive(h, d)
            && h[u as int].cell is Value && #[trigger] feeds(h, u, d) implies stamps2[u as int] < stamps2[d as int] by {
        assert(d < g.len());
        assert(d != e);
        let p = choose|p: Seq<usize>| #[trigger] is_chain(h, p) && p[0] == d && p.last() == u;
        lemma_chain_old(g, h, e, p);
        assert(feeds(g, u, d));
        assert(u < g.len());
        let k = choose|k: usize| k < h.len() && h[k as int].held && #[trigger] reaches(h, true, everything(h), k, d);
        let q = choose|q: Seq<usize>| #[trigger] is_walk(h, true, everything(h), q) && q[0] == k && q.last() == d;
        lemma_alive_walk(g, h, q);
    }
}

/// Letting go of a node keeps reads up to date.
pub proof fn law_up_to_date_after_release<T>(g: Seq<NodeView<T>>, stamps: Seq<nat>, id: usize)
    requires
        up_to_date(g, stamps),
        well_formed(g),
        inputs_linked(g),
        stamps.len() == g.len(),
        id < g.len(),
    ensures
        up_to_date(released(g, id as int), stamps),
        inputs_linked(released(g, id as int)),
{
    let h = released(g, id as int);
    assert forall|u: int, w: usize| 0 <= u < h.len() && #[trigger] nbrs(h, u, true).contains(w) implies (u < g.len() && nbrs(g, u, true).contains(w)) || w >= g.len() || alive(g, w) by {
        assert(nbrs(h, u, true) == nbrs(g, u, true));
    }
    assert(no_revival(g, h));
    law_up_to_date_framed(g, h, g.len() as int, stamps, stamps);
    assert forall|d: int, k: int| 0 <= d < h.len() && 0 <= k < h[d].inputs.len() implies nbrs(h, #[trigger] h[d].inputs[k] as int, false).contains(d as usize) by {
        assert(h[d].inputs == g[d].inputs);
        let x = g[d].inputs[k] as int;
        assert(nbrs(g, x, false).contains(d as usize));
        assert(nbrs(h, x, false) == nbrs(g, x, false));
    }
}

/// Making a node with no links keeps reads up to date, whatever its stamp,
/// unless it is a clean derived node.
pub proof fn law_up_to_date_after_new<T>(g: Seq<NodeView<T>>, stamps: Seq<nat>, c: Cell<T>, clock: nat)
    requires
        up_to_date(g, stamps),
        well_formed(g),
        inputs_linked(g),
        stamps.len() == g.len(),
        !(c matches Cell::Derived { dirty, .. } && !dirty),
    ensures
        up_to_date(g.push(fresh(c)), stamps.push(clock)),
        inputs_linked(g.push(fresh(c))),
{
    let h = g.push(fresh(c));
    assert forall|u: int, w: usize| 0 <= u < h.len() && #[trigger] nbrs(h, u, true).contains(w) implies (u < g.len() && nbrs(g, u, true).contains(w)) || w >= g.len() || alive(g, w) by {
        if u < g.len() {
            assert(nbrs(h, u, true) == nbrs(g, u, true));
        } else {
            assert(nbrs(h, u, true) =~= Seq::<usize>::empty());
        }
    }
    assert(no_revival(g, h));
    law_up_to_date_framed(g, h, g.len() as int, stamps, stamps.push(clock));
    assert forall|d: int, k: int| 0 <= d < h.len() && 0 <= k < h[d].inputs.len() implies nbrs(h, #[trigger] h[d].inputs[k] as int, false).contains(d as usize) by {
        assert(d < g.len());
        assert(h[d].inputs == g[d].inputs);
        let x = g[d].inputs[k] as int;
        assert(0 <= x < g.len());
        assert(nbrs(g, x, false).contains(d as usize));
        assert(nbrs(h, x, false) == nbrs(g, x, false));
    }
}

/// Adding a link keeps reads up to date, as long as a strong link leads to
/// a node that is still alive.
pub proof fn law_up_to_date_after_link<T>(g: Seq<NodeView<T>>, stamps: Seq<nat>, from: usize, to: usize, strong: bool)
    requires
        up_to_date(g, stamps),
        well_formed(g),
        inputs_linked(g),
        stamps.len() == g.len(),
        from < g.len(),
        to < g.len(),
        strong ==> alive(g, to),
    ensures
        up_to_date(linked(g, from, to, strong), stamps),
        inputs_linked(linked(g, from, to, strong)),
{
    let h = linked(g, from, to, strong);
    assert forall|u: int| 0 <= u < g.len() implies #[trigger] h[u].inputs == g[u].inputs && h[u].cell == g[u].cell
        && h[u].held == g[u].held && (u != from ==> h[u].links == g[u].links && h[u].strong_links == g[u].strong_links)
        && (u == from ==> (if strong { h[u].links == g[u].links && h[u].strong_links == g[u].strong_links.push(to) } else { h[u].links == g[u].links.push(to) && h[u].strong_links == g[u].strong_links })) by {}
    assert forall|u: int, w: usize| 0 <= u < h.len() && #[trigger] nbrs(h, u, true).contains(w) implies (u < g.len() && nbrs(g, u, true).contains(w)) || w >= g.len() || alive(g, w) by {
        assert(h[u].inputs == g[u].inputs);
        if u == from as int && strong {
            lemma_in_concat(g[u].strong_links.push(to), g[u].inputs, w);
            lemma_in_concat(g[u].strong_links, g[u].inputs, w);
            if g[u].strong_links.push(to).contains(w) && !g[u].strong_links.contains(w) {
                let i = choose|i: int| 0 <= i < g[u].strong_links.len() + 1 && g[u].strong_links.push(to)[i] == w;
                if i < g[u].strong_links.len() {
                    assert(g[u].strong_links[i] == w);
                }
            }
        } else {
            assert(nbrs(h, u, true) == nbrs(g, u, true));
        }
    }
    assert(no_revival(g, h));
    law_up_to_date_framed(g, h, g.len() as int, stamps, stamps);
    assert forall|d: int, k: int| 0 <= d < h.len() && 0 <= k < h[d].inputs.len() implies nbrs(h, #[trigger] h[d].inputs[k] as int, false).contains(d as usize) by {
        assert(h[d].inputs == g[d].inputs);
        let x = g[d].inputs[k] as int;
        assert(0 <= x < g.len());
        assert(h[x].inputs == g[x].inputs);
        assert(nbrs(g, x, false).contains(d as usize));
        let y = d as usize;
        lemma_in_concat(g[x].links, g[x].strong_links, y);
        if x == from as int {
            if strong {
                lemma_in_concat(g[x].links, g[x].strong_links.push(to), y);
                if g[x].strong_links.contains(y) {
                    let i = choose|i: int| 0 <= i < g[x].strong_links.len() && g[x].strong_links[i] == y;
                    assert(g[x].strong_links.push(to)[i] == y);
                }
            } else {
                lemma_in_concat(g[x].links.push(to), g[x].strong_links, y);
                if g[x].links.contains(y) {
                    let i = choose|i: int| 0 <= i < g[x].links.len() && g[x].links[i] == y;
                    assert(g[x].links.push(to)[i] == y);
                }
            }
        } else {
            assert(nbrs(h, x, false) == nbrs(g, x, false));
        }
    }
}

/// Making node `id` read from `inputs`, as `derive` and `watch` do, keeps
/// reads up to date, as long as the inputs are alive, `id` is too where the
/// links are strong, `id` is no clean derived node, and nothing reads from
/// `id`.
pub proof fn law_up_to_date_after_depend<T>(g: Seq<NodeView<T>>, stamps: Seq<nat>, id: usize, inputs: Seq<usize>, strong: bool)
    requires
        up_to_date(g, stamps),
        well_formed(g),
        inputs_linked(g),
        stamps.len() == g.len(),
        id < g.len(),
        forall|j: int| 0 <= j < inputs.len() ==> #[trigger] inputs[j] < g.len() && alive(g, inputs[j]),
        strong ==> alive(g, id),
        !(g[id as int].cell matches Cell::Derived { dirty, .. } && !dirty),
        forall|i: int, k: int| 0 <= i < g.len() && 0 <= k < g[i].inputs.len() ==> #[trigger] g[i].inputs[k] != id,
    ensures
        up_to_date(depending(g, id, inputs, strong), stamps),
        inputs_linked(depending(g, id, inputs, strong)),
{
    let h = depending(g, id, inputs, strong);
    assert forall|u: int| 0 <= u < g.len() implies {
        let extra = if inputs.contains(u as usize) { seq![id] } else { Seq::<usize>::empty() };
        &&& #[trigger] h[u].cell == g[u].cell
        &&& h[u].held == g[u].held
        &&& (u != id ==> h[u].inputs == g[u].inputs)
        &&& (u == id ==> h[u].inputs == g[u].inputs + inputs)
        &&& (strong ==> h[u].links == g[u].links && h[u].strong_links == g[u].strong_links + extra)
        &&& (!strong ==> h[u].links == g[u].links + extra && h[u].strong_links == g[u].strong_links)
    } by {}
    assert forall|u: int, w: usize| 0 <= u < h.len() && #[trigger] nbrs(h, u, true).contains(w) implies (u < g.len() && nbrs(g, u, true).contains(w)) || w >= g.len() || alive(g, w) by {
        let extra = if inputs.contains(u as usize) { seq![id] } else { Seq::<usize>::empty() };
        let gs = g[u].strong_links;
        let gi = g[u].inputs;
        let hs = h[u].strong_links;
        let hi = h[u].inputs;
        assert(h[u].cell == g[u].cell);
        lemma_in_concat(hs, hi, w);
        lemma_in_concat(gs, gi, w);
        if strong {
            lemma_in_concat(gs, extra, w);
        }
        if u == id as int {
            lemma_in_concat(gi, inputs, w);
            if inputs.contains(w) {
                let j = choose|j: int| 0 <= j < inputs.len() && inputs[j] == w;
            }
        }
    }
    assert(no_revival(g, h));
    law_up_to_date_framed(g, h, id as int, stamps, stamps);
    assert forall|d: int, k: int| 0 <= d < h.len() && 0 <= k < h[d].inputs.len() implies nbrs(h, #[trigger] h[d].inputs[k] as int, false).contains(d as usize) by {
        let x = h[d].inputs[k];
        assert(h[x as int].cell == g[x as int].cell) by {
            if d != id as int || k < g[d].inputs.len() {
                assert(x == g[d].inputs[k]);
            } else {
                assert(x == inputs[k - g[d].inputs.len()]);
            }
        }
        let extra = if inputs.contains(x) { seq![id] } else { Seq::<usize>::empty() };
        let gl = g[x as int].links;
        let gs = g[x as int].strong_links;
        lemma_in_concat(gl, gs, d as usize);
        lemma_in_concat(gl, extra, d as usize);
        lemma_in_concat(gs, extra, d as usize);
        lemma_in_concat(gl + extra, gs, d as usize);
        lemma_in_concat(gl, gs + extra, d as usize);
        if d != id as int || k < g[d].inputs.len() {
            assert(x == g[d].inputs[k]);
            assert(nbrs(g, x as int, false).contains(d as usize));
        } else {
            let j = k - g[d].inputs.len();
            assert(x == inputs[j]);
            assert(inputs.contains(x));
            assert(extra[0] == id);
            assert(extra.contains(id));
        }
    }
}

/// A node alive before a new node is made is alive after.
proof fn lemma_alive_push<T>(g: Seq<NodeView<T>>, c: Cell<T>, x: usize)
    requires
        alive(g, x),
    ensures
        alive(g.push(fresh(c)), x),
{
    let h = g.push(fresh(c));
    let k = choose|k: usize| k < g.len() && g[k as int].held && #[trigger] reaches(g, true, everything(g), k, x);
    let q = choose|q: Seq<usize>| #[trigger] is_walk(g, true, everything(g), q) && q[0] == k && q.last() == x;
    assert forall|i: int| 0 <= i < q.len() - 1 implies nbrs(h, #[trigger] q[i] as int, true).contains(q[i + 1]) by {
        assert(q[i] < g.len());
        assert(nbrs(h, q[i] as int, true) == nbrs(g, q[i] as int, true));
    }
    assert(is_walk(h, true, everything(h), q));
    assert(h[k as int].held);
    assert(reaches(h, true, everything(h), k, x));
}

/// Making a derived node that reads from living inputs, as `derive` does,
/// keeps reads up to date, whatever its stamp.
pub proof fn law_up_to_date_after_derive<T>(g: Seq<NodeView<T>>, stamps: Seq<nat>, id: usize, inputs: Seq<usize>, initial: T, clock: nat)
    requires
        up_to_date(g, stamps),
        well_formed(g),
        inputs_linked(g),
        stamps.len() == g.len(),
        id == g.len(),
        forall|j: int| 0 <= j < inputs.len() ==> #[trigger] inputs[j] < g.len() && alive(g, inputs[j]),
    ensures
        up_to_date(depending(g.push(fresh(Cell::Derived { value: initial, dirty: true })), id, inputs, false), stamps.push(clock)),
        inputs_linked(depending(g.push(fresh(Cell::Derived { value: initial, dirty: true })), id, inputs, false)),
{
    let c = Cell::Derived { value: initial, dirty: true };
    let g1 = g.push(fresh(c));
    law_up_to_date_after_new(g, stamps, c, clock);
    assert forall|i: int, k: int| 0 <= i < g1.len() && 0 <= k < nbrs(g1, i, false).len() implies #[trigger] nbrs(g1, i, false)[k] < g1.len() by {
        if i < g.len() {
            assert(nbrs(g1, i, false) == nbrs(g, i, false));
        } else {
            assert(nbrs(g1, i, false) =~= Seq::<usize>::empty());
        }
    }
    assert forall|i: int, k: int| 0 <= i < g1.len() && 0 <= k < g1[i].inputs.len() implies #[trigger] g1[i].inputs[k] < g.len() by {
        assert(i < g.len());
        assert(g1[i].inputs == g[i].inputs);
    }
    assert(well_formed(g1));
    assert forall|j: int| 0 <= j < inputs.len() implies #[trigger] inputs[j] < g1.len() && alive(g1, inputs[j]) by {
        lemma_alive_push(g, c, inputs[j]);
    }
    law_up_to_date_after_depend(g1, stamps.push(clock), id, inputs, false);
}

/// A change carried to the end, with no write, keeps reads up to date: it
/// only makes nodes dirty.
pub proof fn law_up_to_date_after_invalidate<T>(g: Seq<NodeView<T>>, stamps: Seq<nat>, x: usize)
    requires
        up_to_date(g, stamps),
        well_formed(g),
        inputs_linked(g),
        stamps.len() == g.len(),
        x < g.len(),
    ensures
        up_to_date(run(g, seq![x], Seq::empty(), visits(g, x).len()).0, stamps),
        inputs_linked(run(g, seq![x], Seq::empty(), visits(g, x).len()).0),
{
    let r = run(g, seq![x], Seq::empty(), visits(g, x).len()).0;
    law_change_propagates(g, x);
    lemma_same_structure(g, r);
    lemma_same_feeds(g, r);
    assert forall|d: usize, u: usize|
        d < r.len() && u < r.len() && (r[d as int].cell matches Cell::Derived { dirty, .. } && !dirty) && alive(r, d)
            && r[u as int].cell is Value && #[trigger] feeds(r, u, d) implies stamps[u as int] < stamps[d as int] by {
        assert(r[d as int] == r[d as int]);
        assert(r[u as int] == r[u as int]);
        assert(!reached(g, x, d));
        assert(g[d as int].cell == r[d as int].cell);
        assert(g[u as int].cell is Value) by {
            if reached(g, x, u) {
                assert(touched(g[u as int].cell) == r[u as int].cell);
            }
        }
        assert(feeds(g, u, d));
        assert(alive(g, d));
    }
}

/// An empty graph is up to date.
pub proof fn law_up_to_date_empty<T>()
    ensures
        up_to_date(Seq::<NodeView<T>>::empty(), Seq::<nat>::empty()),
        inputs_linked(Seq::<NodeView<T>>::empty()),
{
}

/// In an up-to-date graph, reading a living clean derived node gives its
/// stored value, which was recomputed after the last write to every value
/// that feeds it: no read is stale.
pub proof fn law_no_stale_read<T>(g: Seq<NodeView<T>>, stamps: Seq<nat>, d: usize, u: usize)
    requires
        up_to_date(g, stamps),
        d < g.len(),
        u < g.len(),
        g[d as int].cell matches Cell::Derived { dirty, .. } && !dirty,
        alive(g, d),
        g[u as int].cell is Value,
        feeds(g, u, d),
    ensures
        after_get(g, d as int) == (g, crate::spec::Fetch::Ready(g[d as int].cell->value)),
        stamps[u as int] < stamps[d as int],
{
}

/// One operation on the graph, as a caller makes it.
pub enum Op<T> {
    /// `set` on a value node, the change carried to the end.
    Write(usize, T),
    /// `invalidate` of a node, the change carried to the end.
    Invalidate(usize),
    /// `get` on a value or derived node; where it finds the node stale, the
    /// caller recomputes it from here on.
    Read(usize),
    /// `store` of a computed value in a derived node.
    Store(usize, T),
    /// `release` of a node.
    Release(usize),
    /// `new_value`, `new_derived` or `new_react`: a node with the given cell.
    Make(Cell<T>),
    /// `derive` from the given inputs, with the given initial value.
    Derive(Seq<usize>, T),
    /// `watch` by the given reaction of the given inputs.
    Watch(usize, Seq<usize>),
    /// `link` (weak) or `strong_link` from a node to another.
    Link(usize, usize, bool),
}

/// Whether `op` can be made on `g`: what each function requires, and the
/// conditions under which it keeps reads up to date. A new node is made
/// with no clean value; inputs are alive when read from; a strong link
/// leads to a living node; a reaction that comes to watch is alive, and
/// nothing reads from it.
pub open spec fn allowed_op<T>(g: Seq<NodeView<T>>, op: Op<T>) -> bool {
    match op {
        Op::Write(a, _) => a < g.len() && g[a as int].cell is Value,
        Op::Invalidate(x) => x < g.len(),
        Op::Read(id) => id < g.len() && !(g[id as int].cell is React),
        Op::Store(id, _) => id < g.len() && g[id as int].cell is Derived,
        Op::Release(id) => id < g.len(),
        Op::Make(c) => !(c matches Cell::Derived { dirty, .. } && !dirty),
        Op::Derive(inputs, _) => g.len() < usize::MAX && forall|j: int|
            0 <= j < inputs.len() ==> #[trigger] inputs[j] < g.len() && alive(g, inputs[j]),
        Op::Watch(id, inputs) => {
            &&& id < g.len()
            &&& g[id as int].cell is React
            &&& alive(g, id)
            &&& forall|i: int, k: int| 0 <= i < g.len() && 0 <= k < g[i].inputs.len() ==> #[trigger] g[i].inputs[k] != id
            &&& forall|j: int| 0 <= j < inputs.len() ==> #[trigger] inputs[j] < g.len() && alive(g, inputs[j])
        },
        Op::Link(from, to, strong) => from < g.len() && to < g.len() && (strong ==> alive(g, to)),
    }
}

/// The graph and the stamps after `op`, made at time `clock`: a write
/// stamps the written value, a read that finds a node stale stamps it as
/// recomputed, and a new node is stamped with the time it was made.
pub open spec fn apply_op<T>(g: Seq<NodeView<T>>, stamps: Seq<nat>, clock: nat, op: Op<T>) -> (Seq<NodeView<T>>, Seq<nat>) {
    match op {
        Op::Write(a, v) => {
            let g1 = after_set(g, a as int, v);
            (run(g1, seq![a], Seq::empty(), visits(g1, a).len()).0, stamps.update(a as int, clock))
        },
        Op::Invalidate(x) => (run(g, seq![x], Seq::empty(), visits(g, x).len()).0, stamps),
        Op::Read(id) => (
            after_get(g, id as int).0,
            if after_get(g, id as int).1 is Stale { stamps.update(id as int, clock) } else { stamps },
        ),
        Op::Store(id, v) => (after_store(g, id as int, v), stamps),
        Op::Release(id) => (released(g, id as int), stamps),
        Op::Make(c) => (g.push(fresh(c)), stamps.push(clock)),
        Op::Derive(inputs, v) => (
            depending(g.push(fresh(Cell::Derived { value: v, dirty: true })), g.len() as usize, inputs, false),
            stamps.push(clock),
        ),
        Op::Watch(id, inputs) => (depending(g, id, inputs, true), stamps),
        Op::Link(from, to, strong) => (linked(g, from, to, strong), stamps),
    }
}

/// The graph and the stamps after `ops`, made one after another from time
/// `clock` on.
pub open spec fn apply_ops<T>(g: Seq<NodeView<T>>, stamps: Seq<nat>, clock: nat, ops: Seq<Op<T>>) -> (Seq<NodeView<T>>, Seq<nat>)
    decreases ops.len(),
{
    if ops.len() == 0 {
        (g, stamps)
    } else {
        let next = apply_op(g, stamps, clock, ops[0]);
        apply_ops(next.0, next.1, clock + 1, ops.drop_first())
    }
}

/// Each of `ops` can be made in its turn.
pub open spec fn allowed_ops<T>(g: Seq<NodeView<T>>, stamps: Seq<nat>, clock: nat, ops: Seq<Op<T>>) -> bool
    decreases ops.len(),
{
    ops.len() == 0 || {
        let next = apply_op(g, stamps, clock, ops[0]);
        allowed_op(g, ops[0]) && allowed_ops(next.0, next.1, clock + 1, ops.drop_first())
    }
}

/// What holds between operations: reads are up to date, the graph is well
/// formed, every input links to its reader, and `clock` is later than every
/// stamp.
pub open spec fn fresh_state<T>(g: Seq<NodeView<T>>, stamps: Seq<nat>, clock: nat) -> bool {
    &&& up_to_date(g, stamps)
    &&& well_formed(g)
    &&& inputs_linked(g)
    &&& stamps.len() == g.len()
    &&& later::<T>(stamps, clock)
}

/// Each allowed operation keeps the state fresh.
pub proof fn law_op_keeps_fresh<T>(g: Seq<NodeView<T>>, stamps: Seq<nat>, clock: nat, op: Op<T>)
    requires
        fresh_state(g, stamps, clock),
        allowed_op(g, op),
    ensures
        fresh_state(apply_op(g, stamps, clock, op).0, apply_op(g, stamps, clock, op).1, clock + 1),
{
    let next = apply_op(g, stamps, clock, op);
    match op {
        Op::Write(a, v) => {
            law_up_to_date_after_change(g, stamps, a, v, clock);
            let g1 = after_set(g, a as int, v);
            assert forall|i: int| 0 <= i < g.len() implies #[trigger] g1[i].links == g[i].links && g1[i].strong_links == g[i].strong_links
                && g1[i].inputs == g[i].inputs && g1[i].held == g[i].held by {}
            lemma_same_structure(g, g1);
            law_change_propagates(g1, a);
            lemma_same_structure(g1, next.0);
        },
        Op::Invalidate(x) => {
            law_up_to_date_after_invalidate(g, stamps, x);
            law_change_propagates(g, x);
            lemma_same_structure(g, next.0);
        },
        Op::Read(id) => {
            law_up_to_date_after_get(g, stamps, id, clock);
            let h = next.0;
            assert forall|i: int| 0 <= i < g.len() implies #[trigger] h[i].links == g[i].links && h[i].strong_links == g[i].strong_links
                && h[i].inputs == g[i].inputs by {}
            lemma_same_links(g, h);
        },
        Op::Store(id, v) => {
            law_up_to_date_after_store(g, stamps, id, v);
            let h = next.0;
            assert forall|i: int| 0 <= i < g.len() implies #[trigger] h[i].links == g[i].links && h[i].strong_links == g[i].strong_links
                && h[i].inputs == g[i].inputs by {}
            lemma_same_links(g, h);
        },
        Op::Release(id) => {
            law_up_to_date_after_release(g, stamps, id);
            let h = next.0;
            assert forall|i: int| 0 <= i < g.len() implies #[trigger] h[i].links == g[i].links && h[i].strong_links == g[i].strong_links
                && h[i].inputs == g[i].inputs by {}
            lemma_same_links(g, h);
        },
        Op::Make(c) => {
            law_up_to_date_after_new(g, stamps, c, clock);
            lemma_push_well_formed(g, c);
        },
        Op::Derive(inputs, v) => {
            let id = g.len() as usize;
            law_up_to_date_after_derive(g, stamps, id, inputs, v, clock);
            let c = Cell::Derived { value: v, dirty: true };
            lemma_push_well_formed(g, c);
            lemma_depending_well_formed(g.push(fresh(c)), id, inputs, false);
        },
        Op::Watch(id, inputs) => {
            law_up_to_date_after_depend(g, stamps, id, inputs, true);
            lemma_depending_well_formed(g, id, inputs, true);
        },
        Op::Link(from, to, strong) => {
            law_up_to_date_after_link(g, stamps, from, to, strong);
            lemma_linked_well_formed(g, from, to, strong);
        },
    }
}

/// Making a node keeps the graph well formed.
proof fn lemma_push_well_formed<T>(g: Seq<NodeView<T>>, c: Cell<T>)
    requires
        well_formed(g),
    ensures
        well_formed(g.push(fresh(c))),
{
    let g1 = g.push(fresh(c));
    assert forall|i: int, k: int| 0 <= i < g1.len() && 0 <= k < nbrs(g1, i, false).len() implies #[trigger] nbrs(g1, i, false)[k] < g1.len() by {
        if i < g.len() {
            assert(nbrs(g1, i, false) == nbrs(g, i, false));
        } else {
            assert(nbrs(g1, i, false) =~= Seq::<usize>::empty());
        }
    }
    assert forall|i: int, k: int| 0 <= i < g1.len() && 0 <= k < g1[i].inputs.len() implies #[trigger] g1[i].inputs[k] < g1.len() by {
        assert(i < g.len());
        assert(g1[i].inputs == g[i].inputs);
    }
}

/// Any sequence of allowed operations keeps the state fresh.
pub proof fn law_ops_keep_fresh<T>(g: Seq<NodeView<T>>, stamps: Seq<nat>, clock: nat, ops: Seq<Op<T>>)
    requires
        fresh_state(g, stamps, clock),
        allowed_ops(g, stamps, clock, ops),
    ensures
        fresh_state(apply_ops(g, stamps, clock, ops).0, apply_ops(g, stamps, clock, ops).1, clock + ops.len()),
    decreases ops.len(),
{
    if ops.len() > 0 {
        let next = apply_op(g, stamps, clock, ops[0]);
        law_op_keeps_fresh(g, stamps, clock, ops[0]);
        law_ops_keep_fresh(next.0, next.1, clock + 1, ops.drop_first());
        assert(clock + 1 + ops.drop_first().len() == clock + ops.len());
    }
}

/// No read is ever stale: from an empty graph, after any sequence of
/// operations that can each be made in their turn, every living clean
/// derived node was recomputed after the last write to every value that
/// feeds it, and reading it gives its stored value.
pub proof fn law_no_stale_read_ever<T>(ops: Seq<Op<T>>, d: usize, u: usize)
    requires
        allowed_ops(Seq::<NodeView<T>>::empty(), Seq::<nat>::empty(), 0, ops),
    ensures
        ({
            let (g, stamps) = apply_ops(Seq::<NodeView<T>>::empty(), Seq::<nat>::empty(), 0, ops);
            d < g.len() && u < g.len() && (g[d as int].cell matches Cell::Derived { dirty, .. } && !dirty) && alive(g, d)
                && g[u as int].cell is Value && feeds(g, u, d) ==> stamps[u as int] < stamps[d as int]
                && after_get(g, d as int) == (g, crate::spec::Fetch::Ready(g[d as int].cell->value))
        }),
{
    law_up_to_date_empty::<T>();
    law_ops_keep_fresh(Seq::<NodeView<T>>::empty(), Seq::<nat>::empty(), 0, ops);
}

} // verus!
