//! Properties of the graph that span several operations.

use vstd::prelude::*;
use crate::spec::{
    Cell, NodeView, Step, Fetch, nbrs, is_walk, reaches, everything, alive, alive_mask, reached,
    well_formed, touched, after_get, after_step, after_store, after_set, run, reactions, children,
    shape, reversed, count_false, lemma_count_false_set, open, dfs, trim, pad, pending, visits,
    with_cell, depending, with_links_to, released, linked, fresh,
};

verus! {

/// Reading a value node right after writing it gives what was written.
pub proof fn law_get_after_set<T>(g: Seq<NodeView<T>>, id: int, value: T)
    requires
        0 <= id < g.len(),
        g[id].cell is Value,
    ensures
        after_get(after_set(g, id, value), id) == (after_set(g, id, value), Fetch::Ready(value)),
{
}

/// A dirty derived node is read as stale and marked clean; once the caller
/// stores the value it computed, reading gives that value, and reading again
/// changes nothing.
pub proof fn law_recompute_then_ready<T>(g: Seq<NodeView<T>>, id: int, value: T)
    requires
        0 <= id < g.len(),
        g[id].cell matches Cell::Derived { dirty, .. } && dirty,
    ensures
        after_get(g, id).1 is Stale,
        after_get(after_store(after_get(g, id).0, id, value), id) == (
            after_store(after_get(g, id).0, id, value),
            Fetch::Ready(value),
        ),
{
}

/// A clean node is read without any change to the graph, and gives its
/// current value.
pub proof fn law_clean_read_is_pure<T>(g: Seq<NodeView<T>>, id: int)
    requires
        0 <= id < g.len(),
        g[id].cell is Value || (g[id].cell matches Cell::Derived { dirty, .. } && !dirty),
    ensures
        after_get(g, id).0 == g,
        after_get(g, id).1 == (match g[id].cell {
            Cell::Value(v) => Fetch::Ready(v),
            Cell::Derived { value, .. } => Fetch::Ready(value),
            Cell::React => Fetch::Stale,
        }),
{
}

proof fn lemma_reactions_same_kinds<T>(g: Seq<NodeView<T>>, h: Seq<NodeView<T>>, vs: Seq<usize>)
    requires
        g.len() == h.len(),
        forall|i: int| 0 <= i < g.len() ==> (h[i].cell is React <==> g[i].cell is React),
        forall|i: int| 0 <= i < vs.len() ==> vs[i] < g.len(),
    ensures
        reactions(h, vs) == reactions(g, vs),
    decreases vs.len(),
{
    if vs.len() > 0 {
        lemma_reactions_same_kinds(g, h, vs.drop_first());
    }
}

/// A living node keeps alive every node that it links to strongly and every
/// node that it reads from.
pub proof fn law_kept_alive<T>(g: Seq<NodeView<T>>, m: usize, n: usize)
    requires
        m < g.len(),
        n < g.len(),
        alive(g, m),
        g[m as int].strong_links.contains(n) || g[m as int].inputs.contains(n),
    ensures
        alive(g, n),
{
    let h = choose|h: usize| h < g.len() && g[h as int].held && #[trigger] reaches(g, true, everything(g), h, m);
    let p = choose|p: Seq<usize>| #[trigger] is_walk(g, true, everything(g), p) && p[0] == h && p.last() == m;
    let nb = nbrs(g, m as int, true);
    if g[m as int].strong_links.contains(n) {
        let k = choose|k: int| 0 <= k < g[m as int].strong_links.len() && g[m as int].strong_links[k] == n;
        assert(nb[k] == n);
    } else {
        let k = choose|k: int| 0 <= k < g[m as int].inputs.len() && g[m as int].inputs[k] == n;
        assert(nb[g[m as int].strong_links.len() + k] == n);
    }
    let q = p.push(n);
    assert forall|i: int| 0 <= i < q.len() - 1 implies nbrs(g, #[trigger] q[i] as int, true).contains(q[i + 1]) by {
        if i < p.len() - 1 {
            assert(q[i] == p[i] && q[i + 1] == p[i + 1]);
        }
    }
    assert(is_walk(g, true, everything(g), q));
    assert(reaches(g, true, everything(g), h, n));
}

/// Reach is transitive: a change reaches everything reached from a node it
/// reaches.
pub proof fn law_reach_transitive<T>(g: Seq<NodeView<T>>, keep: bool, allowed: Seq<bool>, x: usize, y: usize, z: usize)
    requires
        reaches(g, keep, allowed, x, y),
        reaches(g, keep, allowed, y, z),
    ensures
        reaches(g, keep, allowed, x, z),
{
    let p = choose|p: Seq<usize>| #[trigger] is_walk(g, keep, allowed, p) && p[0] == x && p.last() == y;
    let q = choose|q: Seq<usize>| #[trigger] is_walk(g, keep, allowed, q) && q[0] == y && q.last() == z;
    let w = p + q.drop_first();
    assert forall|i: int| 0 <= i < w.len() implies #[trigger] w[i] < g.len() && allowed[w[i] as int] by {
        if i >= p.len() {
            assert(w[i] == q[i - p.len() + 1]);
        }
    }
    assert forall|i: int| 0 <= i < w.len() - 1 implies nbrs(g, #[trigger] w[i] as int, keep).contains(w[i + 1]) by {
        if i < p.len() - 1 {
            assert(w[i] == p[i] && w[i + 1] == p[i + 1]);
        } else if i == p.len() - 1 {
            assert(w[i] == q[0] && w[i + 1] == q[1]);
        } else {
            assert(w[i] == q[i - p.len() + 1] && w[i + 1] == q[i - p.len() + 2]);
        }
    }
    if q.len() == 1 {
        assert(w =~= p);
    }
    assert(w.last() == z);
    assert(is_walk(g, keep, allowed, w));
}

proof fn lemma_reactions_members<T>(g: Seq<NodeView<T>>, s: Seq<usize>)
    ensures
        forall|v: usize| #[trigger] reactions(g, s).contains(v) <==> (s.contains(v) && g[v as int].cell is React),
        (forall|i: int, j: int| 0 <= i < j < s.len() ==> s[i] != s[j]) ==> (forall|i: int, j: int|
            0 <= i < j < reactions(g, s).len() ==> reactions(g, s)[i] != reactions(g, s)[j]),
    decreases s.len(),
{
    if s.len() > 0 {
        let t = s.drop_first();
        lemma_reactions_members(g, t);
        let head = if g[s[0] as int].cell is React { seq![s[0]] } else { Seq::<usize>::empty() };
        let r = reactions(g, s);
        assert(r == head + reactions(g, t));
        assert forall|v: usize| #[trigger] reactions(g, s).contains(v) <==> (s.contains(v) && g[v as int].cell is React) by {
            if r.contains(v) {
                let i = choose|i: int| 0 <= i < r.len() && r[i] == v;
                if i >= head.len() {
                    assert(reactions(g, t)[i - head.len()] == v);
                    assert(reactions(g, t).contains(v));
                    let k = choose|k: int| 0 <= k < t.len() && t[k] == v;
                    assert(s[k + 1] == v);
                } else {
                    assert(s[0] == v);
                }
            }
            if s.contains(v) && g[v as int].cell is React {
                let k = choose|k: int| 0 <= k < s.len() && s[k] == v;
                if k == 0 {
                    assert(r[0] == v);
                } else {
                    assert(t[k - 1] == v);
                    assert(reactions(g, t).contains(v));
                    let i = choose|i: int| 0 <= i < reactions(g, t).len() && reactions(g, t)[i] == v;
                    assert(r[head.len() + i] == v);
                }
            }
        }
        if forall|i: int, j: int| 0 <= i < j < s.len() ==> s[i] != s[j] {
            assert forall|i: int, j: int| 0 <= i < j < t.len() implies t[i] != t[j] by {
                assert(t[i] == s[i + 1] && t[j] == s[j + 1]);
            }
            assert forall|i: int, j: int| 0 <= i < j < r.len() implies r[i] != r[j] by {
                if i >= head.len() {
                    assert(r[i] == reactions(g, t)[i - head.len()] && r[j] == reactions(g, t)[j - head.len()]);
                } else {
                    let rt = reactions(g, t);
                    assert(r[j] == rt[j - 1]);
                    assert(rt.contains(r[j]));
                    assert(t.contains(r[j]));
                    let k = choose|k: int| 0 <= k < t.len() && t[k] == r[j];
                    assert(s[k + 1] == r[j] && s[0] == r[i]);
                }
            }
        }
    }
}

pub proof fn lemma_in_concat<A>(a: Seq<A>, b: Seq<A>, x: A)
    ensures
        (a + b).contains(x) <==> (a.contains(x) || b.contains(x)),
{
    if (a + b).contains(x) {
        let i = choose|i: int| 0 <= i < (a + b).len() && (a + b)[i] == x;
        if i >= a.len() {
            assert(b[i - a.len()] == x);
        } else {
            assert(a[i] == x);
        }
    }
    if a.contains(x) {
        let i = choose|i: int| 0 <= i < a.len() && a[i] == x;
        assert((a + b)[i] == x);
    }
    if b.contains(x) {
        let i = choose|i: int| 0 <= i < b.len() && b[i] == x;
        assert((a + b)[a.len() + i] == x);
    }
}

/// The same links, inputs and holders, node for node.
pub open spec fn same_structure<T>(g: Seq<NodeView<T>>, h: Seq<NodeView<T>>) -> bool {
    &&& g.len() == h.len()
    &&& forall|i: int|
        0 <= i < g.len() ==> #[trigger] h[i].links == g[i].links && h[i].strong_links == g[i].strong_links
            && h[i].inputs == g[i].inputs && h[i].held == g[i].held
}

proof fn lemma_same_walk<T>(g: Seq<NodeView<T>>, h: Seq<NodeView<T>>, keep: bool, allowed: Seq<bool>, p: Seq<usize>)
    requires
        same_structure(g, h),
    ensures
        is_walk(g, keep, allowed, p) == is_walk(h, keep, allowed, p),
{
    assert forall|i: int| 0 <= i < p.len() && p[i] < g.len() implies nbrs(g, p[i] as int, keep) == nbrs(h, p[i] as int, keep) by {
        assert(h[p[i] as int].links == g[p[i] as int].links);
    }
    if is_walk(g, keep, allowed, p) {
        assert forall|i: int| 0 <= i < p.len() - 1 implies nbrs(h, #[trigger] p[i] as int, keep).contains(p[i + 1]) by {
            assert(p[i] < g.len());
        }
    }
    if is_walk(h, keep, allowed, p) {
        assert forall|i: int| 0 <= i < p.len() - 1 implies nbrs(g, #[trigger] p[i] as int, keep).contains(p[i + 1]) by {
            assert(p[i] < g.len());
        }
    }
}

/// Graphs of the same structure agree on their shape, on what is alive, on
/// what a change reaches and on the visits it makes.
pub proof fn lemma_same_structure<T>(g: Seq<NodeView<T>>, h: Seq<NodeView<T>>)
    requires
        same_structure(g, h),
    ensures
        shape(g) == shape(h),
        forall|n: usize| alive(g, n) == #[trigger] alive(h, n),
        alive_mask(g) == alive_mask(h),
        forall|x: usize, y: usize| reached(g, x, y) == #[trigger] reached(h, x, y),
        forall|st: Seq<usize>, seen: Seq<bool>| pending(g, st, seen) == #[trigger] pending(h, st, seen),
        well_formed(g) == well_formed(h),
{
    assert forall|i: int| 0 <= i < g.len() implies #[trigger] children(g, i) == children(h, i) by {
        assert(h[i].links == g[i].links);
    }
    assert(shape(g) =~= shape(h));
    assert(everything(g) =~= everything(h));
    assert forall|keep: bool, allowed: Seq<bool>, x: usize, y: usize|
        reaches(g, keep, allowed, x, y) == #[trigger] reaches(h, keep, allowed, x, y) by {
        if reaches(g, keep, allowed, x, y) {
            let p = choose|p: Seq<usize>| #[trigger] is_walk(g, keep, allowed, p) && p[0] == x && p.last() == y;
            lemma_same_walk(g, h, keep, allowed, p);
        }
        if reaches(h, keep, allowed, x, y) {
            let p = choose|p: Seq<usize>| #[trigger] is_walk(h, keep, allowed, p) && p[0] == x && p.last() == y;
            lemma_same_walk(g, h, keep, allowed, p);
        }
    }
    assert forall|n: usize| alive(g, n) == #[trigger] alive(h, n) by {
        if alive(g, n) {
            let k = choose|k: usize| k < g.len() && g[k as int].held && #[trigger] reaches(g, true, everything(g), k, n);
            assert(h[k as int].links == g[k as int].links);
            assert(reaches(h, true, everything(h), k, n));
        }
        if alive(h, n) {
            let k = choose|k: usize| k < h.len() && h[k as int].held && #[trigger] reaches(h, true, everything(h), k, n);
            assert(h[k as int].links == g[k as int].links);
            assert(reaches(g, true, everything(g), k, n));
        }
    }
    assert(alive_mask(g) =~= alive_mask(h));
    if well_formed(g) {
        assert forall|i: int, k: int| 0 <= i < h.len() && 0 <= k < nbrs(h, i, false).len() implies #[trigger] nbrs(h, i, false)[k] < h.len() by {
            assert(h[i].links == g[i].links);
            assert(nbrs(g, i, false)[k] < g.len());
        }
        assert forall|i: int, k: int| 0 <= i < h.len() && 0 <= k < h[i].inputs.len() implies #[trigger] h[i].inputs[k] < h.len() by {
            assert(h[i].links == g[i].links);
            assert(g[i].inputs[k] < g.len());
        }
    }
    if well_formed(h) {
        assert forall|i: int, k: int| 0 <= i < g.len() && 0 <= k < nbrs(g, i, false).len() implies #[trigger] nbrs(g, i, false)[k] < g.len() by {
            assert(h[i].links == g[i].links);
            assert(nbrs(h, i, false)[k] < h.len());
        }
        assert forall|i: int, k: int| 0 <= i < g.len() && 0 <= k < g[i].inputs.len() implies #[trigger] g[i].inputs[k] < g.len() by {
            assert(h[i].links == g[i].links);
            assert(h[i].inputs[k] < h.len());
        }
    }
}

/// Passing over the nodes on top that are not due a visit changes no visit.
pub proof fn lemma_dfs_trim(sh: Seq<Seq<usize>>, a: Seq<bool>, seen: Seq<bool>, st: Seq<usize>)
    ensures
        dfs(sh, a, seen, st) == dfs(sh, a, seen, trim(sh, a, seen, st)),
    decreases st.len(),
{
    if st.len() > 0 && !open(sh, a, seen, st.last()) {
        lemma_dfs_trim(sh, a, seen, st.drop_last());
    }
}

/// Every visit is to a node that was due one, and no node is visited twice.
pub proof fn lemma_dfs_once(sh: Seq<Seq<usize>>, a: Seq<bool>, seen: Seq<bool>, st: Seq<usize>)
    ensures
        forall|i: int| 0 <= i < dfs(sh, a, seen, st).len() ==> open(sh, a, seen, #[trigger] dfs(sh, a, seen, st)[i]),
        forall|i: int, j: int| 0 <= i < j < dfs(sh, a, seen, st).len() ==> dfs(sh, a, seen, st)[i] != dfs(sh, a, seen, st)[j],
    decreases count_false(seen), st.len(),
{
    if st.len() > 0 {
        let n = st.last();
        let rest = st.drop_last();
        if open(sh, a, seen, n) {
            lemma_count_false_set(seen, n as int);
            let s1 = seen.update(n as int, true);
            let st1 = rest + reversed(sh[n as int]);
            lemma_dfs_once(sh, a, s1, st1);
            let r1 = dfs(sh, a, s1, st1);
            let r = dfs(sh, a, seen, st);
            assert(r == seq![n] + r1);
            assert forall|i: int| 0 <= i < r.len() implies open(sh, a, seen, #[trigger] r[i]) by {
                if i > 0 {
                    assert(r[i] == r1[i - 1]);
                    assert(open(sh, a, s1, r1[i - 1]));
                }
            }
            assert forall|i: int, j: int| 0 <= i < j < r.len() implies r[i] != r[j] by {
                assert(r[j] == r1[j - 1]);
                assert(open(sh, a, s1, r1[j - 1]));
                if i > 0 {
                    assert(r[i] == r1[i - 1]);
                }
            }
        } else {
            lemma_dfs_once(sh, a, seen, rest);
            assert(dfs(sh, a, seen, st) == dfs(sh, a, seen, rest));
        }
    }
}

/// Every node due a visit on the stack is visited, and every node visited
/// has each of its living targets visited or visited before.
pub proof fn lemma_dfs_complete(sh: Seq<Seq<usize>>, a: Seq<bool>, seen: Seq<bool>, st: Seq<usize>)
    requires
        forall|n: int, k: int| 0 <= n < sh.len() && 0 <= k < sh[n].len() ==> #[trigger] sh[n][k] < sh.len(),
        a.len() == sh.len(),
        seen.len() == sh.len(),
    ensures
        forall|j: int| 0 <= j < st.len() && open(sh, a, seen, #[trigger] st[j]) ==> dfs(sh, a, seen, st).contains(st[j]),
        forall|m: usize, k: int|
            #![trigger dfs(sh, a, seen, st).contains(m), sh[m as int][k]]
            dfs(sh, a, seen, st).contains(m) && 0 <= k < sh[m as int].len() && a[sh[m as int][k] as int] ==> dfs(
                sh,
                a,
                seen,
                st,
            ).contains(sh[m as int][k]) || seen[sh[m as int][k] as int],
    decreases count_false(seen), st.len(),
{
    let r = dfs(sh, a, seen, st);
    if st.len() > 0 {
        let n = st.last();
        let rest = st.drop_last();
        if open(sh, a, seen, n) {
            lemma_count_false_set(seen, n as int);
            let s1 = seen.update(n as int, true);
            let rv = reversed(sh[n as int]);
            let st1 = rest + rv;
            lemma_dfs_complete(sh, a, s1, st1);
            let r1 = dfs(sh, a, s1, st1);
            assert(r == seq![n] + r1);
            lemma_in_concat(seq![n], r1, n);
            assert(seq![n][0] == n);
            assert forall|j: int| 0 <= j < st.len() && open(sh, a, seen, #[trigger] st[j]) implies r.contains(st[j]) by {
                let e = st[j];
                lemma_in_concat(seq![n], r1, e);
                if e != n {
                    assert(st1[j] == e);
                    assert(open(sh, a, s1, st1[j]));
                }
            }
            assert forall|m: usize, k: int|
                #![trigger r.contains(m), sh[m as int][k]]
                r.contains(m) && 0 <= k < sh[m as int].len() && a[sh[m as int][k] as int] implies r.contains(sh[m as int][k]) || seen[sh[m as int][k] as int] by {
                let c = sh[m as int][k];
                lemma_in_concat(seq![n], r1, m);
                lemma_in_concat(seq![n], r1, c);
                assert(seq![n].contains(n));
                if m == n {
                    let j = rest.len() + (sh[n as int].len() - 1 - k);
                    assert(rv[sh[n as int].len() - 1 - k] == c);
                    assert(st1[j] == c);
                    if !s1[c as int] {
                        assert(open(sh, a, s1, st1[j]));
                        assert(r1.contains(c));
                    } else if c != n {
                        assert(seen[c as int]);
                    }
                } else {
                    if seq![n].contains(m) {
                        assert(seq![n][0] == m);
                    }
                    assert(r1.contains(m));
                    lemma_dfs_once(sh, a, s1, st1);
                    let im = choose|im: int| 0 <= im < r1.len() && r1[im] == m;
                    assert(open(sh, a, s1, r1[im]));
                    assert(c < sh.len());
                    assert(r1.contains(c) || s1[c as int]);
                    if !r1.contains(c) && c != n {
                        assert(seen[c as int]);
                    }
                }
            }
        } else {
            lemma_dfs_complete(sh, a, seen, rest);
            assert(r == dfs(sh, a, seen, rest));
            assert forall|j: int| 0 <= j < st.len() && open(sh, a, seen, #[trigger] st[j]) implies r.contains(st[j]) by {
                assert(j < rest.len());
                assert(rest[j] == st[j]);
            }
        }
    }
}

/// Every node visited by a change at `x` is reached from `x`.
proof fn lemma_dfs_sound<T>(g: Seq<NodeView<T>>, x: usize, seen: Seq<bool>, st: Seq<usize>)
    requires
        well_formed(g),
        seen.len() == g.len(),
        forall|j: int| 0 <= j < st.len() && open(shape(g), alive_mask(g), seen, #[trigger] st[j]) ==> reached(g, x, st[j]),
    ensures
        forall|v: usize| #[trigger] dfs(shape(g), alive_mask(g), seen, st).contains(v) ==> reached(g, x, v),
    decreases count_false(seen), st.len(),
{
    let sh = shape(g);
    let a = alive_mask(g);
    let r = dfs(sh, a, seen, st);
    if st.len() > 0 {
        let n = st.last();
        let rest = st.drop_last();
        if open(sh, a, seen, n) {
            lemma_count_false_set(seen, n as int);
            let s1 = seen.update(n as int, true);
            let rv = reversed(sh[n as int]);
            let st1 = rest + rv;
            assert(st[st.len() - 1] == n);
            assert(reached(g, x, n));
            assert forall|j: int| 0 <= j < st1.len() && open(sh, a, s1, #[trigger] st1[j]) implies reached(g, x, st1[j]) by {
                if j < rest.len() {
                    assert(st1[j] == st[j]);
                } else {
                    let k = sh[n as int].len() - 1 - (j - rest.len());
                    let c = st1[j];
                    assert(rv[j - rest.len()] == c);
                    assert(sh[n as int][k] == c);
                    assert(sh[n as int] == children(g, n as int));
                    assert(nbrs(g, n as int, false).contains(c));
                    let p = choose|p: Seq<usize>| #[trigger] is_walk(g, false, a, p) && p[0] == x && p.last() == n;
                    let q = p.push(c);
                    assert forall|i: int| 0 <= i < q.len() - 1 implies nbrs(g, #[trigger] q[i] as int, false).contains(q[i + 1]) by {
                        if i < p.len() - 1 {
                            assert(q[i] == p[i] && q[i + 1] == p[i + 1]);
                        }
                    }
                    assert(is_walk(g, false, a, q));
                }
            }
            lemma_dfs_sound(g, x, s1, st1);
            assert forall|v: usize| #[trigger] r.contains(v) implies reached(g, x, v) by {
                lemma_in_concat(seq![n], dfs(sh, a, s1, st1), v);
                if v == n {
                } else {
                    assert(!seq![n].contains(v)) by {
                        if seq![n].contains(v) {
                            assert(seq![n][0] == v);
                        }
                    }
                }
            }
        } else {
            assert forall|j: int| 0 <= j < rest.len() && open(sh, a, seen, #[trigger] rest[j]) implies reached(g, x, rest[j]) by {
                assert(rest[j] == st[j]);
            }
            lemma_dfs_sound(g, x, seen, rest);
            assert(r == dfs(sh, a, seen, rest));
        }
    }
}

/// A change at `x` visits exactly the living nodes that it reaches through
/// living nodes, each once.
pub proof fn law_visits_exactly<T>(g: Seq<NodeView<T>>, x: usize)
    requires
        well_formed(g),
        x < g.len(),
    ensures
        forall|v: usize| #[trigger] visits(g, x).contains(v) <==> v < g.len() && reached(g, x, v),
        forall|i: int, j: int| 0 <= i < j < visits(g, x).len() ==> visits(g, x)[i] != visits(g, x)[j],
{
    let sh = shape(g);
    let a = alive_mask(g);
    let s0 = pad(Seq::<bool>::empty(), g.len());
    let st = seq![x];
    let r = visits(g, x);
    assert(r == dfs(sh, a, s0, st));
    lemma_dfs_once(sh, a, s0, st);
    assert forall|n: int, k: int| 0 <= n < sh.len() && 0 <= k < sh[n].len() implies #[trigger] sh[n][k] < sh.len() by {
        assert(sh[n] == nbrs(g, n, false));
    }
    lemma_dfs_complete(sh, a, s0, st);
    assert forall|j: int| 0 <= j < st.len() && open(sh, a, s0, #[trigger] st[j]) implies reached(g, x, st[j]) by {
        assert(st[j] == x);
        assert(is_walk(g, false, a, seq![x]));
    }
    lemma_dfs_sound(g, x, s0, st);
    assert forall|v: usize| #[trigger] r.contains(v) implies v < g.len() && reached(g, x, v) by {
        let i = choose|i: int| 0 <= i < r.len() && r[i] == v;
        assert(open(sh, a, s0, r[i]));
    }
    assert forall|v: usize| v < g.len() && reached(g, x, v) implies #[trigger] r.contains(v) by {
        let p = choose|p: Seq<usize>| #[trigger] is_walk(g, false, a, p) && p[0] == x && p.last() == v;
        lemma_walk_visited(g, p, r);
    }
}

proof fn lemma_walk_visited<T>(g: Seq<NodeView<T>>, p: Seq<usize>, r: Seq<usize>)
    requires
        is_walk(g, false, alive_mask(g), p),
        r == dfs(shape(g), alive_mask(g), pad(Seq::<bool>::empty(), g.len()), seq![p[0]]),
        forall|n: int, k: int| 0 <= n < shape(g).len() && 0 <= k < shape(g)[n].len() ==> #[trigger] shape(g)[n][k] < shape(g).len(),
    ensures
        r.contains(p.last()),
    decreases p.len(),
{
    let sh = shape(g);
    let a = alive_mask(g);
    let s0 = pad(Seq::<bool>::empty(), g.len());
    lemma_dfs_complete(sh, a, s0, seq![p[0]]);
    if p.len() == 1 {
        assert(seq![p[0]][0] == p[0]);
        assert(open(sh, a, s0, seq![p[0]][0]));
    } else {
        let q = p.drop_last();
        assert forall|i: int| 0 <= i < q.len() - 1 implies nbrs(g, #[trigger] q[i] as int, false).contains(q[i + 1]) by {
            assert(q[i] == p[i] && q[i + 1] == p[i + 1]);
        }
        assert(is_walk(g, false, a, q));
        lemma_walk_visited(g, q, r);
        let m = q.last();
        assert(m == p[p.len() - 2]);
        assert(nbrs(g, m as int, false).contains(p.last()));
        let k = choose|k: int| 0 <= k < nbrs(g, m as int, false).len() && nbrs(g, m as int, false)[k] == p.last();
        assert(sh[m as int] == nbrs(g, m as int, false));
        assert(a[p.last() as int]);
        assert(r.contains(sh[m as int][k]) || s0[sh[m as int][k] as int]);
    }
}

/// One step of a propagation makes exactly the first visit still owed:
/// afterwards the rest is owed; the step is `Done` exactly when nothing is
/// owed; only the visited node's cell changes, as a visit touches it.
pub proof fn law_step<T>(g: Seq<NodeView<T>>, st: Seq<usize>, seen: Seq<bool>)
    requires
        well_formed(g),
        seen.len() <= g.len(),
    ensures
        ({
            let next = after_step(g, st, seen);
            let p = pending(g, st, seen);
            &&& same_structure(g, next.0)
            &&& next.2.len() == g.len()
            &&& (next.3 is Done <==> p.len() == 0)
            &&& pending(next.0, next.1, next.2) == if p.len() == 0 { p } else { p.drop_first() }
            &&& p.len() > 0 ==> next.0 == g.update(p[0] as int, with_cell(g[p[0] as int], touched(g[p[0] as int].cell)))
            &&& p.len() > 0 ==> next.3 == (if g[p[0] as int].cell is React { Step::React(p[0]) } else { Step::Touched(p[0]) })
        }),
{
    let sh = shape(g);
    let a = alive_mask(g);
    let s = pad(seen, g.len());
    let t = trim(sh, a, s, st);
    lemma_dfs_trim(sh, a, s, st);
    let next = after_step(g, st, seen);
    let p = pending(g, st, seen);
    assert(p == dfs(sh, a, s, t));
    if t.len() == 0 {
        assert(next.0 == g);
        assert forall|i: int| 0 <= i < g.len() implies #[trigger] next.0[i].links == g[i].links by {}
        assert(pad(s, g.len()) =~= s);
    } else {
        let n = t.last();
        assert(open(sh, a, s, n)) by {
            lemma_trim_open(sh, a, s, st);
        }
        let g1 = next.0;
        assert forall|i: int| 0 <= i < g.len() implies #[trigger] g1[i].links == g[i].links && g1[i].strong_links == g[i].strong_links
            && g1[i].inputs == g[i].inputs && g1[i].held == g[i].held by {}
        lemma_same_structure(g, g1);
        assert(pad(next.2, g1.len()) =~= next.2);
        assert(sh[n as int] == children(g, n as int));
        assert(p == seq![n] + dfs(sh, a, s.update(n as int, true), t.drop_last() + reversed(sh[n as int])));
        assert(p[0] == n);
        assert(p.drop_first() =~= dfs(sh, a, s.update(n as int, true), t.drop_last() + reversed(sh[n as int])));
    }
}

/// The stack trimmed is empty or has a node due a visit on top.
proof fn lemma_trim_open(sh: Seq<Seq<usize>>, a: Seq<bool>, seen: Seq<bool>, st: Seq<usize>)
    ensures
        trim(sh, a, seen, st).len() > 0 ==> open(sh, a, seen, trim(sh, a, seen, st).last()),
    decreases st.len(),
{
    if st.len() > 0 && !open(sh, a, seen, st.last()) {
        lemma_trim_open(sh, a, seen, st.drop_last());
    }
}

/// `k` steps of a propagation, for any `k` up to the number of visits still
/// owed, make the first `k` owed visits: afterwards the rest is owed, the
/// reactions among the `k` were reported in order, every visited derived
/// node is dirty, and nothing else in the graph changed.
pub proof fn law_run<T>(g: Seq<NodeView<T>>, st: Seq<usize>, seen: Seq<bool>, k: nat)
    requires
        well_formed(g),
        seen.len() <= g.len(),
        k <= pending(g, st, seen).len(),
    ensures
        well_formed(run(g, st, seen, k).0),
        same_structure(g, run(g, st, seen, k).0),
        run(g, st, seen, k).2.len() <= g.len(),
        pending(run(g, st, seen, k).0, run(g, st, seen, k).1, run(g, st, seen, k).2) == pending(g, st, seen).skip(k as int),
        run(g, st, seen, k).3 == reactions(g, pending(g, st, seen).take(k as int)),
        forall|i: usize|
            i < g.len() ==> (#[trigger] run(g, st, seen, k).0[i as int]).cell == (if pending(g, st, seen).take(k as int).contains(i) {
                touched(g[i as int].cell)
            } else {
                g[i as int].cell
            }),
    decreases k,
{
    let p = pending(g, st, seen);
    let r = run(g, st, seen, k);
    if k == 0 {
        assert(p.skip(0) =~= p);
        assert(p.take(0) =~= Seq::<usize>::empty());
        assert forall|i: int| 0 <= i < g.len() implies #[trigger] r.0[i].links == g[i].links && r.0[i].strong_links == g[i].strong_links
            && r.0[i].inputs == g[i].inputs && r.0[i].held == g[i].held by {}
        assert(r.0 == g);
        assert(same_structure(g, r.0));
    } else {
        law_step(g, st, seen);
        let next = after_step(g, st, seen);
        let g1 = next.0;
        let n = p[0];
        let p1 = pending(g1, next.1, next.2);
        assert(p1 == p.drop_first());
        lemma_same_structure(g, g1);
        law_run(g1, next.1, next.2, (k - 1) as nat);
        let more = run(g1, next.1, next.2, (k - 1) as nat);
        assert(p1.skip(k - 1) =~= p.skip(k as int));
        let q = p1.take(k - 1);
        let pk = p.take(k as int);
        assert(pk =~= seq![n] + q);
        assert(pk.drop_first() =~= q);
        lemma_dfs_once(shape(g), alive_mask(g), pad(seen, g.len()), st);
        assert forall|i: int| 0 <= i < q.len() implies q[i] < g.len() by {
            assert(q[i] == p[i + 1]);
            assert(open(shape(g), alive_mask(g), pad(seen, g.len()), p[i + 1]));
        }
        assert forall|i: int| 0 <= i < g.len() implies (g1[i].cell is React <==> g[i].cell is React) by {}
        lemma_reactions_same_kinds(g, g1, q);
        if g[n as int].cell is React {
            assert(next.3 == Step::React(n));
        } else {
            assert(reactions(g, pk) =~= reactions(g, q));
        }
        assert(r.0 == more.0);
        assert(more.0.len() == g1.len());
        assert(g1.len() == g.len());
        assert forall|i: int| 0 <= i < g.len() implies #[trigger] r.0[i].links == g[i].links && r.0[i].strong_links == g[i].strong_links
            && r.0[i].inputs == g[i].inputs && r.0[i].held == g[i].held by {
            assert(more.0[i].links == g1[i].links);
            assert(g1[i].links == g[i].links);
        }
        assert(same_structure(g, r.0));
        assert forall|i: usize| i < g.len() implies (#[trigger] r.0[i as int]).cell == (if pk.contains(i) {
            touched(g[i as int].cell)
        } else {
            g[i as int].cell
        }) by {
            assert(r.0 == more.0);
            assert(more.0[i as int].cell == (if q.contains(i) { touched(g1[i as int].cell) } else { g1[i as int].cell }));
            if q.contains(i) {
                let j = choose|j: int| 0 <= j < q.len() && q[j] == i;
                assert(pk[j + 1] == i);
            }
            if pk.contains(i) && i != n {
                let j = choose|j: int| 0 <= j < pk.len() && pk[j] == i;
                assert(j != 0);
                assert(q[j - 1] == i);
            }
            if i == n {
                assert(pk[0] == n);
            }
        }
    }
}

/// A change at `x` carried to the end visits exactly the living nodes that
/// it reaches, once each: every derived node among them is dirty
/// afterwards, every reaction among them was reported exactly once, the
/// next step is `Done`, and nothing else in the graph changed.
pub proof fn law_change_propagates<T>(g: Seq<NodeView<T>>, x: usize)
    requires
        well_formed(g),
        x < g.len(),
    ensures
        ({
            let vs = visits(g, x);
            let r = run(g, seq![x], Seq::empty(), vs.len());
            &&& same_structure(g, r.0)
            &&& after_step(r.0, r.1, r.2).3 is Done
            &&& forall|v: usize|
                v < g.len() ==> (#[trigger] r.0[v as int]).cell == (if reached(g, x, v) {
                    touched(g[v as int].cell)
                } else {
                    g[v as int].cell
                })
            &&& forall|v: usize| #[trigger] r.3.contains(v) <==> (v < g.len() && reached(g, x, v) && g[v as int].cell is React)
            &&& forall|i: int, j: int| 0 <= i < j < r.3.len() ==> r.3[i] != r.3[j]
        }),
{
    let vs = visits(g, x);
    let st = seq![x];
    let seen = Seq::<bool>::empty();
    assert(pending(g, st, seen) == vs);
    law_run(g, st, seen, vs.len());
    law_visits_exactly(g, x);
    let r = run(g, st, seen, vs.len());
    assert(vs.take(vs.len() as int) =~= vs);
    assert(vs.skip(vs.len() as int) =~= Seq::<usize>::empty());
    law_step(r.0, r.1, r.2);
    lemma_reactions_members(g, vs);
}

/// Writing a value node and carrying the change to the end leaves the value
/// readable as written, and makes every derived node that the change
/// reaches read as stale, so that its next read recomputes it.
pub proof fn law_set_makes_dependents_stale<T>(g: Seq<NodeView<T>>, a: usize, value: T, d: usize)
    requires
        well_formed(g),
        a < g.len(),
        d < g.len(),
        g[a as int].cell is Value,
        g[d as int].cell is Derived,
        reached(g, a, d),
    ensures
        ({
            let g1 = after_set(g, a as int, value);
            let r = run(g1, seq![a], Seq::empty(), visits(g1, a).len());
            &&& after_get(r.0, a as int).1 == Fetch::Ready(value)
            &&& after_get(r.0, d as int).1 is Stale
        }),
{
    let g1 = after_set(g, a as int, value);
    assert forall|i: int| 0 <= i < g.len() implies #[trigger] g1[i].links == g[i].links && g1[i].strong_links == g[i].strong_links
        && g1[i].inputs == g[i].inputs && g1[i].held == g[i].held by {}
    lemma_same_structure(g, g1);
    law_change_propagates(g1, a);
    let r = run(g1, seq![a], Seq::empty(), visits(g1, a).len());
    assert(r.0[a as int] == r.0[a as int]);
    assert(r.0[d as int] == r.0[d as int]);
}

/// Invalidating a living derived node (one the caller holds, as any node it
/// can invalidate is) and carrying the change to the end makes its next read
/// stale, so that the read recomputes it.
pub proof fn law_invalidate_makes_stale<T>(g: Seq<NodeView<T>>, d: usize)
    requires
        well_formed(g),
        d < g.len(),
        g[d as int].cell is Derived,
        alive(g, d),
    ensures
        after_get(run(g, seq![d], Seq::empty(), visits(g, d).len()).0, d as int).1 is Stale,
{
    assert(alive_mask(g)[d as int]);
    assert(is_walk(g, false, alive_mask(g), seq![d]));
    assert(reached(g, d, d));
    law_change_propagates(g, d);
    let r = run(g, seq![d], Seq::empty(), visits(g, d).len());
    assert(r.0[d as int] == r.0[d as int]);
}

/// An invalidation that comes while a living derived node is being
/// recomputed (after the read that found it stale, before its value is
/// stored) is never lost: the store keeps the node dirty, and the next read
/// recomputes it again.
pub proof fn law_invalidation_while_computing_is_kept<T>(g: Seq<NodeView<T>>, d: usize, value: T)
    requires
        well_formed(g),
        d < g.len(),
        g[d as int].cell is Derived,
        alive(g, d),
    ensures
        ({
            let g1 = after_get(g, d as int).0;
            let g2 = run(g1, seq![d], Seq::empty(), visits(g1, d).len()).0;
            after_get(after_store(g2, d as int, value), d as int).1 is Stale
        }),
{
    let g1 = after_get(g, d as int).0;
    assert forall|i: int| 0 <= i < g.len() implies #[trigger] g1[i].links == g[i].links && g1[i].strong_links == g[i].strong_links
        && g1[i].inputs == g[i].inputs && g1[i].held == g[i].held by {}
    lemma_same_structure(g, g1);
    assert(g1[d as int].cell is Derived);
    law_invalidate_makes_stale(g1, d);
    let g2 = run(g1, seq![d], Seq::empty(), visits(g1, d).len()).0;
    law_change_propagates(g1, d);
    assert(g2[d as int] == g2[d as int]);
}

/// Letting go of a node changes nothing but that node's held flag: every
/// node keeps its cell, its links, its strong links and its inputs.
pub proof fn law_release_only_lets_go<T>(g: Seq<NodeView<T>>, id: int)
    requires
        0 <= id < g.len(),
    ensures
        released(g, id).len() == g.len(),
        !released(g, id)[id].held,
        forall|i: int|
            0 <= i < g.len() ==> (#[trigger] released(g, id)[i]).cell == g[i].cell && released(g, id)[i].links == g[i].links
                && released(g, id)[i].strong_links == g[i].strong_links && released(g, id)[i].inputs == g[i].inputs,
        forall|i: int| 0 <= i < g.len() && i != id ==> #[trigger] released(g, id)[i] == g[i],
{
}

/// A released node that a held node reads from, or links to strongly, stays
/// alive.
pub proof fn law_release_keeps_what_is_read<T>(g: Seq<NodeView<T>>, id: usize, m: usize)
    requires
        id < g.len(),
        m < g.len(),
        m != id,
        g[m as int].held,
        g[m as int].inputs.contains(id) || g[m as int].strong_links.contains(id),
    ensures
        alive(released(g, id as int), id),
{
    let h = released(g, id as int);
    assert(h[m as int] == g[m as int]);
    assert(is_walk(h, true, everything(h), seq![m]));
    assert(reaches(h, true, everything(h), m, m));
    law_kept_alive(h, m, id);
}

/// Storing a computed value replaces the value of that derived node and
/// nothing else: its dirty flag, links, strong links, inputs and held flag
/// stay, every other node stays, and so does what is alive.
pub proof fn law_store_only_replaces_value<T>(g: Seq<NodeView<T>>, id: int, value: T)
    requires
        0 <= id < g.len(),
        g[id].cell is Derived,
    ensures
        after_store(g, id, value).len() == g.len(),
        after_store(g, id, value)[id].cell == (Cell::Derived { value, dirty: g[id].cell->dirty }),
        after_store(g, id, value)[id].links == g[id].links,
        after_store(g, id, value)[id].strong_links == g[id].strong_links,
        after_store(g, id, value)[id].inputs == g[id].inputs,
        after_store(g, id, value)[id].held == g[id].held,
        forall|i: int| 0 <= i < g.len() && i != id ==> #[trigger] after_store(g, id, value)[i] == g[i],
        forall|n: usize| alive(g, n) == #[trigger] alive(after_store(g, id, value), n),
{
    let h = after_store(g, id, value);
    assert forall|i: int| 0 <= i < g.len() implies #[trigger] h[i].links == g[i].links && h[i].strong_links == g[i].strong_links
        && h[i].inputs == g[i].inputs && h[i].held == g[i].held by {}
    lemma_same_structure(g, h);
}

/// Making node `id` read from `inputs` appends, at the end of the links of
/// each distinct input (the strong links when `strong`, else the weak ones),
/// exactly one link to `id`, and appends `inputs` to what `id` reads from;
/// nothing else changes.
pub proof fn law_depending_appends<T>(g: Seq<NodeView<T>>, id: usize, inputs: Seq<usize>, strong: bool)
    requires
        id < g.len(),
    ensures
        depending(g, id, inputs, strong).len() == g.len(),
        forall|x: int|
            #![trigger depending(g, id, inputs, strong)[x]]
            0 <= x < g.len() ==> {
                let h = depending(g, id, inputs, strong);
                let added = if inputs.contains(x as usize) { seq![id] } else { Seq::<usize>::empty() };
                &&& h[x].cell == g[x].cell
                &&& h[x].held == g[x].held
                &&& h[x].inputs == (if x == id { g[x].inputs + inputs } else { g[x].inputs })
                &&& strong ==> h[x].strong_links == g[x].strong_links + added && h[x].links == g[x].links
                &&& !strong ==> h[x].links == g[x].links + added && h[x].strong_links == g[x].strong_links
            },
{
}

/// A link is added at the end of the node's weak links (or of its strong
/// links when `strong`), whatever it already links to, itself included;
/// nothing else changes.
pub proof fn law_link_appends<T>(g: Seq<NodeView<T>>, from: usize, to: usize, strong: bool)
    requires
        from < g.len(),
    ensures
        linked(g, from, to, strong).len() == g.len(),
        strong ==> linked(g, from, to, strong)[from as int].strong_links == g[from as int].strong_links.push(to)
            && linked(g, from, to, strong)[from as int].links == g[from as int].links,
        !strong ==> linked(g, from, to, strong)[from as int].links == g[from as int].links.push(to)
            && linked(g, from, to, strong)[from as int].strong_links == g[from as int].strong_links,
        linked(g, from, to, strong)[from as int].cell == g[from as int].cell,
        linked(g, from, to, strong)[from as int].inputs == g[from as int].inputs,
        linked(g, from, to, strong)[from as int].held == g[from as int].held,
        forall|i: int| 0 <= i < g.len() && i != from ==> #[trigger] linked(g, from, to, strong)[i] == g[i],
{
}

/// Writing a value node replaces its value and nothing else.
pub proof fn law_set_only_writes<T>(g: Seq<NodeView<T>>, id: int, value: T)
    requires
        0 <= id < g.len(),
    ensures
        after_set(g, id, value).len() == g.len(),
        after_set(g, id, value)[id].cell == Cell::Value(value),
        after_set(g, id, value)[id].links == g[id].links,
        after_set(g, id, value)[id].strong_links == g[id].strong_links,
        after_set(g, id, value)[id].inputs == g[id].inputs,
        after_set(g, id, value)[id].held == g[id].held,
        forall|i: int| 0 <= i < g.len() && i != id ==> #[trigger] after_set(g, id, value)[i] == g[i],
{
}

/// Reading changes at most the dirty flag of the node read, which it clears:
/// its value, links, inputs and held flag, and every other node, stay.
pub proof fn law_get_only_clears_dirty<T>(g: Seq<NodeView<T>>, id: int)
    requires
        0 <= id < g.len(),
        !(g[id].cell is React),
    ensures
        after_get(g, id).0.len() == g.len(),
        forall|i: int| 0 <= i < g.len() && i != id ==> #[trigger] after_get(g, id).0[i] == g[i],
        after_get(g, id).0[id].links == g[id].links,
        after_get(g, id).0[id].strong_links == g[id].strong_links,
        after_get(g, id).0[id].inputs == g[id].inputs,
        after_get(g, id).0[id].held == g[id].held,
        g[id].cell is Value ==> after_get(g, id).0[id].cell == g[id].cell,
        g[id].cell is Derived ==> after_get(g, id).0[id].cell == (Cell::Derived { value: g[id].cell->value, dirty: false }),
        after_get(g, id).1 is Stale <==> (g[id].cell matches Cell::Derived { dirty, .. } && dirty),
{
}

/// A node is made held, with the given cell, no links and no inputs, after
/// every node already there, which all stay.
pub proof fn law_made_node<T>(g: Seq<NodeView<T>>, c: Cell<T>)
    ensures
        g.push(fresh(c)).len() == g.len() + 1,
        g.push(fresh(c))[g.len() as int].cell == c,
        g.push(fresh(c))[g.len() as int].held,
        g.push(fresh(c))[g.len() as int].links.len() == 0,
        g.push(fresh(c))[g.len() as int].strong_links.len() == 0,
        g.push(fresh(c))[g.len() as int].inputs.len() == 0,
        forall|i: int| 0 <= i < g.len() ==> #[trigger] g.push(fresh(c))[i] == g[i],
{
}

/// Node `m` keeps node `n` alive, by a strong link to it or by reading
/// from it.
pub open spec fn keeps<T>(g: Seq<NodeView<T>>, m: usize, n: usize) -> bool {
    g[m as int].strong_links.contains(n) || g[m as int].inputs.contains(n)
}

/// A node is alive exactly when the caller holds it or a living node keeps
/// it, by a strong link to it or by reading from it.
pub proof fn law_alive_exactly<T>(g: Seq<NodeView<T>>, n: usize)
    requires
        n < g.len(),
    ensures
        alive(g, n) <==> (g[n as int].held || exists|m: usize| m < g.len() && alive(g, m) && #[trigger] keeps(g, m, n)),
{
    if g[n as int].held {
        assert(is_walk(g, true, everything(g), seq![n]));
        assert(reaches(g, true, everything(g), n, n));
    }
    if exists|m: usize| m < g.len() && alive(g, m) && #[trigger] keeps(g, m, n) {
        let m = choose|m: usize| m < g.len() && alive(g, m) && #[trigger] keeps(g, m, n);
        law_kept_alive(g, m, n);
    }
    if alive(g, n) && !g[n as int].held {
        let h = choose|h: usize| h < g.len() && g[h as int].held && #[trigger] reaches(g, true, everything(g), h, n);
        let p = choose|p: Seq<usize>| #[trigger] is_walk(g, true, everything(g), p) && p[0] == h && p.last() == n;
        assert(p.len() > 1);
        let q = p.drop_last();
        let m = q.last();
        assert(q[q.len() - 1] == p[p.len() - 2]);
        assert forall|i: int| 0 <= i < q.len() - 1 implies nbrs(g, #[trigger] q[i] as int, true).contains(q[i + 1]) by {
            assert(q[i] == p[i] && q[i + 1] == p[i + 1]);
        }
        assert forall|i: int| 0 <= i < q.len() implies #[trigger] q[i] < g.len() && everything(g)[q[i] as int] by {
            assert(q[i] == p[i]);
        }
        assert(is_walk(g, true, everything(g), q));
        assert(reaches(g, true, everything(g), h, m));
        assert(m < g.len());
        assert(alive(g, m));
        assert(nbrs(g, m as int, true).contains(n));
        lemma_in_concat(g[m as int].strong_links, g[m as int].inputs, n);
        assert(keeps(g, m, n));
    }
}

proof fn lemma_walk_in_closed<T>(g: Seq<NodeView<T>>, live: Seq<bool>, p: Seq<usize>)
    requires
        live.len() == g.len(),
        forall|m: usize, k: usize| m < g.len() && k < g.len() && live[m as int] && #[trigger] keeps(g, m, k) ==> live[k as int],
        is_walk(g, true, everything(g), p),
        live[p[0] as int],
    ensures
        live[p.last() as int],
    decreases p.len(),
{
    if p.len() > 1 {
        let q = p.drop_last();
        assert forall|i: int| 0 <= i < q.len() - 1 implies nbrs(g, #[trigger] q[i] as int, true).contains(q[i + 1]) by {
            assert(q[i] == p[i] && q[i + 1] == p[i + 1]);
        }
        assert forall|i: int| 0 <= i < q.len() implies #[trigger] q[i] < g.len() && everything(g)[q[i] as int] by {
            assert(q[i] == p[i]);
        }
        lemma_walk_in_closed(g, live, q);
        let m = p[p.len() - 2];
        let n = p.last();
        assert(q.last() == m);
        assert(nbrs(g, m as int, true).contains(n));
        lemma_in_concat(g[m as int].strong_links, g[m as int].inputs, n);
        assert(keeps(g, m, n));
    }
}

/// What is alive is the least that holds every held node and everything
/// that it keeps: nodes that only keep each other, with no holder among
/// them or above them, are not alive.
pub proof fn law_alive_least<T>(g: Seq<NodeView<T>>, live: Seq<bool>, n: usize)
    requires
        live.len() == g.len(),
        forall|m: int| 0 <= m < g.len() && #[trigger] g[m].held ==> live[m],
        forall|m: usize, k: usize| m < g.len() && k < g.len() && live[m as int] && #[trigger] keeps(g, m, k) ==> live[k as int],
        alive(g, n),
    ensures
        live[n as int],
{
    let h = choose|h: usize| h < g.len() && g[h as int].held && #[trigger] reaches(g, true, everything(g), h, n);
    let p = choose|p: Seq<usize>| #[trigger] is_walk(g, true, everything(g), p) && p[0] == h && p.last() == n;
    lemma_walk_in_closed(g, live, p);
}

/// A change never visits a node that is not alive.
pub proof fn law_released_never_visited<T>(g: Seq<NodeView<T>>, x: usize, v: usize)
    requires
        !alive(g, v),
    ensures
        !visits(g, x).contains(v),
{
    let sh = shape(g);
    let a = alive_mask(g);
    let s0 = pad(Seq::<bool>::empty(), g.len());
    lemma_dfs_once(sh, a, s0, seq![x]);
    if visits(g, x).contains(v) {
        let i = choose|i: int| 0 <= i < visits(g, x).len() && visits(g, x)[i] == v;
        assert(open(sh, a, s0, visits(g, x)[i]));
    }
}

/// A held node made to read from some inputs, as `derive` and `watch` make
/// it, is reached by a change at any one of them: it keeps its inputs
/// alive, and each input links to it.
pub proof fn law_input_change_reaches_dependent<T>(g: Seq<NodeView<T>>, id: usize, inputs: Seq<usize>, strong: bool, j: int)
    requires
        id < g.len(),
        g[id as int].held,
        forall|i: int| 0 <= i < inputs.len() ==> inputs[i] < g.len(),
        0 <= j < inputs.len(),
    ensures
        reached(depending(g, id, inputs, strong), inputs[j], id),
{
    let h = depending(g, id, inputs, strong);
    let w = with_links_to(g, inputs, id, strong);
    let x = inputs[j];
    assert(is_walk(h, true, everything(h), seq![id]));
    assert(reaches(h, true, everything(h), id, id));
    assert(alive(h, id));
    assert(h[id as int].inputs == g[id as int].inputs + inputs);
    assert(h[id as int].inputs[g[id as int].inputs.len() + j] == x);
    law_kept_alive(h, id, x);
    assert(inputs.contains(x));
    assert(h[x as int].links == w[x as int].links && h[x as int].strong_links == w[x as int].strong_links);
    let nb = nbrs(h, x as int, false);
    if strong {
        assert(nb[nb.len() - 1] == id);
    } else {
        assert(nb[w[x as int].links.len() - 1] == id);
    }
    let a = alive_mask(h);
    if x == id {
        assert(is_walk(h, false, a, seq![id]));
    } else {
        assert(is_walk(h, false, a, seq![x, id]));
    }
}

} // verus!
