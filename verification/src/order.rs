//! The order in which a change visits nodes, stated without the stack that
//! carries it out: the recursive depth-first preorder. Right after a node is
//! visited, the next visit is its first target (weak links, then strong
//! links, each in the order made) that is alive and not yet visited; when it
//! has none, the walk backs up to the node visited before it, and so on.

use vstd::prelude::*;
use crate::spec::{
    NodeView, open, dfs, lemma_count_false_set, reversed, shape, alive_mask, alive, children, visits, pad,
};
use crate::laws::{law_visits_exactly, lemma_in_concat};

verus! {

/// The first node of `list` that is in the graph, alive, and not among
/// `done`.
pub open spec fn first_due<T>(g: Seq<NodeView<T>>, done: Seq<usize>, list: Seq<usize>) -> Option<usize>
    decreases list.len(),
{
    if list.len() == 0 {
        None
    } else if list[0] < g.len() && alive(g, list[0]) && !done.contains(list[0]) {
        Some(list[0])
    } else {
        first_due(g, done, list.drop_first())
    }
}

/// Where a depth-first walk goes next, the nodes of `path` being the ones it
/// may still come back to, last one first: the first due target of the last
/// node of `path`, else of the one before, and so on; `None` when none of
/// them has a due target.
pub open spec fn resume_from<T>(g: Seq<NodeView<T>>, done: Seq<usize>, path: Seq<usize>) -> Option<usize>
    decreases path.len(),
{
    if path.len() == 0 {
        None
    } else {
        match first_due(g, done, children(g, path.last() as int)) {
            Some(c) => Some(c),
            None => resume_from(g, done, path.drop_last()),
        }
    }
}

/// The node that a depth-first walk that has visited `done`, in this order,
/// visits next, if any.
pub open spec fn next_visit<T>(g: Seq<NodeView<T>>, done: Seq<usize>) -> Option<usize> {
    resume_from(g, done, done)
}

/// The first entry of `list` due a visit.
spec fn first_open(sh: Seq<Seq<usize>>, a: Seq<bool>, seen: Seq<bool>, list: Seq<usize>) -> Option<usize>
    decreases list.len(),
{
    if list.len() == 0 {
        None
    } else if open(sh, a, seen, list[0]) {
        Some(list[0])
    } else {
        first_open(sh, a, seen, list.drop_first())
    }
}

/// `resume_from` over the shape of the graph and the visited marks.
spec fn resume(sh: Seq<Seq<usize>>, a: Seq<bool>, seen: Seq<bool>, path: Seq<usize>) -> Option<usize>
    decreases path.len(),
{
    if path.len() == 0 {
        None
    } else {
        match first_open(sh, a, seen, sh[path.last() as int]) {
            Some(c) => Some(c),
            None => resume(sh, a, seen, path.drop_last()),
        }
    }
}

/// The stack that the visits of `path` leave: for each of them, in order,
/// its targets from the `ms[j]`-th on, first one on top.
spec fn blocks(sh: Seq<Seq<usize>>, path: Seq<usize>, ms: Seq<int>) -> Seq<usize>
    decreases path.len(),
{
    if path.len() == 0 {
        Seq::empty()
    } else {
        blocks(sh, path.drop_last(), ms.drop_last()) + reversed(sh[path.last() as int].skip(ms.last()))
    }
}

spec fn bounded(sh: Seq<Seq<usize>>, path: Seq<usize>, ms: Seq<int>) -> bool {
    &&& path.len() == ms.len()
    &&& forall|j: int| 0 <= j < path.len() ==> #[trigger] path[j] < sh.len() && 0 <= ms[j] <= sh[path[j] as int].len()
}

/// The targets taken off the stack are no longer due a visit.
spec fn passed(sh: Seq<Seq<usize>>, a: Seq<bool>, seen: Seq<bool>, path: Seq<usize>, ms: Seq<int>) -> bool {
    forall|j: int, k: int| 0 <= j < path.len() && 0 <= k < ms[j] ==> !open(sh, a, seen, #[trigger] sh[path[j] as int][k])
}

spec fn marked(seen: Seq<bool>, vs: Seq<usize>) -> Seq<bool> {
    Seq::new(seen.len(), |k: int| seen[k] || exists|j: int| 0 <= j < vs.len() && vs[j] == k)
}

proof fn lemma_first_open_at(sh: Seq<Seq<usize>>, a: Seq<bool>, seen: Seq<bool>, list: Seq<usize>, m: int)
    requires
        0 <= m < list.len(),
        forall|k: int| 0 <= k < m ==> !open(sh, a, seen, #[trigger] list[k]),
        open(sh, a, seen, list[m]),
    ensures
        first_open(sh, a, seen, list) == Some(list[m]),
    decreases m,
{
    if m > 0 {
        assert(!open(sh, a, seen, list[0]));
        let l1 = list.drop_first();
        assert forall|k: int| 0 <= k < m - 1 implies !open(sh, a, seen, #[trigger] l1[k]) by {
            assert(l1[k] == list[k + 1]);
        }
        lemma_first_open_at(sh, a, seen, l1, m - 1);
    }
}

proof fn lemma_first_open_none(sh: Seq<Seq<usize>>, a: Seq<bool>, seen: Seq<bool>, list: Seq<usize>)
    requires
        forall|k: int| 0 <= k < list.len() ==> !open(sh, a, seen, #[trigger] list[k]),
    ensures
        first_open(sh, a, seen, list) is None,
    decreases list.len(),
{
    if list.len() > 0 {
        assert(!open(sh, a, seen, list[0]));
        let l1 = list.drop_first();
        assert forall|k: int| 0 <= k < l1.len() implies !open(sh, a, seen, #[trigger] l1[k]) by {
            assert(l1[k] == list[k + 1]);
        }
        lemma_first_open_none(sh, a, seen, l1);
    }
}

/// The top of the stack is the next target of the last visit whose targets
/// are not all taken off; the visits after it have none left.
#[verifier::spinoff_prover]
#[verifier::rlimit(40)]
proof fn lemma_blocks_pop(sh: Seq<Seq<usize>>, path: Seq<usize>, ms: Seq<int>) -> (j: int)
    requires
        bounded(sh, path, ms),
        blocks(sh, path, ms).len() > 0,
    ensures
        0 <= j < path.len(),
        ms[j] < sh[path[j] as int].len(),
        blocks(sh, path, ms).last() == sh[path[j] as int][ms[j]],
        forall|i: int| j < i < path.len() ==> #[trigger] ms[i] == sh[path[i] as int].len(),
        blocks(sh, path, ms.update(j, ms[j] + 1)) == blocks(sh, path, ms).drop_last(),
    decreases path.len(),
{
    let l = path.len() - 1;
    let p0 = path.drop_last();
    let m0 = ms.drop_last();
    let s = sh[path.last() as int];
    let m = ms.last();
    assert(path[l] < sh.len() && 0 <= ms[l] <= sh[path[l] as int].len());
    let b = reversed(s.skip(m));
    assert(bounded(sh, p0, m0)) by {
        assert forall|i: int| 0 <= i < p0.len() implies #[trigger] p0[i] < sh.len() && 0 <= m0[i] <= sh[p0[i] as int].len() by {
            assert(p0[i] == path[i] && m0[i] == ms[i]);
        }
    }
    if m < s.len() {
        let ms1 = ms.update(l, m + 1);
        assert(ms1.drop_last() =~= m0);
        assert(b[b.len() - 1] == s[m]);
        assert(reversed(s.skip(m + 1)) =~= b.drop_last());
        assert(blocks(sh, path, ms1) == blocks(sh, p0, m0) + reversed(s.skip(m + 1)));
        assert((blocks(sh, p0, m0) + b).drop_last() =~= blocks(sh, p0, m0) + b.drop_last());
        l
    } else {
        assert(b =~= Seq::<usize>::empty());
        assert(blocks(sh, path, ms) =~= blocks(sh, p0, m0));
        let j = lemma_blocks_pop(sh, p0, m0);
        let ms1 = ms.update(j, ms[j] + 1);
        assert(ms1.drop_last() =~= m0.update(j, m0[j] + 1));
        assert(ms1.last() == m);
        assert(blocks(sh, path, ms1) == blocks(sh, p0, m0.update(j, m0[j] + 1)) + b);
        assert(blocks(sh, path, ms1) =~= blocks(sh, path, ms).drop_last());
        assert forall|i: int| j < i < path.len() implies #[trigger] ms[i] == sh[path[i] as int].len() by {
            if i < l {
                assert(m0[i] == ms[i] && p0[i] == path[i]);
            }
        }
        assert(p0[j] == path[j] && m0[j] == ms[j]);
        j
    }
}

proof fn lemma_blocks_empty(sh: Seq<Seq<usize>>, path: Seq<usize>, ms: Seq<int>)
    requires
        bounded(sh, path, ms),
        blocks(sh, path, ms).len() == 0,
    ensures
        forall|i: int| 0 <= i < path.len() ==> #[trigger] ms[i] == sh[path[i] as int].len(),
    decreases path.len(),
{
    if path.len() > 0 {
        let l = path.len() - 1;
        let p0 = path.drop_last();
        let m0 = ms.drop_last();
        assert(path[l] < sh.len() && 0 <= ms[l] <= sh[path[l] as int].len());
        assert(bounded(sh, p0, m0)) by {
            assert forall|i: int| 0 <= i < p0.len() implies #[trigger] p0[i] < sh.len() && 0 <= m0[i] <= sh[p0[i] as int].len() by {
                assert(p0[i] == path[i] && m0[i] == ms[i]);
            }
        }
        lemma_blocks_empty(sh, p0, m0);
        assert forall|i: int| 0 <= i < path.len() implies #[trigger] ms[i] == sh[path[i] as int].len() by {
            if i < l {
                assert(m0[i] == ms[i] && p0[i] == path[i]);
            }
        }
    }
}

/// Where the visits of `path` have their targets before `ms` passed, and the
/// ones after `j` all passed, the walk resumes at the next target of `j`,
/// when that one is due a visit.
proof fn lemma_resume_at(sh: Seq<Seq<usize>>, a: Seq<bool>, seen: Seq<bool>, path: Seq<usize>, ms: Seq<int>, j: int)
    requires
        bounded(sh, path, ms),
        passed(sh, a, seen, path, ms),
        0 <= j < path.len(),
        ms[j] < sh[path[j] as int].len(),
        forall|i: int| j < i < path.len() ==> #[trigger] ms[i] == sh[path[i] as int].len(),
        open(sh, a, seen, sh[path[j] as int][ms[j]]),
    ensures
        resume(sh, a, seen, path) == Some(sh[path[j] as int][ms[j]]),
    decreases path.len(),
{
    let l = path.len() - 1;
    let s = sh[path.last() as int];
    assert(path[l] < sh.len() && 0 <= ms[l] <= sh[path[l] as int].len());
    if j == l {
        assert forall|k: int| 0 <= k < ms[j] implies !open(sh, a, seen, #[trigger] s[k]) by {
            assert(!open(sh, a, seen, sh[path[j] as int][k]));
        }
        lemma_first_open_at(sh, a, seen, s, ms[j]);
    } else {
        assert(ms[l] == s.len());
        assert forall|k: int| 0 <= k < s.len() implies !open(sh, a, seen, #[trigger] s[k]) by {
            assert(!open(sh, a, seen, sh[path[l] as int][k]));
        }
        lemma_first_open_none(sh, a, seen, s);
        let p0 = path.drop_last();
        let m0 = ms.drop_last();
        assert(bounded(sh, p0, m0)) by {
            assert forall|i: int| 0 <= i < p0.len() implies #[trigger] p0[i] < sh.len() && 0 <= m0[i] <= sh[p0[i] as int].len() by {
                assert(p0[i] == path[i] && m0[i] == ms[i]);
            }
        }
        assert(passed(sh, a, seen, p0, m0)) by {
            assert forall|i: int, k: int| 0 <= i < p0.len() && 0 <= k < m0[i] implies !open(sh, a, seen, #[trigger] sh[p0[i] as int][k]) by {
                assert(p0[i] == path[i] && m0[i] == ms[i]);
                assert(!open(sh, a, seen, sh[path[i] as int][k]));
            }
        }
        assert forall|i: int| j < i < p0.len() implies #[trigger] m0[i] == sh[p0[i] as int].len() by {
            assert(p0[i] == path[i] && m0[i] == ms[i]);
        }
        assert(p0[j] == path[j] && m0[j] == ms[j]);
        lemma_resume_at(sh, a, seen, p0, m0, j);
    }
}

proof fn lemma_resume_none(sh: Seq<Seq<usize>>, a: Seq<bool>, seen: Seq<bool>, path: Seq<usize>, ms: Seq<int>)
    requires
        bounded(sh, path, ms),
        passed(sh, a, seen, path, ms),
        forall|i: int| 0 <= i < path.len() ==> #[trigger] ms[i] == sh[path[i] as int].len(),
    ensures
        resume(sh, a, seen, path) is None,
    decreases path.len(),
{
    if path.len() > 0 {
        let l = path.len() - 1;
        let s = sh[path.last() as int];
        assert(ms[l] == s.len());
        assert forall|k: int| 0 <= k < s.len() implies !open(sh, a, seen, #[trigger] s[k]) by {
            assert(!open(sh, a, seen, sh[path[l] as int][k]));
        }
        lemma_first_open_none(sh, a, seen, s);
        let p0 = path.drop_last();
        let m0 = ms.drop_last();
        assert(bounded(sh, p0, m0)) by {
            assert forall|i: int| 0 <= i < p0.len() implies #[trigger] p0[i] < sh.len() && 0 <= m0[i] <= sh[p0[i] as int].len() by {
                assert(p0[i] == path[i] && m0[i] == ms[i]);
            }
        }
        assert(passed(sh, a, seen, p0, m0)) by {
            assert forall|i: int, k: int| 0 <= i < p0.len() && 0 <= k < m0[i] implies !open(sh, a, seen, #[trigger] sh[p0[i] as int][k]) by {
                assert(p0[i] == path[i] && m0[i] == ms[i]);
                assert(!open(sh, a, seen, sh[path[i] as int][k]));
            }
        }
        assert forall|i: int| 0 <= i < p0.len() implies #[trigger] m0[i] == sh[p0[i] as int].len() by {
            assert(p0[i] == path[i] && m0[i] == ms[i]);
        }
        lemma_resume_none(sh, a, seen, p0, m0);
    }
}

/// Marking `n` and then the nodes of `t` is marking `n` followed by `t`.
proof fn lemma_marked_cons(seen: Seq<bool>, n: usize, t: Seq<usize>)
    requires
        n < seen.len(),
    ensures
        marked(seen, seq![n] + t) == marked(seen.update(n as int, true), t),
{
    let u = seq![n] + t;
    assert forall|k: int| 0 <= k < seen.len() implies #[trigger] marked(seen, u)[k] == marked(seen.update(n as int, true), t)[k] by {
        if exists|j: int| 0 <= j < u.len() && u[j] == k {
            let j = choose|j: int| 0 <= j < u.len() && u[j] == k;
            if j > 0 {
                assert(t[j - 1] == k);
            }
        }
        if exists|j: int| 0 <= j < t.len() && t[j] == k {
            let j = choose|j: int| 0 <= j < t.len() && t[j] == k;
            assert(u[j + 1] == k);
        }
        if k == n as int {
            assert(u[0] == k);
        }
    }
    assert(marked(seen, u) =~= marked(seen.update(n as int, true), t));
}

/// Each visit the stack makes is where the recursive walk resumes, and the
/// stack runs out exactly where the walk has nowhere left to go.
#[verifier::spinoff_prover]
#[verifier::rlimit(50)]
proof fn lemma_dfs_resumes(sh: Seq<Seq<usize>>, a: Seq<bool>, seen: Seq<bool>, path: Seq<usize>, ms: Seq<int>, stack: Seq<usize>)
    requires
        bounded(sh, path, ms),
        passed(sh, a, seen, path, ms),
        stack == blocks(sh, path, ms),
    ensures
        forall|i: int|
            0 <= i < dfs(sh, a, seen, stack).len() ==> resume(
                sh,
                a,
                marked(seen, dfs(sh, a, seen, stack).take(i)),
                path + dfs(sh, a, seen, stack).take(i),
            ) == Some(#[trigger] dfs(sh, a, seen, stack)[i]),
        resume(sh, a, marked(seen, dfs(sh, a, seen, stack)), path + dfs(sh, a, seen, stack)) is None,
    decreases crate::spec::count_false(seen), stack.len(),
{
    let r = dfs(sh, a, seen, stack);
    if stack.len() == 0 {
        lemma_blocks_empty(sh, path, ms);
        lemma_resume_none(sh, a, seen, path, ms);
        assert(r =~= Seq::<usize>::empty());
        assert(marked(seen, r) =~= seen);
        assert(path + r =~= path);
    } else {
        let n = stack.last();
        let rest = stack.drop_last();
        let j = lemma_blocks_pop(sh, path, ms);
        let ms1 = ms.update(j, ms[j] + 1);
        assert(bounded(sh, path, ms1));
        if open(sh, a, seen, n) {
            lemma_count_false_set(seen, n as int);
            lemma_resume_at(sh, a, seen, path, ms, j);
            let s1 = seen.update(n as int, true);
            let path1 = path.push(n);
            let ms2 = ms1.push(0);
            let st1 = rest + reversed(sh[n as int]);
            assert(r == seq![n] + dfs(sh, a, s1, st1));
            assert(bounded(sh, path1, ms2)) by {
                assert forall|i: int| 0 <= i < path1.len() implies #[trigger] path1[i] < sh.len() && 0 <= ms2[i] <= sh[path1[i] as int].len() by {
                    if i < path.len() {
                        assert(path1[i] == path[i] && ms2[i] == ms1[i]);
                    }
                }
            }
            assert(passed(sh, a, s1, path1, ms2)) by {
                assert forall|i: int, k: int| 0 <= i < path1.len() && 0 <= k < ms2[i] implies !open(sh, a, s1, #[trigger] sh[path1[i] as int][k]) by {
                    assert(i < path.len());
                    assert(path1[i] == path[i] && ms2[i] == ms1[i]);
                    if !(i == j && k == ms[j]) {
                        assert(!open(sh, a, seen, sh[path[i] as int][k]));
                    }
                }
            }
            assert(ms2.drop_last() =~= ms1);
            assert(path1.drop_last() =~= path);
            assert(sh[n as int].skip(0) =~= sh[n as int]);
            assert(st1 == blocks(sh, path1, ms2));
            lemma_dfs_resumes(sh, a, s1, path1, ms2, st1);
            let r1 = dfs(sh, a, s1, st1);
            assert forall|i: int| 0 <= i < r.len() implies resume(sh, a, marked(seen, r.take(i)), path + r.take(i)) == Some(#[trigger] r[i]) by {
                if i == 0 {
                    assert(r.take(0) =~= Seq::<usize>::empty());
                    assert(marked(seen, r.take(0)) =~= seen);
                    assert(path + r.take(0) =~= path);
                } else {
                    let t1 = r1.take(i - 1);
                    assert(r.take(i) =~= seq![n] + t1);
                    assert(path + r.take(i) =~= path1 + t1);
                    lemma_marked_cons(seen, n, t1);
                    assert(r[i] == r1[i - 1]);
                }
            }
            assert(r =~= seq![n] + r1);
            assert(path + r =~= path1 + r1);
            lemma_marked_cons(seen, n, r1);
        } else {
            assert(passed(sh, a, seen, path, ms1)) by {
                assert forall|i: int, k: int| 0 <= i < path.len() && 0 <= k < ms1[i] implies !open(sh, a, seen, #[trigger] sh[path[i] as int][k]) by {
                    if !(i == j && k == ms[j]) {
                        assert(!open(sh, a, seen, sh[path[i] as int][k]));
                    }
                }
            }
            assert(r == dfs(sh, a, seen, rest));
            lemma_dfs_resumes(sh, a, seen, path, ms1, rest);
        }
    }
}

proof fn lemma_first_due_open<T>(g: Seq<NodeView<T>>, done: Seq<usize>, seen: Seq<bool>, list: Seq<usize>)
    requires
        seen.len() == g.len(),
        forall|k: usize| k < g.len() ==> seen[k as int] == #[trigger] done.contains(k),
    ensures
        first_due(g, done, list) == first_open(shape(g), alive_mask(g), seen, list),
    decreases list.len(),
{
    if list.len() > 0 {
        let c = list[0];
        if c < g.len() {
            assert(seen[c as int] == done.contains(c));
            assert(alive_mask(g)[c as int] == alive(g, c));
        }
        lemma_first_due_open(g, done, seen, list.drop_first());
    }
}

proof fn lemma_resume_from<T>(g: Seq<NodeView<T>>, done: Seq<usize>, seen: Seq<bool>, path: Seq<usize>)
    requires
        seen.len() == g.len(),
        forall|k: usize| k < g.len() ==> seen[k as int] == #[trigger] done.contains(k),
        forall|i: int| 0 <= i < path.len() ==> #[trigger] path[i] < g.len(),
    ensures
        resume_from(g, done, path) == resume(shape(g), alive_mask(g), seen, path),
    decreases path.len(),
{
    if path.len() > 0 {
        let n = path.last();
        assert(path[path.len() - 1] < g.len());
        assert(shape(g)[n as int] == children(g, n as int));
        lemma_first_due_open(g, done, seen, children(g, n as int));
        let p0 = path.drop_last();
        assert forall|i: int| 0 <= i < p0.len() implies #[trigger] p0[i] < g.len() by {
            assert(p0[i] == path[i]);
        }
        lemma_resume_from(g, done, seen, p0);
    }
}

/// A change at `x` visits nodes in the recursive depth-first preorder: it
/// starts at `x` when `x` is alive (and visits nothing otherwise), right
/// after each visit it goes to the first target of the node just visited
/// (weak links, then strong links, each in the order made) that is alive
/// and not yet visited, else backs up to the node visited before, and so
/// on; it ends exactly when no node visited has such a target left.
pub proof fn law_visits_depth_first<T>(g: Seq<NodeView<T>>, x: usize)
    requires
        crate::spec::well_formed(g),
        x < g.len(),
    ensures
        (visits(g, x).len() > 0) == alive(g, x),
        visits(g, x).len() > 0 ==> visits(g, x)[0] == x,
        forall|i: int|
            0 <= i < visits(g, x).len() ==> #[trigger] next_visit(g, visits(g, x).take(i + 1)) == (if i + 1 < visits(g, x).len() {
                Some(visits(g, x)[i + 1])
            } else {
                None
            }),
{
    let sh = shape(g);
    let a = alive_mask(g);
    let s0 = pad(Seq::<bool>::empty(), g.len());
    let vs = visits(g, x);
    assert(vs == dfs(sh, a, s0, seq![x]));
    assert(a[x as int] == alive(g, x));
    assert(!s0[x as int]);
    if !open(sh, a, s0, x) {
        assert(seq![x].drop_last() =~= Seq::<usize>::empty());
        assert(seq![x].last() == x);
        assert(dfs(sh, a, s0, Seq::<usize>::empty()) =~= Seq::<usize>::empty());
        assert(vs =~= Seq::<usize>::empty());
    } else {
        law_visits_exactly(g, x);
        let s1 = s0.update(x as int, true);
        let st1 = reversed(sh[x as int]);
        assert(seq![x].drop_last() + reversed(sh[x as int]) =~= st1);
        assert(seq![x].last() == x);
        assert(dfs(sh, a, s0, seq![x]) == seq![x] + dfs(sh, a, s0.update(x as int, true), seq![x].drop_last() + reversed(sh[x as int])));
        assert(vs == seq![x] + dfs(sh, a, s1, st1));
        let path = seq![x];
        let ms = seq![0int];
        assert(path.drop_last() =~= Seq::<usize>::empty());
        assert(ms.drop_last() =~= Seq::<int>::empty());
        assert(sh[x as int].skip(0) =~= sh[x as int]);
        assert(blocks(sh, Seq::<usize>::empty(), Seq::<int>::empty()) =~= Seq::<usize>::empty());
        assert(path.last() == x && ms.last() == 0);
        assert(blocks(sh, path, ms) =~= st1);
        lemma_dfs_resumes(sh, a, s1, path, ms, st1);
        let r1 = dfs(sh, a, s1, st1);
        assert forall|i: int| 0 <= i < vs.len() implies #[trigger] next_visit(g, vs.take(i + 1)) == (if i + 1 < vs.len() {
            Some(vs[i + 1])
        } else {
            None
        }) by {
            let done = vs.take(i + 1);
            let t = r1.take(i);
            assert(done =~= path + t);
            let m = marked(s1, t);
            assert forall|k: usize| k < g.len() implies m[k as int] == #[trigger] done.contains(k) by {
                lemma_in_concat(path, t, k);
                if t.contains(k) {
                    let j = choose|j: int| 0 <= j < t.len() && t[j] == k;
                    assert(t[j] == k as int);
                }
                if exists|j: int| 0 <= j < t.len() && t[j] == k as int {
                    let j = choose|j: int| 0 <= j < t.len() && t[j] == k as int;
                    assert(t[j] == k);
                }
                if k == x {
                    assert(path[0] == k);
                }
            }
            assert forall|j: int| 0 <= j < done.len() implies #[trigger] done[j] < g.len() by {
                assert(vs.contains(done[j]));
            }
            lemma_resume_from(g, done, m, done);
            if i + 1 < vs.len() {
                assert(vs[i + 1] == r1[i]);
            } else {
                assert(t =~= r1);
            }
        }
    }
}

} // verus!
