use vstd::prelude::*;
use crate::spec::{
    Cell, NodeView, Step, Fetch, nbrs, is_walk, reaches, everything, well_formed, fresh, with_cell,
    touched, after_get, after_store, after_set, after_step, linked, with_links_to, depending, released,
    alive, alive_mask, children, shape, reversed, pad, trim, open, pending, visits,
};

verus! {

pub(crate) struct Node<T> {
    pub(crate) cell: Cell<T>,
    pub(crate) links: Vec<usize>,
    pub(crate) strong_links: Vec<usize>,
    pub(crate) inputs: Vec<usize>,
    pub(crate) held: bool,
}

impl<T> View for Node<T> {
    type V = NodeView<T>;

    closed spec fn view(&self) -> NodeView<T> {
        NodeView {
            cell: self.cell,
            links: self.links@,
            strong_links: self.strong_links@,
            inputs: self.inputs@,
            held: self.held,
        }
    }
}

/// A graph of reactive nodes. A node is named by its index, the order in
/// which it was made.
pub struct Graph<T> {
    nodes: Vec<Node<T>>,
}

impl<T> View for Graph<T> {
    type V = Seq<NodeView<T>>;

    closed spec fn view(&self) -> Seq<NodeView<T>> {
        self.nodes@.map_values(|n: Node<T>| n@)
    }
}

/// `u` can be reached from one of `roots`.
pub open spec fn from_roots<T>(g: Seq<NodeView<T>>, keep: bool, allowed: Seq<bool>, roots: Seq<usize>, u: usize) -> bool {
    exists|r: usize| #[trigger] roots.contains(r) && reaches(g, keep, allowed, r, u)
}

/// Every admitted neighbour of `u` is marked.
spec fn closed_at<T>(g: Seq<NodeView<T>>, keep: bool, allowed: Seq<bool>, marks: Seq<bool>, u: int) -> bool {
    forall|k: int|
        0 <= k < nbrs(g, u, keep).len() && allowed[nbrs(g, u, keep)[k] as int] ==> marks[#[trigger] nbrs(g, u, keep)[k] as int]
}

spec fn count_true(s: Seq<bool>) -> nat
    decreases s.len(),
{
    if s.len() == 0 {
        0
    } else {
        count_true(s.drop_last()) + if s.last() {
            1nat
        } else {
            0nat
        }
    }
}

proof fn lemma_count_true_bound(s: Seq<bool>)
    ensures
        count_true(s) <= s.len(),
    decreases s.len(),
{
    if s.len() > 0 {
        lemma_count_true_bound(s.drop_last());
    }
}

proof fn lemma_count_true_set(s: Seq<bool>, i: int)
    requires
        0 <= i < s.len(),
        !s[i],
    ensures
        count_true(s.update(i, true)) == count_true(s) + 1,
    decreases s.len(),
{
    let t = s.update(i, true);
    if i == s.len() - 1 {
        assert(t.drop_last() =~= s.drop_last());
    } else {
        assert(t.drop_last() =~= s.drop_last().update(i, true));
        lemma_count_true_set(s.drop_last(), i);
    }
}

/// A walk followed by a step to a neighbour is a walk.
pub proof fn lemma_walk_extend<T>(g: Seq<NodeView<T>>, keep: bool, allowed: Seq<bool>, p: Seq<usize>, w: usize)
    requires
        is_walk(g, keep, allowed, p),
        w < g.len(),
        allowed[w as int],
        nbrs(g, p.last() as int, keep).contains(w),
    ensures
        is_walk(g, keep, allowed, p.push(w)),
        p.push(w)[0] == p[0],
        p.push(w).last() == w,
{
    let q = p.push(w);
    assert forall|i: int| 0 <= i < q.len() - 1 implies nbrs(g, #[trigger] q[i] as int, keep).contains(q[i + 1]) by {
        if i < p.len() - 1 {
            assert(q[i] == p[i] && q[i + 1] == p[i + 1]);
        }
    }
}

/// A set of marks closed under admitted neighbours holds every walk that
/// starts in it.
proof fn lemma_closed_walk<T>(g: Seq<NodeView<T>>, keep: bool, allowed: Seq<bool>, marks: Seq<bool>, p: Seq<usize>)
    requires
        is_walk(g, keep, allowed, p),
        marks.len() == g.len(),
        marks[p[0] as int],
        forall|u: int| 0 <= u < g.len() && marks[u] ==> closed_at(g, keep, allowed, marks, u),
    ensures
        marks[p.last() as int],
    decreases p.len(),
{
    if p.len() > 1 {
        let q = p.drop_last();
        assert forall|i: int| 0 <= i < q.len() - 1 implies nbrs(g, #[trigger] q[i] as int, keep).contains(q[i + 1]) by {
            assert(q[i] == p[i] && q[i + 1] == p[i + 1]);
        }
        assert(is_walk(g, keep, allowed, q));
        lemma_closed_walk(g, keep, allowed, marks, q);
        let u = p[p.len() - 2];
        assert(nbrs(g, u as int, keep).contains(p.last()));
        assert(closed_at(g, keep, allowed, marks, u as int));
        let k = choose|k: int| 0 <= k < nbrs(g, u as int, keep).len() && nbrs(g, u as int, keep)[k] == p.last();
        assert(allowed[p.last() as int]);
    }
}

proof fn lemma_count_false(j: nat)
    ensures
        count_true(Seq::new(j, |x: int| false)) == 0,
    decreases j,
{
    if j > 0 {
        assert(Seq::new(j, |x: int| false).drop_last() =~= Seq::new((j - 1) as nat, |x: int| false));
        lemma_count_false((j - 1) as nat);
    }
}

/// Marking more nodes keeps every closed node closed.
proof fn lemma_closed_grows<T>(g: Seq<NodeView<T>>, keep: bool, allowed: Seq<bool>, m1: Seq<bool>, m2: Seq<bool>, u: int)
    requires
        m1.len() == m2.len(),
        forall|x: int| 0 <= x < m1.len() && m1[x] ==> m2[x],
        closed_at(g, keep, allowed, m1, u),
        forall|k: int| 0 <= k < nbrs(g, u, keep).len() ==> nbrs(g, u, keep)[k] < m1.len(),
    ensures
        closed_at(g, keep, allowed, m2, u),
{
    assert forall|k: int|
        0 <= k < nbrs(g, u, keep).len() && allowed[nbrs(g, u, keep)[k] as int] implies m2[#[trigger] nbrs(g, u, keep)[k] as int] by {
        assert(m1[nbrs(g, u, keep)[k] as int]);
    }
}

/// Marks the admitted nodes of `list` not yet marked, pushing each one.
fn mark_list(list: &Vec<usize>, allowed: &Vec<bool>, marks: &mut Vec<bool>, stack: &mut Vec<usize>)
    requires
        allowed@.len() == old(marks)@.len(),
        forall|k: int| 0 <= k < list@.len() ==> list@[k] < old(marks)@.len(),
    ensures
        final(marks)@.len() == old(marks)@.len(),
        forall|x: int| 0 <= x < old(marks)@.len() && #[trigger] old(marks)@[x] ==> final(marks)@[x],
        forall|k: int| 0 <= k < list@.len() && allowed@[list@[k] as int] ==> final(marks)@[#[trigger] list@[k] as int],
        forall|x: int|
            0 <= x < old(marks)@.len() && #[trigger] final(marks)@[x] && !old(marks)@[x] ==> list@.contains(x as usize)
                && allowed@[x] && final(stack)@.contains(x as usize),
        final(stack)@.len() >= old(stack)@.len(),
        forall|x: int| 0 <= x < old(stack)@.len() ==> final(stack)@[x] == old(stack)@[x],
        forall|x: int|
            old(stack)@.len() <= x < final(stack)@.len() ==> final(stack)@[x] < old(marks)@.len() && final(marks)@[final(stack)@[x] as int],
        count_true(final(marks)@) == count_true(old(marks)@) + (final(stack)@.len() - old(stack)@.len()),
{
    let ghost m0 = marks@;
    let ghost s0 = stack@;
    let mut k: usize = 0;
    while k < list.len()
        invariant
            allowed@.len() == m0.len(),
            forall|x: int| 0 <= x < list@.len() ==> list@[x] < m0.len(),
            k <= list@.len(),
            marks@.len() == m0.len(),
            forall|x: int| 0 <= x < m0.len() && m0[x] ==> marks@[x],
            forall|y: int| 0 <= y < k && allowed@[list@[y] as int] ==> marks@[#[trigger] list@[y] as int],
            forall|x: int|
                0 <= x < m0.len() && marks@[x] && !m0[x] ==> list@.contains(x as usize) && allowed@[x]
                    && stack@.contains(x as usize),
            stack@.len() >= s0.len(),
            forall|x: int| 0 <= x < s0.len() ==> stack@[x] == s0[x],
            forall|x: int| s0.len() <= x < stack@.len() ==> stack@[x] < m0.len() && marks@[stack@[x] as int],
            count_true(marks@) == count_true(m0) + (stack@.len() - s0.len()),
        decreases list@.len() - k,
    {
        let w = list[k];
        if allowed[w] && !marks[w] {
            proof {
                lemma_count_true_set(marks@, w as int);
            }
            let ghost before = stack@;
            let ghost mb = marks@;
            marks.set(w, true);
            stack.push(w);
            proof {
                assert(stack@[stack@.len() - 1] == w);
                assert(list@[k as int] == w);
                assert forall|x: int|
                    0 <= x < m0.len() && marks@[x] && !m0[x] implies list@.contains(x as usize) && allowed@[x]
                        && stack@.contains(x as usize) by {
                    if x != w as int {
                        assert(mb[x]);
                        let y = choose|y: int| 0 <= y < before.len() && before[y] == x as usize;
                        assert(stack@[y] == x as usize);
                    }
                }
            }
        }
        k = k + 1;
    }
}

impl<T: Copy> Graph<T> {
    /// Marks every node that a walk from one of `roots` through admitted
    /// nodes reaches.
    #[verifier::rlimit(100)]
    #[verifier::spinoff_prover]
    pub(crate) fn mark(&self, keep: bool, allowed: &Vec<bool>, roots: &Vec<usize>) -> (marks: Vec<bool>)
        requires
            crate::spec::well_formed(self@),
            allowed@.len() == self@.len(),
            forall|i: int| 0 <= i < roots@.len() ==> roots@[i] < self@.len(),
        ensures
            marks@.len() == self@.len(),
            forall|u: usize| u < self@.len() ==> (marks@[u as int] <==> from_roots(self@, keep, allowed@, roots@, u)),
    {
        let ghost g = self@;
        let n = self.nodes.len();
        let mut marks: Vec<bool> = Vec::new();
        for i in 0..n
            invariant
                marks@ == Seq::new(i as nat, |x: int| false),
        {
            marks.push(false);
            assert(marks@ =~= Seq::new((i + 1) as nat, |x: int| false));
        }
        proof {
            lemma_count_false(n as nat);
        }
        let mut stack: Vec<usize> = Vec::new();
        let ghost mut count: nat = 0;
        let ghost m_init = marks@;
        proof {
            assert forall|x: int| 0 <= x < roots@.len() implies allowed@[roots@[x] as int] ==> from_roots(g, keep, allowed@, roots@, roots@[x]) by {
                let r = roots@[x];
                if allowed@[r as int] {
                    assert(is_walk(g, keep, allowed@, seq![r]));
                    assert(roots@.contains(r));
                    assert(reaches(g, keep, allowed@, r, r));
                }
            }
        }
        mark_list(roots, allowed, &mut marks, &mut stack);
        proof {
            count = count_true(marks@);
            assert forall|u: int| 0 <= u < n && marks@[u] && !stack@.contains(u as usize) implies closed_at(g, keep, allowed@, marks@, u) by {
                assert(!m_init[u]);
                assert(marks@[u]);
            }
            assert forall|u: usize| u < n && #[trigger] marks@[u as int] implies from_roots(g, keep, allowed@, roots@, u) by {
                assert(!m_init[u as int]);
                assert(marks@[u as int]);
                assert(roots@.contains(u));
                let x = choose|x: int| 0 <= x < roots@.len() && roots@[x] == u;
            }
        }
        while stack.len() > 0
            invariant
                n == g.len(),
                self@ == g,
                crate::spec::well_formed(g),
                allowed@.len() == n,
                forall|j: int| 0 <= j < roots@.len() ==> roots@[j] < n,
                marks@.len() == n,
                count == count_true(marks@),
                forall|j: int| 0 <= j < stack@.len() ==> stack@[j] < n && marks@[stack@[j] as int],
                forall|u: usize| u < n && #[trigger] marks@[u as int] ==> from_roots(g, keep, allowed@, roots@, u),
                forall|u: int| 0 <= u < n && marks@[u] && !stack@.contains(u as usize) ==> closed_at(g, keep, allowed@, marks@, u),
                forall|j: int| 0 <= j < roots@.len() && allowed@[roots@[j] as int] ==> marks@[#[trigger] roots@[j] as int],
            decreases n - count, stack@.len(),
        {
            proof {
                lemma_count_true_bound(marks@);
            }
            let ghost pre = stack@;
            let v = stack.pop().unwrap();
            let ghost rest = stack@;
            proof {
                assert(pre =~= rest.push(v));
            }
            let ghost m0 = marks@;
            let ghost nb = nbrs(g, v as int, keep);
            let first = if keep { &self.nodes[v].strong_links } else { &self.nodes[v].links };
            let second = if keep { &self.nodes[v].inputs } else { &self.nodes[v].strong_links };
            proof {
                assert(nb =~= first@ + second@);
                assert forall|k: int| 0 <= k < nb.len() implies nb[k] < n by {
                    if keep && k >= first@.len() {
                        assert(g[v as int].inputs[k - first@.len()] == nb[k]);
                    } else if keep {
                        assert(nbrs(g, v as int, false)[g[v as int].links.len() + k] == nb[k]);
                    } else {
                        assert(nbrs(g, v as int, false)[k] == nb[k]);
                    }
                }
                assert forall|k: int| 0 <= k < first@.len() implies first@[k] < n by {
                    assert(nb[k] == first@[k]);
                }
                assert forall|k: int| 0 <= k < second@.len() implies second@[k] < n by {
                    assert(nb[first@.len() + k] == second@[k]);
                }
            }
            mark_list(first, allowed, &mut marks, &mut stack);
            let ghost m1 = marks@;
            let ghost s1 = stack@;
            mark_list(second, allowed, &mut marks, &mut stack);
            proof {
                // every newly marked node is an admitted neighbour of `v`
                assert(from_roots(g, keep, allowed@, roots@, v));
                let r = choose|r: usize| #[trigger] roots@.contains(r) && reaches(g, keep, allowed@, r, v);
                let p = choose|p: Seq<usize>| #[trigger] is_walk(g, keep, allowed@, p) && p[0] == r && p.last() == v;
                assert forall|u: usize| u < n && #[trigger] marks@[u as int] implies from_roots(g, keep, allowed@, roots@, u) by {
                    if !m0[u as int] {
                        if m1[u as int] {
                            assert(first@.contains(u));
                            let k = choose|k: int| 0 <= k < first@.len() && first@[k] == u;
                            assert(nb[k] == u);
                        } else {
                            assert(second@.contains(u));
                            let k = choose|k: int| 0 <= k < second@.len() && second@[k] == u;
                            assert(nb[first@.len() + k] == u);
                        }
                        assert(nb.contains(u));
                        lemma_walk_extend(g, keep, allowed@, p, u);
                        assert(reaches(g, keep, allowed@, r, u));
                    }
                }
                assert(closed_at(g, keep, allowed@, marks@, v as int)) by {
                    assert forall|k: int| 0 <= k < nb.len() && allowed@[nb[k] as int] implies marks@[#[trigger] nb[k] as int] by {
                        if k < first@.len() {
                            assert(first@[k] == nb[k]);
                        } else {
                            assert(second@[k - first@.len()] == nb[k]);
                        }
                    }
                }
                assert forall|u: int| 0 <= u < n && marks@[u] && !stack@.contains(u as usize) implies closed_at(g, keep, allowed@, marks@, u) by {
                    if u != v as int {
                        assert(m0[u]);
                        if rest.contains(u as usize) {
                            let y = choose|y: int| 0 <= y < rest.len() && rest[y] == u as usize;
                            assert(stack@[y] == u as usize);
                        }
                        assert(!(rest.push(v)).contains(u as usize)) by {
                            if rest.push(v).contains(u as usize) {
                                let y = choose|y: int| 0 <= y < rest.len() + 1 && rest.push(v)[y] == u as usize;
                                if y < rest.len() {
                                    assert(rest[y] == u as usize);
                                }
                            }
                        }
                        assert forall|k: int| 0 <= k < nbrs(g, u, keep).len() implies nbrs(g, u, keep)[k] < n by {
                            if keep && k >= g[u].strong_links.len() {
                                assert(g[u].inputs[k - g[u].strong_links.len()] == nbrs(g, u, keep)[k]);
                            } else if keep {
                                assert(nbrs(g, u, false)[g[u].links.len() + k] == nbrs(g, u, keep)[k]);
                            } else {
                                assert(nbrs(g, u, false)[k] == nbrs(g, u, keep)[k]);
                            }
                        }
                        lemma_closed_grows(g, keep, allowed@, m0, marks@, u);
                    }
                }
                lemma_count_true_bound(marks@);
                assert(count_true(marks@) == count + (stack@.len() - rest.len()));
                count = count_true(marks@);
            }
        }
        proof {
            assert forall|u: usize| u < n implies (marks@[u as int] <==> from_roots(g, keep, allowed@, roots@, u)) by {
                if from_roots(g, keep, allowed@, roots@, u) {
                    let r = choose|r: usize| #[trigger] roots@.contains(r) && reaches(g, keep, allowed@, r, u);
                    let p = choose|p: Seq<usize>| #[trigger] is_walk(g, keep, allowed@, p) && p[0] == r && p.last() == u;
                    let x = choose|x: int| 0 <= x < roots@.len() && roots@[x] == r;
                    assert(allowed@[p[0] as int]);
                    assert(marks@[roots@[x] as int]);
                    lemma_closed_walk(g, keep, allowed@, marks@, p);
                }
            }
        }
        marks
    }
}


/// Changing cells or holders leaves a graph as well formed as it was.
pub(crate) proof fn lemma_same_links<T>(g: Seq<NodeView<T>>, f: Seq<NodeView<T>>)
    requires
        well_formed(g),
        f.len() == g.len(),
        forall|i: int|
            0 <= i < g.len() ==> f[i].links == g[i].links && f[i].strong_links == g[i].strong_links && #[trigger] f[i].inputs
                == g[i].inputs,
    ensures
        well_formed(f),
{
    assert forall|i: int, k: int|
        0 <= i < f.len() && 0 <= k < nbrs(f, i, false).len() implies #[trigger] nbrs(f, i, false)[k] < f.len()
 by {
        assert(f[i].inputs == g[i].inputs);
        assert(nbrs(f, i, false) == nbrs(g, i, false));
        let w = nbrs(g, i, false)[k];
        assert(f[w as int].inputs == g[w as int].inputs);
    }
    assert forall|i: int, k: int| 0 <= i < f.len() && 0 <= k < f[i].inputs.len() implies #[trigger] f[i].inputs[k] < f.len() by {
        assert(f[i].inputs == g[i].inputs);
    }
}

impl<T: Copy> Graph<T> {
    /// The graph's invariant.
    pub open spec fn wf(&self) -> bool {
        well_formed(self@)
    }

    /// An empty graph.
    pub fn new() -> (g: Self)
        ensures
            g@ == Seq::<NodeView<T>>::empty(),
            g.wf(),
    {
        let g = Graph { nodes: Vec::new() };
        assert(g@ =~= Seq::<NodeView<T>>::empty());
        g
    }

    /// The number of nodes.
    pub fn len(&self) -> (n: usize)
        ensures
            n == self@.len(),
    {
        self.nodes.len()
    }

    /// The cell of node `id`.
    pub fn cell(&self, id: usize) -> (c: Cell<T>)
        requires
            id < self@.len(),
        ensures
            c == self@[id as int].cell,
    {
        self.nodes[id].cell
    }

    /// Whether the caller still holds node `id`.
    pub fn is_held(&self, id: usize) -> (r: bool)
        requires
            id < self@.len(),
        ensures
            r == self@[id as int].held,
    {
        self.nodes[id].held
    }

    /// Whether node `id` is a derived node whose cached value is out of date.
    pub fn is_dirty(&self, id: usize) -> (r: bool)
        requires
            id < self@.len(),
        ensures
            r == (self@[id as int].cell matches Cell::Derived { dirty, .. } && dirty),
    {
        match self.nodes[id].cell {
            Cell::Derived { value: _, dirty } => dirty,
            _ => false,
        }
    }

    fn all_true(&self) -> (v: Vec<bool>)
        ensures
            v@ == everything(self@),
    {
        let n = self.nodes.len();
        let mut v: Vec<bool> = Vec::new();
        for i in 0..n
            invariant
                v@ == Seq::new(i as nat, |x: int| true),
        {
            v.push(true);
            assert(v@ =~= Seq::new((i + 1) as nat, |x: int| true));
        }
        assert(v@ =~= everything(self@));
        v
    }

    fn add_link(&mut self, from: usize, to: usize, strong: bool)
        requires
            old(self).wf(),
            from < old(self)@.len(),
            to < old(self)@.len(),
        ensures
            final(self)@ == linked(old(self)@, from, to, strong),
            final(self).wf(),
    {
        let ghost g = self@;
        if strong {
            self.nodes[from].strong_links.push(to);
        } else {
            self.nodes[from].links.push(to);
        }
        proof {
            assert(self@ =~= linked(g, from, to, strong));
            lemma_linked_well_formed(g, from, to, strong);
        }
    }

    /// Adds a weak link: a change at `from` is passed on to `to`, after the
    /// targets of the weak links that `from` already has; `to` is not kept
    /// alive by it.
    pub fn link(&mut self, from: usize, to: usize)
        requires
            old(self).wf(),
            from < old(self)@.len(),
            to < old(self)@.len(),
        ensures
            final(self)@ == linked(old(self)@, from, to, false),
            final(self).wf(),
    {
        self.add_link(from, to, false)
    }

    /// Adds a strong link: a change at `from` is passed on to `to`, after the
    /// targets of all its weak links and of the strong links it already has;
    /// `from` keeps `to` alive.
    pub fn strong_link(&mut self, from: usize, to: usize)
        requires
            old(self).wf(),
            from < old(self)@.len(),
            to < old(self)@.len(),
        ensures
            final(self)@ == linked(old(self)@, from, to, true),
            final(self).wf(),
    {
        self.add_link(from, to, true)
    }

    /// Node `id` comes to read from `inputs`, which it then keeps alive, and
    /// each distinct input gets one link to it, strong when `strong`.
    fn depend(&mut self, id: usize, inputs: &Vec<usize>, strong: bool)
        requires
            old(self).wf(),
            id < old(self)@.len(),
            forall|i: int| 0 <= i < inputs@.len() ==> inputs@[i] < old(self)@.len(),
        ensures
            final(self)@ == depending(old(self)@, id, inputs@, strong),
            final(self).wf(),
    {
        let ghost g = self@;
        let k = inputs.len();
        let len = self.nodes.len();
        proof {
            assert(g.len() == len);
        }
        for i in 0..k
            invariant
                k == inputs@.len(),
                id < g.len(),
                well_formed(g),
                forall|j: int| 0 <= j < inputs@.len() ==> inputs@[j] < g.len(),
                self@ == with_links_to(g, inputs@.take(i as int), id, strong),
                self.nodes@.len() == g.len(),
                g.len() <= usize::MAX,
        {
            let x = inputs[i];
            let ghost before = self@;
            let ghost pre = inputs@.take(i as int);
            let mut seen_before = false;
            let mut j: usize = 0;
            while j < i
                invariant
                    j <= i,
                    i < k,
                    k == inputs@.len(),
                    x == inputs@[i as int],
                    seen_before <==> exists|y: int| 0 <= y < j && inputs@[y] == x,
                decreases i - j,
            {
                if inputs[j] == x {
                    seen_before = true;
                }
                j = j + 1;
            }
            proof {
                if seen_before {
                    let y = choose|y: int| 0 <= y < i && inputs@[y] == x;
                    assert(pre[y] == x);
                } else if pre.contains(x) {
                    let y = choose|y: int| 0 <= y < pre.len() && pre[y] == x;
                    assert(inputs@[y] == x);
                }
            }
            if !seen_before {
                if strong {
                    self.nodes[x].strong_links.push(id);
                } else {
                    self.nodes[x].links.push(id);
                }
            }
            proof {
                let post = inputs@.take(i + 1);
                assert(post =~= pre.push(x));
                assert forall|j: int| 0 <= j < g.len() implies (#[trigger] post.contains(j as usize) <==> (pre.contains(j as usize) || j == x)) by {
                    if post.contains(j as usize) {
                        let y = choose|y: int| 0 <= y < post.len() && post[y] == j as usize;
                        if y < pre.len() {
                            assert(pre[y] == j as usize);
                        }
                    }
                    if pre.contains(j as usize) {
                        let y = choose|y: int| 0 <= y < pre.len() && pre[y] == j as usize;
                        assert(post[y] == j as usize);
                    }
                    if j == x {
                        assert(post[i as int] == x);
                    }
                }
                let target = with_links_to(g, post, id, strong);
                assert forall|j: int| 0 <= j < g.len() implies self@[j] == target[j] by {
                    assert(before[j] == with_links_to(g, pre, id, strong)[j]);
                    if j == x as int {
                        if !pre.contains(x) {
                            if strong {
                                assert(self@[j].strong_links =~= target[j].strong_links);
                            } else {
                                assert(self@[j].links =~= target[j].links);
                            }
                        }
                    } else {
                        assert(self@[j] == before[j]);
                    }
                }
                assert(self@ =~= target);
            }
        }
        proof {
            assert(inputs@.take(k as int) =~= inputs@);
        }
        let ghost mid = self@;
        for i in 0..k
            invariant
                k == inputs@.len(),
                id < mid.len(),
                self.nodes@.len() == mid.len(),
                self@ == mid.update(id as int, NodeView { inputs: mid[id as int].inputs + inputs@.take(i as int), ..mid[id as int] }),
        {
            let x = inputs[i];
            let ghost before = self@;
            self.nodes[id].inputs.push(x);
            proof {
                assert(before[id as int].inputs == mid[id as int].inputs + inputs@.take(i as int));
                assert(self@[id as int].inputs == before[id as int].inputs.push(x));
                assert(self@[id as int].inputs =~= mid[id as int].inputs + inputs@.take(i + 1));
                assert forall|j: int| 0 <= j < mid.len() && j != id implies self@[j] == before[j] by {}
                let want = NodeView { inputs: mid[id as int].inputs + inputs@.take(i + 1), ..mid[id as int] };
                assert(self@[id as int].links == want.links && self@[id as int].strong_links == want.strong_links);
                assert(self@[id as int].cell == want.cell && self@[id as int].held == want.held);
                assert(self@[id as int] == want);
                assert forall|j: int| 0 <= j < mid.len() && j != id implies before[j] == mid[j] by {}
                assert(self@.len() == mid.len());
                assert(self@ =~= mid.update(id as int, want));
            }
        }
        proof {
            assert(self@ =~= depending(g, id, inputs@, strong));
            lemma_depending_well_formed(g, id, inputs@, strong);
        }
    }
}

/// Adding a link between nodes of the graph keeps it well formed.
pub(crate) proof fn lemma_linked_well_formed<T>(g: Seq<NodeView<T>>, from: usize, to: usize, strong: bool)
    requires
        well_formed(g),
        from < g.len(),
        to < g.len(),
    ensures
        well_formed(linked(g, from, to, strong)),
{
    let f = linked(g, from, to, strong);
    assert forall|i: int, k: int| 0 <= i < f.len() && 0 <= k < nbrs(f, i, false).len() implies #[trigger] nbrs(f, i, false)[k] < f.len() by {
        if i != from as int {
            assert(nbrs(f, i, false) == nbrs(g, i, false));
        } else if strong {
            assert(nbrs(f, i, false) =~= nbrs(g, i, false).push(to));
            if k < nbrs(g, i, false).len() {
                assert(nbrs(f, i, false)[k] == nbrs(g, i, false)[k]);
            }
        } else {
            let ll = g[i].links.len() as int;
            assert(nbrs(f, i, false) =~= g[i].links.push(to) + g[i].strong_links);
            if k < ll {
                assert(nbrs(f, i, false)[k] == nbrs(g, i, false)[k]);
            } else if k > ll {
                assert(nbrs(f, i, false)[k] == nbrs(g, i, false)[k - 1]);
            }
        }
    }
    assert forall|i: int, k: int| 0 <= i < f.len() && 0 <= k < f[i].inputs.len() implies #[trigger] f[i].inputs[k] < f.len() by {
        assert(f[i].inputs == g[i].inputs);
    }
}

/// Adding links and inputs to nodes of the graph keeps it well formed.
#[verifier::spinoff_prover]
pub(crate) proof fn lemma_depending_well_formed<T>(g: Seq<NodeView<T>>, id: usize, inputs: Seq<usize>, strong: bool)
    requires
        well_formed(g),
        id < g.len(),
        forall|i: int| 0 <= i < inputs.len() ==> inputs[i] < g.len(),
    ensures
        well_formed(depending(g, id, inputs, strong)),
{
    let f = depending(g, id, inputs, strong);
    let extra = |i: int| if inputs.contains(i as usize) { seq![id] } else { Seq::<usize>::empty() };
    assert forall|i: int, m: int| 0 <= i < f.len() && 0 <= m < nbrs(f, i, false).len() implies #[trigger] nbrs(f, i, false)[m] < f.len() by {
        let w = nbrs(f, i, false)[m];
        if strong {
            assert(nbrs(f, i, false) =~= nbrs(g, i, false) + extra(i));
            if m >= nbrs(g, i, false).len() {
                assert(extra(i)[m - nbrs(g, i, false).len()] == w);
            }
        } else {
            let ll = g[i].links.len() as int;
            assert(nbrs(f, i, false) =~= g[i].links + extra(i) + g[i].strong_links);
            if m < ll {
                assert(nbrs(g, i, false)[m] == w);
            } else if m < ll + extra(i).len() {
                assert(extra(i)[m - ll] == w);
            } else {
                assert(nbrs(g, i, false)[m - extra(i).len()] == w);
            }
        }
    }
    assert forall|i: int, m: int| 0 <= i < f.len() && 0 <= m < f[i].inputs.len() implies #[trigger] f[i].inputs[m] < f.len() by {
        if i != id as int {
            assert(f[i].inputs == g[i].inputs);
        } else {
            assert(f[i].inputs == g[i].inputs + inputs);
            if m >= g[i].inputs.len() {
                assert(inputs[m - g[i].inputs.len()] == f[i].inputs[m]);
            }
        }
    }
}

/// A change on its way through a graph: the stack of nodes still to visit,
/// top last, and which nodes it has visited.
pub struct Propagation {
    stack: Vec<usize>,
    seen: Vec<bool>,
}

impl View for Propagation {
    type V = (Seq<usize>, Seq<bool>);

    closed spec fn view(&self) -> (Seq<usize>, Seq<bool>) {
        (self.stack@, self.seen@)
    }
}

impl<T: Copy> Graph<T> {
    fn add_node(&mut self, c: Cell<T>) -> (id: usize)
        requires
            old(self).wf(),
        ensures
            id == old(self)@.len(),
            final(self)@ == old(self)@.push(fresh(c)),
            final(self).wf(),
    {
        let ghost g = self@;
        let id = self.nodes.len();
        self.nodes.push(Node { cell: c, links: Vec::new(), strong_links: Vec::new(), inputs: Vec::new(), held: true });
        proof {
            let f = self@;
            assert(f =~= g.push(fresh(c)));
            assert forall|i: int, m: int|
                0 <= i < f.len() && 0 <= m < nbrs(f, i, false).len() implies #[trigger] nbrs(f, i, false)[m] < f.len() by {
                if i < g.len() {
                    assert(nbrs(f, i, false) == nbrs(g, i, false));
                } else {
                    assert(nbrs(f, i, false) =~= Seq::<usize>::empty());
                }
            }
            assert forall|i: int, m: int| 0 <= i < f.len() && 0 <= m < f[i].inputs.len() implies #[trigger] f[i].inputs[m] < f.len() by {
                if i < g.len() {
                    assert(f[i].inputs == g[i].inputs);
                }
            }
        }
        id
    }

    /// Makes a plain value node holding `value`, held by the caller.
    pub fn new_value(&mut self, value: T) -> (id: usize)
        requires
            old(self).wf(),
        ensures
            id == old(self)@.len(),
            final(self)@ == old(self)@.push(fresh(Cell::Value(value))),
            final(self).wf(),
    {
        self.add_node(Cell::Value(value))
    }

    /// Makes a derived node, held by the caller. It starts dirty, holding
    /// `initial`, so that the first read computes it.
    pub fn new_derived(&mut self, initial: T) -> (id: usize)
        requires
            old(self).wf(),
        ensures
            id == old(self)@.len(),
            final(self)@ == old(self)@.push(fresh(Cell::Derived { value: initial, dirty: true })),
            final(self).wf(),
    {
        self.add_node(Cell::Derived { value: initial, dirty: true })
    }

    /// Makes a reaction, held by the caller, and reports that it is due to
    /// run once now.
    pub fn new_react(&mut self) -> (r: (usize, Step))
        requires
            old(self).wf(),
        ensures
            r.0 == old(self)@.len(),
            r.1 == Step::React(r.0),
            final(self)@ == old(self)@.push(fresh(Cell::React)),
            final(self).wf(),
    {
        let id = self.add_node(Cell::React);
        (id, Step::React(id))
    }

    /// Makes a derived node reading from `inputs`, held by the caller: it
    /// starts dirty, holding `initial`; each distinct input gets one weak
    /// link to it, and it keeps its inputs alive.
    pub fn derive(&mut self, inputs: &Vec<usize>, initial: T) -> (id: usize)
        requires
            old(self).wf(),
            forall|i: int| 0 <= i < inputs@.len() ==> inputs@[i] < old(self)@.len(),
        ensures
            id == old(self)@.len(),
            final(self)@ == depending(
                old(self)@.push(fresh(Cell::Derived { value: initial, dirty: true })),
                id,
                inputs@,
                false,
            ),
            final(self).wf(),
    {
        let id = self.new_derived(initial);
        self.depend(id, inputs, false);
        id
    }

    /// Makes node `id`, a reaction already run once, watch `inputs`: it
    /// comes to read from them, keeping them alive, and each distinct input
    /// gets one strong link to it, keeping it alive in turn.
    pub fn watch(&mut self, id: usize, inputs: &Vec<usize>)
        requires
            old(self).wf(),
            id < old(self)@.len(),
            forall|i: int| 0 <= i < inputs@.len() ==> inputs@[i] < old(self)@.len(),
        ensures
            final(self)@ == depending(old(self)@, id, inputs@, true),
            final(self).wf(),
    {
        self.depend(id, inputs, true)
    }

    /// The caller lets go of node `id`. It stays alive while a living node
    /// keeps it; otherwise no later change visits it.
    pub fn release(&mut self, id: usize)
        requires
            old(self).wf(),
            id < old(self)@.len(),
        ensures
            final(self)@ == released(old(self)@, id as int),
            final(self).wf(),
    {
        self.nodes[id].held = false;
        proof {
            let f = self@;
            let g = old(self)@;
            assert(f =~= released(g, id as int));
            lemma_same_links(g, f);
        }
    }

    /// Reads the value or derived node `id`. A clean node gives its value. A
    /// dirty derived node is marked clean and gives `Stale`: the caller then
    /// computes its value and hands it to `store`.
    pub fn get(&mut self, id: usize) -> (r: Fetch<T>)
        requires
            old(self).wf(),
            id < old(self)@.len(),
            !(old(self)@[id as int].cell is React),
        ensures
            (final(self)@, r) == after_get(old(self)@, id as int),
            final(self).wf(),
    {
        match self.nodes[id].cell {
            Cell::Value(v) => Fetch::Ready(v),
            Cell::Derived { value, dirty } => {
                if dirty {
                    self.set_cell(id, Cell::Derived { value, dirty: false });
                    Fetch::Stale
                } else {
                    Fetch::Ready(value)
                }
            },
            Cell::React => Fetch::Stale,
        }
    }

    fn set_cell(&mut self, id: usize, c: Cell<T>)
        requires
            old(self).wf(),
            id < old(self)@.len(),
        ensures
            final(self)@ == old(self)@.update(id as int, with_cell(old(self)@[id as int], c)),
            final(self).wf(),
    {
        self.nodes[id].cell = c;
        proof {
            let f = self@;
            let g = old(self)@;
            assert(f =~= g.update(id as int, with_cell(g[id as int], c)));
            lemma_same_links(g, f);
        }
    }

    /// Stores a freshly computed `value` in the derived node `id`, leaving its
    /// dirty flag as it is.
    pub fn store(&mut self, id: usize, value: T)
        requires
            old(self).wf(),
            id < old(self)@.len(),
            old(self)@[id as int].cell is Derived,
        ensures
            final(self)@ == after_store(old(self)@, id as int, value),
            final(self).wf(),
    {
        let dirty = match self.nodes[id].cell {
            Cell::Derived { value: _, dirty } => dirty,
            _ => false,
        };
        self.set_cell(id, Cell::Derived { value, dirty });
    }

    /// Marks the living nodes.
    fn alive_marks(&self) -> (marks: Vec<bool>)
        requires
            self.wf(),
        ensures
            marks@ == alive_mask(self@),
    {
        let ghost g = self@;
        let n = self.nodes.len();
        let all = self.all_true();
        let mut holders: Vec<usize> = Vec::new();
        for i in 0..n
            invariant
                n == g.len(),
                self@ == g,
                forall|j: int| 0 <= j < holders@.len() ==> holders@[j] < i,
                forall|u: usize| #[trigger] holders@.contains(u) <==> (u < i && g[u as int].held),
        {
            let ghost h0 = holders@;
            if self.nodes[i].held {
                holders.push(i);
                proof {
                    assert forall|u: usize| #[trigger] holders@.contains(u) <==> (u < i + 1 && g[u as int].held) by {
                        if holders@.contains(u) && u != i {
                            let x = choose|x: int| 0 <= x < holders@.len() && holders@[x] == u;
                            assert(x < h0.len());
                            assert(h0[x] == u);
                            assert(h0.contains(u));
                        }
                        if u < i && g[u as int].held {
                            assert(h0.contains(u));
                            let x = choose|x: int| 0 <= x < h0.len() && h0[x] == u;
                            assert(holders@[x] == u);
                        }
                        if u == i {
                            assert(holders@[h0.len() as int] == u);
                        }
                    }
                }
            }
        }
        let marks = self.mark(true, &all, &holders);
        proof {
            assert forall|u: int| 0 <= u < n implies marks@[u] == alive_mask(g)[u] by {
                let uu = u as usize;
                if marks@[u] {
                    let r = choose|r: usize| #[trigger] holders@.contains(r) && reaches(g, true, all@, r, uu);
                    assert(r < g.len() && g[r as int].held && reaches(g, true, everything(g), r, uu));
                }
                if alive(g, uu) {
                    let h = choose|h: usize| h < g.len() && g[h as int].held && #[trigger] reaches(g, true, everything(g), h, uu);
                    assert(holders@.contains(h));
                }
            }
            assert(marks@ =~= alive_mask(g));
        }
        marks
    }

    /// Whether node `id` is alive: held by the caller, or kept by a living
    /// node that links to it strongly or reads from it.
    pub fn is_alive(&self, id: usize) -> (r: bool)
        requires
            self.wf(),
            id < self@.len(),
        ensures
            r == alive(self@, id),
    {
        let marks = self.alive_marks();
        marks[id]
    }

    /// Starts a propagation of a change at `id`: nothing visited yet, and
    /// `id` the one node to visit.
    pub fn invalidate(&self, id: usize) -> (p: Propagation)
        requires
            id < self@.len(),
        ensures
            p@ == (seq![id], Seq::<bool>::empty()),
            pending(self@, p@.0, p@.1) == visits(self@, id),
    {
        let mut stack: Vec<usize> = Vec::new();
        stack.push(id);
        Propagation { stack, seen: Vec::new() }
    }

    /// Writes `value` into the value node `id` and starts the propagation of
    /// that change.
    pub fn set(&mut self, id: usize, value: T) -> (p: Propagation)
        requires
            old(self).wf(),
            id < old(self)@.len(),
            old(self)@[id as int].cell is Value,
        ensures
            final(self)@ == after_set(old(self)@, id as int, value),
            final(self).wf(),
            p@ == (seq![id], Seq::<bool>::empty()),
    {
        self.set_cell(id, Cell::Value(value));
        self.invalidate(id)
    }

    /// Takes one step of a propagation: passes over the nodes on top of the
    /// stack that are not due a visit, then visits the next one: a derived
    /// node becomes dirty, a reaction is reported for the caller to run
    /// before the next step, and the nodes it passes the change on to are
    /// pushed, first one on top.
    pub fn step(&mut self, prop: &mut Propagation) -> (out: Step)
        requires
            old(self).wf(),
            old(prop)@.1.len() <= old(self)@.len(),
        ensures
            (final(self)@, final(prop)@.0, final(prop)@.1, out) == after_step(old(self)@, old(prop)@.0, old(prop)@.1),
            final(self).wf(),
            final(prop)@.1.len() == final(self)@.len(),
    {
        let ghost g = self@;
        let ghost s0 = prop.seen@;
        let ghost st0 = prop.stack@;
        let n = self.nodes.len();
        let alive = self.alive_marks();
        while prop.seen.len() < n
            invariant
                prop.stack@ == st0,
                s0.len() <= prop.seen@.len() <= n,
                n == g.len(),
                prop.seen@ == pad(s0, prop.seen@.len()),
            decreases n - prop.seen@.len(),
        {
            prop.seen.push(false);
            assert(prop.seen@ =~= pad(s0, prop.seen@.len()));
        }
        assert(prop.seen@ =~= pad(s0, g.len()));
        let ghost sh = shape(g);
        let ghost sd = prop.seen@;
        let mut found = false;
        while !found && prop.stack.len() > 0
            invariant
                n == g.len(),
                sh == shape(g),
                alive@ == alive_mask(g),
                prop.seen@ == sd,
                sd.len() == n,
                trim(sh, alive@, sd, prop.stack@) == trim(sh, alive@, sd, st0),
                found ==> prop.stack@.len() > 0 && open(sh, alive@, sd, prop.stack@.last()),
            decreases prop.stack@.len(), (if found { 0int } else { 1int }),
        {
            let top = prop.stack[prop.stack.len() - 1];
            if top < n && alive[top] && !prop.seen[top] {
                found = true;
            } else {
                let ghost before = prop.stack@;
                prop.stack.pop();
                assert(prop.stack@ =~= before.drop_last());
            }
        }
        if !found {
            proof {
                assert(prop.stack@ =~= Seq::<usize>::empty());
            }
            return Step::Done;
        }
        let ghost t = prop.stack@;
        let v = prop.stack.pop().unwrap();
        prop.seen.set(v, true);
        let c = self.nodes[v].cell;
        let out = match c {
            Cell::React => Step::React(v),
            _ => Step::Touched(v),
        };
        match c {
            Cell::Derived { value, dirty: _ } => {
                self.set_cell(v, Cell::Derived { value, dirty: true });
            },
            _ => {
                proof {
                    assert(g.update(v as int, with_cell(g[v as int], touched(c))) =~= g);
                }
            },
        }
        let ghost g1 = self@;
        let ghost mid = prop.stack@;
        let ghost sv = prop.seen@;
        proof {
            assert(g1 == g.update(v as int, with_cell(g[v as int], touched(c))));
            assert(g1[v as int].links == g[v as int].links && g1[v as int].strong_links == g[v as int].strong_links);
        }
        let sl = self.nodes[v].strong_links.len();
        let mut k: usize = sl;
        while k > 0
            invariant
                self@ == g1,
                prop.seen@ == sv,
                v < self@.len(),
                sl == g1[v as int].strong_links.len(),
                k <= sl,
                prop.stack@ == mid + reversed(g1[v as int].strong_links.subrange(k as int, sl as int)),
            decreases k,
        {
            k = k - 1;
            let x = self.nodes[v].strong_links[k];
            prop.stack.push(x);
            assert(prop.stack@ =~= mid + reversed(g1[v as int].strong_links.subrange(k as int, sl as int)));
        }
        let ghost mid2 = prop.stack@;
        let ll = self.nodes[v].links.len();
        let mut k: usize = ll;
        while k > 0
            invariant
                self@ == g1,
                prop.seen@ == sv,
                v < self@.len(),
                ll == g1[v as int].links.len(),
                k <= ll,
                prop.stack@ == mid2 + reversed(g1[v as int].links.subrange(k as int, ll as int)),
            decreases k,
        {
            k = k - 1;
            let x = self.nodes[v].links[k];
            prop.stack.push(x);
            assert(prop.stack@ =~= mid2 + reversed(g1[v as int].links.subrange(k as int, ll as int)));
        }
        proof {
            let links = g[v as int].links;
            let strong = g[v as int].strong_links;
            assert(links.subrange(0, ll as int) =~= links);
            assert(strong.subrange(0, sl as int) =~= strong);
            assert(reversed(links + strong) =~= reversed(strong) + reversed(links));
            assert(children(g, v as int) == links + strong);
            assert(prop.stack@ =~= t.drop_last() + reversed(children(g, v as int)));
        }
        out
    }
}

} // verus!
