use vstd::prelude::*;

verus! {

/// What a node of the graph holds.
pub enum Cell<T> {
    /// A plain value, written from outside.
    Value(T),
    /// A value computed from other nodes; `dirty` means that the cached
    /// `value` may be out of date and is recomputed on the next read.
    Derived { value: T, dirty: bool },
    /// A reaction: it holds no value and is run each time a change reaches it.
    React,
}

impl<T: Copy> Clone for Cell<T> {
    fn clone(&self) -> (res: Self)
        ensures
            res == *self,
    {
        *self
    }
}

impl<T: Copy> Copy for Cell<T> {}

/// The mathematical picture of one node.
pub struct NodeView<T> {
    pub cell: Cell<T>,
    /// Nodes notified of a change here, without being kept alive by it.
    pub links: Seq<usize>,
    /// Nodes notified of a change here and kept alive by it.
    pub strong_links: Seq<usize>,
    /// Nodes that this node reads from, and so keeps alive.
    pub inputs: Seq<usize>,
    /// Whether the caller still holds the node.
    pub held: bool,
}

/// What one step of a propagation reports.
pub enum Step {
    /// Nothing was pending: the propagation is over.
    Done,
    /// A value or derived node was visited; a derived one is now dirty.
    Touched(usize),
    /// A reaction is due: the caller runs it before the next step.
    React(usize),
}

/// What reading a gettable node gives.
pub enum Fetch<T> {
    /// The node's current value.
    Ready(T),
    /// The derived node was dirty: it is now marked clean, and the caller
    /// computes its value and hands it back with `store`.
    Stale,
}

/// The nodes next to `n`: along the links that carry a change (weak, then
/// strong) when `keep` is false; along the references that keep nodes alive
/// (strong links, then inputs) when `keep` is true.
pub open spec fn nbrs<T>(g: Seq<NodeView<T>>, n: int, keep: bool) -> Seq<usize> {
    if keep {
        g[n].strong_links + g[n].inputs
    } else {
        g[n].links + g[n].strong_links
    }
}

/// `p` is a walk through the graph along `nbrs(.., keep)` that only passes
/// through nodes that `allowed` admits.
pub open spec fn is_walk<T>(g: Seq<NodeView<T>>, keep: bool, allowed: Seq<bool>, p: Seq<usize>) -> bool {
    &&& p.len() > 0
    &&& forall|i: int| 0 <= i < p.len() ==> #[trigger] p[i] < g.len() && allowed[p[i] as int]
    &&& forall|i: int| 0 <= i < p.len() - 1 ==> nbrs(g, #[trigger] p[i] as int, keep).contains(p[i + 1])
}

/// There is a walk from `x` to `y`.
pub open spec fn reaches<T>(g: Seq<NodeView<T>>, keep: bool, allowed: Seq<bool>, x: usize, y: usize) -> bool {
    exists|p: Seq<usize>| #[trigger] is_walk(g, keep, allowed, p) && p[0] == x && p.last() == y
}

/// Admits every node.
pub open spec fn everything<T>(g: Seq<NodeView<T>>) -> Seq<bool> {
    Seq::new(g.len(), |i: int| true)
}

/// A node is alive when the caller holds it, or a living node keeps it: by a
/// strong link to it, or by reading from it.
pub open spec fn alive<T>(g: Seq<NodeView<T>>, n: usize) -> bool {
    exists|h: usize| h < g.len() && g[h as int].held && #[trigger] reaches(g, true, everything(g), h, n)
}

/// Which nodes are alive.
pub open spec fn alive_mask<T>(g: Seq<NodeView<T>>) -> Seq<bool> {
    Seq::new(g.len(), |i: int| alive(g, i as usize))
}

/// A change at `x` reaches `y`: along links, through living nodes only.
pub open spec fn reached<T>(g: Seq<NodeView<T>>, x: usize, y: usize) -> bool {
    reaches(g, false, alive_mask(g), x, y)
}

/// The graph's invariant: every link and input names a node of the graph.
pub open spec fn well_formed<T>(g: Seq<NodeView<T>>) -> bool {
    &&& forall|i: int, k: int| 0 <= i < g.len() && 0 <= k < nbrs(g, i, false).len() ==> #[trigger] nbrs(g, i, false)[k] < g.len()
    &&& forall|i: int, k: int| 0 <= i < g.len() && 0 <= k < g[i].inputs.len() ==> #[trigger] g[i].inputs[k] < g.len()
}

/// A node with the given cell, no links or inputs, held.
pub open spec fn fresh<T>(c: Cell<T>) -> NodeView<T> {
    NodeView { cell: c, links: Seq::empty(), strong_links: Seq::empty(), inputs: Seq::empty(), held: true }
}

/// A node with its cell replaced.
pub open spec fn with_cell<T>(node: NodeView<T>, c: Cell<T>) -> NodeView<T> {
    NodeView { cell: c, ..node }
}

/// What a visit does to a cell: a derived value becomes dirty, anything else
/// stays as it was.
pub open spec fn touched<T>(c: Cell<T>) -> Cell<T> {
    match c {
        Cell::Derived { value, dirty: _ } => Cell::Derived { value, dirty: true },
        _ => c,
    }
}

/// What reading node `id` does: the graph afterwards and what is returned.
pub open spec fn after_get<T>(g: Seq<NodeView<T>>, id: int) -> (Seq<NodeView<T>>, Fetch<T>) {
    match g[id].cell {
        Cell::Value(v) => (g, Fetch::Ready(v)),
        Cell::Derived { value, dirty } => if dirty {
            (g.update(id, with_cell(g[id], Cell::Derived { value, dirty: false })), Fetch::Stale)
        } else {
            (g, Fetch::Ready(value))
        },
        Cell::React => (g, Fetch::Stale),
    }
}

/// What storing a computed `value` in the derived node `id` does: the value
/// is replaced and the dirty flag kept.
pub open spec fn after_store<T>(g: Seq<NodeView<T>>, id: int, value: T) -> Seq<NodeView<T>> {
    g.update(id, with_cell(g[id], Cell::Derived { value, dirty: g[id].cell->dirty }))
}

/// What writing `value` into the value node `id` does to the graph.
pub open spec fn after_set<T>(g: Seq<NodeView<T>>, id: int, value: T) -> Seq<NodeView<T>> {
    g.update(id, with_cell(g[id], Cell::Value(value)))
}

/// The nodes that a change at `n` passes on to, in order: its weak links,
/// then its strong links.
pub open spec fn children<T>(g: Seq<NodeView<T>>, n: int) -> Seq<usize> {
    nbrs(g, n, false)
}

/// The link structure of a graph, node by node.
pub open spec fn shape<T>(g: Seq<NodeView<T>>) -> Seq<Seq<usize>> {
    Seq::new(g.len(), |i: int| children(g, i))
}

/// A sequence in reverse order.
pub open spec fn reversed<A>(s: Seq<A>) -> Seq<A> {
    Seq::new(s.len(), |i: int| s[s.len() - 1 - i])
}

/// How many entries are false.
pub open spec fn count_false(s: Seq<bool>) -> nat
    decreases s.len(),
{
    if s.len() == 0 {
        0
    } else {
        count_false(s.drop_last()) + if s.last() {
            0nat
        } else {
            1nat
        }
    }
}

/// Setting a false entry to true leaves one fewer false entry.
pub proof fn lemma_count_false_set(s: Seq<bool>, i: int)
    requires
        0 <= i < s.len(),
        !s[i],
    ensures
        count_false(s.update(i, true)) + 1 == count_false(s),
    decreases s.len(),
{
    let t = s.update(i, true);
    if i == s.len() - 1 {
        assert(t.drop_last() =~= s.drop_last());
    } else {
        assert(t.drop_last() =~= s.drop_last().update(i, true));
        lemma_count_false_set(s.drop_last(), i);
    }
}

/// Node `n` is due a visit: it is in the graph, alive, and not yet visited.
pub open spec fn open(sh: Seq<Seq<usize>>, alive: Seq<bool>, seen: Seq<bool>, n: usize) -> bool {
    n < sh.len() && n < seen.len() && n < alive.len() && alive[n as int] && !seen[n as int]
}

/// The visits that a change still makes, from a stack of nodes to visit
/// (top last) and the nodes already visited: the top node, if it is due a
/// visit, is visited, and the nodes it passes the change on to are visited
/// next, first link first, each with everything that the change reaches
/// from it; a node already visited, or dead, is passed over. This is the
/// depth-first order of the recursive walk that visits each node once.
pub open spec fn dfs(sh: Seq<Seq<usize>>, alive: Seq<bool>, seen: Seq<bool>, stack: Seq<usize>) -> Seq<usize>
    decreases count_false(seen), stack.len(),
{
    if stack.len() == 0 {
        Seq::empty()
    } else {
        let n = stack.last();
        let rest = stack.drop_last();
        if open(sh, alive, seen, n) {
            proof {
                lemma_count_false_set(seen, n as int);
            }
            seq![n] + dfs(sh, alive, seen.update(n as int, true), rest + reversed(sh[n as int]))
        } else {
            dfs(sh, alive, seen, rest)
        }
    }
}

/// The stack with the nodes not due a visit taken off its top.
pub open spec fn trim(sh: Seq<Seq<usize>>, alive: Seq<bool>, seen: Seq<bool>, stack: Seq<usize>) -> Seq<usize>
    decreases stack.len(),
{
    if stack.len() == 0 {
        stack
    } else if open(sh, alive, seen, stack.last()) {
        stack
    } else {
        trim(sh, alive, seen, stack.drop_last())
    }
}

/// The visited marks extended with "not visited" to `n` entries.
pub open spec fn pad(seen: Seq<bool>, n: nat) -> Seq<bool> {
    Seq::new(n, |i: int| i < seen.len() && seen[i])
}

/// What one step of a propagation does: the graph, the stack and the visited
/// marks afterwards, and the report. The nodes on top that are not due a
/// visit are passed over; the next one is visited and touched, and the nodes
/// it passes the change on to are pushed, first one on top.
pub open spec fn after_step<T>(g: Seq<NodeView<T>>, stack: Seq<usize>, seen: Seq<bool>) -> (
    Seq<NodeView<T>>,
    Seq<usize>,
    Seq<bool>,
    Step,
) {
    let s = pad(seen, g.len());
    let t = trim(shape(g), alive_mask(g), s, stack);
    if t.len() == 0 {
        (g, t, s, Step::Done)
    } else {
        let n = t.last() as int;
        let c = g[n].cell;
        (
            g.update(n, with_cell(g[n], touched(c))),
            t.drop_last() + reversed(children(g, n)),
            s.update(n, true),
            if c is React {
                Step::React(n as usize)
            } else {
                Step::Touched(n as usize)
            },
        )
    }
}

/// The visits still owed to a propagation in graph `g`.
pub open spec fn pending<T>(g: Seq<NodeView<T>>, stack: Seq<usize>, seen: Seq<bool>) -> Seq<usize> {
    dfs(shape(g), alive_mask(g), pad(seen, g.len()), stack)
}

/// The visits a change at `x` makes, in order.
pub open spec fn visits<T>(g: Seq<NodeView<T>>, x: usize) -> Seq<usize> {
    pending(g, seq![x], Seq::empty())
}

/// The graph after a link from `from` to `to`, weak or strong.
pub open spec fn linked<T>(g: Seq<NodeView<T>>, from: usize, to: usize, strong: bool) -> Seq<NodeView<T>> {
    let node = g[from as int];
    if strong {
        g.update(from as int, NodeView { strong_links: node.strong_links.push(to), ..node })
    } else {
        g.update(from as int, NodeView { links: node.links.push(to), ..node })
    }
}

/// The steps of a propagation, `k` of them: the graph, the stack and the
/// marks afterwards, and the reactions reported, in order.
pub open spec fn run<T>(g: Seq<NodeView<T>>, stack: Seq<usize>, seen: Seq<bool>, k: nat) -> (
    Seq<NodeView<T>>,
    Seq<usize>,
    Seq<bool>,
    Seq<usize>,
)
    decreases k,
{
    if k == 0 {
        (g, stack, seen, Seq::empty())
    } else {
        let next = after_step(g, stack, seen);
        let more = run(next.0, next.1, next.2, (k - 1) as nat);
        (
            more.0,
            more.1,
            more.2,
            match next.3 {
                Step::React(m) => seq![m] + more.3,
                _ => more.3,
            },
        )
    }
}

/// The reactions among a sequence of nodes, in order.
pub open spec fn reactions<T>(g: Seq<NodeView<T>>, vs: Seq<usize>) -> Seq<usize>
    decreases vs.len(),
{
    if vs.len() == 0 {
        Seq::empty()
    } else {
        (if g[vs[0] as int].cell is React {
            seq![vs[0]]
        } else {
            Seq::empty()
        }) + reactions(g, vs.drop_first())
    }
}

} // verus!

verus! {

/// The graph after each node named in `sources` gets one link to `id`
/// (strong when `strong`), however often it is named.
pub open spec fn with_links_to<T>(g: Seq<NodeView<T>>, sources: Seq<usize>, id: usize, strong: bool) -> Seq<NodeView<T>> {
    Seq::new(
        g.len(),
        |i: int|
            {
                let extra = if sources.contains(i as usize) {
                    seq![id]
                } else {
                    Seq::<usize>::empty()
                };
                if strong {
                    NodeView { strong_links: g[i].strong_links + extra, ..g[i] }
                } else {
                    NodeView { links: g[i].links + extra, ..g[i] }
                }
            },
    )
}

/// The graph after node `id` comes to read from `inputs` (which it then
/// keeps alive), and each distinct input gets one link to it, strong when
/// `strong`.
pub open spec fn depending<T>(g: Seq<NodeView<T>>, id: usize, inputs: Seq<usize>, strong: bool) -> Seq<NodeView<T>> {
    let h = with_links_to(g, inputs, id, strong);
    h.update(id as int, NodeView { inputs: h[id as int].inputs + inputs, ..h[id as int] })
}

/// The graph after the caller lets go of node `id`.
pub open spec fn released<T>(g: Seq<NodeView<T>>, id: int) -> Seq<NodeView<T>> {
    g.update(id, NodeView { held: false, ..g[id] })
}

} // verus!
