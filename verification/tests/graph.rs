use reactive::graph::{Graph, Propagation};
use reactive::spec::{Cell, Fetch, Step};

/// Derived nodes in these tests add up their inputs; each derived node's
/// inputs are kept beside the graph, as a caller keeps its functions.
struct Net {
    g: Graph<i64>,
    inputs: Vec<Vec<usize>>,
    reaction_runs: Vec<usize>,
}

impl Net {
    fn new() -> Net {
        Net { g: Graph::new(), inputs: Vec::new(), reaction_runs: Vec::new() }
    }

    fn value(&mut self, v: i64) -> usize {
        let id = self.g.new_value(v);
        self.inputs.push(Vec::new());
        id
    }

    fn derive_sum(&mut self, inputs: Vec<usize>) -> usize {
        let id = self.g.derive(&inputs, 0);
        self.inputs.push(inputs);
        id
    }

    fn react(&mut self, inputs: Vec<usize>) -> usize {
        let (id, due) = self.g.new_react();
        match due {
            Step::React(n) => self.reaction_runs.push(n),
            _ => panic!("a new reaction is due to run"),
        }
        self.g.watch(id, &inputs);
        self.inputs.push(inputs);
        id
    }

    fn pull(&mut self, id: usize) -> i64 {
        match self.g.get(id) {
            Fetch::Ready(v) => v,
            Fetch::Stale => {
                let ins = self.inputs[id].clone();
                let mut total = 0;
                for i in ins {
                    total += self.pull(i);
                }
                self.g.store(id, total);
                total
            }
        }
    }

    fn drive(&mut self, mut p: Propagation) -> Vec<usize> {
        let mut seen = Vec::new();
        loop {
            match self.g.step(&mut p) {
                Step::Done => break,
                Step::Touched(n) => seen.push(n),
                Step::React(n) => {
                    seen.push(n);
                    self.reaction_runs.push(n);
                }
            }
        }
        seen
    }
}

fn visit_all(g: &mut Graph<i64>, mut p: Propagation) -> Vec<usize> {
    let mut seen = Vec::new();
    loop {
        match g.step(&mut p) {
            Step::Done => break,
            Step::Touched(n) | Step::React(n) => seen.push(n),
        }
    }
    seen
}

#[test]
fn main_scenario_values_and_reaction() {
    let mut net = Net::new();
    let a = net.value(2);
    let b = net.value(4);
    let c = net.derive_sum(vec![a, b]);
    let d = net.derive_sum(vec![c, c]);
    let r = net.react(vec![d]);
    // the reaction is due once when made: it reads d, which is computed
    assert_eq!(net.reaction_runs, vec![r]);
    let f = 2 * net.pull(d);
    assert_eq!(f, 24);
    assert_eq!(net.pull(c), 6);
    assert_eq!(net.pull(d), 12);

    let p = net.g.set(a, 6);
    let seen = net.drive(p);
    // each reached node once, depth first
    assert_eq!(seen, vec![a, c, d, r]);
    assert_eq!(net.reaction_runs, vec![r, r]);
    assert!(net.g.is_dirty(c));
    assert!(net.g.is_dirty(d));
    assert_eq!(net.pull(c), 10);
    assert_eq!(net.pull(d), 20);
    assert_eq!(2 * net.pull(d), 40);
}

#[test]
fn input_named_twice_links_once() {
    let mut g: Graph<i64> = Graph::new();
    let c = g.new_value(1);
    let d = g.derive(&vec![c, c], 0);
    let p = g.invalidate(c);
    assert_eq!(visit_all(&mut g, p), vec![c, d]);
}

#[test]
fn get_after_set_gives_written_value() {
    let mut g: Graph<i64> = Graph::new();
    let a = g.new_value(1);
    let _p = g.set(a, 42);
    assert!(matches!(g.get(a), Fetch::Ready(42)));
    assert!(matches!(g.cell(a), Cell::Value(42)));
}

#[test]
fn derived_starts_dirty_then_recompute_then_ready() {
    let mut g: Graph<i64> = Graph::new();
    let d = g.new_derived(7);
    assert!(matches!(g.cell(d), Cell::Derived { value: 7, dirty: true }));
    assert!(matches!(g.get(d), Fetch::Stale));
    assert!(matches!(g.cell(d), Cell::Derived { value: 7, dirty: false }));
    g.store(d, 99);
    assert!(matches!(g.get(d), Fetch::Ready(99)));
    assert!(matches!(g.get(d), Fetch::Ready(99)));
    assert!(matches!(g.cell(d), Cell::Derived { value: 99, dirty: false }));
}

#[test]
fn store_keeps_dirty_flag_set_while_computing() {
    let mut g: Graph<i64> = Graph::new();
    let a = g.new_value(1);
    let d = g.derive(&vec![a], 0);
    assert!(matches!(g.get(d), Fetch::Stale));
    // while d is being computed, a changes again and marks d dirty
    let p = g.set(a, 5);
    visit_all(&mut g, p);
    g.store(d, 1);
    assert!(matches!(g.cell(d), Cell::Derived { value: 1, dirty: true }));
    assert!(matches!(g.get(d), Fetch::Stale));
}

#[test]
fn link_to_an_earlier_node_is_accepted() {
    let mut g: Graph<i64> = Graph::new();
    let d = g.new_derived(0);
    let a = g.new_value(1);
    g.link(a, d);
    let p = g.invalidate(a);
    assert_eq!(visit_all(&mut g, p), vec![a, d]);
}

#[test]
fn link_closing_a_cycle_is_accepted() {
    let mut g: Graph<i64> = Graph::new();
    let a = g.new_value(1);
    let b = g.new_derived(0);
    let c = g.new_derived(0);
    g.link(a, b);
    g.strong_link(b, c);
    g.link(c, a);
    // the change goes round once and stops: each node is visited once
    let p = g.invalidate(a);
    assert_eq!(visit_all(&mut g, p), vec![a, b, c]);
    let p = g.invalidate(c);
    assert_eq!(visit_all(&mut g, p), vec![c, a, b]);
}

#[test]
fn link_to_itself_is_accepted() {
    let mut g: Graph<i64> = Graph::new();
    let a = g.new_value(1);
    let d = g.new_derived(0);
    g.link(a, a);
    g.strong_link(a, a);
    g.link(a, d);
    let p = g.invalidate(a);
    assert_eq!(visit_all(&mut g, p), vec![a, d]);
}

#[test]
fn depth_first_visits_each_node_once() {
    let mut net = Net::new();
    let a = net.value(1);
    let d1 = net.derive_sum(vec![a]);
    let d2 = net.derive_sum(vec![a]);
    let r = net.react(vec![d1, d2]);
    net.reaction_runs.clear();
    let p = net.g.set(a, 2);
    let seen = net.drive(p);
    assert_eq!(seen, vec![a, d1, r, d2]);
    assert_eq!(net.reaction_runs, vec![r]);
}

#[test]
fn weak_links_before_strong_links() {
    let mut g: Graph<i64> = Graph::new();
    let a = g.new_value(1);
    let (r, due) = g.new_react();
    assert!(matches!(due, Step::React(1)));
    let d = g.new_derived(0);
    g.strong_link(a, r);
    g.link(a, d);
    let mut p = g.invalidate(a);
    assert!(matches!(g.step(&mut p), Step::Touched(0)));
    assert!(matches!(g.step(&mut p), Step::Touched(2)));
    assert!(matches!(g.step(&mut p), Step::React(1)));
    assert!(matches!(g.step(&mut p), Step::Done));
    assert_eq!((a, r, d), (0, 1, 2));
}

#[test]
fn links_are_followed_in_the_order_made() {
    let mut g: Graph<i64> = Graph::new();
    let a = g.new_value(1);
    let (r1, _) = g.new_react();
    let (r2, _) = g.new_react();
    let d1 = g.new_derived(0);
    let d2 = g.new_derived(0);
    g.strong_link(a, r2);
    g.link(a, d2);
    g.strong_link(a, r1);
    g.link(a, d1);
    let p = g.invalidate(a);
    assert_eq!(visit_all(&mut g, p), vec![a, d2, d1, r2, r1]);
}

#[test]
fn reaction_runs_once_before_it_watches() {
    let mut g: Graph<i64> = Graph::new();
    let a = g.new_value(1);
    let (r, due) = g.new_react();
    assert!(matches!(due, Step::React(n) if n == r));
    // not watching yet: a change at `a` does not reach it
    let p = g.invalidate(a);
    assert_eq!(visit_all(&mut g, p), vec![a]);
    g.watch(r, &vec![a]);
    let p = g.invalidate(a);
    assert_eq!(visit_all(&mut g, p), vec![a, r]);
}

#[test]
fn step_on_finished_propagation_is_done() {
    let mut g: Graph<i64> = Graph::new();
    let a = g.new_value(3);
    let mut p = g.invalidate(a);
    assert!(matches!(g.step(&mut p), Step::Touched(0)));
    assert!(matches!(g.step(&mut p), Step::Done));
    assert!(matches!(g.step(&mut p), Step::Done));
}

#[test]
fn invalidating_a_derived_node_marks_it_dirty() {
    let mut g: Graph<i64> = Graph::new();
    let d = g.new_derived(0);
    assert!(matches!(g.get(d), Fetch::Stale));
    g.store(d, 3);
    assert!(!g.is_dirty(d));
    let mut p = g.invalidate(d);
    assert!(matches!(g.step(&mut p), Step::Touched(0)));
    assert!(g.is_dirty(d));
    assert!(matches!(g.cell(d), Cell::Derived { value: 3, dirty: true }));
}

#[test]
fn change_leaves_unrelated_nodes_alone() {
    let mut net = Net::new();
    let a = net.value(1);
    let b = net.value(2);
    let ca = net.derive_sum(vec![a]);
    let cb = net.derive_sum(vec![b]);
    assert_eq!(net.pull(ca), 1);
    assert_eq!(net.pull(cb), 2);
    let p = net.g.set(a, 10);
    let seen = net.drive(p);
    assert_eq!(seen, vec![a, ca]);
    assert!(net.g.is_dirty(ca));
    assert!(!net.g.is_dirty(cb));
    assert!(matches!(net.g.cell(b), Cell::Value(2)));
    assert!(matches!(net.g.cell(cb), Cell::Derived { value: 2, dirty: false }));
    assert_eq!(net.pull(ca), 10);
}

#[test]
fn change_reaches_every_input_dependent() {
    let mut net = Net::new();
    let a = net.value(1);
    let b = net.value(2);
    let c = net.derive_sum(vec![a, b]);
    assert_eq!(net.pull(c), 3);
    let p = net.g.set(b, 5);
    let seen = net.drive(p);
    assert_eq!(seen, vec![b, c]);
    assert_eq!(net.pull(c), 6);
}

#[test]
fn change_reaches_dependents_of_dependents() {
    let mut net = Net::new();
    let a = net.value(1);
    let c = net.derive_sum(vec![a]);
    let d = net.derive_sum(vec![c]);
    let e = net.derive_sum(vec![d]);
    assert_eq!(net.pull(e), 1);
    let p = net.g.set(a, 4);
    let seen = net.drive(p);
    assert_eq!(seen, vec![a, c, d, e]);
    assert!(net.g.is_dirty(e));
    assert_eq!(net.pull(e), 4);
}

#[test]
fn released_derived_node_is_not_visited() {
    let mut net = Net::new();
    let a = net.value(1);
    let d = net.derive_sum(vec![a]);
    net.g.release(d);
    assert!(!net.g.is_held(d));
    let p = net.g.set(a, 2);
    assert_eq!(net.drive(p), vec![a]);
}

#[test]
fn released_input_kept_alive_by_its_reader() {
    let mut net = Net::new();
    let a = net.value(1);
    let c = net.derive_sum(vec![a]);
    let d = net.derive_sum(vec![c]);
    net.g.release(c);
    let p = net.g.set(a, 2);
    assert_eq!(net.drive(p), vec![a, c, d]);
}

#[test]
fn released_reaction_kept_alive_by_strong_link() {
    let mut net = Net::new();
    let a = net.value(1);
    let r = net.react(vec![a]);
    net.g.release(r);
    net.reaction_runs.clear();
    let p = net.g.set(a, 2);
    assert_eq!(net.drive(p), vec![a, r]);
    assert_eq!(net.reaction_runs, vec![r]);
}

#[test]
fn nothing_held_nothing_visited() {
    let mut net = Net::new();
    let a = net.value(1);
    let r = net.react(vec![a]);
    net.g.release(r);
    net.g.release(a);
    let p = net.g.invalidate(a);
    assert_eq!(net.drive(p), Vec::<usize>::new());
}

#[test]
fn new_nodes_are_numbered_in_order() {
    let mut g: Graph<i64> = Graph::new();
    assert_eq!(g.len(), 0);
    assert_eq!(g.new_value(1), 0);
    assert_eq!(g.new_derived(0), 1);
    assert_eq!(g.new_react().0, 2);
    assert_eq!(g.derive(&vec![0, 1], 5), 3);
    assert!(matches!(g.new_react(), (4, Step::React(4))));
    assert_eq!(g.len(), 5);
    assert!(matches!(g.cell(2), Cell::React));
    assert!(matches!(g.cell(3), Cell::Derived { value: 5, dirty: true }));
    assert!(!g.is_dirty(0));
    assert!(!g.is_dirty(2));
}

#[test]
fn aliveness_follows_holders_and_keepers() {
    let mut g: Graph<i64> = Graph::new();
    let a = g.new_value(1);
    let d = g.derive(&vec![a], 0);
    let (r, _) = g.new_react();
    g.watch(r, &vec![d]);
    g.release(a);
    assert!(g.is_alive(a));
    g.release(d);
    assert!(g.is_alive(d));
    g.release(r);
    assert!(!g.is_alive(r));
    assert!(!g.is_alive(d));
    assert!(!g.is_alive(a));
}

#[test]
fn reaction_runs_before_later_siblings_are_visited() {
    let mut net = Net::new();
    let a = net.value(1);
    let d1 = net.derive_sum(vec![a]);
    let d2 = net.derive_sum(vec![a]);
    let r = net.react(vec![d1, d2]);
    assert_eq!(net.pull(d1), 1);
    assert_eq!(net.pull(d2), 1);
    let mut p = net.g.set(a, 2);
    assert!(matches!(net.g.step(&mut p), Step::Touched(n) if n == a));
    assert!(matches!(net.g.step(&mut p), Step::Touched(n) if n == d1));
    assert!(matches!(net.g.step(&mut p), Step::React(n) if n == r));
    // when the reaction runs, the change has reached d1 but not yet d2
    assert!(net.g.is_dirty(d1));
    assert!(!net.g.is_dirty(d2));
    assert!(matches!(net.g.step(&mut p), Step::Touched(n) if n == d2));
    assert!(matches!(net.g.step(&mut p), Step::Done));
    assert_eq!(net.pull(d1) + net.pull(d2), 4);
}
