use std::collections::HashSet;
use vstd::prelude::*;
use vstd::std_specs::iter::IteratorSpec;

use crate::util::strictly_increasing;

verus! {

broadcast use vstd::std_specs::hash::group_hash_axioms;

/// The mathematical content of a `BipartiteGraph`: the two node sets and the
/// edges, each edge going from an `a` node to a `b` node.
pub struct BipartiteGraphView {
    pub a_nodes: Set<usize>,
    pub b_nodes: Set<usize>,
    pub edges: Set<(usize, usize)>,
}

impl BipartiteGraphView {
    /// Every edge joins an `a` node to a `b` node and all sets are finite.
    pub open spec fn valid(self) -> bool {
        &&& self.a_nodes.finite()
        &&& self.b_nodes.finite()
        &&& self.edges.finite()
        &&& forall|e: (usize, usize)|
            #[trigger] self.edges.contains(e) ==> self.a_nodes.contains(e.0)
                && self.b_nodes.contains(e.1)
    }

    /// The `b` nodes joined to `a`.
    pub open spec fn neighbors_of_a(self, a: usize) -> Set<usize> {
        Set::new(|b: usize| self.edges.contains((a, b)))
    }

    /// The `a` nodes joined to `b`.
    pub open spec fn neighbors_of_b(self, b: usize) -> Set<usize> {
        Set::new(|a: usize| self.edges.contains((a, b)))
    }

    /// Whether the `b` node takes part in at least one edge.
    pub open spec fn b_is_nonisolated(self, b: usize) -> bool {
        exists|a: usize| self.edges.contains((a, b))
    }

    /// The `b` nodes that take part in at least one edge.
    pub open spec fn nonisolated_b_nodes(self) -> Set<usize> {
        self.b_nodes.filter(|b: usize| self.b_is_nonisolated(b))
    }
}

/// A bipartite graph between `a` nodes and `b` nodes, both named by integers.
pub struct BipartiteGraph {
    pub(crate) num_a_nodes: usize,
    pub(crate) all_a_nodes: HashSet<usize>,
    pub(crate) num_b_nodes: usize,
    all_b_nodes: HashSet<usize>,
    edges: Vec<(usize, usize)>,
}

impl View for BipartiteGraph {
    type V = BipartiteGraphView;

    closed spec fn view(&self) -> BipartiteGraphView {
        BipartiteGraphView {
            a_nodes: self.all_a_nodes@,
            b_nodes: self.all_b_nodes@,
            edges: self.edges@.to_set(),
        }
    }
}

/// The elements of a set of integers in increasing order.
fn sorted_elements(set: &HashSet<usize>) -> (v: Vec<usize>)
    ensures
        strictly_increasing(v@),
        forall|x: usize| v@.contains(x) <==> set@.contains(x),
{
    let mut v: Vec<usize> = Vec::new();
    for x in it: set.iter()
        invariant
            strictly_increasing(v@),
            forall|y: usize| v@.contains(y) <==> exists|k: int| 0 <= k < it.index() && *it.seq()[k] == y,
    {
        let ghost idx = it.index();
        assert(*x == *it.seq()[idx]);
        let x = *x;
        let ghost v_before = v@;
        let mut p: usize = 0;
        while p < v.len() && v[p] < x
            invariant
                0 <= p <= v@.len(),
                strictly_increasing(v@),
                forall|k: int| 0 <= k < p ==> v@[k] < x,
            decreases v@.len() - p,
        {
            p += 1;
        }
        if p < v.len() && v[p] == x {
        } else {
            let ghost before = v@;
            v.insert(p, x);
            proof {
                assert forall|i: int, j: int| 0 <= i < j < v@.len() implies v@[i] < v@[j] by {
                    if j < p {
                    } else if j == p {
                    } else if i < p {
                        assert(before[j - 1] > x || before[j-1] >= x);
                    } else if i == p {
                        assert(before[j - 1] >= before[p as int]);
                    } else {
                    }
                }
            }
        }
        proof {
            assert forall|y: usize| v@.contains(y) <==> exists|k: int| 0 <= k < idx + 1 && *it.seq()[k] == y by {
                if v@.contains(y) && y != x {
                    let i = choose|i: int| 0 <= i < v@.len() && v@[i] == y;
                    if p < v_before.len() && v_before[p as int] == x {
                        assert(v_before.contains(y));
                    } else if i < p {
                        assert(v_before[i] == y);
                        assert(v_before.contains(y));
                    } else {
                        assert(v_before[i - 1] == y);
                        assert(v_before.contains(y));
                    }
                }
                if exists|k: int| 0 <= k < idx + 1 && *it.seq()[k] == y {
                    let k = choose|k: int| 0 <= k < idx + 1 && *it.seq()[k] == y;
                    if k < idx {
                        assert(v_before.contains(y));
                        let i = choose|i: int| 0 <= i < v_before.len() && v_before[i] == y;
                        if p < v_before.len() && v_before[p as int] == x {
                        } else if i < p {
                            assert(v@[i] == y);
                        } else {
                            assert(v@[i + 1] == y);
                        }
                    } else {
                        if p < v_before.len() && v_before[p as int] == x {
                            assert(v@[p as int] == y);
                        } else {
                            assert(v@[p as int] == y);
                        }
                    }
                }
            }
        }
    }
    proof {
        assert forall|x: usize| v@.contains(x) <==> set@.contains(x) by {
            let keys = set.iter().remaining();
            assert(keys.unref().to_set() == set@);
            if set@.contains(x) {
                assert(keys.unref().to_set().contains(x));
                let k = choose|k: int| 0 <= k < keys.unref().len() && keys.unref()[k] == x;
                assert(*keys[k] == x);
            }
            if v@.contains(x) {
                let k = choose|k: int| 0 <= k < keys.len() && *keys[k] == x;
                assert(keys.unref()[k] == x);
                assert(keys.unref().to_set().contains(x));
            }
        }
    }
    v
}

impl BipartiteGraph {
    /// The counters match the node sets, no edge is stored twice, and every
    /// edge joins known nodes.
    pub closed spec fn wf(&self) -> bool {
        &&& self.num_a_nodes == self.all_a_nodes@.len()
        &&& self.num_b_nodes == self.all_b_nodes@.len()
        &&& self.all_a_nodes@.finite()
        &&& self.all_b_nodes@.finite()
        &&& self.edges@.no_duplicates()
        &&& forall|i: int|
            0 <= i < self.edges@.len() ==> self.all_a_nodes@.contains(#[trigger] self.edges@[i].0)
                && self.all_b_nodes@.contains(self.edges@[i].1)
    }

    /// A well-formed graph has a valid view.
    pub proof fn lemma_wf_view(&self)
        requires
            self.wf(),
        ensures
            self@.valid(),
    {
        assert forall|e: (usize, usize)| #[trigger] self@.edges.contains(e) implies self@.a_nodes.contains(e.0)
            && self@.b_nodes.contains(e.1) by {
            let i = choose|i: int| 0 <= i < self.edges@.len() && self.edges@[i] == e;
            assert(self.all_a_nodes@.contains(self.edges@[i].0));
        }
        vstd::seq_lib::seq_to_set_is_finite(self.edges@);
    }

    /// An empty graph.
    pub fn new() -> (g: Self)
        ensures
            g.wf(),
            g@.a_nodes == Set::<usize>::empty(),
            g@.b_nodes == Set::<usize>::empty(),
            g@.edges == Set::<(usize, usize)>::empty(),
    {
        let g = Self {
            num_a_nodes: 0,
            all_a_nodes: HashSet::new(),
            num_b_nodes: 0,
            all_b_nodes: HashSet::new(),
            edges: Vec::new(),
        };
        assert(g.edges@.to_set() =~= Set::<(usize, usize)>::empty());
        g
    }

    /// The number of distinct `a` nodes.
    pub fn num_a_nodes(&self) -> (n: usize)
        requires
            self.wf(),
        ensures
            n == self@.a_nodes.len(),
    {
        self.num_a_nodes
    }

    /// The number of distinct `b` nodes.
    pub fn num_b_nodes(&self) -> (n: usize)
        requires
            self.wf(),
        ensures
            n == self@.b_nodes.len(),
    {
        self.num_b_nodes
    }

    /// Adds an `a` node; adding one that is already there changes nothing.
    pub fn add_a(&mut self, new_a: usize)
        requires
            old(self).wf(),
        ensures
            final(self).wf(),
            final(self)@.a_nodes == old(self)@.a_nodes.insert(new_a),
            final(self)@.b_nodes == old(self)@.b_nodes,
            final(self)@.edges == old(self)@.edges,
    {
        let newly_inserted = self.all_a_nodes.insert(new_a);
        if newly_inserted {
            self.num_a_nodes = self.all_a_nodes.len();
        }
        proof {
            if !newly_inserted {
                assert(self.all_a_nodes@ =~= old(self).all_a_nodes@);
            }
        }
    }

    /// Adds a `b` node; adding one that is already there changes nothing.
    pub fn add_b(&mut self, new_b: usize)
        requires
            old(self).wf(),
        ensures
            final(self).wf(),
            final(self)@.a_nodes == old(self)@.a_nodes,
            final(self)@.b_nodes == old(self)@.b_nodes.insert(new_b),
            final(self)@.edges == old(self)@.edges,
    {
        let newly_inserted = self.all_b_nodes.insert(new_b);
        if newly_inserted {
            self.num_b_nodes = self.all_b_nodes.len();
        }
        proof {
            if !newly_inserted {
                assert(self.all_b_nodes@ =~= old(self).all_b_nodes@);
            }
        }
    }

    /// Position of the edge in the stored edge list, if it is there.
    fn find_edge(&self, a: usize, b: usize) -> (found: Option<usize>)
        ensures
            match found {
                Some(i) => i < self.edges@.len() && self.edges@[i as int] == (a, b),
                None => !self.edges@.contains((a, b)),
            },
    {
        let mut i: usize = 0;
        while i < self.edges.len()
            invariant
                0 <= i <= self.edges@.len(),
                forall|j: int| 0 <= j < i ==> self.edges@[j] != (a, b),
            decreases self.edges@.len() - i,
        {
            let e = self.edges[i];
            if e.0 == a && e.1 == b {
                return Some(i);
            }
            i += 1;
        }
        None
    }

    /// Adds the edge from `from_a` to `to_b`, adding either node if it is new.
    pub fn add_edge(&mut self, from_a: usize, to_b: usize)
        requires
            old(self).wf(),
        ensures
            final(self).wf(),
            final(self)@.a_nodes == old(self)@.a_nodes.insert(from_a),
            final(self)@.b_nodes == old(self)@.b_nodes.insert(to_b),
            final(self)@.edges == old(self)@.edges.insert((from_a, to_b)),
    {
        if !self.all_a_nodes.contains(&from_a) {
            self.add_a(from_a);
        } else {
            assert(self.all_a_nodes@.insert(from_a) =~= self.all_a_nodes@);
        }
        if !self.all_b_nodes.contains(&to_b) {
            self.add_b(to_b);
        } else {
            assert(self.all_b_nodes@.insert(to_b) =~= self.all_b_nodes@);
        }
        let ghost before = self.edges@;
        match self.find_edge(from_a, to_b) {
            Some(_) => {
                assert(self.edges@.to_set().insert((from_a, to_b)) =~= self.edges@.to_set());
            },
            None => {
                self.edges.push((from_a, to_b));
                proof {
                    assert(self.edges@.to_set() =~= before.to_set().insert((from_a, to_b))) by {
                        assert forall|e: (usize, usize)|
                            self.edges@.to_set().contains(e) implies before.to_set().insert(
                            (from_a, to_b),
                        ).contains(e) by {
                            let i = choose|i: int| 0 <= i < self.edges@.len() && self.edges@[i] == e;
                            if i < before.len() {
                                assert(before[i] == e);
                            }
                        }
                        assert forall|e: (usize, usize)|
                            before.to_set().insert((from_a, to_b)).contains(
                                e,
                            ) implies self.edges@.to_set().contains(e) by {
                            if e == (from_a, to_b) {
                                assert(self.edges@[before.len() as int] == e);
                            } else {
                                let i = choose|i: int| 0 <= i < before.len() && before[i] == e;
                                assert(self.edges@[i] == e);
                            }
                        }
                    }
                    assert forall|i: int, j: int|
                        0 <= i < self.edges@.len() && 0 <= j < self.edges@.len() && i != j implies self.edges@[i]
                        != self.edges@[j] by {
                        if i < before.len() && j < before.len() {
                            assert(before[i] != before[j]);
                        } else if i < before.len() {
                            assert(before.contains(before[i]));
                        } else {
                            assert(before.contains(before[j]));
                        }
                    }
                    assert forall|i: int| 0 <= i < self.edges@.len() implies self.all_a_nodes@.contains(
                        #[trigger] self.edges@[i].0,
                    ) && self.all_b_nodes@.contains(self.edges@[i].1) by {
                        if i < before.len() {
                            assert(before[i] == self.edges@[i]);
                        }
                    }
                }
            },
        }
    }

    /// Whether the edge from `a` to `b` is in the graph.
    pub fn contains_edge(&self, a: &usize, b: &usize) -> (present: bool)
        requires
            self.wf(),
        ensures
            present == self@.edges.contains((*a, *b)),
    {
        match self.find_edge(*a, *b) {
            Some(i) => {
                assert(self.edges@.to_set().contains(self.edges@[i as int]));
                true
            },
            None => false,
        }
    }

    /// The `b` nodes joined to `cur_node`, each once.
    pub fn neighbors_a(&self, cur_node: &usize) -> (out: Vec<usize>)
        requires
            self.wf(),
        ensures
            out@.no_duplicates(),
            forall|b: usize| out@.contains(b) <==> self@.edges.contains((*cur_node, b)),
    {
        let a = *cur_node;
        let mut out: Vec<usize> = Vec::new();
        let mut i: usize = 0;
        while i < self.edges.len()
            invariant
                self.wf(),
                0 <= i <= self.edges@.len(),
                out@.no_duplicates(),
                forall|k: int|
                    #![trigger out@[k]]
                    0 <= k < out@.len() ==> exists|j: int|
                        0 <= j < i && #[trigger] self.edges@[j] == (a, out@[k]),
                forall|j: int|
                    0 <= j < i && (#[trigger] self.edges@[j]).0 == a ==> out@.contains(
                        self.edges@[j].1,
                    ),
            decreases self.edges@.len() - i,
        {
            let e = self.edges[i];
            if e.0 == a {
                proof {
                    if out@.contains(e.1) {
                        let k = choose|k: int| 0 <= k < out@.len() && out@[k] == e.1;
                        let j = choose|j: int| 0 <= j < i && self.edges@[j] == (a, out@[k]);
                        assert(self.edges@[j] == self.edges@[i as int]);
                    }
                }
                let ghost before = out@;
                out.push(e.1);
                proof {
                    assert forall|k: int| #![trigger out@[k]] 0 <= k < out@.len() implies exists|j: int|
                        0 <= j < i + 1 && #[trigger] self.edges@[j] == (a, out@[k]) by {
                        if k < before.len() {
                            assert(out@[k] == before[k]);
                        } else {
                            assert(self.edges@[i as int] == (a, out@[k]));
                        }
                    }
                    assert forall|j: int|
                        0 <= j < i + 1 && (#[trigger] self.edges@[j]).0 == a implies out@.contains(
                        self.edges@[j].1,
                    ) by {
                        if j < i {
                            let k = choose|k: int| 0 <= k < before.len() && before[k] == self.edges@[j].1;
                            assert(out@[k] == before[k]);
                        } else {
                            assert(out@[before.len() as int] == self.edges@[j].1);
                        }
                    }
                }
            }
            i += 1;
        }
        proof {
            assert forall|b: usize| out@.contains(b) <==> self@.edges.contains((a, b)) by {
                if out@.contains(b) {
                    let k = choose|k: int| 0 <= k < out@.len() && out@[k] == b;
                    let j = choose|j: int| 0 <= j < i && self.edges@[j] == (a, out@[k]);
                    assert(self.edges@.to_set().contains(self.edges@[j]));
                }
                if self@.edges.contains((a, b)) {
                    let j = choose|j: int| 0 <= j < self.edges@.len() && self.edges@[j] == (a, b);
                    assert(self.edges@[j].0 == a);
                }
            }
        }
        out
    }

    /// The `a` nodes joined to `cur_node`, each once.
    pub fn neighbors_b(&self, cur_node: &usize) -> (out: Vec<usize>)
        requires
            self.wf(),
        ensures
            out@.no_duplicates(),
            forall|a: usize| out@.contains(a) <==> self@.edges.contains((a, *cur_node)),
    {
        let b = *cur_node;
        let mut out: Vec<usize> = Vec::new();
        let mut i: usize = 0;
        while i < self.edges.len()
            invariant
                self.wf(),
                0 <= i <= self.edges@.len(),
                out@.no_duplicates(),
                forall|k: int|
                    #![trigger out@[k]]
                    0 <= k < out@.len() ==> exists|j: int|
                        0 <= j < i && #[trigger] self.edges@[j] == (out@[k], b),
                forall|j: int|
                    0 <= j < i && (#[trigger] self.edges@[j]).1 == b ==> out@.contains(
                        self.edges@[j].0,
                    ),
            decreases self.edges@.len() - i,
        {
            let e = self.edges[i];
            if e.1 == b {
                proof {
                    if out@.contains(e.0) {
                        let k = choose|k: int| 0 <= k < out@.len() && out@[k] == e.0;
                        let j = choose|j: int| 0 <= j < i && self.edges@[j] == (out@[k], b);
                        assert(self.edges@[j] == self.edges@[i as int]);
                    }
                }
                let ghost before = out@;
                out.push(e.0);
                proof {
                    assert forall|k: int| #![trigger out@[k]] 0 <= k < out@.len() implies exists|j: int|
                        0 <= j < i + 1 && #[trigger] self.edges@[j] == (out@[k], b) by {
                        if k < before.len() {
                            assert(out@[k] == before[k]);
                        } else {
                            assert(self.edges@[i as int] == (out@[k], b));
                        }
                    }
                    assert forall|j: int|
                        0 <= j < i + 1 && (#[trigger] self.edges@[j]).1 == b implies out@.contains(
                        self.edges@[j].0,
                    ) by {
                        if j < i {
                            let k = choose|k: int| 0 <= k < before.len() && before[k] == self.edges@[j].0;
                            assert(out@[k] == before[k]);
                        } else {
                            assert(out@[before.len() as int] == self.edges@[j].0);
                        }
                    }
                }
            }
            i += 1;
        }
        proof {
            assert forall|a: usize| out@.contains(a) <==> self@.edges.contains((a, b)) by {
                if out@.contains(a) {
                    let k = choose|k: int| 0 <= k < out@.len() && out@[k] == a;
                    let j = choose|j: int| 0 <= j < i && self.edges@[j] == (out@[k], b);
                    assert(self.edges@.to_set().contains(self.edges@[j]));
                }
                if self@.edges.contains((a, b)) {
                    let j = choose|j: int| 0 <= j < self.edges@.len() && self.edges@[j] == (a, b);
                    assert(self.edges@[j].1 == b);
                }
            }
        }
        out
    }

    /// Whether `a` is an `a` node.
    pub fn contains_a(&self, a: &usize) -> (b: bool)
        requires
            self.wf(),
        ensures
            b == self@.a_nodes.contains(*a),
    {
        self.all_a_nodes.contains(a)
    }

    /// All `a` nodes in increasing order.
    pub fn all_a_nodes_sorted(&self) -> (v: Vec<usize>)
        requires
            self.wf(),
        ensures
            strictly_increasing(v@),
            forall|a: usize| v@.contains(a) <==> self@.a_nodes.contains(a),
    {
        sorted_elements(&self.all_a_nodes)
    }

    /// The number of `b` nodes joined to `cur_node`.
    pub fn count_neighbors_a(&self, cur_node: &usize) -> (n: usize)
        requires
            self.wf(),
        ensures
            n == self@.neighbors_of_a(*cur_node).len(),
    {
        let out = self.neighbors_a(cur_node);
        proof {
            assert(out@.to_set() =~= self@.neighbors_of_a(*cur_node));
            out@.unique_seq_to_set();
        }
        out.len()
    }

    /// The number of `b` nodes that take part in at least one edge.
    pub fn num_nonisolated_b_nodes(&self) -> (n: usize)
        requires
            self.wf(),
        ensures
            n == self@.nonisolated_b_nodes().len(),
    {
        let bs = sorted_elements(&self.all_b_nodes);
        let mut count: usize = 0;
        let ghost mut counted: Set<usize> = Set::empty();
        let mut i: usize = 0;
        while i < bs.len()
            invariant
                self.wf(),
                strictly_increasing(bs@),
                forall|x: usize| bs@.contains(x) <==> self.all_b_nodes@.contains(x),
                0 <= i <= bs@.len(),
                counted.finite(),
                count == counted.len(),
                count <= i,
                forall|x: usize|
                    counted.contains(x) <==> (exists|k: int| 0 <= k < i && bs@[k] == x)
                        && self@.b_is_nonisolated(x),
            decreases bs@.len() - i,
        {
            let b = bs[i];
            let nb = self.neighbors_b(&b);
            let has_neighbor = nb.len() > 0;
            proof {
                if has_neighbor {
                    assert(nb@.contains(nb@[0]));
                    assert(self@.edges.contains((nb@[0], b)));
                } else {
                    assert forall|a: usize| !self@.edges.contains((a, b)) by {
                        if self@.edges.contains((a, b)) {
                            assert(nb@.contains(a));
                        }
                    }
                }
            }
            proof {
                assert(!counted.contains(b)) by {
                    if counted.contains(b) {
                        let k = choose|k: int| 0 <= k < i && bs@[k] == b;
                        assert(bs@[k] < bs@[i as int]);
                    }
                }
            }
            if has_neighbor {
                proof {
                    counted = counted.insert(b);
                }
                count += 1;
            }
            proof {
                assert forall|x: usize|
                    counted.contains(x) <==> (exists|k: int| 0 <= k < i + 1 && bs@[k] == x)
                        && self@.b_is_nonisolated(x) by {
                    if x == b {
                        assert(bs@[i as int] == x);
                    }
                    if exists|k: int| 0 <= k < i + 1 && bs@[k] == x {
                        let k = choose|k: int| 0 <= k < i + 1 && bs@[k] == x;
                        if k < i {
                        } else {
                            assert(x == b);
                        }
                    }
                }
            }
            i += 1;
        }
        proof {
            assert(counted =~= self@.nonisolated_b_nodes()) by {
                assert forall|x: usize| counted.contains(x) <==> self@.nonisolated_b_nodes().contains(x) by {
                    if self.all_b_nodes@.contains(x) {
                        assert(bs@.contains(x));
                    }
                }
            }
        }
        count
    }
}

} // verus!
