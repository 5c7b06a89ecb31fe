use std::collections::{HashMap, HashSet};
use vstd::prelude::*;

use crate::bipartite_graph::{BipartiteGraph, BipartiteGraphView};
use crate::philosophers::{AnnotatedView, CleanAndAnnotated, Philosopher, PhilosopherView};
use crate::dag_utils::{lemma_least_rank, lemma_sorted_indices_of_finite};
use crate::util::{
    least, lemma_increasing_len, lemma_least, lemma_sorted_indices, lemma_sorted_rearrangement,
    nonempty_from_vec, sorted_indices, strictly_increasing,
};

verus! {

broadcast use vstd::std_specs::hash::group_hash_axioms;

/// The list of positions `v` names, each once, the philosophers that hold an
/// edge to resource `r`, by their positions `pos`.
pub open spec fn request_list_ok(
    g: BipartiteGraphView,
    pos: Map<usize, usize>,
    r: usize,
    v: Seq<usize>,
) -> bool {
    &&& v.no_duplicates()
    &&& forall|x: usize|
        #[trigger] v.contains(x) <==> exists|w: usize| #[trigger] g.edges.contains((w, r)) && pos[w] == x
}

/// Philosopher `w` has an edge to some resource of `needed`.
pub open spec fn shares_needed(g: BipartiteGraphView, needed: Seq<usize>, w: usize) -> bool {
    exists|r: usize| needed.contains(r) && #[trigger] g.edges.contains((w, r))
}

/// `pos` gives distinct positions to distinct `a` nodes, and one to each.
pub open spec fn positions_ok(g: BipartiteGraphView, pos: Map<usize, usize>) -> bool {
    &&& forall|w: usize| g.a_nodes.contains(w) ==> #[trigger] pos.contains_key(w)
    &&& forall|w1: usize, w2: usize|
        g.a_nodes.contains(w1) && g.a_nodes.contains(w2) && w1 != w2 ==> #[trigger] pos[w1]
            != #[trigger] pos[w2]
}

/// The least element of the vector, if it has one.
fn min_of(v: &Vec<usize>) -> (m: Option<usize>)
    ensures
        m is None <==> v@.len() == 0,
        m matches Some(x) ==> v@.contains(x) && forall|y: usize| v@.contains(y) ==> x <= y,
{
    if v.len() == 0 {
        return None;
    }
    let mut best = v[0];
    let mut k: usize = 1;
    assert(v@.take(1)[0] == best);
    while k < v.len()
        invariant
            1 <= k <= v@.len(),
            v@.take(k as int).contains(best),
            forall|j: int| 0 <= j < k ==> best <= v@[j],
        decreases v@.len() - k,
    {
        if v[k] < best {
            best = v[k];
            assert(v@.take(k + 1)[k as int] == best);
        } else {
            proof {
                let j = choose|j: int| 0 <= j < k && v@.take(k as int)[j] == best;
                assert(v@.take(k + 1)[j] == best);
            }
        }
        k += 1;
    }
    proof {
        let j = choose|j: int| 0 <= j < k && v@.take(k as int)[j] == best;
        assert(v@[j] == best);
        assert forall|y: usize| v@.contains(y) implies best <= y by {
            let i = choose|i: int| 0 <= i < v@.len() && v@[i] == y;
        }
    }
    Some(best)
}

/// Gives the philosopher the ways to request each resource it needs from
/// every philosopher that has an edge to that resource, and to send
/// resources to each of those philosophers, using their positions `pos`.
fn wire<Resources, Context, Job>(
    p: &mut Philosopher<Resources, Context, Job>,
    graph: &BipartiteGraph,
    pos: &HashMap<usize, usize>,
)
    requires
        graph.wf(),
        old(p)@.request_sending == Map::<usize, Seq<usize>>::empty(),
        old(p)@.resource_sending == Map::<usize, usize>::empty(),
        old(p)@.needed.no_duplicates(),
        positions_ok(graph@, pos@),
    ensures
        final(p)@.my_id == old(p)@.my_id,
        final(p)@.holding == old(p)@.holding,
        final(p)@.job == old(p)@.job,
        final(p)@.needed == old(p)@.needed,
        final(p)@.context_queue == old(p)@.context_queue,
        forall|r: usize|
            #[trigger] final(p)@.request_sending.contains_key(r) <==> old(p)@.needed.contains(r)
                && graph@.b_is_nonisolated(r),
        forall|r: usize|
            #[trigger] final(p)@.request_sending.contains_key(r) ==> request_list_ok(
                graph@,
                pos@,
                r,
                final(p)@.request_sending[r],
            ),
        forall|w: usize|
            #[trigger] final(p)@.resource_sending.contains_key(w) <==> shares_needed(
                graph@,
                old(p)@.needed,
                w,
            ),
        forall|w: usize|
            #[trigger] final(p)@.resource_sending.contains_key(w) ==> final(p)@.resource_sending[w]
                == pos@[w],
{
    proof {
        graph.lemma_wf_view();
    }
    let ghost g = graph@;
    let ghost pm = pos@;
    let ghost start = p@;
    let needed = p.needed_vec();
    let mut j: usize = 0;
    while j < needed.len()
        invariant
            graph.wf(),
            g == graph@,
            g.valid(),
            pm == pos@,
            positions_ok(g, pm),
            needed@ == start.needed,
            start.needed.no_duplicates(),
            0 <= j <= needed@.len(),
            p@.my_id == start.my_id,
            p@.holding == start.holding,
            p@.job == start.job,
            p@.needed == start.needed,
            p@.context_queue == start.context_queue,
            forall|r: usize|
                #[trigger] p@.request_sending.contains_key(r) <==> needed@.take(j as int).contains(r)
                    && g.b_is_nonisolated(r),
            forall|r: usize|
                #[trigger] p@.request_sending.contains_key(r) ==> request_list_ok(
                    g,
                    pm,
                    r,
                    p@.request_sending[r],
                ),
            forall|w: usize|
                #[trigger] p@.resource_sending.contains_key(w) <==> shares_needed(
                    g,
                    needed@.take(j as int),
                    w,
                ),
            forall|w: usize| #[trigger] p@.resource_sending.contains_key(w) ==> p@.resource_sending[w] == pm[w],
        decreases needed@.len() - j,
    {
        let r = needed[j];
        let ghost done = needed@.take(j as int);
        let ghost next = needed@.take(j + 1);
        proof {
            assert(next =~= done.push(r));
            assert(!done.contains(r)) by {
                if done.contains(r) {
                    let i = choose|i: int| 0 <= i < done.len() && done[i] == r;
                    assert(needed@[i] == needed@[j as int]);
                }
            }
            assert forall|x: usize| #[trigger] next.contains(x) <==> done.contains(x) || x == r by {
                if next.contains(x) {
                    let i = choose|i: int| 0 <= i < next.len() && next[i] == x;
                    if i < j {
                        assert(done[i] == x);
                    }
                }
                if done.contains(x) {
                    let i = choose|i: int| 0 <= i < done.len() && done[i] == x;
                    assert(next[i] == x);
                }
                if x == r {
                    assert(next[j as int] == x);
                }
            }
        }
        let who = graph.neighbors_b(&r);
        let mut q: usize = 0;
        while q < who.len()
            invariant
                graph.wf(),
                g == graph@,
                g.valid(),
                pm == pos@,
                positions_ok(g, pm),
                who@.no_duplicates(),
                forall|w: usize| who@.contains(w) <==> g.edges.contains((w, r)),
                !done.contains(r),
                start.needed.contains(r),
                0 <= q <= who@.len(),
                p@.my_id == start.my_id,
                p@.holding == start.holding,
                p@.job == start.job,
                p@.needed == start.needed,
                p@.context_queue == start.context_queue,
                forall|x: usize|
                    x != r ==> (#[trigger] p@.request_sending.contains_key(x) <==> done.contains(x)
                        && g.b_is_nonisolated(x)),
                p@.request_sending.contains_key(r) <==> q > 0,
                forall|x: usize|
                    x != r && #[trigger] p@.request_sending.contains_key(x) ==> request_list_ok(
                        g,
                        pm,
                        x,
                        p@.request_sending[x],
                    ),
                q > 0 ==> p@.request_sending[r] == who@.take(q as int).map_values(|w: usize| pm[w]),
                forall|w: usize|
                    #[trigger] p@.resource_sending.contains_key(w) <==> shares_needed(g, done, w)
                        || who@.take(q as int).contains(w),
                forall|w: usize|
                    #[trigger] p@.resource_sending.contains_key(w) ==> p@.resource_sending[w] == pm[w],
            decreases who@.len() - q,
        {
            let w = who[q];
            proof {
                assert(who@.contains(w));
                assert(g.edges.contains((w, r)));
                assert(g.a_nodes.contains(w));
            }
            let idx = *pos.get(&w).unwrap();
            let ghost before_req = p@.request_sending;
            p.i_will_request(r, idx);
            p.peer_will_request(w, idx);
            proof {
                let cur = who@.take(q as int);
                let nxt = who@.take(q + 1);
                assert(nxt =~= cur.push(w));
                assert(nxt.map_values(|w: usize| pm[w]) =~= cur.map_values(|w: usize| pm[w]).push(idx));
                if q == 0 {
                    assert(cur.map_values(|w: usize| pm[w]) =~= Seq::<usize>::empty());
                }
                assert forall|x: usize| #[trigger] nxt.contains(x) <==> cur.contains(x) || x == w by {
                    if nxt.contains(x) {
                        let i = choose|i: int| 0 <= i < nxt.len() && nxt[i] == x;
                        if i < q {
                            assert(cur[i] == x);
                        }
                    }
                    if cur.contains(x) {
                        let i = choose|i: int| 0 <= i < cur.len() && cur[i] == x;
                        assert(nxt[i] == x);
                    }
                    if x == w {
                        assert(nxt[q as int] == x);
                    }
                }
            }
            q += 1;
        }
        proof {
            assert(who@.take(q as int) =~= who@);
            assert forall|x: usize| #[trigger] p@.request_sending.contains_key(x) <==> next.contains(x)
                && g.b_is_nonisolated(x) by {
                if x == r {
                    if g.b_is_nonisolated(r) {
                        let w = choose|w: usize| g.edges.contains((w, r));
                        assert(who@.contains(w));
                    }
                    if q > 0 {
                        assert(who@.contains(who@[0]));
                        assert(g.edges.contains((who@[0], r)));
                    }
                }
            }
            if q > 0 {
                let v = p@.request_sending[r];
                assert(v == who@.map_values(|w: usize| pm[w]));
                assert forall|a: int, b: int| 0 <= a < v.len() && 0 <= b < v.len() && a != b implies v[a] != v[b] by {
                    assert(who@[a] != who@[b]);
                    assert(who@.contains(who@[a]) && who@.contains(who@[b]));
                    assert(g.edges.contains((who@[a], r)) && g.edges.contains((who@[b], r)));
                    assert(pm[who@[a]] != pm[who@[b]]);
                }
                assert forall|x: usize|
                    #[trigger] v.contains(x) <==> exists|w: usize| #[trigger] g.edges.contains((w, r)) && pm[w] == x by {
                    if v.contains(x) {
                        let i = choose|i: int| 0 <= i < v.len() && v[i] == x;
                        assert(who@.contains(who@[i]));
                        assert(g.edges.contains((who@[i], r)));
                    }
                    if exists|w: usize| #[trigger] g.edges.contains((w, r)) && pm[w] == x {
                        let w = choose|w: usize| #[trigger] g.edges.contains((w, r)) && pm[w] == x;
                        assert(who@.contains(w));
                        let i = choose|i: int| 0 <= i < who@.len() && who@[i] == w;
                        assert(v[i] == x);
                    }
                }
            }
            assert forall|w: usize| #[trigger] p@.resource_sending.contains_key(w) <==> shares_needed(
                g,
                next,
                w,
            ) by {
                if shares_needed(g, next, w) {
                    let x = choose|x: usize| next.contains(x) && #[trigger] g.edges.contains((w, x));
                    if x != r {
                        assert(shares_needed(g, done, w));
                    } else {
                        assert(who@.contains(w));
                    }
                }
                if shares_needed(g, done, w) {
                    let x = choose|x: usize| done.contains(x) && #[trigger] g.edges.contains((w, x));
                    assert(next.contains(x));
                }
                if who@.contains(w) {
                    assert(g.edges.contains((w, r)));
                    assert(next.contains(r));
                }
            }
        }
        j += 1;
    }
    proof {
        assert(needed@.take(needed@.len() as int) =~= needed@);
    }
}

/// Why a philosopher system could not be set up.
#[derive(Debug, PartialEq, Eq, Structural)]
pub enum PhilosopherSystemError {
    /// This philosopher needs no resource at all.
    PhilosopherWithNothingNeeded(usize),
    /// The number of philosophers and the number of jobs given.
    MismatchPhilosophersAndJob(usize, usize),
    /// Some resource that a philosopher needs is not among the starting ones.
    NotAllNeededResourcesAtStart,
}

/// The philosopher that a resource goes to at the start: the least one with
/// an edge to it.
pub open spec fn owner(g: BipartiteGraphView, rid: usize) -> usize {
    least(g.neighbors_of_b(rid))
}

/// The starting resources that go to philosopher `p`, in order.
pub open spec fn assigned_to<Resources>(
    g: BipartiteGraphView,
    res: Seq<(usize, Resources)>,
    p: usize,
) -> Seq<(usize, Resources)>
    decreases res.len(),
{
    if res.len() == 0 {
        Seq::empty()
    } else {
        let before = assigned_to(g, res.drop_last(), p);
        if g.b_is_nonisolated(res.last().0) && owner(g, res.last().0) == p {
            before.push(res.last())
        } else {
            before
        }
    }
}

/// The number of starting resources that some philosopher has an edge to.
pub open spec fn count_assignable<Resources>(g: BipartiteGraphView, res: Seq<(usize, Resources)>) -> nat
    decreases res.len(),
{
    if res.len() == 0 {
        0
    } else {
        count_assignable(g, res.drop_last()) + if g.b_is_nonisolated(res.last().0) {
            1nat
        } else {
            0nat
        }
    }
}

/// Philosopher `a` has an edge to no resource.
pub open spec fn needs_nothing(g: BipartiteGraphView, a: usize) -> bool {
    !exists|b: usize| #[trigger] g.edges.contains((a, b))
}

/// The philosophers that need nothing.
pub open spec fn lonely_philosophers(g: BipartiteGraphView) -> Set<usize> {
    g.a_nodes.filter(|a: usize| needs_nothing(g, a))
}

/// The error that setting up a system from the graph `g`, `num_jobs` jobs and
/// the starting resources `res` gives, if any: a mismatch between the numbers
/// of philosophers and jobs, else the least philosopher that needs nothing,
/// else a mismatch between the number of starting resources that someone
/// needs and the number of resources that someone needs.
pub open spec fn setup_error<Resources>(
    g: BipartiteGraphView,
    num_jobs: nat,
    res: Seq<(usize, Resources)>,
) -> Option<PhilosopherSystemError> {
    if num_jobs != g.a_nodes.len() {
        Some(PhilosopherSystemError::MismatchPhilosophersAndJob(g.a_nodes.len() as usize, num_jobs as usize))
    } else if lonely_philosophers(g).len() > 0 {
        Some(PhilosopherSystemError::PhilosopherWithNothingNeeded(least(lonely_philosophers(g))))
    } else if count_assignable(g, res) != g.nonisolated_b_nodes().len() {
        Some(PhilosopherSystemError::NotAllNeededResourcesAtStart)
    } else {
        None
    }
}

/// The position of each philosopher among all of them in increasing order.
pub open spec fn position_map(g: BipartiteGraphView) -> Map<usize, usize> {
    Map::new(
        |w: usize| g.a_nodes.contains(w),
        |w: usize| sorted_indices(g.a_nodes).index_of(w) as usize,
    )
}

/// Philosopher `p` is set up as the one at position `i`: its identifier is
/// the `i`-th least, it has the `i`-th job, needs the resources it has edges
/// to, in increasing order, may ask every philosopher with an edge to such a
/// resource for it and send resources to each of those, and has no backlog.
pub open spec fn set_up_as<Resources, Context, Job>(
    p: PhilosopherView<Resources, Context, Job>,
    g: BipartiteGraphView,
    jobs: Seq<Job>,
    i: int,
) -> bool {
    &&& p.my_id == sorted_indices(g.a_nodes)[i]
    &&& p.job == jobs[i]
    &&& p.context_queue == Seq::<Context>::empty()
    &&& p.needed == sorted_indices(g.neighbors_of_a(p.my_id))
    &&& strictly_increasing(p.needed)
    &&& forall|r: usize| #[trigger] p.needed.contains(r) <==> g.edges.contains((p.my_id, r))
    &&& forall|r: usize| #[trigger] p.request_sending.contains_key(r) <==> p.needed.contains(r)
    &&& forall|r: usize|
        #[trigger] p.request_sending.contains_key(r) ==> request_list_ok(
            g,
            position_map(g),
            r,
            p.request_sending[r],
        )
    &&& forall|w: usize| #[trigger] p.resource_sending.contains_key(w) <==> shares_needed(g, p.needed, w)
    &&& forall|w: usize|
        #[trigger] p.resource_sending.contains_key(w) ==> p.resource_sending[w] == position_map(g)[w]
}

/// Philosopher `p` holds exactly the given starting resources, in order,
/// each dirty and never used.
pub open spec fn holds_assigned<Resources, Context, Job>(
    p: PhilosopherView<Resources, Context, Job>,
    assigned: Seq<(usize, Resources)>,
) -> bool {
    &&& p.holding.len() == assigned.len()
    &&& forall|k: int|
        0 <= k < assigned.len() ==> #[trigger] p.holding[k]@ == (AnnotatedView {
            is_clean: false,
            last_user: None::<usize>,
            identifier: assigned[k].0,
            underlying: assigned[k].1,
        })
}

/// What a `PhilosopherSystem` holds: the graph of who needs what, and the
/// philosophers in increasing order of identifier.
pub struct SystemView<Resources, Context, Job> {
    pub graph: BipartiteGraphView,
    pub philosophers: Seq<PhilosopherView<Resources, Context, Job>>,
}

impl<Resources, Context, Job> SystemView<Resources, Context, Job> {
    /// Philosopher `i` is as `new` sets it up from the graph `g`, the jobs
    /// and the starting resources: its identifier is the `i`-th least, it
    /// has the `i`-th job, needs the resources it has edges to, in
    /// increasing order, may ask every philosopher with an edge to such a
    /// resource for it and send to each of them, holds the starting
    /// resources that go to it, dirty and never used, and has no backlog.
    pub open spec fn philosopher_built(
        self,
        g: BipartiteGraphView,
        jobs: Seq<Job>,
        res: Seq<(usize, Resources)>,
        i: int,
    ) -> bool {
        let p = self.philosophers[i];
        &&& set_up_as(p, g, jobs, i)
        &&& holds_assigned(p, assigned_to(g, res, p.my_id))
    }

    /// The system is as `new` sets it up from the graph `g`, the jobs and the
    /// starting resources.
    pub open spec fn is_built_from(
        self,
        g: BipartiteGraphView,
        jobs: Seq<Job>,
        res: Seq<(usize, Resources)>,
    ) -> bool {
        &&& self.graph == g
        &&& self.philosophers.len() == g.a_nodes.len()
        &&& forall|i: int| 0 <= i < self.philosophers.len() ==> self.philosopher_built(g, jobs, res, i)
    }

    /// The philosophers are exactly the `a` nodes of the graph, and each needs
    /// exactly the resources it has edges to.
    pub open spec fn is_valid(self) -> bool {
        &&& forall|x: usize|
            self.graph.a_nodes.contains(x) <==> exists|i: int|
                0 <= i < self.philosophers.len() && #[trigger] self.philosophers[i].my_id == x
        &&& forall|i: int|
            0 <= i < self.philosophers.len() ==> {
                &&& forall|r: usize|
                    #[trigger] self.philosophers[i].needed.contains(r) ==> self.graph.edges.contains(
                        (self.philosophers[i].my_id, r),
                    )
                &&& self.graph.neighbors_of_a(self.philosophers[i].my_id).len()
                    == self.philosophers[i].needed.len()
            }
    }
}

/// Setting up asks for exactly one job per philosopher: with any other
/// number of jobs, fewer or more, it fails and names both numbers.
pub proof fn lemma_setup_needs_one_job_each<Resources>(
    g: BipartiteGraphView,
    num_jobs: nat,
    res: Seq<(usize, Resources)>,
)
    ensures
        setup_error(g, num_jobs, res) is None ==> num_jobs == g.a_nodes.len(),
        num_jobs != g.a_nodes.len() ==> setup_error(g, num_jobs, res) == Some(
            PhilosopherSystemError::MismatchPhilosophersAndJob(g.a_nodes.len() as usize, num_jobs as usize),
        ),
{
}

/// The identifiers of the starting resources that some philosopher needs.
pub open spec fn needed_given<Resources>(g: BipartiteGraphView, res: Seq<(usize, Resources)>) -> Set<usize> {
    Set::new(
        |r: usize| g.b_is_nonisolated(r) && exists|k: int| 0 <= k < res.len() && res[k].0 == r,
    )
}

/// With distinct identifiers, the starting resources that someone needs are
/// counted once each.
proof fn lemma_count_assignable_distinct<Resources>(g: BipartiteGraphView, res: Seq<(usize, Resources)>)
    requires
        forall|i: int, j: int| 0 <= i < j < res.len() ==> res[i].0 != res[j].0,
    ensures
        needed_given(g, res).finite(),
        count_assignable(g, res) == needed_given(g, res).len(),
    decreases res.len(),
{
    if res.len() == 0 {
        assert(needed_given(g, res) =~= Set::<usize>::empty());
    } else {
        let rest = res.drop_last();
        assert forall|i: int, j: int| 0 <= i < j < rest.len() implies rest[i].0 != rest[j].0 by {
            assert(rest[i] == res[i] && rest[j] == res[j]);
        }
        lemma_count_assignable_distinct(g, rest);
        let x = res.last().0;
        let n = res.len() - 1;
        assert(res[n].0 == x);
        if g.b_is_nonisolated(x) {
            assert(needed_given(g, res) =~= needed_given(g, rest).insert(x)) by {
                assert forall|r: usize| needed_given(g, res).contains(r) implies needed_given(g, rest).insert(x).contains(r) by {
                    let k = choose|k: int| 0 <= k < res.len() && res[k].0 == r;
                    if k < n {
                        assert(rest[k].0 == r);
                    }
                }
                assert forall|r: usize| needed_given(g, rest).contains(r) implies needed_given(g, res).contains(r) by {
                    let k = choose|k: int| 0 <= k < rest.len() && rest[k].0 == r;
                    assert(res[k].0 == r);
                }
            }
            assert(!needed_given(g, rest).contains(x)) by {
                if needed_given(g, rest).contains(x) {
                    let k = choose|k: int| 0 <= k < rest.len() && rest[k].0 == x;
                    assert(res[k].0 == res[n].0);
                }
            }
        } else {
            assert(needed_given(g, res) =~= needed_given(g, rest)) by {
                assert forall|r: usize| needed_given(g, res).contains(r) implies needed_given(g, rest).contains(r) by {
                    let k = choose|k: int| 0 <= k < res.len() && res[k].0 == r;
                    if k < n {
                        assert(rest[k].0 == r);
                    }
                }
                assert forall|r: usize| needed_given(g, rest).contains(r) implies needed_given(g, res).contains(r) by {
                    let k = choose|k: int| 0 <= k < rest.len() && rest[k].0 == r;
                    assert(res[k].0 == r);
                }
            }
        }
    }
}

/// The `b` nodes that take part in an edge are finitely many and are `b`
/// nodes.
proof fn lemma_nonisolated_finite(g: BipartiteGraphView)
    requires
        g.valid(),
    ensures
        g.nonisolated_b_nodes().finite(),
        forall|r: usize| g.b_is_nonisolated(r) ==> #[trigger] g.nonisolated_b_nodes().contains(r),
{
    assert forall|r: usize| g.b_is_nonisolated(r) implies #[trigger] g.nonisolated_b_nodes().contains(r) by {
        let a = choose|a: usize| g.edges.contains((a, r));
        assert(g.b_nodes.contains(r));
    }
    vstd::set_lib::lemma_set_subset_finite(g.b_nodes, g.nonisolated_b_nodes());
}

/// When no two starting resources share an identifier, setting up succeeds
/// only if every resource that some philosopher needs is among the starting
/// resources.
pub proof fn lemma_setup_has_every_needed_resource<Resources>(
    g: BipartiteGraphView,
    num_jobs: nat,
    res: Seq<(usize, Resources)>,
)
    requires
        g.valid(),
        forall|i: int, j: int| 0 <= i < j < res.len() ==> res[i].0 != res[j].0,
        setup_error(g, num_jobs, res) is None,
    ensures
        forall|r: usize| g.b_is_nonisolated(r) ==> exists|k: int| 0 <= k < res.len() && res[k].0 == r,
{
    lemma_count_assignable_distinct(g, res);
    lemma_nonisolated_finite(g);
    let ng = needed_given(g, res);
    let nb = g.nonisolated_b_nodes();
    assert(ng.subset_of(nb));
    vstd::set_lib::lemma_subset_equality(ng, nb);
    assert forall|r: usize| g.b_is_nonisolated(r) implies exists|k: int| 0 <= k < res.len() && res[k].0 == r by {
        assert(nb.contains(r));
        assert(ng.contains(r));
    }
}

/// When no two starting resources share an identifier and every resource
/// that some philosopher needs is among them, the starting resources are no
/// reason to refuse the setup.
pub proof fn lemma_setup_accepts_every_needed_resource<Resources>(
    g: BipartiteGraphView,
    num_jobs: nat,
    res: Seq<(usize, Resources)>,
)
    requires
        g.valid(),
        forall|i: int, j: int| 0 <= i < j < res.len() ==> res[i].0 != res[j].0,
        forall|r: usize| g.b_is_nonisolated(r) ==> exists|k: int| 0 <= k < res.len() && res[k].0 == r,
    ensures
        setup_error(g, num_jobs, res) != Some(PhilosopherSystemError::NotAllNeededResourcesAtStart),
{
    lemma_count_assignable_distinct(g, res);
    lemma_nonisolated_finite(g);
    let ng = needed_given(g, res);
    let nb = g.nonisolated_b_nodes();
    assert(ng =~= nb);
}

/// In a system set up from the graph `g`, the jobs and the starting
/// resources, the philosophers are exactly the philosophers of the graph, in
/// increasing order of identifier, and the one at position `i` has the
/// `i`-th job.
pub proof fn lemma_built_in_order<Resources, Context, Job>(
    sys: SystemView<Resources, Context, Job>,
    g: BipartiteGraphView,
    jobs: Seq<Job>,
    res: Seq<(usize, Resources)>,
)
    requires
        g.valid(),
        sys.is_built_from(g, jobs, res),
    ensures
        forall|i: int, j: int|
            0 <= i < j < sys.philosophers.len() ==> sys.philosophers[i].my_id < sys.philosophers[j].my_id,
        forall|x: usize|
            g.a_nodes.contains(x) <==> exists|i: int|
                0 <= i < sys.philosophers.len() && #[trigger] sys.philosophers[i].my_id == x,
        forall|i: int| 0 <= i < sys.philosophers.len() ==> #[trigger] sys.philosophers[i].job == jobs[i],
{
    lemma_sorted_indices_of_finite(g.a_nodes);
    let sorted = sorted_indices(g.a_nodes);
    assert forall|i: int| 0 <= i < sys.philosophers.len() implies #[trigger] sys.philosophers[i].my_id
        == sorted[i] by {
        assert(sys.philosopher_built(g, jobs, res, i));
    }
    assert forall|i: int| 0 <= i < sys.philosophers.len() implies #[trigger] sys.philosophers[i].job
        == jobs[i] by {
        assert(sys.philosopher_built(g, jobs, res, i));
    }
    assert forall|i: int, j: int|
        0 <= i < j < sys.philosophers.len() implies sys.philosophers[i].my_id < sys.philosophers[j].my_id by {
        assert(sys.philosophers[i].my_id == sorted[i] && sys.philosophers[j].my_id == sorted[j]);
    }
    assert forall|x: usize|
        g.a_nodes.contains(x) <==> exists|i: int|
            0 <= i < sys.philosophers.len() && #[trigger] sys.philosophers[i].my_id == x by {
        if g.a_nodes.contains(x) {
            assert(sorted.contains(x));
            let i = choose|i: int| 0 <= i < sorted.len() && sorted[i] == x;
            assert(sys.philosophers[i].my_id == sorted[i]);
        }
        if exists|i: int| 0 <= i < sys.philosophers.len() && #[trigger] sys.philosophers[i].my_id == x {
            let i = choose|i: int| 0 <= i < sys.philosophers.len() && #[trigger] sys.philosophers[i].my_id == x;
            assert(sys.philosophers[i].my_id == sorted[i]);
            assert(sorted.contains(sorted[i]));
        }
    }
}

/// A resource that some philosopher needs goes to the least philosopher
/// that needs it.
pub proof fn lemma_owner_is_least_needer(g: BipartiteGraphView, rid: usize)
    requires
        g.valid(),
        g.b_is_nonisolated(rid),
    ensures
        g.edges.contains((owner(g, rid), rid)),
        forall|a: usize| g.edges.contains((a, rid)) ==> owner(g, rid) <= a,
{
    let needers = g.neighbors_of_b(rid);
    assert(needers.subset_of(g.a_nodes));
    vstd::set_lib::lemma_set_subset_finite(g.a_nodes, needers);
    let a0 = choose|a: usize| g.edges.contains((a, rid));
    assert(needers.contains(a0));
    let rank = Map::new(|i: usize| needers.contains(i), |i: usize| i as int);
    let m = lemma_least_rank(needers, rank);
    assert forall|x: usize| needers.contains(x) implies m <= x by {
        assert(rank[m] <= rank[x]);
    }
    lemma_least(needers, m);
    assert forall|a: usize| g.edges.contains((a, rid)) implies owner(g, rid) <= a by {
        assert(needers.contains(a));
    }
}

/// The starting resources assigned to `p` are resources that someone needs
/// and whose least needer is `p`, taken from the starting resources.
proof fn lemma_assigned_to_owned<Resources>(g: BipartiteGraphView, res: Seq<(usize, Resources)>, p: usize)
    ensures
        forall|k: int|
            0 <= k < assigned_to(g, res, p).len() ==> g.b_is_nonisolated(#[trigger] assigned_to(g, res, p)[k].0)
                && owner(g, assigned_to(g, res, p)[k].0) == p && res.contains(assigned_to(g, res, p)[k]),
    decreases res.len(),
{
    if res.len() > 0 {
        let rest = res.drop_last();
        lemma_assigned_to_owned(g, rest, p);
        let before = assigned_to(g, rest, p);
        let after = assigned_to(g, res, p);
        assert(res[res.len() - 1] == res.last());
        assert forall|k: int| 0 <= k < after.len() implies g.b_is_nonisolated(#[trigger] after[k].0)
            && owner(g, after[k].0) == p && res.contains(after[k]) by {
            if k < before.len() {
                assert(after[k] == before[k]);
                assert(g.b_is_nonisolated(before[k].0));
                assert(rest.contains(before[k]));
                let j = choose|j: int| 0 <= j < rest.len() && rest[j] == before[k];
                assert(res[j] == rest[j]);
            } else {
                assert(after[k] == res.last());
            }
        }
    }
}

/// In a system set up from the graph `g`, the jobs and the starting
/// resources, every philosopher holds only starting resources, each one it
/// needs and that no lesser philosopher needs, dirty and never used.
pub proof fn lemma_built_holdings<Resources, Context, Job>(
    sys: SystemView<Resources, Context, Job>,
    g: BipartiteGraphView,
    jobs: Seq<Job>,
    res: Seq<(usize, Resources)>,
)
    requires
        g.valid(),
        sys.is_built_from(g, jobs, res),
    ensures
        forall|i: int, k: int|
            0 <= i < sys.philosophers.len() && 0 <= k < sys.philosophers[i].holding.len() ==> {
                let c = (#[trigger] sys.philosophers[i].holding[k])@;
                &&& res.contains((c.identifier, c.underlying))
                &&& g.edges.contains((sys.philosophers[i].my_id, c.identifier))
                &&& forall|a: usize| g.edges.contains((a, c.identifier)) ==> sys.philosophers[i].my_id <= a
                &&& !c.is_clean
                &&& c.last_user is None
            },
{
    assert forall|i: int, k: int|
        0 <= i < sys.philosophers.len() && 0 <= k < sys.philosophers[i].holding.len() implies {
            let c = (#[trigger] sys.philosophers[i].holding[k])@;
            &&& res.contains((c.identifier, c.underlying))
            &&& g.edges.contains((sys.philosophers[i].my_id, c.identifier))
            &&& forall|a: usize| g.edges.contains((a, c.identifier)) ==> sys.philosophers[i].my_id <= a
            &&& !c.is_clean
            &&& c.last_user is None
        } by {
        let pv = sys.philosophers[i];
        assert(sys.philosopher_built(g, jobs, res, i));
        let asg = assigned_to(g, res, pv.my_id);
        lemma_assigned_to_owned(g, res, pv.my_id);
        assert(holds_assigned(pv, asg));
        assert(pv.holding[k]@.identifier == asg[k].0);
        assert(asg[k] == (asg[k].0, asg[k].1));
        lemma_owner_is_least_needer(g, asg[k].0);
    }
}

/// A valid system's philosophers carry exactly the identifiers of the
/// graph's philosophers: none is missing and none is extra.
pub proof fn lemma_valid_ids_are_a_nodes<Resources, Context, Job>(sv: SystemView<Resources, Context, Job>)
    requires
        sv.is_valid(),
    ensures
        sv.philosophers.map_values(|p: PhilosopherView<Resources, Context, Job>| p.my_id).to_set()
            == sv.graph.a_nodes,
{
    let ids = sv.philosophers.map_values(|p: PhilosopherView<Resources, Context, Job>| p.my_id);
    assert forall|x: usize| ids.to_set().contains(x) <==> sv.graph.a_nodes.contains(x) by {
        if ids.contains(x) {
            let i = choose|i: int| 0 <= i < ids.len() && ids[i] == x;
            assert(sv.philosophers[i].my_id == x);
        }
        if sv.graph.a_nodes.contains(x) {
            let i = choose|i: int| 0 <= i < sv.philosophers.len() && #[trigger] sv.philosophers[i].my_id == x;
            assert(ids[i] == x);
        }
    }
    assert(ids.to_set() =~= sv.graph.a_nodes);
}

/// A dining philosophers system: the graph of which philosopher needs which
/// resources, and the philosophers.
pub struct PhilosopherSystem<Resources, Context, Job> {
    philo_rsc_graph: BipartiteGraph,
    philosophers: Vec<Philosopher<Resources, Context, Job>>,
}

impl<Resources, Context, Job> View for PhilosopherSystem<Resources, Context, Job> {
    type V = SystemView<Resources, Context, Job>;

    closed spec fn view(&self) -> SystemView<Resources, Context, Job> {
        SystemView {
            graph: self.philo_rsc_graph@,
            philosophers: self.philosophers@.map_values(
                |p: Philosopher<Resources, Context, Job>| p@,
            ),
        }
    }
}

impl<Resources, Context, Job> PhilosopherSystem<Resources, Context, Job> {
    /// The graph is well formed.
    pub closed spec fn wf(&self) -> bool {
        self.philo_rsc_graph.wf()
    }

    /// Sets up a dining philosophers system: the resources each philosopher
    /// needs are given by the graph, each philosopher (in increasing order of
    /// identifier) gets the job of the same position, and each starting
    /// resource goes to the least philosopher that needs it.
    /// Fails when the numbers of philosophers and jobs differ, when a
    /// philosopher needs nothing (naming the least such), and when the
    /// starting resources that are needed by someone are not as many as the
    /// resources that are needed by someone.
    pub fn new(
        philo_rsc_graph: BipartiteGraph,
        philo_jobs: Vec<Job>,
        starting_resources: Vec<(usize, Resources)>,
    ) -> (r: Result<Self, PhilosopherSystemError>)
        requires
            philo_rsc_graph.wf(),
        ensures
            setup_error(philo_rsc_graph@, philo_jobs@.len(), starting_resources@) matches Some(e) ==> r
                == Err::<Self, PhilosopherSystemError>(e),
            setup_error(philo_rsc_graph@, philo_jobs@.len(), starting_resources@) is None ==> (r matches Ok(
                sys,
            ) && sys.wf() && sys@.is_built_from(philo_rsc_graph@, philo_jobs@, starting_resources@)
                && sys@.is_valid()),
            philo_jobs@.len() != philo_rsc_graph@.a_nodes.len() ==> r == Err::<
                Self,
                PhilosopherSystemError,
            >(
                PhilosopherSystemError::MismatchPhilosophersAndJob(
                    philo_rsc_graph@.a_nodes.len() as usize,
                    philo_jobs@.len() as usize,
                ),
            ),
            r matches Ok(sys) ==> {
                &&& sys@.philosophers.len() == philo_jobs@.len()
                &&& sys@.philosophers.len() == philo_rsc_graph@.a_nodes.len()
                &&& forall|i: int|
                    0 <= i < philo_jobs@.len() ==> #[trigger] sys@.philosophers[i].job == philo_jobs@[i]
                &&& forall|i: int, j: int|
                    0 <= i < j < sys@.philosophers.len() ==> sys@.philosophers[i].my_id
                        < sys@.philosophers[j].my_id
                &&& forall|x: usize|
                    philo_rsc_graph@.a_nodes.contains(x) <==> exists|i: int|
                        0 <= i < sys@.philosophers.len() && #[trigger] sys@.philosophers[i].my_id == x
            },
            r is Ok && (forall|i: int, j: int|
                0 <= i < j < starting_resources@.len() ==> starting_resources@[i].0
                    != starting_resources@[j].0) ==> forall|rid: usize|
                philo_rsc_graph@.b_is_nonisolated(rid) ==> exists|k: int|
                    0 <= k < starting_resources@.len() && starting_resources@[k].0 == rid,
    {
        proof {
            philo_rsc_graph.lemma_wf_view();
        }
        let ghost g = philo_rsc_graph@;
        let ghost jobs0 = philo_jobs@;
        let ghost res0 = starting_resources@;
        let num_philos = philo_rsc_graph.num_a_nodes();
        if philo_jobs.len() != num_philos {
            return Err(PhilosopherSystemError::MismatchPhilosophersAndJob(num_philos, philo_jobs.len()));
        }
        let sorted = philo_rsc_graph.all_a_nodes_sorted();
        let n_phil = sorted.len();
        let ghost order = sorted@;
        proof {
            lemma_sorted_indices(sorted@, g.a_nodes);
            lemma_increasing_len(sorted@, g.a_nodes);
        }
        let mut philo_2_idx: HashMap<usize, usize> = HashMap::new();
        let mut k: usize = 0;
        while k < sorted.len()
            invariant
                order == sorted@,
                order.no_duplicates(),
                0 <= k <= order.len(),
                forall|w: usize|
                    #[trigger] philo_2_idx@.contains_key(w) <==> order.take(k as int).contains(w),
                forall|w: usize|
                    #[trigger] philo_2_idx@.contains_key(w) ==> philo_2_idx@[w] == order.index_of(w),
            decreases order.len() - k,
        {
            let w = sorted[k];
            philo_2_idx.insert(w, k);
            proof {
                assert(order.index_of(w) == k) by {
                    let i = order.index_of(w);
                    assert(order.contains(w) ==> 0 <= i < order.len() && order[i] == w) by {
                        if order.contains(w) {
                            let j = choose|j: int| 0 <= j < order.len() && order[j] == w;
                        }
                    }
                    assert(order[k as int] == w);
                }
                let nxt = order.take(k + 1);
                let cur = order.take(k as int);
                assert forall|x: usize| #[trigger] nxt.contains(x) <==> cur.contains(x) || x == w by {
                    if nxt.contains(x) {
                        let i = choose|i: int| 0 <= i < nxt.len() && #[trigger] nxt[i] == x;
                        if i < k {
                            assert(cur[i] == x);
                        }
                    }
                    if cur.contains(x) {
                        let i = choose|i: int| 0 <= i < cur.len() && #[trigger] cur[i] == x;
                        assert(nxt[i] == x);
                    }
                    if x == w {
                        assert(nxt[k as int] == x);
                    }
                }
            }
            k += 1;
        }
        proof {
            assert(order.take(order.len() as int) =~= order);
            assert(philo_2_idx@ =~= position_map(g)) by {
                assert forall|w: usize| #[trigger] philo_2_idx@.contains_key(w) <==> g.a_nodes.contains(w) by {
                }
            }
            assert(positions_ok(g, philo_2_idx@)) by {
                assert forall|w1: usize, w2: usize|
                    g.a_nodes.contains(w1) && g.a_nodes.contains(w2) && w1 != w2 implies #[trigger] philo_2_idx@[w1]
                    != #[trigger] philo_2_idx@[w2] by {
                    assert(order.contains(w1) && order.contains(w2));
                    let i1 = order.index_of(w1);
                    let i2 = order.index_of(w2);
                    let j1 = choose|j: int| 0 <= j < order.len() && order[j] == w1;
                    let j2 = choose|j: int| 0 <= j < order.len() && order[j] == w2;
                    assert(order[i1] == w1 && order[i2] == w2);
                }
            }
        }
        let ghost pm = philo_2_idx@;
        let mut philosophers: Vec<Philosopher<Resources, Context, Job>> = Vec::new();
        for cur_job in it: philo_jobs
            invariant
                it.seq() == jobs0,
                jobs0.len() == order.len(),
                order == sorted@,
                order == sorted_indices(g.a_nodes),
                strictly_increasing(order),
                order.no_duplicates(),
                order.len() == g.a_nodes.len(),
                forall|i: usize| order.contains(i) <==> g.a_nodes.contains(i),
                philo_rsc_graph.wf(),
                g == philo_rsc_graph@,
                g.valid(),
                pm == philo_2_idx@,
                pm == position_map(g),
                positions_ok(g, pm),
                philosophers@.len() == it.index(),
                forall|i: int| 0 <= i < it.index() ==> !needs_nothing(g, #[trigger] order[i]),
                forall|i: int|
                    0 <= i < it.index() ==> set_up_as(#[trigger] philosophers@[i]@, g, jobs0, i),
                forall|i: int| 0 <= i < it.index() ==> (#[trigger] philosophers@[i]@).holding.len() == 0,
        {
            let k = philosophers.len();
            let cur = sorted[k];
            let nbrs = philo_rsc_graph.neighbors_a(&cur);
            let ghost nbrs_v = nbrs@;
            let needed = match nonempty_from_vec(nbrs) {
                Some(ne) => ne,
                None => {
                    proof {
                        assert(needs_nothing(g, cur)) by {
                            if exists|b: usize| #[trigger] g.edges.contains((cur, b)) {
                                let b = choose|b: usize| #[trigger] g.edges.contains((cur, b));
                                assert(nbrs_v.contains(b));
                            }
                        }
                        let lonely = lonely_philosophers(g);
                        assert(order.contains(cur)) by {
                            assert(order[k as int] == cur);
                        }
                        assert(lonely.contains(cur));
                        assert forall|x: usize| lonely.contains(x) implies cur <= x by {
                            assert(order.contains(x));
                            let j = choose|j: int| 0 <= j < order.len() && order[j] == x;
                            if j < k {
                                assert(!needs_nothing(g, order[j]));
                            } else if j > k {
                                assert(order[k as int] < order[j]);
                            }
                        }
                        lemma_least(lonely, cur);
                        vstd::set_lib::lemma_len_subset(lonely, g.a_nodes);
                        vstd::set::axiom_set_contains_len(lonely, cur);
                    }
                    return Err(PhilosopherSystemError::PhilosopherWithNothingNeeded(cur));
                },
            };
            let mut philosopher = Philosopher::new(cur, Vec::new(), cur_job, needed);
            proof {
                vstd::seq_lib::to_multiset_len(philosopher@.holding);
                assert(Seq::<CleanAndAnnotated<Resources>>::empty().to_multiset().len() == 0) by {
                    vstd::seq_lib::to_multiset_len(Seq::<CleanAndAnnotated<Resources>>::empty());
                }
                lemma_sorted_rearrangement(philosopher@.needed, nbrs_v);
                assert forall|r: usize| philosopher@.needed.contains(r) <==> g.neighbors_of_a(cur).contains(r) by {
                }
                lemma_sorted_indices(philosopher@.needed, g.neighbors_of_a(cur));
                assert(order[k as int] == cur);
                assert(!needs_nothing(g, cur)) by {
                    assert(nbrs_v.len() > 0);
                    assert(nbrs_v.contains(nbrs_v[0]));
                    assert(g.edges.contains((cur, nbrs_v[0])));
                }
                assert(philosopher@.needed.no_duplicates()) by {
                    assert forall|a: int, b: int|
                        0 <= a < philosopher@.needed.len() && 0 <= b < philosopher@.needed.len() && a != b
                        implies philosopher@.needed[a] != philosopher@.needed[b] by {
                        if a < b {
                            assert(philosopher@.needed[a] < philosopher@.needed[b]);
                        } else {
                            assert(philosopher@.needed[b] < philosopher@.needed[a]);
                        }
                    }
                }
            }
            wire(&mut philosopher, &philo_rsc_graph, &philo_2_idx);
            proof {
                assert forall|r: usize| #[trigger] philosopher@.request_sending.contains_key(r) <==> philosopher@.needed.contains(r) by {
                    if philosopher@.needed.contains(r) {
                        assert(g.edges.contains((cur, r)));
                    }
                }
                assert(set_up_as(philosopher@, g, jobs0, k as int));
            }
            philosophers.push(philosopher);
        }
        proof {
            assert(lonely_philosophers(g) =~= Set::<usize>::empty()) by {
                assert forall|x: usize| !lonely_philosophers(g).contains(x) by {
                    if g.a_nodes.contains(x) {
                        assert(order.contains(x));
                        let j = choose|j: int| 0 <= j < order.len() && order[j] == x;
                        assert(!needs_nothing(g, order[j]));
                    }
                }
            }
        }
        let ghost built = philosophers@;
        let n_res = starting_resources.len();
        let mut count_resources_assigned: usize = 0;
        proof {
            assert(res0.take(0) =~= Seq::<(usize, Resources)>::empty());
            assert forall|i: int| 0 <= i < philosophers@.len() implies holds_assigned(
                #[trigger] philosophers@[i]@,
                assigned_to(g, res0.take(0), philosophers@[i]@.my_id),
            ) by {
            }
        }
        for e in it: starting_resources
            invariant
                it.seq() == res0,
                res0.len() == n_res,
                order.len() == n_phil,
                order == sorted_indices(g.a_nodes),
                strictly_increasing(order),
                order.no_duplicates(),
                order.len() == g.a_nodes.len(),
                forall|i: usize| order.contains(i) <==> g.a_nodes.contains(i),
                philo_rsc_graph.wf(),
                g == philo_rsc_graph@,
                g.valid(),
                pm == philo_2_idx@,
                pm == position_map(g),
                positions_ok(g, pm),
                philosophers@.len() == order.len(),
                forall|i: int|
                    0 <= i < philosophers@.len() ==> set_up_as(#[trigger] philosophers@[i]@, g, jobs0, i),
                forall|i: int|
                    0 <= i < philosophers@.len() ==> holds_assigned(
                        #[trigger] philosophers@[i]@,
                        assigned_to(g, res0.take(it.index()), philosophers@[i]@.my_id),
                    ),
                count_resources_assigned == count_assignable(g, res0.take(it.index())),
                count_resources_assigned <= it.index(),
        {
            let ghost t = it.index();
            proof {
                assert(res0.take(t + 1).drop_last() =~= res0.take(t));
                assert(res0.take(t + 1).last() == e);
            }
            let (rid, res) = e;
            let who_wants_it = philo_rsc_graph.neighbors_b(&rid);
            match min_of(&who_wants_it) {
                Some(who_gets_it) => {
                    proof {
                        assert(g.edges.contains((who_gets_it, rid)));
                        assert(g.b_is_nonisolated(rid));
                        assert forall|x: usize| g.neighbors_of_b(rid).contains(x) implies who_gets_it <= x by {
                            assert(who_wants_it@.contains(x));
                        }
                        lemma_least(g.neighbors_of_b(rid), who_gets_it);
                        assert(g.a_nodes.contains(who_gets_it));
                    }
                    let idx = *philo_2_idx.get(&who_gets_it).unwrap();
                    proof {
                        assert(order.contains(who_gets_it));
                        let j = choose|j: int| 0 <= j < order.len() && order[j] == who_gets_it;
                        assert(0 <= order.index_of(who_gets_it) < order.len());
                        assert(order[order.index_of(who_gets_it)] == who_gets_it);
                        assert(pm[who_gets_it] == order.index_of(who_gets_it) as usize);
                        assert(idx == order.index_of(who_gets_it));
                        assert(0 <= idx < order.len());
                        assert(philosophers@[idx as int]@.my_id == who_gets_it);
                        assert(philosophers@[idx as int]@.needed.contains(rid));
                    }
                    let ghost before = philosophers@;
                    let _rejected = philosophers[idx].get_resource_not_peer(CleanAndAnnotated::new(res, rid));
                    count_resources_assigned += 1;
                    proof {
                        assert forall|i: int| 0 <= i < philosophers@.len() implies holds_assigned(
                            #[trigger] philosophers@[i]@,
                            assigned_to(g, res0.take(t + 1), philosophers@[i]@.my_id),
                        ) by {
                            if i != idx {
                                assert(philosophers@[i] == before[i]);
                                assert(before[i]@.my_id == order[i]);
                                assert(order[i] != who_gets_it) by {
                                    assert(order[idx as int] == who_gets_it);
                                }
                            } else {
                                let a0 = assigned_to(g, res0.take(t), who_gets_it);
                                let a1 = assigned_to(g, res0.take(t + 1), who_gets_it);
                                assert(a1 == a0.push(e));
                                assert forall|kk: int| 0 <= kk < a1.len() implies #[trigger] philosophers@[i]@.holding[kk]@ == (AnnotatedView {
                                    is_clean: false,
                                    last_user: None::<usize>,
                                    identifier: a1[kk].0,
                                    underlying: a1[kk].1,
                                }) by {
                                    if kk < a0.len() {
                                        assert(philosophers@[i]@.holding[kk] == before[i]@.holding[kk]);
                                    }
                                }
                            }
                        }
                        assert forall|i: int| 0 <= i < philosophers@.len() implies set_up_as(
                            #[trigger] philosophers@[i]@,
                            g,
                            jobs0,
                            i,
                        ) by {
                            if i != idx {
                                assert(philosophers@[i] == before[i]);
                            } else {
                                assert(philosophers@[i]@.same_but_holding(before[i]@));
                            }
                        }
                    }
                },
                None => {
                    proof {
                        assert(!g.b_is_nonisolated(rid)) by {
                            if g.b_is_nonisolated(rid) {
                                let a = choose|a: usize| g.edges.contains((a, rid));
                                assert(who_wants_it@.contains(a));
                            }
                        }
                        assert forall|i: int| 0 <= i < philosophers@.len() implies holds_assigned(
                            #[trigger] philosophers@[i]@,
                            assigned_to(g, res0.take(t + 1), philosophers@[i]@.my_id),
                        ) by {
                            assert(assigned_to(g, res0.take(t + 1), philosophers@[i]@.my_id) == assigned_to(
                                g,
                                res0.take(t),
                                philosophers@[i]@.my_id,
                            ));
                        }
                    }
                },
            }
        }
        proof {
            assert(res0.take(n_res as int) =~= res0);
        }
        let count_resources_needed_by_someone = philo_rsc_graph.num_nonisolated_b_nodes();
        if count_resources_assigned != count_resources_needed_by_someone {
            return Err(PhilosopherSystemError::NotAllNeededResourcesAtStart);
        }
        let sys = Self { philo_rsc_graph, philosophers };
        proof {
            assert forall|i: int| 0 <= i < sys@.philosophers.len() implies sys@.philosopher_built(
                g,
                jobs0,
                res0,
                i,
            ) by {
                assert(sys@.philosophers[i] == sys.philosophers@[i]@);
            }
            assert forall|x: usize|
                g.a_nodes.contains(x) <==> exists|i: int|
                    0 <= i < sys@.philosophers.len() && #[trigger] sys@.philosophers[i].my_id == x by {
                if g.a_nodes.contains(x) {
                    assert(order.contains(x));
                    let j = choose|j: int| 0 <= j < order.len() && order[j] == x;
                    assert(sys@.philosophers[j] == sys.philosophers@[j]@);
                    assert(sys@.philosophers[j].my_id == x);
                }
                if exists|i: int| 0 <= i < sys@.philosophers.len() && #[trigger] sys@.philosophers[i].my_id == x {
                    let i = choose|i: int| 0 <= i < sys@.philosophers.len() && #[trigger] sys@.philosophers[i].my_id == x;
                    assert(sys@.philosophers[i] == sys.philosophers@[i]@);
                    assert(order[i] == x);
                    assert(order.contains(x));
                }
            }
            assert forall|i: int| 0 <= i < sys@.philosophers.len() implies {
                &&& forall|r: usize|
                    #[trigger] sys@.philosophers[i].needed.contains(r) ==> sys@.graph.edges.contains(
                        (sys@.philosophers[i].my_id, r),
                    )
                &&& sys@.graph.neighbors_of_a(sys@.philosophers[i].my_id).len()
                    == sys@.philosophers[i].needed.len()
            } by {
                let pv = sys@.philosophers[i];
                assert(pv == sys.philosophers@[i]@);
                assert(set_up_as(pv, g, jobs0, i));
                lemma_increasing_len(pv.needed, g.neighbors_of_a(pv.my_id));
            }
            assert(setup_error(g, jobs0.len(), res0) is None);
            lemma_built_in_order(sys@, g, jobs0, res0);
            if forall|i: int, j: int| 0 <= i < j < res0.len() ==> res0[i].0 != res0[j].0 {
                lemma_setup_has_every_needed_resource(g, jobs0.len(), res0);
            }
        }
        Ok(sys)
    }
}

impl<Resources, Context, Job> PhilosopherSystem<Resources, Context, Job> {
    /// Whether the philosophers are exactly the `a` nodes of the graph and
    /// each needs exactly the resources it has edges to.
    pub fn validate(&self) -> (b: bool)
        requires
            self.wf(),
        ensures
            b == self@.is_valid(),
            b ==> forall|x: usize|
                self@.graph.a_nodes.contains(x) <==> exists|i: int|
                    0 <= i < self@.philosophers.len() && #[trigger] self@.philosophers[i].my_id == x,
            b ==> forall|i: int, r: usize|
                0 <= i < self@.philosophers.len() && #[trigger] self@.philosophers[i].needed.contains(r)
                    ==> self@.graph.edges.contains((self@.philosophers[i].my_id, r)),
    {
        proof {
            self.philo_rsc_graph.lemma_wf_view();
        }
        let ghost sv = self@;
        let n = self.philosophers.len();
        let mut all_philo_ids: HashSet<usize> = HashSet::new();
        let mut i: usize = 0;
        while i < n
            invariant
                n == self.philosophers@.len(),
                sv == self@,
                0 <= i <= n,
                forall|x: usize|
                    #[trigger] all_philo_ids@.contains(x) <==> exists|j: int|
                        0 <= j < i && #[trigger] sv.philosophers[j].my_id == x,
                all_philo_ids@.finite(),
            decreases n - i,
        {
            let id = self.philosophers[i].my_id();
            all_philo_ids.insert(id);
            proof {
                assert(sv.philosophers[i as int] == self.philosophers@[i as int]@);
                assert forall|x: usize|
                    #[trigger] all_philo_ids@.contains(x) <==> exists|j: int|
                        0 <= j < i + 1 && #[trigger] sv.philosophers[j].my_id == x by {
                    if x == id {
                        assert(sv.philosophers[i as int].my_id == x);
                    }
                }
            }
            i += 1;
        }
        let ghost ids_match = forall|x: usize|
            sv.graph.a_nodes.contains(x) <==> exists|j: int|
                0 <= j < sv.philosophers.len() && #[trigger] sv.philosophers[j].my_id == x;
        if all_philo_ids.len() != self.philo_rsc_graph.num_a_nodes() {
            proof {
                if ids_match {
                    assert(all_philo_ids@ =~= sv.graph.a_nodes);
                }
            }
            return false;
        }
        let mut i: usize = 0;
        while i < n
            invariant
                n == self.philosophers@.len(),
                sv == self@,
                self.wf(),
                0 <= i <= n,
                forall|x: usize|
                    #[trigger] all_philo_ids@.contains(x) <==> exists|j: int|
                        0 <= j < n && #[trigger] sv.philosophers[j].my_id == x,
                forall|j: int| 0 <= j < i ==> sv.graph.a_nodes.contains(#[trigger] sv.philosophers[j].my_id),
            decreases n - i,
        {
            let id = self.philosophers[i].my_id();
            proof {
                assert(sv.philosophers[i as int] == self.philosophers@[i as int]@);
            }
            if !self.philo_rsc_graph.contains_a(&id) {
                proof {
                    assert(all_philo_ids@.contains(id));
                }
                return false;
            }
            i += 1;
        }
        proof {
            assert(all_philo_ids@.subset_of(sv.graph.a_nodes)) by {
                assert forall|x: usize| all_philo_ids@.contains(x) implies sv.graph.a_nodes.contains(x) by {
                    let j = choose|j: int| 0 <= j < n && #[trigger] sv.philosophers[j].my_id == x;
                }
            }
            vstd::set_lib::lemma_subset_equality(all_philo_ids@, sv.graph.a_nodes);
            assert(ids_match);
        }
        let mut i: usize = 0;
        while i < n
            invariant
                n == self.philosophers@.len(),
                sv == self@,
                self.wf(),
                ids_match,
                0 <= i <= n,
                forall|j: int|
                    0 <= j < i ==> {
                        &&& forall|r: usize|
                            #[trigger] sv.philosophers[j].needed.contains(r) ==> sv.graph.edges.contains(
                                (sv.philosophers[j].my_id, r),
                            )
                        &&& sv.graph.neighbors_of_a(sv.philosophers[j].my_id).len()
                            == sv.philosophers[j].needed.len()
                    },
            decreases n - i,
        {
            let philo = &self.philosophers[i];
            proof {
                assert(sv.philosophers[i as int] == philo@);
            }
            let id = philo.my_id();
            let needed = philo.needed_vec();
            let mut count_needed: usize = 0;
            while count_needed < needed.len()
                invariant
                    needed@ == philo@.needed,
                    self.wf(),
                    sv == self@,
                    id == philo@.my_id,
                    0 <= i < n,
                    n == self.philosophers@.len(),
                    sv.philosophers[i as int] == philo@,
                    0 <= count_needed <= needed@.len(),
                    forall|k: int| 0 <= k < count_needed ==> sv.graph.edges.contains((id, needed@[k])),
                decreases needed@.len() - count_needed,
            {
                let cur_needed = needed[count_needed];
                if !self.philo_rsc_graph.contains_edge(&id, &cur_needed) {
                    proof {
                        assert(sv.philosophers[i as int].needed.contains(cur_needed));
                    }
                    return false;
                }
                count_needed += 1;
            }
            if self.philo_rsc_graph.count_neighbors_a(&id) != count_needed {
                return false;
            }
            proof {
                assert forall|r: usize| #[trigger] sv.philosophers[i as int].needed.contains(r) implies sv.graph.edges.contains(
                    (sv.philosophers[i as int].my_id, r),
                ) by {
                    let k = choose|k: int| 0 <= k < needed@.len() && needed@[k] == r;
                }
            }
            i += 1;
        }
        true
    }

    /// The graph of who needs what.
    pub fn graph(&self) -> (g: &BipartiteGraph)
        ensures
            g@ == self@.graph,
            self.wf() ==> g.wf(),
    {
        &self.philo_rsc_graph
    }

    /// The philosophers, in increasing order of identifier.
    pub fn philosophers(&self) -> (ps: &Vec<Philosopher<Resources, Context, Job>>)
        ensures
            ps@.map_values(|p: Philosopher<Resources, Context, Job>| p@) == self@.philosophers,
    {
        &self.philosophers
    }

    /// Takes the philosophers out of the system, to run them; the system is
    /// left with none.
    pub fn take_philosophers(&mut self) -> (ps: Vec<Philosopher<Resources, Context, Job>>)
        ensures
            final(self).wf() == old(self).wf(),
            final(self)@.graph == old(self)@.graph,
            final(self)@.philosophers == Seq::<PhilosopherView<Resources, Context, Job>>::empty(),
            ps@.map_values(|p: Philosopher<Resources, Context, Job>| p@) == old(self)@.philosophers,
    {
        let mut philos_before: Vec<Philosopher<Resources, Context, Job>> = Vec::new();
        std::mem::swap(&mut self.philosophers, &mut philos_before);
        assert(self@.philosophers =~= Seq::<PhilosopherView<Resources, Context, Job>>::empty());
        philos_before
    }

    /// Puts philosophers (back) into the system.
    pub fn restore_philosophers(&mut self, philosophers: Vec<Philosopher<Resources, Context, Job>>)
        ensures
            final(self).wf() == old(self).wf(),
            final(self)@.graph == old(self)@.graph,
            final(self)@.philosophers == philosophers@.map_values(
                |p: Philosopher<Resources, Context, Job>| p@,
            ),
    {
        self.philosophers = philosophers;
    }
}

} // verus!
