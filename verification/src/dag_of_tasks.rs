use vstd::prelude::*;

use crate::bipartite_graph::BipartiteGraph;
use crate::communication_setup::{
    setup_error, PhilosopherSystem, PhilosopherSystemError, SystemView,
};
use crate::dag_utils::{has_incoming, index_limit, DagView, MyDAG};
use crate::philosophers::{Philosopher, PhilosopherView};

verus! {

/// Why a system of layered tasks could not be set up.
#[derive(Debug, PartialEq, Eq, Structural)]
pub enum DAGPhilosopherSystemError {
    /// The philosopher system underneath could not be set up.
    UnderlyingPhilosopherSystemError(PhilosopherSystemError),
}

/// What a `DAGPhilosopherSystem` holds: the philosopher system and the graph
/// of tasks still to do, each task a philosopher and a context.
pub struct DagSystemView<Resources, Context, Job> {
    pub system: SystemView<Resources, Context, Job>,
    pub tasks: DagView<(usize, Context)>,
}

/// A philosopher system fed with tasks layer by layer: a task is done only
/// after the tasks it depends on.
pub struct DAGPhilosopherSystem<Resources, Context, Job> {
    philo_system: PhilosopherSystem<Resources, Context, Job>,
    my_dag: MyDAG<(usize, Context)>,
}

impl<Resources, Context, Job> View for DAGPhilosopherSystem<Resources, Context, Job> {
    type V = DagSystemView<Resources, Context, Job>;

    closed spec fn view(&self) -> DagSystemView<Resources, Context, Job> {
        DagSystemView { system: self.philo_system@, tasks: self.my_dag@ }
    }
}

impl<Resources, Context, Job> DAGPhilosopherSystem<Resources, Context, Job> {
    /// The philosopher system and the task graph are well formed.
    pub closed spec fn wf(&self) -> bool {
        self.philo_system.wf() && self.my_dag.wf()
    }

    /// Sets up the philosopher system as `PhilosopherSystem::new` does, with
    /// no task yet.
    pub fn new(
        philo_rsc_graph: BipartiteGraph,
        philo_jobs: Vec<Job>,
        starting_resources: Vec<(usize, Resources)>,
    ) -> (r: Result<Self, DAGPhilosopherSystemError>)
        requires
            philo_rsc_graph.wf(),
        ensures
            setup_error(philo_rsc_graph@, philo_jobs@.len(), starting_resources@) matches Some(e) ==> r
                == Err::<Self, DAGPhilosopherSystemError>(
                DAGPhilosopherSystemError::UnderlyingPhilosopherSystemError(e),
            ),
            setup_error(philo_rsc_graph@, philo_jobs@.len(), starting_resources@) is None ==> (r matches Ok(
                s,
            ) && s.wf() && s@.system.is_built_from(
                philo_rsc_graph@,
                philo_jobs@,
                starting_resources@,
            ) && s@.system.is_valid() && s@.tasks.nodes.dom().len() == 0),
            philo_jobs@.len() != philo_rsc_graph@.a_nodes.len() ==> r == Err::<
                Self,
                DAGPhilosopherSystemError,
            >(
                DAGPhilosopherSystemError::UnderlyingPhilosopherSystemError(
                    PhilosopherSystemError::MismatchPhilosophersAndJob(
                        philo_rsc_graph@.a_nodes.len() as usize,
                        philo_jobs@.len() as usize,
                    ),
                ),
            ),
            r matches Ok(s) ==> s@.system.philosophers.len() == philo_jobs@.len() && forall|i: int|
                0 <= i < philo_jobs@.len() ==> #[trigger] s@.system.philosophers[i].job == philo_jobs@[i],
    {
        let ghost g = philo_rsc_graph@;
        let ghost jobs0 = philo_jobs@;
        let ghost res0 = starting_resources@;
        match PhilosopherSystem::new(philo_rsc_graph, philo_jobs, starting_resources) {
            Ok(new_underlying) => {
                let my_dag = MyDAG::new();
                proof {
                    assert(my_dag@.nodes.dom() =~= Set::<usize>::empty());
                }
                Ok(Self { philo_system: new_underlying, my_dag })
            },
            Err(e) => Err(DAGPhilosopherSystemError::UnderlyingPhilosopherSystemError(e)),
        }
    }

    /// Whether the philosopher system underneath is valid.
    pub fn validate(&self) -> (b: bool)
        requires
            self.wf(),
        ensures
            b == self@.system.is_valid(),
    {
        self.philo_system.validate()
    }

    /// Puts the tasks of `more_tasks` after all tasks already waiting.
    pub fn chain_more_tasks(&mut self, more_tasks: MyDAG<(usize, Context)>)
        requires
            old(self).wf(),
            more_tasks.wf(),
            old(self)@.tasks.nodes.dom().len() + more_tasks@.nodes.dom().len() < index_limit(),
            old(self)@.tasks.edges.len() + more_tasks@.edges.len() + old(self)@.tasks.sinks().len()
                * more_tasks@.sources().len() < index_limit(),
        ensures
            final(self).wf(),
            final(self)@.system == old(self)@.system,
            exists|m: Map<usize, usize>|
                old(self)@.tasks.is_post_composition(more_tasks@, final(self)@.tasks, m),
    {
        let ghost before = self@.tasks;
        let ghost other = more_tasks@;
        self.my_dag.post_compose(more_tasks);
        proof {
            let m = choose|m: Map<usize, usize>| before.is_post_composition(other, self.my_dag@, m);
            assert(before.is_post_composition(other, self@.tasks, m));
        }
    }

    /// The next layer of tasks to run: none when no task is left, otherwise
    /// the tasks that depend on no task left, which are then taken out of the
    /// task graph. A layer is never empty.
    pub fn next_layer(&mut self) -> (layer: Option<Vec<(usize, Context)>>)
        requires
            old(self).wf(),
        ensures
            final(self).wf(),
            final(self)@.system == old(self)@.system,
            layer is None <==> old(self)@.tasks.nodes.dom().len() == 0,
            layer is None ==> final(self)@.tasks == old(self)@.tasks,
            layer matches Some(l) ==> {
                &&& l@.len() > 0
                &&& l@ == old(self)@.tasks.front().map_values(|i: usize| old(self)@.tasks.nodes[i])
                &&& forall|i: usize|
                    #[trigger] old(self)@.tasks.front().contains(i) <==> old(self)@.tasks.nodes.dom().contains(i)
                        && !has_incoming(old(self)@.tasks.edges, i)
                &&& old(self)@.tasks.peels_to(final(self)@.tasks)
                &&& final(self)@.tasks.nodes.dom().len() < old(self)@.tasks.nodes.dom().len()
            },
    {
        if self.my_dag.is_empty() {
            None
        } else {
            let ghost before = self@.tasks;
            let layer = self.my_dag.peel_front();
            Some(layer)
        }
    }

    /// The number of tasks still to do.
    pub fn task_count(&self) -> (n: usize)
        requires
            self.wf(),
        ensures
            n == self@.tasks.nodes.dom().len(),
    {
        self.my_dag.node_count()
    }

    /// The number of dependencies between the tasks still to do.
    pub fn dependency_count(&self) -> (n: usize)
        ensures
            n == self@.tasks.edges.len(),
    {
        self.my_dag.edge_count()
    }

    /// The number of tasks that no task still to do depends on.
    pub fn last_task_count(&self) -> (n: usize)
        requires
            self.wf(),
        ensures
            n == self@.tasks.sinks().len(),
    {
        self.my_dag.sink_count()
    }

    /// Takes the philosophers out of the system underneath, to run them.
    pub fn take_philosophers(&mut self) -> (ps: Vec<Philosopher<Resources, Context, Job>>)
        ensures
            final(self).wf() == old(self).wf(),
            final(self)@.tasks == old(self)@.tasks,
            final(self)@.system.graph == old(self)@.system.graph,
            final(self)@.system.philosophers == Seq::<PhilosopherView<Resources, Context, Job>>::empty(),
            ps@.map_values(|p: Philosopher<Resources, Context, Job>| p@) == old(self)@.system.philosophers,
    {
        self.philo_system.take_philosophers()
    }

    /// Puts philosophers (back) into the system underneath.
    pub fn restore_philosophers(&mut self, philosophers: Vec<Philosopher<Resources, Context, Job>>)
        ensures
            final(self).wf() == old(self).wf(),
            final(self)@.tasks == old(self)@.tasks,
            final(self)@.system.graph == old(self)@.system.graph,
            final(self)@.system.philosophers == philosophers@.map_values(
                |p: Philosopher<Resources, Context, Job>| p@,
            ),
    {
        self.philo_system.restore_philosophers(philosophers)
    }
}

/// Whether to try once more to clear the backlog of a layer: it is not
/// finished and fewer than `max_tries_per_layer` tries were made.
pub fn should_retry_layer(all_finished: bool, tries_this_layer: usize, max_tries_per_layer: usize) -> (b: bool)
    ensures
        b == (!all_finished && tries_this_layer < max_tries_per_layer),
{
    !all_finished && tries_this_layer < max_tries_per_layer
}

} // verus!
