# dining_philosophers

Dining philosophers after Chandy and Misra: resources are clean or dirty, a
philosopher gives up a dirty resource when a peer asks for it and keeps a
clean one for its own next job.

The library (`src/`) is verified with Verus:

- `bipartite_graph`: which philosopher needs which resource.
- `philosophers`: a philosopher's state and the decisions it makes: which
  resource to ask for and from whom, what to hand over, when a job can run
  and which context it runs with (`next_backlog_job`), how to clear a
  backlog (`clearing_step`), what to do with a new context (`fair_step`),
  and when to stop waiting, gathering or giving (`round_step`, which fixes
  the time budgets).
- `communication_setup`: `PhilosopherSystem`, built from the graph, one job
  per philosopher and the starting resources.
- `dag_utils`: `MyDAG`, a directed acyclic graph of tasks on top of
  petgraph's `StableGraph`, peeled layer by layer.
- `dag_of_tasks`: `DAGPhilosopherSystem`, which feeds tasks to the
  philosophers one layer at a time, so that a task runs only after the tasks
  it depends on.
- `util`: ordered sequences and the `nonempty` list of needed resources.

`app/` runs the philosophers in threads that talk over channels: it waits on
the channels, measures the time, calls the jobs and keeps the shared job
counter, and asks the library what to do after each wait. It also holds a
small demonstration.
