# datafusion-distributed

Runs query plans on several workers. A plan is cut into stages at the places where rows must cross the
network, each stage runs as a number of tasks, and the tasks hand their rows and their metrics to the
stage above.

- `src/` is the library: planning (task counts, network boundaries, broadcast joins, unions whose
  children run apart, file scans, costs), the bookkeeping of stages, tasks and partitions, the messages
  that stand for plans, stages, metrics and errors on the wire, the collecting and showing of metrics,
  and the drawing of plans. Every function has a contract that Verus proves. What is known of other
  crates stands in a few marked items, each with a comment on what it says.
- `tests/` runs the library on concrete values.
- `app/` puts the library to work inside the query engine: the nodes that the engine executes, the
  encoding of messages, the service that answers other workers, and file and network access.

The library works on plain models of the engine's plans (`Plan`, `StagedPlan`, `RunningPlan`,
`ExecutedPlan`, `ShownPlan`, `CostedNode`), and the promises that span several functions are public
proof functions beside the functions that they are about.
