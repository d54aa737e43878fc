# mini_dag_runner

An HTTP service that accepts a set of tasks with dependencies, groups them into
levels by dependency depth, and runs the levels one after the other, reporting
progress as server-sent events.

- `src/` is the library, verified with Verus: the scheduler (`services::scheduler`,
  which checks the tasks and computes the levels through `petgraph`), the run model
  (`models::dag`, `models::events`, with times as seconds and nanoseconds in
  `services::clock`), the decisions of the executor (`services::executor`) and the
  step functions of a run (`services::run`: open the run, plan a level, finish a task,
  close a level; `services::whole_run` states what a complete run of an accepted
  submission ends with), the answers of the HTTP routes (`routes`, `errors`), and a
  code-point string order with a sort (`text`). Calls into `petgraph`, `chrono` and
  `uuid` stand behind small trusted wrappers in `services::graph`, `services::clock`
  and `services::ids`.
- `app/` is the server around it: `axum` routes, the shared state in `dashmap` maps
  and `tokio` broadcast channels, the asynchronous loop that performs the steps the
  library decides (spawning, waiting, sending events), and the JSON forms
  of the library's types.
- `tests/` runs the library on concrete inputs.
