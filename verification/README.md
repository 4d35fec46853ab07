# dagr-core

The core of a task-graph runner: tasks are bound to each other by typed handles, the
flow is assembled into a pipeline whose faults are all reported at once, and a run
admits, attempts, retries and settles its nodes.

Every function of the library states what it does in its `requires` and `ensures`, and
Verus proves it. Statements that relate several functions stand as public proof
functions whose names begin with `law_`, beside the types they speak of or in a
module called `laws`.

## Layout

- `src/`: the library. `flow`, `binding`, `handle` and `assembly` build a pipeline;
  `readiness`, `admission`, `execution` and `slot` run it; `resume` takes a run up
  again; `payload` and `scratch` hold stored values; `limits`, `metrics` and `context`
  serve the attempts.
- `tests/`: what the library does on given values.
- `app/`: ordinary Rust around it: files, futures, guards that give back what they hold
  when they are dropped, the allocator hook and the floating point of backoff and headroom.
