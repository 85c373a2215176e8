# progress-token

Hierarchical progress tracking, verified with [Verus](https://github.com/verus-lang/verus).

Tasks form a tree. Each task reports progress and status messages, can be completed or cancelled,
and can be watched by subscribers.

- The progress of a task with children is the sum of theirs, each times its weight; it is
  indeterminate while one of its active children is.
- The status messages of a task are its own, followed by those of the first active task below it.
- Progress values are brought into the range from zero to one.
- A task that is completed reports a progress of one. One that is completed or cancelled ignores
  further reports. Neither state can be undone.
- Cancelling a task cancels all tasks below it.
- A change of a task is told to its subscribers and to those of every task above it.
- A subscription begins with what the task reports at that moment.

## Layout

- `src/` is the verified library.
  - `token` holds the handles to tasks, `tree` the tree behind them, `progress` what subscribers
    read.
  - `model` is the mathematical model that the contracts speak of; `preservation`, `laws` and
    `aggregation` prove what holds of it.
  - `binary64` and `rounding` compute with floating-point numbers on their bit patterns.
  - `cancellation` states what is relied on of `tokio_util`'s cancellation tokens.
- `app/` shares a tree between asynchronous tasks: it locks the tree, sends the updates that the
  library returns through broadcast channels, and turns them into futures and streams.
- `tests/` holds the tests of the library.
