# zchan

Channels for futures, verified with Verus.

There are three kinds of channels: `unbounded` ones, `bounded` ones of a given capacity, and `zero`
ones, in which a send and a receive meet. Senders and receivers can be cloned, and a channel can be
shut down: what waits in it can still be received.

## Layout

- `src/`: the library. Every item of it is verified but the trusted ones, which state what is taken
  for granted of other code: in `task_queue`, the queue `ArrayQueue` of the crate `crossbeam`
  (`new_queue`, `push`, `pop`, and the names `queued` and `room` for what it holds); in `counter`,
  `Arc::clone` and `Arc::ptr_eq` (`share`, `same`); in `error`, `SendError::into_inner` of `crossbeam`;
  and the declarations of types of other crates in `async_types`, `error` and `task_queue`.
  - `array`, `list`, `zero`: the three channels. A send or a receive is one or two steps on a channel
    that the caller holds exclusively; `array` and `list` are described by a log of the messages they
    have carried (`log`), `zero` by the operations for which a thread blocks.
  - `stamp`, `index`, `block`: how `array` and `list` lay out their positions.
  - `atomic_serial_waker`, `task_queue`: tasks that wait, in a queue of the crate `crossbeam`.
  - `waker`, `context`, `select`: threads that wait.
  - `utils`, `counter`, `channel`: the lock and the counted references by which channels are shared.
  - `laws`, `history`: what holds of the channels as a whole.
- `app/`: sinks and streams over the library, for `tokio` and `futures`. The library records which
  tasks it notifies and which threads it unparks; here they are woken.
- `tests/`: the library in use.
