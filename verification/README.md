# window_system

Window lifecycle bookkeeping for a multi-window desktop shell, written in
Verus: the registry of live windows and its parent/child index, label
reservations and teardown marks, the persisted geometry and tracked
windows, startup restore planning and cleanup, child-first teardown, and
the message broker's addressing rules.

- `src/` — the verified library. `registry.rs` holds the registry and its
  invariant, `store.rs` the persisted state, `commands.rs` request
  normalisation, the open flow, restore planning and cleanup, and
  `store.rs` also the debounced snapshot writer's step function;
  `lifecycle.rs` the teardown state machine, `message.rs` envelopes and
  recipients, `table.rs` the sorted keyed tables everything is stored in,
  `text.rs` trimming and label order.
- `tests/` — tests on concrete values.
- `app/` — the Tauri plugin: commands, native windows, events, the snapshot
  file and its debounced writer, all calling into the library.
