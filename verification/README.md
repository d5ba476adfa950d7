# gc_lite

A partitioned tri-color mark-sweep garbage collector, written in Rust and proved with Verus.

A heap holds nodes in partitions. Roots and nodes held by scopes are kept, and so is what they
reach, through whatever partitions. A collection marks all partitions and then sweeps one of them.
A partition can also be marked and swept on its own, in as many steps as the owner likes; such a
sweep keeps what was marked. Weak references keep nothing alive.

## Layout

- `src/heap.rs` and `src/heap/`: the heap and its operations: allocation, marking, sweeping, write
  barriers, scopes, weak references, partitions, traversal.
- `src/model.rs`, `src/marking.rs`, `src/collecting.rs`, `src/sweeping.rs`, `src/scoping.rs`,
  `src/walking.rs`: the mathematical model of a heap, over which the contracts are stated.
- `src/laws.rs` and `src/laws/`: what the operations amount to together.
- `src/arena.rs`, `src/table.rs`, `src/node.rs`, `src/node_link.rs`, `src/partition.rs`,
  `src/scope.rs`, `src/trace.rs`: the parts that a heap is made of.
- `src/gctype.rs`, `src/type_registry.rs`: tables of payload types.
- `src/codegen.rs` and `src/codegen/`: what the procedural macros generate.
- `app/`: the macros' entry points on token streams, owners that clean up on drop, the type table
  of a thread, and containers whose behaviour depends on the traits of their keys.

## Handles

Nodes are named by handles that carry the number of their heap and a place in its node table. A
handle of another heap, or of a node that is gone and whose place is vacant, denotes nothing.
