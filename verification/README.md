# rust_exercises

Three small exercises, verified with Verus:

- `src/longest_substring.rs`: three solutions to "the longest substring without
  repeating characters" (a map scan, the same scan written with the map's entry API,
  and a deque of the current window), with their specifications and the laws that
  relate them.
- `src/merge_lists.rs`: a singly linked list of `i32`, a builder from a vector, and two
  merges of lists (by recursion, and in place by relinking nodes).
- `src/ring_buffer.rs`: the slot arithmetic of a ring buffer of samples and a ring
  state with writes and reads, with the law that a read gives back what a write wrote.

`app/main.rs` runs the demos and the ring-buffer benchmarks (threads, locks, atomics
and raw-pointer copies stay there; they use the library's slot arithmetic).
