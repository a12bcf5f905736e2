# cs431_homework

Sorted list sets and a split-ordered hash map, written in Verus with their contracts proved.

- `src/order.rs`: the total order that `Ord` must be, over `cmp_spec`, the facts of it that
  the list proofs use, and sets taken up to that order's equivalence.
- `src/list_set/`: `FineGrainedListSet` and `OptimisticFineGrainedListSet`, sets kept as a
  strictly increasing singly linked list (`sorted_list.rs` holds the shared search, insertion
  and removal). Each operation is stated over the set it models (`Set<T>`), where values
  that compare equal count as one; the iterators yield the elements smallest first.
- `src/hash_table/growable_array.rs`: `GrowableArray`, a tree of 1024-slot segments grown at
  the root; `get` returns the slot at an index, allocating the segments on the way, and
  leaves every other slot as it was.
- `src/hash_table/split_order.rs`: bit reversal and the split-order keys of items and bucket
  sentinels, with the ordering facts that make a bucket's sentinel precede its keys and keep
  every other bucket's sentinel out of the stretch between them.
- `src/hash_table/arena_list.rs`: the sorted list of the map, its nodes in an arena linked by
  position.
- `src/hash_table/split_ordered_list.rs`: `SplitOrderedList`, a map from `usize` keys with a
  clear highest bit, whose buckets point at sentinels in the sorted list; the number of
  buckets doubles when an insertion brings the items held past two per bucket.

The structures are sequential: an operation that changes one takes `&mut self`. `tests/` runs
them on concrete values.
