# kdtree

A k-d tree over integer coordinates, verified with Verus.

The tree holds `(point, data)` entries. Leaves keep up to `capacity` entries
in a bucket and split along the widest coordinate of their bounding box once
they hold more. Queries take a caller-supplied distance function
`Fn(&[i64], &[i64]) -> u64`:

- `nearest`: the `num` entries nearest to a point, nearest first;
- `within`: every entry within a radius, nearest first;
- `best_n_within`: at most `n` entries within a radius, the first in the
  order of their data;
- `iter_nearest`: the entries one at a time, nearest first;
- `iter_nearest_mut`: the same, with a mutable reference to each entry's
  data, every entry handed out once. Its contract says what the tree becomes
  once the borrow ends: the tree it was, with each entry's data as last
  written through the reference handed out for it (`settled`,
  `lemma_settled_entries`).

Coordinates are `i64`, every value accepted; an empty tree's box runs from
`i64::MAX` down to `i64::MIN`, so that the first point added makes it exact.

Layout:

- `src/geometry.rs`: errors, points, boxes and their widths;
- `src/metric.rs`: what a distance function returns, and the distance to a box;
- `src/order.rs`: the order of the data that `best_n_within` relies on;
- `src/kdtree/mod.rs`: the tree, its invariant, insertion, splitting, removal, cloning;
- `src/kdtree/query.rs`: `nearest` and `within`;
- `src/kdtree/best.rs`: `best_n_within`;
- `src/kdtree/nearest_iter.rs`: `iter_nearest`;
- `src/kdtree/nearest_iter_mut.rs`: `iter_nearest_mut`;
- `src/laws.rs`: properties relating the operations;
- `app/lib.rs`: `Display` and `std::error::Error` for the error type.

Every query's contract states which entries it returns; that none is missed
is stated for distance functions under which no point of a box is closer than
the box itself (`metric`), such as the squared Euclidean distance.
