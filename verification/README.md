# b-link

`b_link` is an ordered map (`BLinkMap`) and an ordered set (`BLinkSet`), written
and proved in Verus. Both keep their entries in a B-link tree: pages of fixed
capacity with lower and upper fences, links to their right siblings, and
forwarding pages in place of those that were merged away.

```rust
use b_link::{BLinkMap, BLinkSet, DEFAULT_PAGE_CAPACITY};

let mut map = BLinkMap::<u64, String, DEFAULT_PAGE_CAPACITY>::new();
map.insert(7, String::from("seven"));
assert_eq!(map.get(&7).unwrap().value(), "seven");

let mut set = BLinkSet::<u64, DEFAULT_PAGE_CAPACITY>::new();
assert!(set.insert(7));
assert!(set.contains(&7));
```

## Layout

`src/` is the verified library.

- `map`, `set`, `iter` and `handle` are the public collections, their iterators
  and ranges, and access to single entries. A map is described by the sequence
  of its records in key order, a set by the sequence of its values.
- `cursor` holds the decisions of an ascending traversal: where to look for the
  next record, and whether to come to the one found. `iter` and the concurrent
  iterators run it.
- `tree` stores pages and implements traversal, insertion and deletion: splits,
  rotations, merges, and growing and shrinking at the root.
- `repair` mends the sibling links that a split or a merge leaves behind, also
  where the pages around were split or retired since.
- `node` holds what is decided on single pages. Every step takes the pages that
  it touches and says exactly what becomes of them. The steps are generic over
  how pages point to each other.
- `check` validates every invariant of a tree.
- `array` is the fixed-capacity storage of a page.
- `order`, `records`, `page`, `shape`, `surgery` and `store` are the models: key
  order and probes, sorted records, single pages, trees of pages, the structural
  changes of a tree, and which pages are used and which are free.
- `laws`, `routing`, `latched`, `history`, `search` and `capacity` state what holds
  of the library as a whole. `history` says what the calls of several callers come
  to, in the order in which they take effect; `search` says that a traversal
  passes no record that stays, whatever happens between and during its steps;
  `routing` says why a traversal that a
  change overtakes still arrives; `latched` says that every step keeps a tree
  sound and its records right at every moment, with any number of link repairs
  outstanding.

`app/` is the concurrent collection: the same pages behind `parking_lot` latches,
with one latch per page and no lock on the tree. It latches pages, hands them to
the steps of `node`, and goes where the steps say. Waiting for a latch and trying
again have no bound that could be proved, so these loops stand there and not in
the library.

`tests/` runs the library.

## Page and routing invariants

Every active page owns a half-open interval `[low_key, high_key)`. Missing
fences mean negative or positive infinity. Internal separators are inclusive
lower bounds for the child to their right, and a page with `n` separators has
exactly `n + 1` children.

Pages at each level form a forward sibling chain. If a stale traversal reaches a
page above its high fence, it moves right. If a rotation moved the boundary and
the key is now below the page's lower fence, it starts again at the root. A
merged page becomes a forwarding page.

Non-root leaves contain at least `N / 2` records. Non-root internal pages contain
at least `(N - 1) / 2` separators. Two minimal siblings and the separator between
them fit in one `N`-slot page. `N` must be at least 3.

A search for the next record goes from leaf to leaf under separate latches. It
carries the upper fence of the leaf it left, and looks for records only in a leaf
that owns this fence by then. Above the leaf it moves right; below it, where
records may have moved behind the search, it starts again at the root.

## Order of keys

Contracts ask that `Ord` of the key type is a total order. A lookup takes a
probe: a key is its own probe, and another type is one when it finds its place
among keys as some key would.
