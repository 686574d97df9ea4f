# ads

Ordered maps as search trees — a plain binary search tree, AVL, red-black, splay and B-trees —
together with the logic of the small applications built on them and of the benchmark task
runner. Each tree kind keeps the `safe`, `raw` and `arena` front ends. `safe` and `raw` share
one verified storage of owned, boxed nodes (the pointer layout of `raw` is not reproduced). The
`arena` front ends of the binary trees keep their nodes in a `Vec<Option<Node>>` with a free
list of reusable slots, linked by slot indices (`src/trees/arena_store.rs`), and a spec function
reads that arena as the same owned-node model, so the shape contracts of all three front ends
are the same. The AVL tree inserts and removes over the slots themselves, rotations included;
the red-black tree inserts over the slots (fix-ups included); red-black removal and the splay
tree's splaying move the tree out of the arena, run the boxed engine, and store it back. The
B-tree `arena` front end uses the boxed B-tree storage. Everything under `src/` is verified
with Verus: each operation states what it does to the map that the tree stands for, and each
tree keeps its balancing invariant.

Layout:

- `src/key.rs` — the keys: any type with a total order given by an integer rank.
- `src/trees/` — `node.rs` and `node_ref.rs` model a binary tree as a `Map` plus the order of
  its keys; `bin_tree.rs` holds what the binary trees share; `arena_store.rs` and
  `arena_tree.rs` hold the index-linked arena (slots, free list, `alloc_node`, `take_node`) and
  the tree kept in it; one directory per tree kind holds
  its engine (insertion, removal, rebalancing) and its `safe`, `raw` and `arena` front ends
  with node views, cursors and iterators. `b_tree/` splits the B-tree into node layout,
  sorted-entry facts, insertion (node splits), removal (borrow and merge) and search.
- `src/laws.rs` — properties that span calls: a read after a write, a remove after an insert,
  successor and predecessor undoing each other, the ends of the order, and the round trips of
  the applications.
- `src/exercises/` — the applications: command parsing, the streaming median, the
  leaderboard, the tree showcase, interactive mode, the menu and prompt state, the
  explorer's key decisions (`navigation.rs`: which keys end it, what a key does in a menu) and
  how it colours output lines (`line_style.rs`).
- `src/xtask/` — the benchmark task runner's selection of targets, its reading of result
  names (Criterion estimate paths, Callgrind output names, dhat file names; `result_names.rs`
  holds the grammar of the first two as functions on characters) and its one-to-one-to-one
  check of aggregated results.
- `app/` — the terminal explorer (ratatui): menus, showcases, interactive mode and the
  command applications, drawing what the library computes.
- `tests/` — scenario tests for every module, including the exact tree shapes that the
  textbook algorithms produce for sequences of inserts and removals.
