# csx3

Classic algorithms with machine-checked contracts: the functions in `src/`
are verified with Verus against `requires`/`ensures` clauses stated over
mathematical sequences, sets, maps and multisets.  The few calls into the
`rand` and `hashbag` crates go through small trusted wrappers whose
contracts state what those crates document.

- `order`, `seqs`: the ordering the algorithms rely on, and the specification
  vocabulary (sortedness, merges, inversion counts, order statistics).
- `merge`, `utils`: merging two slices in place, and `VirtualSlice`, which
  joins separate mutable slice segments into one sequence of positions, with
  deep (value moving) and shallow (position reordering) merges and the
  superimposing of a shallow merge onto the segments.
- `sort`, `dnc`, `select`: merge sort, quick sort, count sort, and random and
  deterministic selection.
- `linkedlists`, `trees`: a linked list and a binary search tree.
- `hash_heap`, `leet`: two and three sums, subsequence matching.
- `dp`: change making, grid paths, knapsack, weighted independent sets.
- `graphs`: breadth first distances, cheapest paths, depth first search,
  topological order, strongly connected components, random contraction cuts.
- `greedy`: minimum spanning trees (Kruskal, Prim) and clusterings.
- `text`: lines, fields and decimal numbers of the text inputs.
- `random`: the random choices of the randomized algorithms.

`app/` holds the program: reading input files, the random input sequences,
the repeated contraction loop of the minimum cut, and printing.
