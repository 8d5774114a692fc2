# benedictine

A parallel tree search: workers share a queue of jobs, each a node with the iterator
over its children; a clone of a leaf joins the results, any other node hands out its next child,
and the search is over once every worker finds the queue empty.

- `src/tree.rs`: the traits a user implements (`Node`, `BranchIterator`, `Bounds`) and
  the tree they span, as mathematics: finiteness, leaves, weight.
- `src/queue.rs`: the `Queue` trait and `FIFOQueue`, which hands out the last item first.
- `src/search.rs`: `Job`, `Searcher` and its `step`, the decision a worker takes in one
  turn, with the search's laws: a finished search of a finite tree has found every leaf
  once, and every step that takes a job leaves one unit less work.
- `src/ternary.rs`: the same search over a fixed tree, the sequences of three branch
  numbers from 1 to 3, with a stack that holds the current path; a finished search has
  found all 27 sequences in lexicographic order.
- `app/`: runs the searchers on threads, parking workers on a condition variable when a
  step says to wait.
