# but_graph

A commit-first graph of a repository's history, and the graphs that a rebase edits, written in Verus.
Every function of the library has a contract. The contracts are proved, but for those of the eight
functions in `names` and `materialize` that call gix or std: these are believed, and the comment
above each says what is relied on.

- `commit_graph`, `generations`, `graph_diff`, `segment_graph`: the graph of commits, built from
  commits, from segments or from what a traversal found, and compared line by line.
- `derivation`, `placements`, `creation`: where references sit, read off segments or off a finished
  graph as a ledger, and the editor's graph that is built from commits and a ledger.
- `editor_graph`, `lanes`, `positions`, `position_checks`, `arrangement`: the editor's graph, where its
  references sit, and how they are placed, moved, split and carried.
- `step_graph`, `step_builder`, `canonical`, `native_creation`: the graph of rebase steps, its form
  without indices, and its construction from commits and the stacks of a workspace.
- `materialize`, `stacks`: what has to be done to make a rebase real, and what a workspace shows.
- `names`, `commit`, `step`, `text`, `reports`, `order`, `collections`, `seqs`, `reach`: what the others
  are made of.
- The modules that end in `_laws` state what holds across functions, as public proof functions.

`app/` is ordinary Rust around the library: traversals, repositories, and the environment.
