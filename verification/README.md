# git-hierarchy

Tools that keep a hierarchy of git branches in shape: a *segment* is a
branch that grows from a base (its references `refs/base/<name>` and
`refs/start/<name>` record the base and where it started), a *sum* is a
branch that merges its summands (`refs/sums/<name>/<n>`).  The tools
define them, show them, rebase a whole hierarchy bottom up, clone it under
new names, and show it in gitk.

Layout:

- `src/` is the library, verified with Verus: the naming rules of the
  references, the classification of a node, the discovery and ordering of
  a hierarchy (topological sorts, with proofs that a cycle has no order),
  reordering by a permutation, the format of the marker file of an
  interrupted rebase (and the law that it reads back what was written), and
  the decisions taken while rebasing segments and re-merging sums.
- `app/` is the command-line program around it: the git repository is read
  and written through `git2`, and git itself is run where a merge needs it.
  It runs the tool it is installed as (`git-segment`, `git-sum`,
  `git-rebase-segment`, `git-rebase-poset`, `git-walk-down`, `gitk-poset`),
  or the one its first argument names.
- `tests/` exercise the library on concrete values.
