# radicle-artifact

Artifacts of Git releases, kept with the repository: who registered which content under
which commit or tag, where it can be fetched, who vouches for it and who has withdrawn it.

- `src/` is the library, verified with Verus. `release` folds the signed actions of a
  release into its state; `trust` says which authors count; `resolve`, `create`,
  `register`, `modify`, `verify`, `retrieval`, `reconcile`, `watch` and `follow` hold what
  the commands decide; `display`, `shown`, `pretty`, `report` and `receipt` hold what they
  say; `cache` and `discovery` keep and search releases; `share`, `transfer`, `pick` and
  `preset` fetch and serve content. `laws` states what holds of every release, whatever its
  history.
- `app/` is the program around it: `rad-artifact`, also under the names `rad-fetch` and
  `rad-share`. It does the input and output; its module `peers` needs the crates `iroh`,
  `iroh-blobs` and `n0-future` besides those in `Cargo.toml`.
- `tests/` runs the library.
