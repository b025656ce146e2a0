# code_optimizer

An optimiser for shape-based input methods. Characters are split into roots, roots are put on keys in
groups, and a character's full code is the sequence of the keys of its roots. The optimiser searches
for an assignment of groups to keys under which few characters share a code, keys are used as they
should be, and frequent characters get short ("simple") codes.

`src/` is a library verified with Verus:

- `types`, `scheme`, `fixed`, `space_codes`, `builder`, `context`: what an encoding scheme is and what is
  worked out of it once.
- `codes`, `collisions`, `full_codes`, `key_usage`, `bucket_store`: full codes, who shares them, and the
  buckets they are kept in.
- `simple_level`, `selection`, `simple_select`, `rebuild`, `incremental`, `undo`, `protection`,
  `simple_collisions`, `simple_evaluator`, `listing`, `visits`: who gets which simple code, from scratch and
  after a move, how many candidates a move looks at, and how a move is taken back.
- `evaluator`, `moves`: the state of an assignment, and moves that are kept or taken back.
- `conflicts`, `neighbours`, `climb`, `descent`, `starts`, `multistart`, `annealing`, `operators`: the
  searches. Scores are the caller's; the searches say what they do with them.
- `config`, `text`, `checkpoint`, `fsutil`, `backend_log`: names, paths and settings.
- `laws`, `agreement`, `candidates`: what holds of the library as a whole.
- `dice`, `fx`: calls into `rand` and `rustc_hash`, with what is taken for granted of them.

`app/` holds what floating-point numbers, files and serde need: scores, the configuration file,
checkpoints on disk and the annealing loop. `tests/` runs the library.
