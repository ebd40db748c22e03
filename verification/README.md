# pwe

A deterministic world runtime with a small language for the systems that drive it,
verified with Verus.

A program declares a world (entities, pools, channels, grid fields, parameters) and the
systems that act on it. The library parses it, checks its units, resolves its imports,
and lowers every system to a flat instruction list per entity. Executors run the lists;
the library decides what becomes of their writes.

## Layout

`src/` is the library.

- Language: `grammar`, `peg`, `syntax`, `parse`, `entity`, `shapes`, `stmts`, `expr`,
  `numbers`, `units`, `dims`, `diagnostics`, `fault`, `decl`
- Modules of a program: `imports`, `loader`, `merge`
- Lowering: `eir`, `emit`, `scope`, `refs`, `lower`, `block`, `rules`, `update`, `rk4`,
  `checks`, `pools`, `fields`, `chan`, `bodies`, `systems`, `kinds`, `program`, `compile`
- What holds of lowered code: `numbering`, `registers`, `functions` (every register is set
  once and before it is used), `sensing`, `simultaneity` (rules read before they write),
  `verdicts` (each invariant has a verdict of its own)
- Running: `scene`, `setup`, `runtime`, `simulation`, `vm`, `neighbors`, `contacts`,
  `pipeline`
- The world: `world` (transactions), `ownership` (transfer between regions), `api`
- Tables, names and bits: `table`, `names`, `text`, `bytes`, `double`

Numbers are held by their bits, and constants that need floating-point arithmetic stay
symbolic until an executor folds them. `app/` has what works on doubles: vectors, the
rigid-body solver, spatial queries, the values of numerals, program files, and the steps
around an executor.

Properties that relate several functions are proof functions whose names begin with
`law_`.
