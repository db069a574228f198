# pyrite

The verified core of a spectral path tracer, written in Verus.

- `src/lexer.rs`, `src/grammar.rs`, `src/parser.rs`, `src/syntax.rs`: the configuration
  language, from characters to statements, with the grammar stated as spec functions and
  the parser proved to agree with it.
- `src/config.rs` and `src/config/`: the configuration tree that statements build
  (objects, lists, links, includes), its model in `config/model.rs` with the laws of
  assignment and lookup, the typed access to it (`entry.rs`) and the prelude that a
  program fills before a configuration is read (`prelude.rs`).
- `src/program.rs` and `src/program/`: the instructions of material programs and the
  compiler from expressions to instructions, proved to accept exactly the well typed
  expressions whose inputs are available, to write every register before it is read, and
  to leave in its result register what the expression computes.
- `src/project.rs`, `src/texture.rs`, `src/spatial.rs`, `src/renderer.rs`,
  `src/pooling.rs`: the stores that hand out numbers for spectra, meshes and textures,
  texture addressing, the cycle of spatial axes, renderer settings and a pool of reusable arena
  slices.
- `src/project/materials.rs`: surface materials, and how a material made of mixes and
  sums of others is taken apart into components with the expressions of their
  probabilities.
- `app/main.rs`: reads a configuration file and its includes, and prints what it holds and
  the render settings of its `renderer` object.

What the library does not carry over, and why:

- Decoding through decoders registered at run time (`Decode`, `dynamic_decode`,
  `add_decoder`) rests on type erasure through `Any`; values are decoded through the
  `FromEntry` trait instead.
- Slices of a `SlicePool` are made in a `bumpalo` arena as before, but they go back to the
  pool through an explicit `recycle`, not when they are dropped: Verus does not take a
  `Drop` of the library's own. The pool is borrowed mutably instead of behind a lock.
- Constant folding of two numbers in `insert_sub`, `insert_mul` and `insert_clamp` is
  arithmetic on floating point numbers, which stays out of the library: the expression is
  always added.
- Rendering, images, materials' scattering, lamps, cameras, film and everything else that
  computes with floating point numbers, and loading projects written in Lua.
