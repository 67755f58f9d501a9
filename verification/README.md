# fragment_tree

A copy-on-write tree of fragment records for versioned datasets, verified with
Verus. Commits are buffered near the root and pushed towards the leaves in
batches; every object is immutable, and a version is a descriptor that names a
root and the mutations since it.

- `src/` is the library. It does no I/O: an operation that needs an object says
  which (`store::Stop::Need`), is handed it and is run again. Of a leaf it may
  ask for the whole, for the headers of its records, or for one row (`partial`).
- `tests/` runs the library, whole sessions over an in-memory store included.
- `app/` reads and writes the objects over an object store. Messages and leaf
  files are turned into bytes by a `Codec` that the caller brings.

`world` says what the objects of a tree stand for. The laws about whole
operations are stated over it: `tree::commit_laws`, `tree::snapshot_laws`,
`tree::read_laws`, `tree::lookup_laws`, `tree::total_laws` and
`tree::exact_laws`. Laws about single fragments stand in `replay_laws`,
`squash_laws` and `replacement_laws`.

What a rewrite gives follows from its input and from the paths that are drawn
for new objects (`store::Names`). `merge`, `drain`, `bulk`, `tree` and
`tree::publication` say so step by step: every function that writes has a model
beside it that gives the objects, the references, the work and the error.
`rewrite_laws` holds what those models owe.

The library relies on three things about stored files that it does not define
itself: a message field's key takes one byte (`wire`), a manifest file ends with
a fixed magic number (`manifest`), and which column lists a data file may have
depends on its format version (`leaf`).
