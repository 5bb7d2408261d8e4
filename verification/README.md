# dependency-injector

A dependency injection container with hierarchical scopes, whose core is
written in Verus and proved against its contracts.

## Layout

- `src/` — the verified library.
  - `container.rs`: scopes (an arena of storages with parent links), singleton,
    lazy and transient registration, resolution from the nearest scope towards
    the root, locking, clearing, removal, and the laws that relate them.
  - `storage.rs`: the per-scope registry of factories keyed by `TypeId`.
  - `pool.rs`: reuse of cleared child scopes.
  - `frozen.rs`: perfect-hash lookup tables over locked scopes (the hash
    function itself comes from the `boomphf` crate).
  - `cache.rs`: the four-slot cache of resolved services.
  - `ffi.rs`: the name registry behind the C interface, its error codes and
    the sanitised last-error slot.
  - `derive.rs`: the rules of the `Inject`, `Service` and `TypedRequire`
    derives, over a plain description of a struct's fields.
  - `error.rs`, `logging.rs`, `typed.rs`, `typeid.rs`: errors, logging
    settings, type-level registry markers, and service keys.
- `tests/` — tests of the library, run against the compiled crate.
- `app/` — the surface applications use, in ordinary Rust: the thread-safe
  `Container` handle with type erasure and the per-thread cache, the typed
  builder, services declared with their dependencies, async lazy services,
  the C entry points, logging initialisation with `tracing-subscriber`, and
  the derive expansions with `syn` and `quote`.

Verify with Verus on `src/lib.rs`; the tests run with `cargo test`.
