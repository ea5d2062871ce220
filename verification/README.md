# ecs_core

An archetype-based entity-component system with a verified core.

- `src/` — the library, written in Verus: entities with generational handles,
  component schemas and their byte layouts, archetype storage in chunks,
  queries, resources, events, deferred commands, the stage schedule, a
  deterministic random generator, and the `"name:type,..."` field-list notation.
  Every function carries a contract proved by Verus, except the wrappers in
  `src/maps.rs`: their contracts state what `hashbrown::HashMap`'s
  `new`/`insert`/`get`/`get_mut`/`contains_key`/`remove`/`len` do, and are
  trusted, not proved. Properties that relate several operations are the proof
  functions in `src/properties.rs` and the `lemma_*` proof functions beside
  the types they concern.
- `app/` — ordinary Rust around it: the JavaScript API (`JsWorld`, bound with
  `wasm-bindgen` on the `wasm32` target), floating-point helpers (spatial grid,
  steering, damage, random floats), closure-backed systems, and the error
  type's messages.
- `tests/` — behaviour tests of the library.

`f32`/`f64` component values are carried by the library as their bit patterns
(`ComponentValue::F32(u32)`); `app/` converts with `f32::from_bits` / `to_bits`.
