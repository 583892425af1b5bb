# grassfinder_wasm

Finds the block positions of a Minecraft world that agree with observed
block-model random offsets (grass, flowers, dripstone...). Each observation is
a block position relative to the searched position and the offset nibbles seen
there; a scan walks a box of candidate positions and reports those at which
every observation agrees with the game's offset hash.

The search core is a Verus library (`src/`), with every function proved
against its contract:

- `mix`, `seed`: the offset hash and how each game version seeds it.
- `inverse`: the exact inverse of the hash on its 28 input bits.
- `sample`, `matching`, `candidate`: observations, their ordering, and the
  strict and scored checks of one candidate.
- `ycache`: the height prefilter for the 1.7.10 hash.
- `order`, `scan`: the box walks and what they report.
- `api`, `plan`: one-shot scans and prepared scan plans.
- `properties`: laws relating the functions above.

`app/` holds the JavaScript bindings (`wasm-bindgen`, `js-sys`), which only
convert typed arrays and errors.
