# compute_image

A verified compiler from model checkpoints to compute images: directories of
packed segments with a record of every tensor in them.

- `src/` is the library. Its functions state in contracts what they return, and
  Verus proves it. `compile/` turns sources into images, `content_store/` keeps
  objects once, `compile_hw` assesses a machine and places operations on it, and
  `compile_tensix` lays a graph out in the memory of a tile processor.
- `tests/` runs the library on small models and on concrete values.
- `app/` reads and writes files, talks to devices, takes the time, turns records
  into JSON, and does the arithmetic in floating point. Its panics stand where the
  conditions of the library's functions would not hold.

Floating point numbers pass through the library as their bit patterns. The laws
that relate several functions are the public proof functions whose names begin
with `law_`.
