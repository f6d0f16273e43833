# elytra_sim

An elytra flight simulator and pitch-schedule optimizer.

- `src/` is the verified library (Verus): velocity grids and the cells that
  bilinear interpolation reads (`grid`), the memo tables of the dynamic
  program over quantised flight states (`dp`, stored in an `ahash` map whose
  contract is in `ahash_map`), and the index arithmetic of pitch schedules
  (`pitches`). Floats are held only as IEEE-754 bit patterns there.
- `app/` is the program: the flight physics and every other computation on
  floats, the optimizer, and the egui window.
- `tests/` runs the library on concrete values.
