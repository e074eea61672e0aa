# rust_seitai

A small ecosystem simulation. Tufts of grass wither with time, stay on a
640×480 field, now and then spread a new tuft nearby, and die when their hit
points run out. A world keeps the living creatures in a list ordered by id
and applies additions and removals in batches.

- `src/` is the library, proved with Verus: the `Living` trait, `Grass`,
  the `World` with its queues, and the `Game` with its clock.
- `app/main.rs` is the GTK program around it: the window, the frame timer,
  the picture files (`main.glade`, `grass.png`, read at run time) and
  painting with cairo.
- `tests/` runs the library on concrete worlds.
