# isaac_unlocker

The logic of a Binding of Isaac save unlocker, verified with Verus.

- `src/text.rs`: line splitting (as `str::lines`), `i16` parsing (as
  `str::parse`), substring search and case folding.
- `src/masks.rs`: the ascending number lists that decide which entries the
  window shows: ranges, sorted intersections, `find_all` positions.
- `src/order.rs`: the stable order of files by number.
- `src/catalog.rs`: the icon catalogs built from the numbered PNG files and
  the name and description texts.
- `src/unlocker.rs`: the window's state and one method per window event,
  with the invariant that every method keeps and the laws of the model.
- `app/`: the slint window, the configuration file and the save files; it
  hands each event to the library and copies the state back.
