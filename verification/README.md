# bevy_vista

A UI blueprint editor core for bevy, with its logic verified by Verus.

`src/` is the verified library:

- `registry` — widget registrations by type and by `category/name` path;
  a new registry holds the built-in widgets.
- `document`, `laws` — the blueprint document, the commands that edit it
  (add, remove, move, rename, restyle, set and clear properties), and the
  proofs that every command keeps the document a well-formed forest and that
  a refused command changes nothing.
- `asset`, `asset_laws` — the asset form of a document, the checks that read
  an asset back, and the proof that writing a document out and reading it back
  gives the same document.
- `wellformed` — checks a caller can run first: whether a document is well
  formed, whether its parent links are free of cycles, and whether the climb
  up the ancestors that moving a node under another makes comes to an end.
- `ui`, `widgets`, `inputs`, `editor_state`, `props`, `editor_actions`,
  `viewport`, `toolbar` — widget values and builders, what clicks, drags,
  drops and toolbar actions do, the status lines they leave, and how the
  editor frame is laid out.
- `spawn`, `build_laws` — the walk that spawns a document's widgets, and the
  proof that it spawns every node once, each after its parent.
- `tree` — walks over a snapshot of the entity hierarchy.
- `property_plan` — how an inspector's entry list becomes foldouts and rows,
  and the proof that every field gets one row and every header one foldout.
- `kinds`, `metadata`, `text`, `messages`, `icons` — number kinds and units,
  widget metadata parsing, text helpers, error messages and icon decoding.
- `tables` — the bevy hash maps and sets the library keeps its data in, with
  the contracts their methods are trusted to meet.

`app/` holds what talks to the engine: plugins, systems, conversions between
the library's plain values and bevy's types, the RON file format, and number
values that carry floats; the systems drive the library's walks and state
machines and do the engine work (spawning, hit tests, files) they ask for.
