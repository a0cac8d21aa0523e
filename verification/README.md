# vapor

A GNOME companion client for a local Steam library.

- `src/` is the verified library (Verus): scanning Steam's `localconfig.vdf`
  for playtime statistics (`vdf`, on top of the text and number utilities in
  `text` and `number`), deduplicating and sorting the game library
  (`library`), the folders Steam uses (`paths`), recognising a running Steam
  client (`process`), the `steam://` URIs and the store search URL (`store`),
  and the library filter (`filter`).
- `app/` is the GTK4/Libadwaita program around it: reading manifests and
  configuration files, spawning Steam, querying the store, and the user
  interface.
- `tests/` runs the library on concrete inputs.
