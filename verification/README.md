# gRIP

gRIP gives Pawn scripts (AMX Mod X on HLDS) an asynchronous REST client and
a JSON value store, reached through a C interface and numeric handles.

The library under `src/` is written in Verus and verified:

- `cell_map` — the handle tables: ids start at 2 and are never reused.
- `errors` — the error kinds and their `Error: … / Caused by: …` text.
- `gc_json` — a heap of shared, mutable JSON cells; arrays and objects refer
  to cells, so a value can be reached along several paths (even from
  itself). Lookups by member name and by dotted path, deep copies with a
  recursion limit, writing a value out as a tree, and equality.
- `ffi::json` — the JSON values that scripts hold by handle, and every
  operation the host offers on them.
- `ffi::module` — request bodies, request options and headers, request
  checks, responses and the queue settings.
- `json_text` — parsing JSON text into trees, with serde_json.
- `ffi::ext`, `ffi::strlcpy` — copying text into the host's buffers.

`app/` holds the C functions themselves, the networking queue (tokio,
reqwest), JSON serialisation (serde_json), reading files and the
`grip.ini` configuration and everything that deals with floats.
