# neoutl

The editing core of the NeoUtl video editor as a verified Verus library,
with a small command-line program around it.

- `src/` — the library, verified by Verus. Its functions state what they
  do in `requires`/`ensures` contracts; public `law_*` proof functions state properties
  that span several operations.
  - `history` undo/redo stacks; `keyframes` keyframe tracks and time remap;
    `presets` effect presets; `expression` the expression tokenizer,
    shunting-yard conversion, engine and property bindings; `timeline`
    ranges, snapping, rippling, pasting, splitting, parent links and how
    an object is composed through its group chain;
    `media_cache` frame-pool sizing and slot allocation; `registry` the
    plugin catalog and scan decisions; `project` directory names and
    project formats; `calendar` Gregorian dates; `literals` and `i18n` the
    message catalog; `artifacts` build file names and crate manifests;
    `modes`, `abi` small enumerations and plugin-boundary types; `strmap`,
    `sorting`, `text` supporting structures.
- `tests/` — tests run against the compiled library.
- `app/` — the program: file system, processes, the C function table of
  the expression engine, and floating-point evaluation.
