# rjson

A JSON state that knows who reads it. Values are read and written along
dotted paths (`"phones.1"`); while an effect is being set up, every node it
reads is recorded as one of its dependencies, and a later write to that node
hands the effect back to be run again.

- `src/` is the library, verified with Verus:
  - `path.rs`: splitting dotted paths, array positions;
  - `value.rs`: JSON values, their model, reading and writing along paths,
    and the laws of reading after writing;
  - `addr.rs`: stable handles for the nodes of each state;
  - `effect.rs`: effects and the record of their dependencies;
  - `reactive.rs`: states, the shared runtime, and the law that a write
    re-runs the effects that read what it wrote.
- `app/` is the program around it: the shared runtime behind a lock, the
  thread that runs effects again (debounced), and conversion from and to
  `serde_json` values.
- `tests/` exercises the library on concrete values.
