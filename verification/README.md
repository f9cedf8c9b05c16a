# moo3_save

Reader and editor for Master of Orion 3 save files (`.gam`), written in
Verus: every function of the library carries a contract that Verus proves.

A save is one big-endian blob: UTF-16BE strings, an 8-byte fixed-point
number (6-byte signed integer part, 2-byte 1/65536 fraction), and section
markers stored as reversed ASCII. The library walks the galaxy section
structurally, reports where species live, replaces one species with
another (planning first, then patching two bytes per region), edits single
region fields and the turn counter, and runs a self-check battery.

Populations are kept in raw 1/65536 units throughout the library; the
front ends convert them to and from floating point.

## Layout

- `src/`: the verified library.
  - `cursor`, `special`, `galaxy`: bounds-checked reading and the galaxy
    parser, each parse function specified by a spec function over the
    file's bytes.
  - `species`, `empire`, `header`, `edit`, `replace`, `verify`: the
    species table, the empire table and player ownership, the turn
    counter, field edits, species replacement, and the check battery.
  - `report`, `order`, `session`, `options`: report data (per-system and
    per-planet tallies, shared planets, species totals), the orderings they
    use, the decisions of a session, and the command options.
  - `text`, `search`, `owned`, `error`: text helpers, substring search,
    ownership filters, and errors.
- `tests/`: tests against the library, including synthetic saves.
- `app/`: the command-line tool (`scan`, `replace`, `planet`, `edit`,
  `turn`, `corpus`) and the JSON/WebAssembly bridge; file I/O, printing
  and floating-point conversions live there.
