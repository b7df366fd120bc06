# sysprogs

Verified logic of a collection of small systems programs, written in Verus.

- `src/` is the verified library:
  - `barrel_game`: a barrel-jumping game for a bare-metal OS (field layout, player, barrels,
    timers, collisions, keys);
  - `kernel`: the menu of a game kernel (cursor, game selection, redraw decisions);
  - `keys`: the keys the games react to;
  - `text`: characters, splitting, fields, lines and numbers, with their specifications;
  - `webget`, `webserver`, `vssh`: the parsing and decisions of a web client, a web
    server and a small shell;
  - `commands`: counting, heading, sorting and searching lines for the file tools.
- `app/` runs the programs: `sysprogs PROGRAM ARGS...` with `PROGRAM` one of `counter`,
  `destroy`, `dir`, `duplicate`, `findtext`, `newname`, `order`, `start`, `webget`,
  `webserver`, `vssh`. It does the I/O and hands plain values to the library.
- `tests/` exercises the library on concrete inputs.
