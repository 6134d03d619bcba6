# justgui (verified core)

justgui is a front end for [`just`](https://github.com/casey/just): every
recipe of a justfile becomes a button or a card with its parameters, runs in a
pseudo-terminal session whose output streams into a panel, and the project's
`.env` and the window's layout and theme are editable from the window.

`src/` is the part of it whose behaviour is specified and proved with Verus:

- `termout` — normalizing raw terminal output into the text log (CRLF, bare
  CR redraws, ANSI CSI/OSC stripping) and the "waiting for input" guess;
- `envfile` — reading, editing and writing a `.env` file line by line (lines not set from the panel are written back exactly as read);
- `just_client` — the recipes of a `just --dump` and the shell-quoted
  command line that runs one, with a proof of how `sh` splits it;
- `layout` — which recipes are shown, their order and accent color;
- `theme` — reading and writing `#RRGGBB[AA]` colors (what is written reads back as the same color), theme field names;
- `sessions` — the bookkeeping of concurrent recipe runs;
- `view` — what the Recipes tab and Settings panel list;
- `text` — character-level helpers shared by the above.

`app/` holds the file, process and pseudo-terminal work (`toml`, `serde_json`,
`portable-pty`) and the application state that drives the library.
`tests/` exercises the library on concrete inputs.
