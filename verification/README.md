# ganja_tui

The logic of a terminal front end for a coding agent, written in Verus: every
function under `src/` states what it does in a contract that Verus proves.

- `src/markdown/`: assistant markdown, from parser events to styled lines, and
  their wrapping to a width.
- `src/component/`: the status bar and the dialogs, as lines of styled text.
- `src/escrepair.rs`: puts escape sequences together again that a terminal
  split.
- `src/keybind.rs`, `src/mention.rs`, `src/history.rs`: key bindings, file
  mentions and dropped paths, the prompt history.
- `src/member.rs`: a pane teammate's inbox.
- `src/graphics.rs`, `src/notify.rs`, `src/external.rs`: inline images, terminal
  notifications, the external editor.
- `src/startup.rs`, `src/run.rs`: what a session is put together as, and the
  course of its run.

The library holds no I/O. `app/` reads the terminal, the clock, the environment
and files, and hands plain values in. What the library takes from outside crates
stands behind small trusted functions whose doc comments say what they claim.
