# gmux

A terminal multiplexer for coding agents on Windows: windows of split panes, notifications that
agents raise with escape sequences, mirrors of remote tmux sessions, and an automation interface on
a named pipe.

- `src/` is the library. It is written in Verus: what its functions promise is stated in contracts and
  proved, but for the few trusted functions around outside code, and the properties that span
  functions are stated as proof functions. It reads no file, no clock and
  no socket; it takes what was read and returns what is to be done.
- `app/` is the program around it: pseudoconsoles, pipes, processes, files and the JSON form of
  messages.
- `tests/` runs the library.

The agent whose notifications come through hooks is named in a file `agent.json` beside the
executable, with four texts: `word` (what the user calls it), `alias` (a shorter word), `folder`
(where its settings lie below the home directory) and `title` (its name in notifications).

## The library

| Module | What it holds |
| --- | --- |
| `vt` | the terminal: grid, colors, escape sequences that carry events |
| `tmux` | tmux's control mode: lines, replies, layouts |
| `remote` | the mirror of a remote tmux session |
| `mux` | panes, windows, sessions, and how they are saved |
| `server` | requests, events, rendering, imports |
| `proto`, `pipe`, `console` | messages, names and environments |
| `cli`, `hooks`, `shell_integration`, `notify`, `crash`, `conpty` | what users and agents meet |

Outside code stands behind small functions marked as trusted, each with a comment that says what is
believed of it: the terminal emulator (`alacritty_terminal`), the escape sequence parser (`vte`),
JSON (`serde_json`), TOML (`toml_edit`) and a few functions of the standard library.
