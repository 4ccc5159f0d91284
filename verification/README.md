# piglmbridger

A bridge that runs on your own machine between a chat client and the GLM service. Upstream cuts
its event streams anywhere: inside a character, a line or a frame. The bridge puts them together
again and passes on whole frames only.

- `src/` is the library. Every decision is made here, and verified with Verus:
  - `stream`, `utf8`, `json`: normalising a stream that arrives in pieces.
  - `repair`: the loop around it, as a step from an event to an action.
  - `proxy`, `state`: who may send a request, where it goes, what is passed on.
  - `logger`, `log_lines`, `history`, `log_view`: the log, what it looks like, and reading it back.
  - `settings`, `console`, `service`, `doctor`, `stats`: the commands of the program.
  - `text`, `decimal`, `rounding`, `format`, `clock`, `table`: what the others are built on.
  - `stream_laws`, `repair_laws`, `logger_laws`, `history_laws`: what holds over any run of
    operations.
- `app/` is the program around it: the command line, files, the network and the terminal. The
  library tells it what to write and to send.
- `tests/` runs the library on concrete values.

The library does not write to the terminal or to files. An operation of the log returns the writes
that it asks for, in order; the program does them.
