# esp-monitor

A serial monitor and MCP server for ESP8266/ESP32 dev boards connected over USB
serial. It resets or power-cycles a board by toggling the RTS/DTR lines, streams
its console, watches the console for a pass/fail pattern, and offers the same to
an agent as MCP tools.

## Layout

- `src/` is the library, verified with [Verus](https://github.com/verus-lang/verus).
  - `lineread`: bytes to lines, across chunk boundaries
  - `stats`: `/* ... */` stat packets among the lines
  - `logbuf`: the ring buffer of log lines, capped by lines and bytes
  - `serial`: the reset and power-off sequences, and advice on failed opens
  - `reader`, `filelog`, `status`: the loop that owns the port, step by step
  - `cli`: arguments, and the `console` and `watch` loops turn by turn
  - `mcp`: what each tool accepts and replies
  - `clock`, `paths`, `pattern`: what the library takes from std and `regex`,
    with the facts it relies on
  - `error`, `text`: shared types and text functions
- `app/` is the program: argument parsing, threads, the serial port, files, and
  the MCP transport.
- `tests/` run the library with scripted ports and in-memory files.

## What is proved

Each function's contract says what it returns for every input, up to what the
machine's clock shows and to what std and `regex` make of a text or a path: those
results are named, and what the library does with each is stated. On top of that
stand public proof functions for what holds across calls, among them:

- lines come back as they were sent, however the bytes are cut into chunks
- a client that polls by sequence number misses no line unless it is told so
- a reset's report agrees with the pulses sent and the bytes read, its attempts
  keep to their limit, and it leaves the board released
- what a reset asks of the port, and what it reports, is settled by the port's
  answers
- each line goes to one place, however the bytes are cut into reads
- a closed port stays closed until it is opened again, and automatic attempts to
  open one keep the backoff
- `watch` exits by the first line that decides, however the lines are batched
