# drocsid

A small terminal chat system: a TCP server that relays chat lines and the
list of connected users, and a terminal client with `@` mention completion.

The library in `src/` holds the logic, verified with Verus:

- `protocol`: the length-prefixed frames, the presence payload, chat lines,
  mentions, and the user-list line of the line protocol.
- `server`: admission by address, the message history, the registry of
  clients with their outbound queues and what each was handed, the steps of
  a framed session, and the state machine of a newline-delimited session.
- `client`: the chat session state, key handling and submission, how frames
  and lines from the server become events, and the screen layout decisions.
- `cli`, `launch`, `config`: the two command-line forms and the settings.

`app/` is the executable: logging, the Tokio server loop, the client's socket
and the Ratatui screen, around the library.  It also holds the SQLite store
and a threaded loop that serves the newline-delimited protocol through the
library's line-session steps; `main` starts neither of these two.
