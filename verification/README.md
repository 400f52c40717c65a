# potato

A chat client that can be replaced while it runs: a new process asks the running one for its chat
connection over a Unix socket, takes it over, and tells the old process to quit.

`src/` is the verified library. It decides; it performs no I/O.

- `lines`, `lineio`: framing of a byte stream into lines, and the fixed buffer that does it.
- `message`: the messages between two processes and their bytes on the wire.
- `ipc`, `ipc_laws`: the connection to the other process, and what holds of whole conversations.
- `takeover`: how a new process takes over from a running one.
- `chat`: the chat connection, and the delay before it is made anew.
- `buckets`, `control`: counting recent errors, and when they are too many.
- `events`, `poll`: which event goes where, and how long to wait for the next.
- `error`, `text`: failures as plain values, and numbers as text.

`app/` holds the sockets, the event loop, the command line and the log. It also parses received
lines into messages. `tests/` runs the library on concrete values.
