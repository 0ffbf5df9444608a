# matrix_channel

A channel between an agent and Matrix rooms, with end-to-end encryption: it polls `/sync` for
messages, hands those of permitted senders to the agent, and sends the agent's messages to rooms.

The library does no input or output. Each operation is a flow: a value that says how far the
operation has come. A step of a flow asks the host for one thing and is resumed with the answer, or
is done. What each step asks and gives is stated in its contract and proved with Verus. What holds of
an operation as a whole, or of several, is stated over runs of its flow: the questions and answers
from its first step to its end.

- `src/` is the verified library.
  - `channel` starts the channel, polls, and takes the agent's messages.
  - `sync`, `incoming` and `delivery` are the way of a message in and out.
  - `device`, `decryption` and `encryption` are the encryption by device and by room.
  - `crypto_store`, `session_cache` and `config` are what is kept.
  - `client`, `types` and `host` are the requests, their bodies, and the host's side.
  - `json` writes and reads JSON; `json_tree` says what a JSON text means.
  - `olm`, `megolm` and `codec` are the calls into vodozemac, base64 and the standard library.
  - `chunking` and `text` work on plain text.
- `tests/` runs the library, against a host in memory where it needs one.
- `app/` is the component around the library: it asks the host, reads JSON, and holds the workspace
  in a libSQL database.
