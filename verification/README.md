# weird-core

A shared UI "world": a tree of nodes that client connections render into,
the changes that describe every update of that tree, and the JSON-RPC
protocol that clients and the server speak.

- `src/` is the library, verified with Verus. `world.rs` holds the world
  and its operations (rendering children with key matching, appending
  subtrees, removal, connections, events), with contracts over the views
  `node_map`, `parent_map`, `child_map`, `owner_map` and `connection_map`.
  `simple_world.rs` is the earlier, simpler world with positional inserts.
  `server.rs` and `client.rs` hold the decisions of the server's sessions
  and of the client; `proto.rs` the protocol messages.
- `tests/` exercises the library on concrete values.
- `app/` is the server program: sockets, the WebSocket, JSON encoding
  (serde), locking and broadcasting. It hands plain values to the library
  and performs what the library decides.
