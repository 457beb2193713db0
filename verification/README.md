# isyswasfa

Bookkeeping for "I say sync, we say async": a protocol by which a host and the
wasm components it runs suspend calls that cannot finish at once, and resume
them later through exported poll functions.

The library in `src/` is written in Verus. Every function in it carries a
contract that Verus proves, except the few marked `external_body`: those
make one call into wasmtime, wasmparser or futures, and their contracts,
read against those crates' sources, are trusted rather than proved.

- `protocol`: the inputs and outputs that poll functions exchange.
- `task`: the host's task entries, and the resource table that holds them.
- `host`: the host's task table: creating tasks, dropping handles, collecting
  results.
- `routing`: the host's loop that waits for a guest task, routing what one
  poll function reports to the poll function that waits for it.
- `guest`: the guest's waits, listeners and suspended calls, and what it
  reports to the host.
- `exports`: finding a component's poll functions among its exports.
- `world`: the exported calls of a guest world, made through the protocol.

`app/` holds the program around the library: the wasmtime embedding, the
futures that the host and the guest poll, and the loops that run them.
