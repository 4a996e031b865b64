# agent-share

Sharing a folder between peers: the producer hands out a ticket, and whoever
holds it mounts the tree, from the producer or from a peer that holds a copy.

`src/` is the library. Every rule of the protocol stands there with a contract
that Verus proves: what goes over the wire, who may open a stream, which tree a
stand-in may serve, how a connect picks its path, and what a peer advertises.
Work that has to wait for something outside is written as a step from a state
and an event to the next state and an action.

- Wire: `codec`, `framing`, `manifest`, `delta`, `update`, `authorship`,
  `digest`, `ticket`, `lookup`, `auth`, `serving`, `roster`, `client`.
- Serving: `serve`, `seed`, `chunks`, `chunk_table`, `row_table`, `digest_map`,
  `live_state`, `listing`, `produce`, `bench`.
- Mounting: `connect`, `origin`, `signal`, `channel`, `candidates`, `vet`,
  `seeder_lane`, `known_seeders`, `probe`, `fetch`, `follow`, `sync`, `locator`,
  `swarm`.
- Ground: `error`, `text`, `decimal`, `base64`, `json`.
- The mesh: `mesh`, `mesh_slot`, `negotiate`, `peers`, `transport_mode`.

Times are whole milliseconds. What promises hold of the library as a whole is
stated by the proof functions whose names begin with `law_`.

`app/` runs those steps over iroh. What a host provides (timers, storage, data
channels, the mesh engine, password stretching) comes in through the traits in
`app/platform.rs`.

`tests/` runs the library on concrete values.
