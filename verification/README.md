# micro_service_sim

Simulations of distributed graph algorithms (flooding, breadth-first search,
termination detection by acknowledgements) and the decision logic of a small
UDP file server and its client, verified with Verus.

- `src/message.rs`: the round-based and event-based messages and the order in
  which a node handles them.
- `src/node.rs`: a node and one step of the protocol (`NodeModel::step`).
- `src/graph.rs`: random and explicit graphs, rounds, single deliveries, and
  checks (`is_connected`, `is_bfs_tree`); `from_draws` builds the random graph
  from given coin flips and picks, which `new` draws.
- `src/sims.rs`: round-based runs and the stepper of event-based runs.
- `src/bfs.rs`: the invariant of a round-based search and the proof that a
  breadth-first search from node 0 yields a breadth-first tree, whose levels
  are the distances from the root.
- `src/completion.rs`: a round-based search of a connected graph visits every
  node, in one round more than the largest distance from the root (also stated
  round by round in `src/bfs.rs`, `lemma_rounds_law`); an
  event-based search runs out of messages only once every node is visited.
- `src/echo.rs`: flooding with acknowledgements; once the root has heard back
  from all its neighbours, every node reachable from it has been visited.
- `src/echo_progress.rs`: the root does hear back, within two rounds per edge
  end and one per node.
- `src/teemp_reach.rs`: event-based flooding in the simpler network visits
  exactly the nodes reachable from the start, each but the start with a parent
  that lists it.
- `src/teemp_rounds.rs`: the same for round-based flooding, within as many
  rounds as there are nodes.
- `src/teemp.rs`: a simpler flooding network with its own round-based and
  event-based simulators; `from_links` builds the random network from given
  link draws, which `new` draws.
- `src/rpc.rs`, `src/server.rs`, `src/client.rs`: request and response types,
  the server's decisions (mode strings, checks, replay of repeated requests),
  and the client's decisions (retries, answer mapping, chunked reads and writes).
- `src/random.rs`: the calls into `rand`.

`app/` holds what needs the operating system: the program that runs the
simulations (with Poisson-distributed delays from `rand_distr`), the UDP
server with its file operations, the client with its socket, and the bincode
encoding of the messages.
