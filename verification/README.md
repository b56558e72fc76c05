# ctrlsys

A block-diagram simulation core. Systems (blocks) are wired by links from the
output of one system to an input of another; each step, every system is updated
once, in an order computed up front from the links.

## Layout

- `src/` — the verified library.
  - `pool/link.rs`: links, output layouts, the `SystemIn`/`SystemOut` traits,
    `SystemRef` and the multiplexer `SystemMux`.
  - `pool/mod.rs`: wiring a multiplexer to a consumer (`link`, and `try_link`,
    which refuses a repeated producer or a system fed by itself and then leaves
    the links as they were), grouping the links by the system they feed, and the
    duplicate check.
  - `pool/paths.rs`: graphs as adjacency lists, walks, reachability, cycles.
  - `pool/graph.rs`: the depth-first search as a specification, Tarjan's strongly
    connected components (listed exactly as the search completes them),
    `simulation_order`, and the laws about execution orders.
  - `pool/schedule.rs`: the link graph, the graph with the stateful systems'
    outgoing links cut, which system must run before which, and the order in
    which the lowest-numbered ready system always goes next.
- `app/` — ordinary Rust around the library: the demo program, the pool that
  owns the systems and their aligned output buffers, the byte-level signal
  interface and the discrete-time holders (floating point and `unsafe`).
- `tests/` — tests of the library.

## The execution order

An algebraic loop is a cycle of links none of which leaves a stateful system.
`simulation_order` reports one when it exists; otherwise it returns the unique
order in which every link from a system that is not stateful, and every link
between systems on no common loop, runs from source to target. Where the links
leave the choice open, systems that are not stateful go first, then the lower
index.
