# qumulus

A hierarchical store of JSON-like data, meant to be split into zones that
threads (and replicas) own. Every operation on a zone's data is a merge of a
timestamped diff into a tree of nodes; reads walk the same tree.

Layout:

- `src/` is the verified library.
  - `node.rs`: nodes, their mathematical view, the merge and the read, with
    exact contracts over spec functions (`merged`, `read_node`, `expanded`).
  - `delegate.rs`: node sizes and the decision which subtrees to split off
    into zones of their own (`partition`, `check_node`, `delegate`).
  - `node_laws.rs`: what merging keeps (well-formed trees, even delegation
    markers), idempotence of re-merging, the retained diff, newest-write-wins,
    and what a read gives back of a write.
  - `order.rs`: the key order of children (UTF-8 byte order) and sorted
    insertion and lookup.
  - `path.rs`, `listener.rs`, `command.rs`, `value.rs`, `text.rs`: paths,
    bound clients and how they follow a delegated subtree, client commands,
    leaf values and documents, number formatting.
  - `zone.rs`, `manager.rs`, `store.rs`, `cluster.rs`, `stats.rs`: the zone
    state machine, zone lookup, loading and eviction decisions, zone file
    names, peer messaging and counters.
  - `json_text.rs`: JSON text parsing and the clock, through `serde_json` and
    `time`.
- `tests/` runs the library on concrete values.
- `app/` is the server around it: threads, channels, sockets, files, the
  shell and the monitor, with serializable copies of the library's types.
