# audio-graph-bsd

A directed graph of audio nodes for real-time processing, verified with Verus.

Nodes are wired output port to input port. Compiling a graph orders the nodes, rejects cycles and
allocates a frame for every port; after that, a processing cycle only copies between frames of fixed
size and calls the nodes, in dependency order.

## Layout

| Path | What it holds |
|------|---------------|
| `src/graph.rs` | `Graph`: building, linking, compiling, processing, flushing, snapshots |
| `src/cycle.rs` | What one processing cycle does, and what follows from the dependency order |
| `src/topology.rs` | The topological sort |
| `src/node.rs`, `src/port.rs`, `src/frame.rs` | Nodes, ports and frames |
| `src/flush.rs`, `src/ring.rs` | Sinks, and the bridges to worker threads over rings |
| `src/topology_pub.rs`, `src/events.rs` | Snapshots, their edits, and the events that subscribers get |
| `src/distributed.rs` | Partition hints and partitions |
| `src/hot_reload.rs`, `src/keyed.rs` | `RtHandle`, which replaces a running graph |
| `src/laws.rs` | What holds of a graph as a whole |
| `src/error.rs`, `src/text.rs` | Errors and their texts |
| `app/` | Adapters for `audio_core_bsd` nodes, serialisable copies of the data types, error types |

## How it is specified

Every type with contents has a view, and contracts speak of views. A node is modelled by its ports,
its state and two rules, one for processing and one for flushing; the contract of a cycle says which
states of all nodes and frames it may lead to, given the rules of the nodes. A sample is held as the
bit pattern of its 32-bit float: the engine moves samples and silences them, and never computes with
them.

## What is trusted

Besides Verus and its library, the contracts of a few functions of other crates are believed without
proof. Each stands in a small function with a doc comment that says what is claimed:

- `std::sync::mpsc::channel` and `Sender::send`, in `src/events.rs`;
- `rtrb::RingBuffer::new`, `rtrb::Producer::push` and `rtrb::Consumer::pop`, in `src/ring.rs`;
- `arc_swap::ArcSwap::new`, `swap` and `load_full`, in `src/hot_reload.rs`;
- `std::sync::Mutex::new` and `lock`, and borrowing from and dropping a `MutexGuard`, in
  `src/keyed.rs`.

A node that is written in ordinary Rust is expected to keep the contract of `AudioNode`: its ports
never change, and it leaves the number of its output frames as it is.
