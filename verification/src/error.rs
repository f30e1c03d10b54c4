//! Errors of building and compiling a graph.

use crate::graph::{NodeId, PortIdx};
use crate::text;
use vstd::prelude::*;
use vstd::string::StringExecFns;

verus! {

/// Errors raised while building or compiling an audio graph.
///
/// The only one that can come from the real-time path is [`GraphError::NotCompiled`].
#[derive(Debug, PartialEq, Eq)]
pub enum GraphError {
    /// The graph contains a cycle, so no processing order exists.
    CycleDetected {
        /// The nodes that cannot be ordered: those on a cycle or downstream of one.
        nodes: Vec<NodeId>,
    },
    /// A referenced port does not exist on the named node.
    PortNotFound {
        /// The node that was addressed.
        node: NodeId,
        /// The port index that does not exist.
        port: PortIdx,
    },
    /// The ports of a link do not lead from an output to an input.
    PortDirectionMismatch {
        /// The `(node, port)` that should have been an output.
        from: (NodeId, PortIdx),
        /// The `(node, port)` that should have been an input.
        to: (NodeId, PortIdx),
    },
    /// The ports of a link differ in channel count or sample format.
    PortIncompatible {
        /// The upstream output `(node, port)`.
        from: (NodeId, PortIdx),
        /// The downstream input `(node, port)`.
        to: (NodeId, PortIdx),
    },
    /// The graph was asked to process before it was compiled.
    NotCompiled,
    /// The graph was asked to compile a second time.
    AlreadyCompiled,
    /// A referenced node does not exist in the graph.
    NodeNotFound(NodeId),
}

impl GraphError {
    /// The text that describes the error.
    pub open spec fn message(&self) -> Seq<char> {
        match self {
            GraphError::CycleDetected { nodes } => {
                "cycle detected in graph; unresolved nodes: "@ + text::list(nodes@)
            },
            GraphError::PortNotFound { node, port } => {
                "port "@ + text::decimal(*port as nat) + " not found on node "@ + text::decimal(
                    *node as nat,
                )
            },
            GraphError::PortDirectionMismatch { from, to } => {
                "port direction mismatch: "@ + text::pair(*from) + " -> "@ + text::pair(*to)
                    + " (expected Output -> Input)"@
            },
            GraphError::PortIncompatible { from, to } => {
                "ports incompatible: "@ + text::pair(*from) + " -> "@ + text::pair(*to)
                    + " (channels or sample format differ)"@
            },
            GraphError::NotCompiled => "graph is not compiled; call Graph::compile first"@,
            GraphError::AlreadyCompiled => "graph is already compiled"@,
            GraphError::NodeNotFound(node) => {
                "node "@ + text::decimal(*node as nat) + " not found"@
            },
        }
    }

    /// Describes the error in words.
    pub fn to_string(&self) -> (r: String)
        ensures
            r@ == self.message(),
    {
        let mut out = String::new();
        match self {
            GraphError::CycleDetected { nodes } => {
                out.append("cycle detected in graph; unresolved nodes: ");
                text::push_list(&mut out, nodes);
            },
            GraphError::PortNotFound { node, port } => {
                out.append("port ");
                text::push_decimal(&mut out, *port);
                out.append(" not found on node ");
                text::push_decimal(&mut out, *node);
            },
            GraphError::PortDirectionMismatch { from, to } => {
                out.append("port direction mismatch: ");
                text::push_pair(&mut out, *from);
                out.append(" -> ");
                text::push_pair(&mut out, *to);
                out.append(" (expected Output -> Input)");
            },
            GraphError::PortIncompatible { from, to } => {
                out.append("ports incompatible: ");
                text::push_pair(&mut out, *from);
                out.append(" -> ");
                text::push_pair(&mut out, *to);
                out.append(" (channels or sample format differ)");
            },
            GraphError::NotCompiled => {
                out.append("graph is not compiled; call Graph::compile first");
            },
            GraphError::AlreadyCompiled => {
                out.append("graph is already compiled");
            },
            GraphError::NodeNotFound(node) => {
                out.append("node ");
                text::push_decimal(&mut out, *node);
                out.append(" not found");
            },
        }
        assert(out@ =~= self.message());
        out
    }
}

impl GraphError {
    /// The two errors are of one kind and carry the same values.
    pub open spec fn same_as(&self, other: &GraphError) -> bool {
        match (self, other) {
            (
                GraphError::CycleDetected { nodes: a },
                GraphError::CycleDetected { nodes: b },
            ) => a@ == b@,
            _ => *self == *other,
        }
    }
}

impl Clone for GraphError {
    fn clone(&self) -> (r: Self)
        ensures
            r.same_as(self),
    {
        match self {
            GraphError::CycleDetected { nodes } => {
                let copy: Vec<NodeId> = nodes.clone();
                assert(copy@ =~= nodes@);
                GraphError::CycleDetected { nodes: copy }
            },
            GraphError::PortNotFound { node, port } => {
                GraphError::PortNotFound { node: *node, port: *port }
            },
            GraphError::PortDirectionMismatch { from, to } => {
                GraphError::PortDirectionMismatch { from: *from, to: *to }
            },
            GraphError::PortIncompatible { from, to } => {
                GraphError::PortIncompatible { from: *from, to: *to }
            },
            GraphError::NotCompiled => GraphError::NotCompiled,
            GraphError::AlreadyCompiled => GraphError::AlreadyCompiled,
            GraphError::NodeNotFound(node) => GraphError::NodeNotFound(*node),
        }
    }
}

/// The text of an error names what the error carries, each in its place, whatever it is.
pub proof fn lemma_texts_name_what_errors_carry(e: GraphError)
    ensures
        e matches GraphError::CycleDetected { nodes } ==> e.message()
            == "cycle detected in graph; unresolved nodes: "@ + text::list(nodes@),
        e matches GraphError::PortNotFound { node, port } ==> e.message() == "port "@
            + text::decimal(port as nat) + " not found on node "@ + text::decimal(node as nat),
        e matches GraphError::PortDirectionMismatch { from, to } ==> e.message()
            == "port direction mismatch: "@ + text::pair(from) + " -> "@ + text::pair(to)
            + " (expected Output -> Input)"@,
        e matches GraphError::PortIncompatible { from, to } ==> e.message()
            == "ports incompatible: "@ + text::pair(from) + " -> "@ + text::pair(to)
            + " (channels or sample format differ)"@,
        e is NotCompiled ==> e.message() == "graph is not compiled; call Graph::compile first"@,
        e is AlreadyCompiled ==> e.message() == "graph is already compiled"@,
        e matches GraphError::NodeNotFound(node) ==> e.message() == "node "@ + text::decimal(
            node as nat,
        ) + " not found"@,
{
}

/// A copy of an error is of its kind, carries the same values and reads the same.
pub proof fn lemma_copies_of_errors_are_alike(e: GraphError, copy: GraphError)
    requires
        copy.same_as(&e),
    ensures
        copy.message() == e.message(),
        e matches GraphError::CycleDetected { nodes } ==> (
        copy matches GraphError::CycleDetected { nodes: copied } && copied@ == nodes@),
        !(e is CycleDetected) ==> copy == e,
{
}

} // verus!
