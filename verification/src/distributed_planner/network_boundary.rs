use crate::distributed_planner::plan::{Node, NodeKind, StageRef};
use crate::protobuf::distributed_codec::NetworkKind;
use vstd::prelude::*;

verus! {

/// How data crosses the network at a node, and the stage that it comes from, if the node is such a
/// place at all.
pub open spec fn boundary_of(node: Node) -> Option<(NetworkKind, StageRef)> {
    match node.kind {
        NodeKind::NetworkShuffle(stage) => Some((NetworkKind::Shuffle, stage)),
        NodeKind::NetworkCoalesce(stage) => Some((NetworkKind::Coalesce, stage)),
        NodeKind::NetworkBroadcast(stage) => Some((NetworkKind::Broadcast, stage)),
        _ => None,
    }
}

impl Node {
    /// How data crosses the network at this node, and the stage that it comes from, if this is such
    /// a place at all.
    pub fn as_network_boundary(&self) -> (boundary: Option<(NetworkKind, StageRef)>)
        ensures
            boundary == boundary_of(*self),
    {
        match self.kind {
            NodeKind::NetworkShuffle(stage) => Some((NetworkKind::Shuffle, stage)),
            NodeKind::NetworkCoalesce(stage) => Some((NetworkKind::Coalesce, stage)),
            NodeKind::NetworkBroadcast(stage) => Some((NetworkKind::Broadcast, stage)),
            _ => None,
        }
    }

    /// Whether data crosses the network at this node.
    pub fn is_network_boundary(&self) -> (boundary: bool)
        ensures
            boundary == boundary_of(*self) is Some,
    {
        self.as_network_boundary().is_some()
    }
}

} // verus!
