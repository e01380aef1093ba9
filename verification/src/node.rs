use vstd::prelude::*;

verus! {

/// One point mass of a scene.
///
/// `state` is the numeric state of the particle (position, velocity, the two
/// accelerations, mass and drag). The topology code never looks inside it.
#[derive(Clone, Copy, Debug, PartialEq)]
pub struct Node<S> {
    pub state: S,
    /// Nodes with the same id form one body.
    pub object_id: u32,
    /// Only boundary nodes take part in repulsion between bodies.
    pub is_boundary: bool,
}

impl<S> Node<S> {
    /// This node, promoted to the boundary.
    pub open spec fn exposed(self) -> Node<S> {
        Node { state: self.state, object_id: self.object_id, is_boundary: true }
    }
}

} // verus!
