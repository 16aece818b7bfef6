//! 1D meshes: nodes along a line, element `e` between nodes `e` and `e + 1`.
use vstd::prelude::*;

verus! {

/// 1D mesh with sequentially numbered nodes; `X` is the node position type.
#[derive(Clone, Debug)]
pub struct Mesh1D<X> {
    pub nodes: Vec<X>,
}

impl<X> Mesh1D<X> {
    pub fn num_nodes(&self) -> (n: usize)
        ensures
            n == self.nodes@.len(),
    {
        self.nodes.len()
    }

    /// One element between each pair of neighbouring nodes.
    pub fn num_elements(&self) -> (n: usize)
        requires
            self.nodes@.len() >= 1,
        ensures
            n == self.nodes@.len() - 1,
    {
        self.nodes.len() - 1
    }

    /// The two end nodes of element `e`.
    pub fn element_nodes(&self, e: usize) -> (r: (usize, usize))
        requires
            e < usize::MAX,
        ensures
            r == (e, (e + 1) as usize),
    {
        (e, e + 1)
    }
}

} // verus!
