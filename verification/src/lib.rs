pub mod fx;
pub mod node;
pub mod node_ref;
pub mod passes;
pub mod real_dom;
pub mod tree;

use vstd::prelude::*;

verus! {

/// The tag of the root element.
pub fn root_tag() -> (r: String)
    ensures
        r@ == "Root"@,
{
    String::from_str("Root")
}

/// A key that orders per-node work items deterministically: depth from the
/// root first, node identity as a stable tie-break.
pub struct HeightOrdering {
    pub height: u16,
    pub id: usize,
}

impl HeightOrdering {
    pub fn new(height: u16, id: usize) -> (r: HeightOrdering)
        ensures
            r.height == height,
            r.id == id,
    {
        HeightOrdering { height, id }
    }
}

} // verus!
