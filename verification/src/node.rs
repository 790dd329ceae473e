//! A single tree node of the heap: its element, its position in the forest
//! (parent and children, as arena slot indices), its mark flag, and the
//! generation stamp that ties it to the handle issued for it.

use vstd::prelude::*;

verus! {

/// One node of the heap's forest. `parent` and `children` are slot indices
/// into the owning heap's node arena; `handle_id` is the generation stamp
/// recorded in the handle issued when the node was created.
#[derive(Clone)]
pub struct TreeNode {
    pub parent: Option<usize>,
    pub element: u64,
    pub marked: bool,
    pub children: Vec<usize>,
    pub handle_id: usize,
}

impl TreeNode {
    /// A fresh node with no children and a clear mark.
    pub fn new(element: u64, parent: Option<usize>, handle_id: usize) -> (r: TreeNode)
        ensures
            r.element == element,
            r.parent == parent,
            r.handle_id == handle_id,
            !r.marked,
            r.children@ =~= Seq::<usize>::empty(),
    {
        TreeNode { parent, element, marked: false, children: Vec::new(), handle_id }
    }

    /// The node's degree: its number of direct children.
    pub fn degree(&self) -> (r: usize)
        ensures
            r == self.children@.len(),
    {
        self.children.len()
    }
}

} // verus!
