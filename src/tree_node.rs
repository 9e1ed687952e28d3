use vstd::prelude::*;

verus! {

/// An element with its depth in a tree.
pub struct TreeNode<T> {
    pub element: T,
    pub depth: usize,
}

impl<T> TreeNode<T> {
    pub fn root(element: T) -> (r: Self)
        ensures
            r.element == element,
            r.depth == 0,
    {
        TreeNode { element, depth: 0 }
    }

    /// A node one level below this one.
    pub fn child(&self, element: T) -> (r: Self)
        requires
            self.depth < usize::MAX,
        ensures
            r.element == element,
            r.depth == self.depth + 1,
    {
        TreeNode { element, depth: self.depth + 1 }
    }
}

} // verus!
