use vstd::prelude::*;

verus! {

/// One element of a chain: the value it holds and the arena slot of its
/// successor, if any. A node is a pure data holder; every link is an index
/// into the arena that the owning container keeps.
pub struct Node<T> {
    pub next: Option<usize>,
    pub data: T,
}

impl<T> Node<T> {
    /// Build a node holding `data`, linked to the given successor slot.
    pub fn new(next: Option<usize>, data: T) -> (n: Node<T>)
        ensures
            n.next == next,
            n.data == data,
    {
        Node { next, data }
    }
}

} // verus!
