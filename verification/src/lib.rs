mod chain;
mod iter;
mod list;
mod node;

pub use iter::IntoIter;
pub use iter::iterated;
pub use iter::lemma_iter_owns_one_node_per_value;
pub use iter::lemma_iterate_yields_view;
pub use list::LastLinkedList;
pub use list::appended;
pub use list::lemma_appends_in_order;
pub use list::lemma_list_owns_one_node_per_value;
pub use list::lemma_prepends_reverse;
pub use list::prepended;
pub use node::Node;
