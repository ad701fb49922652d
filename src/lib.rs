use vstd::prelude::*;

pub mod avl_tree;
pub mod linked_list;
pub mod node;
pub mod side;
pub mod skip_list;

verus! {

} // verus!
