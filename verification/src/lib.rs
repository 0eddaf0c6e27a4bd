//! A fixed-capacity binary search tree stored in a 256-slot array, walked in
//! order without recursion: the path to the current node lives in a single
//! machine word, and that word's value is the node's array index.

pub mod bstack;
pub mod iter;
pub mod order;
pub mod search;
pub mod tree;

pub use bstack::{BStack, BStackError};
pub use iter::{Address, Branch, STree8Iter};
pub use tree::{STree8, TreeError};
