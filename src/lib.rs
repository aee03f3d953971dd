//! Fixed-capacity containers: a sequence that holds at most `N` elements and
//! a binary max-heap stored in such a sequence, with the helpers they share.
pub mod heap;
pub mod static_vec;
pub mod utils;
