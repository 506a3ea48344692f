use vstd::prelude::*;

pub mod dirlist;
pub mod filter;
pub mod sessions;
pub mod text;
pub mod view;
pub mod utils;

verus! {

} // verus!
