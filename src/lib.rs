//! An in-memory employee directory, and the command language that drives it.
use vstd::prelude::*;

pub mod directory;
pub mod laws;
pub mod order;
pub mod pig_latin;
pub mod terminal;
pub mod words;

verus! {

} // verus!
