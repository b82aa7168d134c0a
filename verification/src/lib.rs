use vstd::prelude::*;

pub mod text;
pub mod assoc;
pub mod registry;
pub mod file_tree;
pub mod cache;
pub mod project;
pub mod encoding;
pub mod storage;
pub mod state;
pub mod imports;
pub mod compiler;
pub mod engine;
pub mod editing;
pub mod sidebar;
pub mod records;
pub mod installer;
pub mod sync;
pub mod server;
pub mod client;
pub mod startup;

verus! {

} // verus!
