//! An ordered store of device records on a B-tree.
pub mod database;
pub mod growth;
pub mod laws;
pub mod lookup;
pub mod node;
pub mod order;
pub mod validity;
pub mod walk;
