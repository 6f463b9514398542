//! An open-addressing hash table with linear probing.
//!
//! [`HashMap`] keeps its entries in one array of slots and finds them by the
//! hash of their key. [`Contents`] is what a table holds, as a mathematical
//! map; the operations of the table are stated and their laws proved on it.
//! [`Key`] is what a type has to offer to key a table.

pub mod contents;
pub mod key;
pub mod slots;
pub mod table;

pub use crate::contents::Contents;
pub use crate::key::Key;
pub use crate::table::HashMap;
