//! Read-only queries over an archived chat dataset: pages of top-level
//! messages with their reply counts, the replies of one thread, and ranked
//! text search, all answered from rows held in memory.

pub mod error;
pub mod intake;
pub mod laws;
pub mod models;
pub mod order;
pub mod search;
pub mod selection;
pub mod templates;
pub mod text;
pub mod timestamp;
pub mod tummy;
