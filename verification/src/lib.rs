//! Notes and note blocks for the notepad: the store, its queries and the
//! text rules (snippets, search patterns, splitting a block) behind them.

pub mod block_source;
pub mod changes;
pub mod effects;
pub mod laws;
pub mod like;
pub mod model;
pub mod order;
pub mod requests;
pub mod store;
pub mod text;
