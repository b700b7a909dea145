//! Working memory that survives a context boundary.

pub mod cli;
pub mod clock;
pub mod delivery;
pub mod detach;
pub mod disk;
pub mod extract;
pub mod extract_laws;
pub mod fault;
pub mod host;
pub mod journal;
pub mod journal_laws;
pub mod json;
pub mod lines;
pub mod look;
pub mod numeral;
pub mod order;
pub mod peek;
pub mod peek_laws;
pub mod prompt;
pub mod recall;
pub mod recall_laws;
pub mod store;
pub mod store_laws;
pub mod synthesize;
pub mod synthesize_laws;
pub mod text;
pub mod text_laws;
