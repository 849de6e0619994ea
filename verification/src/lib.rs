//! Resolver for a compact chat-message markup: a read-only directory of
//! entities keyed by identifier, a formatter that rewrites entity escapes
//! and bracketed references into human-readable text, and a field inflator
//! that swaps an identifier field for the full entity record.
pub mod directory;
pub mod formatter;
pub mod inflate;
pub mod value;

pub use directory::{Directory, Snapshot};
pub use formatter::format_message;
pub use inflate::inflate_field;
pub use value::Value;
