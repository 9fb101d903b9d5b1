//! A small formula language for aggregate statistics over in-memory columns.
//!
//! A [`Table`] maps column names to sequences of [`Value`]s. A formula such as
//! `SUM([Sales])` is split into [`DaxToken`]s and evaluated against the table:
//! the first aggregate that it calls is applied to the first column named
//! after it, and the outcome is a number or an error with its message.
//!
//! Numbers are IEEE 754 binary64 values held as their 64-bit patterns. The
//! library classifies, compares and orders them on the bits. What needs
//! rounding arithmetic or decimal text is handed in by the caller as a
//! function on bit patterns: addition and division for sums and averages, the
//! reading of a field for tables from delimited text, the writing of a number
//! for the grid of a table. The contracts say what comes out for every
//! function handed in.
pub mod aggregate;
pub mod error;
pub mod eval;
pub mod expand;
pub mod ingest;
pub mod number;
pub mod render;
pub mod table;
pub mod text;
pub mod token;
pub mod types;

pub use error::DaxError;
pub use table::Table;
pub use token::DaxToken;
pub use types::Value;
