//! A text buffer that keeps the whitespace a user typed apart from the
//! whitespace a code formatter would like to show, with a cursor that moves
//! over both.

pub mod text;
pub mod whitespace;
pub mod content;
pub mod navigate;
pub mod edit;
pub mod reconcile;
pub mod laws;
