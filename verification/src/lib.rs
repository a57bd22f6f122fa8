//! An in-memory, line-oriented model of one open text document.
//!
//! A [`Doc`] owns an ordered sequence of [`Row`]s. Edits are addressed by
//! [`Position`], search runs over the rows in either [`SearchDirection`],
//! and every row carries a syntax classification that edits mark stale and a
//! separate highlighting pass recomputes.
pub mod doc;
pub mod doctype;
pub mod highlighting;
pub mod laws;
pub mod lexer;
pub mod position;
pub mod row;
pub mod search;
pub mod text;

pub use doc::Doc;
pub use doctype::{DocType, HighlightingOptions};
pub use highlighting::Highlight;
pub use position::{Position, SearchDirection};
pub use row::Row;
