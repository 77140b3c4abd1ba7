//! Grammar analysis: FIRST/FOLLOW sets, an LL(1) table-driven recogniser
//! and an LR(1) item-set construction, over grammars read from plain text.

pub mod text;
pub mod dict;
pub mod history;
pub mod language;
pub mod growth;
pub mod first;
pub mod follow;
pub mod ff;
pub mod pattern;
pub mod lr;
