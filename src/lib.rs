//! Detection of useless productions in context-free grammars.
//!
//! `grammar` holds the data model (interned symbols and stored productions);
//! `useless` holds the productivity analysis and the laws proved about it.

pub mod grammar;
pub mod useless;
