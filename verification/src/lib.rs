//! Splits a cell-mode script into a tree of runnable fragments and joins such a
//! tree back into one script.
//!
//! All files live in an in-memory [`store::Store`]; nothing here touches the
//! disk. Lines are opaque records: the library never looks for line
//! terminators inside them.

pub mod text;
pub mod error;
pub mod store;
pub mod actor;
pub mod naming;
pub mod layout;
pub mod expand;
pub mod collapse;
pub mod laws;
pub mod roundtrip;
pub mod sweep;
pub mod runs;

pub use crate::collapse::collapse;
pub use crate::expand::expand;
