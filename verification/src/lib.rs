//! Enumeration of every fixed-length token over a 64-symbol alphabet, split
//! into size-bounded chunks.

pub mod alphabet;
pub mod encoding;
pub mod partition;
pub mod exclusion;
pub mod random;
pub mod layout;
pub mod chunk;
pub mod run;
pub mod naming;
