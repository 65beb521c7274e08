//! The BLAKE2b hash function and its keyed (MAC) mode, with its behaviour
//! stated as contracts over a mathematical model and proved.

pub mod blake2b;
pub mod cryptoutil;
pub mod digest;
pub mod laws;
pub mod mac;
pub mod meaning;
pub mod model;
pub mod util;
