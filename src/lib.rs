//! Reads gettext-style translation catalogs and generates an Elm module of
//! lookup functions, one per translation key.

pub mod elm;
pub mod keys;
pub mod laws;
pub mod po;
pub mod text;

pub use elm::to_elm;
pub use po::{Msg, Po};
