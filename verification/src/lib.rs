//! Stripping of combining diacritical marks from text, together with the
//! machinery that builds the replacement table: a static perfect hash map
//! over characters and the decomposition engine that fills it.

pub mod is_diacritic;
pub mod phf;
pub mod strip;
pub mod decompose;
pub mod mapping;
pub mod category;
pub mod unicode_data;

pub use strip::{CharDiacriticExt, StrDiacriticExt, Stripped};
