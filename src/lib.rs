//! Readers and writers for the archive containers (SAR, NSA, NS2) and the SPB image codec
//! used by NScripter-style visual-novel runtimes.
use vstd::prelude::*;

pub mod archive;
pub mod archive_laws;
pub mod bits;
pub mod codecs;
pub mod image;
pub mod keytable;
pub mod script;
pub mod text;

pub use keytable::{create_keytable, default_keytable};
