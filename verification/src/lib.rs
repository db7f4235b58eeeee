//! Path addressing and structural editing of hierarchical data (JSON/YAML/TOML-like trees).

pub mod model;
pub mod text;
pub mod path;
pub mod value;
pub mod laws;
pub mod traverse;
pub mod diff;
pub mod common;
pub mod script;
pub mod formats;
