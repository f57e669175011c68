//! Verified core of `jake`, a make-like task runner driven by `jakefile.toml`
//! (or by the `scripts` of a `package.json`).

pub mod entries;
pub mod text;
pub mod error;
pub mod toml_data;
pub mod models;
pub mod load;
pub mod json_data;
pub mod package_json;
pub mod initialize;
pub mod locate;
pub mod laws;
