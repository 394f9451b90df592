//! Scanning C/C++ sources for their include dependencies, and the small
//! computations behind the Nix Wasm plugins.
pub mod text;
pub mod preprocessor;
pub mod includes;
pub mod strset;
pub mod paths;
pub mod deps;
pub mod graph;
pub mod units;
pub mod cc;
pub mod reach;
pub mod plugins;
pub mod ini_doc;
pub mod yaml_doc;
pub mod host;
