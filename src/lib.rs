//! Cross-checks the citations of a LaTeX document against a bibliography.

pub mod bib;
pub mod cli;
pub mod escape;
pub mod full;
pub mod gather;
pub mod graph;
pub mod hollow;
pub mod keys;
pub mod latex;
pub mod links;
pub mod paths;
pub mod queries;
pub mod sanitize;
pub mod sources;
pub mod text;
