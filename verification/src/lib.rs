//! Normalisation of Datareon bus export files before they are compared.
//!
//! The library holds the rules that turn an exported JSON file into a
//! canonical text: volatile identifiers, versions and diagram coordinates are
//! replaced by fixed values, and identifiers that refer to other exported
//! objects are replaced by those objects' names.
pub mod text;
pub mod ids;
pub mod slots;
pub mod pattern;
pub mod rules;
pub mod json;
pub mod precompare;
