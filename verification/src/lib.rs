//! Token-aware splitting of paged documents.

pub mod access;
pub mod cli;
pub mod document;
pub mod guarantees;
pub mod index;
pub mod inspect;
pub mod laws;
pub mod level;
pub mod model;
pub mod outline;
pub mod pdf;
pub mod plan;
pub mod report;
pub mod subset;
pub mod text;
pub mod titles;
pub mod tokenize;
