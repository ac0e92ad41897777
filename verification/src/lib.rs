//! Finding the dependency directories of projects, and cleaning the chosen ones.

pub mod app;
pub mod bignat;
pub mod cleanup;
pub mod docker;
pub mod keys;
pub mod numeral;
pub mod order;
pub mod project;
pub mod root;
pub mod rounding;
pub mod rules;
pub mod scan;
pub mod screen;
pub mod size;
pub mod survey;
pub mod text;
