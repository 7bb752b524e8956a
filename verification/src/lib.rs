//! Derives the job names that a CI workflow definition produces.
//!
//! A workflow declares jobs. A job may have a strategy matrix, which expands
//! into one assignment per combination of its values, and a name template,
//! whose placeholders are resolved against each assignment.

pub mod matrix;
pub mod template;
pub mod text;
pub mod workflow;

pub use matrix::{Assignment, Matrix, MatrixValue};
pub use template::{Template, TemplateError};
pub use workflow::{Job, Strategy, Workflow};
