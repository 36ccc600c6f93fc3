//! Questionnaires for a practice: tests are assigned to subjects, subjects
//! answer single-choice questions, and a completed test is scored and laid out
//! as a report.
//!
//! Every relation is kept in memory behind one handle, [`db::Db`]. The
//! contracts speak of the views of the stored values: sequences of characters
//! for text, natural numbers for scores, sequences of edges for relations.

pub mod answers;
pub mod catalog;
pub mod db;
pub mod error;
pub mod ids;
pub mod order;
pub mod registry;
pub mod report;
pub mod scoring;
pub mod text;
pub mod types;
