//! The forms in which documents are handed on.

pub mod woven;
