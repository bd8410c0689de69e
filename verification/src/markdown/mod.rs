//! Assistant markdown, rendered to width-independent styled lines and wrapped
//! to the width they are drawn at.

pub mod code;
pub mod document;
pub mod elements;
pub mod events;
pub mod fill;
pub mod fit;
pub mod laws;
pub mod styles;
pub mod table;
pub mod walk;
pub mod wrap;
