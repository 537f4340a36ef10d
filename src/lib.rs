//! Collapses presentation documents that repeat a page for every reveal step
//! into handouts with one fully revealed page per logical slide.

pub mod grouping;
pub mod reduce;
pub mod document;
