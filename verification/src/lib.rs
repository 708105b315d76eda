//! A directory-listing library: git-status classification and upward
//! propagation, case-insensitive entry ordering, and flat / tree rendering
//! in a styled (ANSI-colored) and a plain form that differ only in styling
//! bytes.

pub mod config;
pub mod display;
pub mod git;
pub mod icons;
pub mod notes;
pub mod text;
