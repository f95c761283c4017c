//! Expansion of variant groups in lists of utility classes.
//!
//! A variant group such as `hover:(bg-gray-400 font-medium)` stands for
//! `hover:bg-gray-400 hover:font-medium`. [`transform`] rewrites every group
//! of a text, nested ones included, and normalizes its whitespace.

pub mod expand;
pub mod group;
pub mod group_lemmas;
pub mod laws;
pub mod offsets;
pub mod pattern;
pub mod text;
pub mod text_lemmas;

pub use expand::{shallow_transform, transform};
pub use group::{expand_group, rewrite_groups};
pub use text::normalize_whitespace;
