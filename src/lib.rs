//! Applies partial code edits, with elided unchanged regions, onto existing text.
pub mod text;
pub mod similarity;
pub mod anchor;
pub mod splice;
pub mod segment;
pub mod patch;
pub mod diff;
pub mod tree;
pub mod editor;
