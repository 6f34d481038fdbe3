//! Scoped context values: a value published in one scope of a tree of scopes is visible to
//! every scope below it, and a nearer scope shadows a farther one.

pub mod context;
pub mod laws;
pub mod scope;
