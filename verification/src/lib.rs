//! Loose-object and ref handling for a small git-compatible store.

pub mod object;
pub mod text;
pub mod hexcode;
pub mod decimal;
pub mod order;
pub mod tree;
pub mod loose;
pub mod reference;
pub mod symbolic_ref;
pub mod paths;
pub mod ls_tree;
