//! Verified core of two small Unix directory tools: one that names the
//! working directory by climbing `..` links, and one that prints the tree
//! below a directory.

pub mod mode;
pub mod sys;
pub mod text;
pub mod cstring;
pub mod cwd_args;
pub mod tree_args;
pub mod cwd;
pub mod tree;
pub mod walk;
pub mod walk_laws;
