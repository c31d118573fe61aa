//! A verified text-search core: walk a snapshot of a directory tree, pick
//! files by extension, and report the files whose decoded contents match a
//! regular expression.

pub mod appl;
pub mod finder;
pub mod nav;
pub mod paths;
pub mod strings;
pub mod tree;
