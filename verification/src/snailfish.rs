//! The nested-pair ("snailfish number") arithmetic engine.
//!
//! A snailfish number is a binary tree whose leaves carry integers.  The
//! engine parses the bracketed textual notation into such a tree, repeatedly
//! rewrites the tree under the two-rule explode/split fixpoint ("reduction"),
//! joins trees with the reducing addition operator, and scores a tree with
//! the weighted magnitude fold.
//!
//! The modules below separate the data model, the path-based navigation that
//! the rewrite rules use, the reduction engine itself, the textual
//! representation, and the line-list drivers.

pub mod model;
pub mod paths;
pub mod reduce;
pub mod text;
pub mod driver;
