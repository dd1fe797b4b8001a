//! Draws outlines as trees of boxes.
//!
//! An outline is a forest of labelled nodes ([`tree::tree_node::TreeNode`]).
//! [`parser`] reads one from text in which the number of leading `#` gives a
//! line's depth. [`tree::vertical`] lays a tree out as boxes joined by
//! connector lines and draws it on a grid of characters; where the boxes go
//! is defined in [`tree::layout`], what the drawing shows in [`tree::canvas`].
//! [`tree::horizontal`] lists a forest with one indented line per node.
//! [`cli`] holds the requests of the command line and the text that answers
//! them, and [`text`] what all of these need of characters and strings.

pub mod cli;
pub mod parser;
pub mod text;
pub mod tree;
