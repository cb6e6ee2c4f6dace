//! A binary tree whose nodes own their children and keep a non-owning link
//! back to their parent.
//!
//! A [`Node`] owns the whole subtree below it. The nodes of that subtree are
//! kept in slots and addressed by position: position 0 is the node itself,
//! and a parent link is the position of the parent. A released subtree
//! leaves empty slots behind, so a stale position is detected, never
//! followed.

pub mod laws;
pub mod node;

pub use node::{Entry, Node};
