//! A singly linked list whose nodes live in an index arena, with append,
//! indexed lookup and a stable merge of two sorted lists that rewires the
//! existing nodes instead of copying values.

pub mod list;

pub use list::{LinkedList, Node};
