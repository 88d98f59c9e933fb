//! Linked lists and list-like containers, one module per flavour: a
//! singly-linked stack list, a stack with a two-stack deque on top, a
//! persistent list of shared tails, a doubly-ended list and a queue.

pub mod doubly;
pub mod nosafe;
pub mod share;
pub mod singly;
pub mod stack;
