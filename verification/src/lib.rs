//! Oblivious (data-independent) computation primitives.
//!
//! Control flow or memory-access patterns that depend on secret data leak
//! information through side channels.  This crate provides the building
//! blocks for computing over secrets without such leaks:
//!
//! - a capability for conditionally selecting, assigning and swapping values
//!   without branching on the condition ([`cmov::CMov`]);
//! - alignment-tagged containers for values and heap buffers
//!   ([`aligned::Aligned`], [`aligned::AlignedBox`]);
//! - an oblivious optional value that keeps storage for the "absent" case
//!   ([`cmov::CndOption`]);
//! - a bitonic sorting/merging engine whose compare-and-swap schedule is a
//!   pure function of the sequence length, proved to produce a sorted
//!   permutation ([`sort`]).
//!
//! Every executable function carries a contract for its full functional
//! behaviour.  The constant-time character of an operation (that its
//! instruction path does not depend on the condition) is a property of the
//! generated machine code and is outside what the contracts state; the code
//! is nevertheless written in the branch-free style throughout.

pub mod aligned;
pub mod cmov;
pub mod example;
pub mod sort;
