//! Reassembly of a file that was split into numbered fragments.
//!
//! A fragment path is a path containing the marker `.FRAG-`; everything
//! before the first occurrence of the marker is the base filename of the
//! reconstructed file. Fragments sort lexicographically into reconstruction
//! order. The library groups discovered paths by base filename, plans a
//! balanced merge tree over each group, and proves that executing the plan
//! concatenates the fragments' bytes in sorted order into a single file.

pub mod config;
pub mod driver;
pub mod fragname;
pub mod fsmodel;
pub mod grouping;
pub mod lexorder;
pub mod merge;
pub mod modelfs;
pub mod plan;
pub mod retry;
