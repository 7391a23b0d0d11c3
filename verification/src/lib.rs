//! A verified memory allocator with two paths.
//!
//! Small requests are served from pages of equal slots, large ones best-fit from a heap whose
//! free blocks are indexed by a red-black tree. [`orisnik::Orisnik`] is the whole; the proofs
//! of what it promises are the `law_` functions of [`orisnik_laws`] and [`orisnik_calls`], and
//! those of the surfaces stand with them.
//!
//! The library decides and its caller acts: no memory is read or written here. See
//! [`os::Os`] for how mappings come in and go out.

pub mod align;
pub mod allocator_trait;
pub mod block;
pub mod bucket;
pub mod bucket_model;
pub mod capi;
pub mod global_alloc;
pub mod heap;
pub mod list;
pub mod orisnik;
pub mod orisnik_account;
pub mod orisnik_calls;
pub mod orisnik_laws;
pub mod orisnik_model;
pub mod orisnik_retry;
pub mod os;
pub mod page;
pub mod rbcolour;
pub mod rbshape;
pub mod rbtree;
pub mod table;
pub mod tag;
pub mod tree;
pub mod tree_laws;
pub mod tree_model;
pub mod tree_purge;
pub mod tree_steps;

pub use crate::capi::{
    oris_alloc, oris_alloc_aligned, oris_allocated, oris_calloc, oris_free, oris_free_with_size,
    oris_free_with_size_aligned, oris_new, oris_purge, oris_realloc, oris_realloc_aligned,
    oris_resize, oris_size,
};
pub use crate::orisnik::Orisnik;
