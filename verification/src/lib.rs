//! A width-optimized prefix tree (radix trie).
//!
//! Values are decomposed into ordered sequences of atomic parts; the trie
//! stores those sequences, sharing common prefixes, and answers membership
//! queries. Runs of single-child nodes are collapsed into one compressed
//! node holding the whole run.

use vstd::prelude::*;

mod implementations;
mod model;
mod radix_tree;

pub use implementations::be_bytes;

pub use model::common_len;
pub use model::empty_kids;
pub use model::has_strict_extension;
pub use model::lemma_common_len;
pub use model::lemma_common_len_is;
pub use model::lemma_empty_tree_mem;
pub use model::lemma_ins_wf;
pub use model::lemma_insert_idempotent;
pub use model::lemma_insert_into_empty;
pub use model::lemma_insert_preserves;
pub use model::lemma_insert_then_contains;
pub use model::lemma_insert_under_extension;
pub use model::lemma_mem_exists;
pub use model::lemma_prefix_sharing;
pub use model::lemma_run_wf;
pub use model::lemma_spo_extend;
pub use model::strict_prefix_of;
pub use model::tree_ins;
pub use model::tree_mem;
pub use model::tree_wf;
pub use model::valid_slots;
pub use model::wrap;
pub use model::SlotTree;
pub use radix_tree::slot_fn_of;
pub use radix_tree::slot_of;
pub use radix_tree::slots_of;
pub use radix_tree::index_fn_wf;
pub use radix_tree::Trie;

verus! {

/// Splits a value into the ordered sequence of its component parts.
///
/// A type must provide this decomposition in order to be placed into a
/// trie. The executable decomposition must produce exactly the parts the
/// spec-level `parts` names, so that two equal values are the same key.
pub trait Decomposable<TParts>: Sized {
    /// The part sequence this value decomposes into.
    spec fn parts(self) -> Seq<TParts>;

    /// Produce the parts, in order.
    fn decompose(self) -> (r: Vec<TParts>)
        ensures
            r@ == self.parts(),
    ;
}

} // verus!
