//! The node store: a slot arena for tree nodes, backed by `slab::Slab`.
//!
//! The arena is the one outside structure the heap engine leans on. Its
//! observable contents are named by the uninterpreted function
//! [`slab_model`], a finite map from occupied slot index to the node stored
//! there; each wrapper below states over that map what the corresponding
//! `slab` call does, as the crate's source shows it.

use vstd::prelude::*;

use crate::node::TreeNode;

verus! {

#[verifier::external_type_specification]
#[verifier::external_body]
#[verifier::reject_recursive_types(T)]
pub struct ExSlab<T>(slab::Slab<T>);

/// The contents of a node arena: which slot indices are occupied, and by
/// which node.
pub uninterp spec fn slab_model(s: slab::Slab<TreeNode>) -> Map<usize, TreeNode>;

/// Relies on `slab::Slab::new`: it constructs an empty arena, so the model
/// holds no entries.
#[verifier::external_body]
pub(crate) fn slab_new() -> (r: slab::Slab<TreeNode>)
    ensures
        slab_model(r).dom() == Set::<usize>::empty(),
{
    slab::Slab::new()
}

/// Relies on `slab::Slab::insert`: it stores the value in a vacant slot and
/// returns that slot's index, leaving every occupied slot as it was.
/// (Like `Vec::push`, it may abort if the backing storage cannot grow.)
#[verifier::external_body]
pub(crate) fn slab_insert(s: &mut slab::Slab<TreeNode>, node: TreeNode) -> (key: usize)
    ensures
        !slab_model(*old(s)).dom().contains(key),
        slab_model(*final(s)) =~= slab_model(*old(s)).insert(key, node),
{
    s.insert(node)
}

/// Relies on `slab::Slab::contains`: it reports whether the slot is occupied.
#[verifier::external_body]
pub(crate) fn slab_contains(s: &slab::Slab<TreeNode>, key: usize) -> (r: bool)
    ensures
        r == slab_model(*s).dom().contains(key),
{
    s.contains(key)
}

/// Relies on `slab::Slab::get`: for an occupied slot it returns a reference
/// to the stored value, which is handed back by copy.
#[verifier::external_body]
pub(crate) fn slab_read(s: &slab::Slab<TreeNode>, key: usize) -> (r: TreeNode)
    requires
        slab_model(*s).dom().contains(key),
    ensures
        r == slab_model(*s)[key],
{
    s.get(key).unwrap().clone()
}

/// Relies on `slab::Slab::get_mut`: for an occupied slot it returns a
/// mutable reference to the stored value, through which the slot is
/// overwritten; no other slot changes.
#[verifier::external_body]
pub(crate) fn slab_write(s: &mut slab::Slab<TreeNode>, key: usize, node: TreeNode)
    requires
        slab_model(*old(s)).dom().contains(key),
    ensures
        slab_model(*final(s)) =~= slab_model(*old(s)).insert(key, node),
{
    *s.get_mut(key).unwrap() = node;
}

/// Relies on `slab::Slab::remove`: for an occupied slot it vacates the slot
/// and returns the value that was stored there; no other slot changes.
#[verifier::external_body]
pub(crate) fn slab_remove(s: &mut slab::Slab<TreeNode>, key: usize) -> (r: TreeNode)
    requires
        slab_model(*old(s)).dom().contains(key),
    ensures
        r == slab_model(*old(s))[key],
        slab_model(*final(s)) =~= slab_model(*old(s)).remove(key),
{
    s.remove(key)
}

/// Relies on `slab::Slab::len`: it returns the number of stored values.
#[verifier::external_body]
pub(crate) fn slab_len(s: &slab::Slab<TreeNode>) -> (r: usize)
    ensures
        r == slab_model(*s).dom().len(),
{
    s.len()
}

/// Relies on `slab::Slab::iter`: it visits every occupied slot, so the first
/// item is `None` exactly when the arena is empty.
#[verifier::external_body]
pub(crate) fn slab_any_key(s: &slab::Slab<TreeNode>) -> (r: Option<usize>)
    ensures
        match r {
            Option::Some(key) => slab_model(*s).dom().contains(key),
            Option::None => slab_model(*s).dom() =~= Set::<usize>::empty(),
        },
{
    s.iter().next().map(|(k, _)| k)
}

} // verus!
