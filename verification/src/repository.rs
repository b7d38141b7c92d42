//! Reading a node of the action repository.
//!
//! The repository is a tree of named nodes. Below the node of a seat lie the
//! actions recorded for it: a `call` child, an `allin` child, and at most one
//! further branch, the line that was solved on from there. Listing a node is
//! the caller's part; choosing the branch from the listing is done here.

use vstd::prelude::*;
use crate::text::{chars_of, same_chars};

verus! {

/// One child of a repository node, as a listing shows it.
#[derive(Debug, PartialEq, Eq)]
pub struct RepositoryEntry {
    /// The child's name.
    pub name: String,
    /// Whether the child is itself a node with children, not a leaf.
    pub is_node: bool,
}

/// Whether a child with this name and kind is the branch of its node: a node
/// that is named neither `call` nor `allin`.
pub open spec fn is_branch(name: Seq<char>, is_node: bool) -> bool {
    name != "call"@ && name != "allin"@ && is_node
}

/// Whether `entries[at]` is the first branch of the listing.
pub open spec fn is_first_branch(entries: Seq<RepositoryEntry>, at: int) -> bool {
    &&& 0 <= at < entries.len()
    &&& is_branch(entries[at].name@, entries[at].is_node)
    &&& forall|k: int| 0 <= k < at ==> !is_branch((#[trigger] entries[k]).name@, entries[k].is_node)
}

/// The action recorded at a node besides `call` and `allin`: the name of the
/// first child in `entries` that is a node and is named neither `call` nor
/// `allin`. `None` where the listing holds no such child.
///
/// A well-formed repository holds at most one such child per node. Where a
/// listing holds several, the first in the order of the listing is taken.
pub fn get_non_call_allin_action(entries: &Vec<RepositoryEntry>) -> (action: Option<String>)
    ensures
        match action {
            Some(name) => exists|at: int|
                is_first_branch(entries@, at) && name@ == (#[trigger] entries[at]).name@,
            None => forall|k: int|
                0 <= k < entries.len() ==> !is_branch(
                    (#[trigger] entries[k]).name@,
                    entries[k].is_node,
                ),
        },
{
    let mut i: usize = 0;
    while i < entries.len()
        invariant
            i <= entries.len(),
            forall|k: int|
                0 <= k < i ==> !is_branch((#[trigger] entries[k]).name@, entries[k].is_node),
        decreases entries.len() - i,
    {
        let entry = &entries[i];
        let name = chars_of(entry.name.as_str());
        if !same_chars(&name, "call") && !same_chars(&name, "allin") && entry.is_node {
            let name = entry.name.clone();
            assert(is_first_branch(entries@, i as int) && name@ == entries[i as int].name@);
            return Some(name);
        }
        i += 1;
    }
    None
}

} // verus!
