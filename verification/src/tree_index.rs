//! Index arithmetic for the implicit binary tree: a node at flat index `i`
//! (0 is the root) has its sibling and parent at fixed arithmetic offsets.

use vstd::prelude::*;

verus! {

/// Flat index of the sibling of node `i`; the root (index 0) has no sibling
/// and is mapped to itself. Left children sit at odd indices, so an odd
/// index's sibling is the next index and an even one's is the previous.
pub open spec fn sibling_spec(i: int) -> int {
    if i <= 0 {
        0
    } else if i % 2 == 1 {
        i + 1
    } else {
        i - 1
    }
}

/// Flat index of the parent of node `i`; the root is mapped to itself.
pub open spec fn parent_spec(i: int) -> int {
    if i <= 0 {
        0
    } else {
        (i - 1) / 2
    }
}

/// A node is a left child exactly when its flat index is odd.
pub open spec fn is_left_spec(i: int) -> bool {
    i % 2 == 1
}

pub fn sibling(i: usize) -> (r: usize)
    requires
        i < usize::MAX,
    ensures
        r as int == sibling_spec(i as int),
{
    if i == 0 {
        0
    } else if i % 2 == 1 {
        i + 1
    } else {
        i - 1
    }
}

pub fn parent(i: usize) -> (r: usize)
    ensures
        r as int == parent_spec(i as int),
{
    if i == 0 {
        0
    } else {
        (i - 1) / 2
    }
}

pub fn is_left(i: usize) -> (r: bool)
    ensures
        r == is_left_spec(i as int),
{
    i % 2 == 1
}

} // verus!
