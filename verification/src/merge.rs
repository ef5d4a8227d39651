//! The merge capability: the single extension point of the library. A `Merge`
//! implementation supplies the binary combining operation over node values,
//! the neutral value used for empty trees, a total order on values (proofs
//! sort requested leaves by value), and independent copies of values.

use vstd::prelude::*;

verus! {

/// The capability a tree is built with: combining two node values into one,
/// a neutral value, a total order, and copying. `combine(a, b)` is not
/// assumed commutative: operand order matters at every merge site.
pub trait Merge {
    type Item;

    /// What `merge` computes, as a mathematical function.
    spec fn spec_merge(left: Self::Item, right: Self::Item) -> Self::Item;

    /// The neutral value: the root of an empty tree and the placeholder for
    /// internal nodes before they are computed.
    spec fn spec_default() -> Self::Item;

    /// The total order on node values, as used to sort proof indices.
    spec fn spec_le(a: Self::Item, b: Self::Item) -> bool;

    /// `spec_le` is a total order: reflexive, antisymmetric, transitive and
    /// strongly connected.
    proof fn le_laws(a: Self::Item, b: Self::Item, c: Self::Item)
        ensures
            Self::spec_le(a, a),
            Self::spec_le(a, b) && Self::spec_le(b, a) ==> a == b,
            Self::spec_le(a, b) && Self::spec_le(b, c) ==> Self::spec_le(a, c),
            Self::spec_le(a, b) || Self::spec_le(b, a),
    ;

    fn merge(left: &Self::Item, right: &Self::Item) -> (r: Self::Item)
        ensures
            r == Self::spec_merge(*left, *right),
    ;

    fn default_value() -> (r: Self::Item)
        ensures
            r == Self::spec_default(),
    ;

    fn le(a: &Self::Item, b: &Self::Item) -> (r: bool)
        ensures
            r == Self::spec_le(*a, *b),
    ;

    /// An independent copy of a node value.
    fn copy_item(x: &Self::Item) -> (r: Self::Item)
        ensures
            r == *x,
    ;
}

/// An arithmetic merge over `i32`: `combine(left, right) = right - left`,
/// wrapping around on overflow. Deterministically collision-prone, so it is
/// only good for exercising the tree and proof algorithms.
pub struct MergeI32 {}

impl Merge for MergeI32 {
    type Item = i32;

    open spec fn spec_merge(left: i32, right: i32) -> i32 {
        right.wrapping_sub(left)
    }

    open spec fn spec_default() -> i32 {
        0
    }

    open spec fn spec_le(a: i32, b: i32) -> bool {
        a <= b
    }

    proof fn le_laws(a: i32, b: i32, c: i32) {
    }

    fn merge(left: &i32, right: &i32) -> i32 {
        right.wrapping_sub(*left)
    }

    fn default_value() -> i32 {
        0
    }

    fn le(a: &i32, b: &i32) -> bool {
        *a <= *b
    }

    fn copy_item(x: &i32) -> i32 {
        *x
    }
}

} // verus!
