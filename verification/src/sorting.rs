//! A verified insertion sort, generic over the element type and the order,
//! and the facts about the library's order relations that the proof engine
//! needs: each relation is a total order, and a sorted arrangement of a
//! multiset under a total order is unique.

use vstd::prelude::*;
use vstd::relations::{sorted_by, total_ordering};
use vstd::seq_lib::{to_multiset_insert, to_multiset_remove};

use crate::merge::Merge;
use crate::model::{desc_int_order, index_value_order, le_of, pair_desc_order, usize_desc_order, usize_value_order};

verus! {

/// Sorts `v` by the order `rel`, which `leq` decides. `dom` delimits the
/// element values on which `leq` may be called.
pub fn insertion_sort<El, F: Fn(&El, &El) -> bool>(
    v: Vec<El>,
    leq: F,
    Ghost(dom): Ghost<spec_fn(El) -> bool>,
    Ghost(rel): Ghost<spec_fn(El, El) -> bool>,
) -> (r: Vec<El>)
    requires
        total_ordering(rel),
        forall|k: int| 0 <= k < v@.len() ==> #[trigger] dom(v@[k]),
        forall|a: &El, b: &El| dom(*a) && dom(*b) ==> #[trigger] call_requires(leq, (a, b)),
        forall|a: &El, b: &El, o: bool| #[trigger] call_ensures(leq, (a, b), o) ==> o == rel(
            *a,
            *b,
        ),
    ensures
        r@.to_multiset() == v@.to_multiset(),
        sorted_by(r@, rel),
        r@.len() == v@.len(),
        forall|k: int| 0 <= k < r@.len() ==> #[trigger] dom(r@[k]),
{
    let ghost orig = v@;
    let mut r = v;
    let mut i: usize = 0;
    while i < r.len()
        invariant
            i <= r@.len(),
            r@.len() == orig.len(),
            r@.to_multiset() == orig.to_multiset(),
            forall|k: int| 0 <= k < r@.len() ==> #[trigger] dom(r@[k]),
            sorted_by(r@.subrange(0, i as int), rel),
            total_ordering(rel),
            forall|a: &El, b: &El| dom(*a) && dom(*b) ==> #[trigger] call_requires(leq, (a, b)),
            forall|a: &El, b: &El, o: bool| #[trigger] call_ensures(leq, (a, b), o) ==> o == rel(
                *a,
                *b,
            ),
        decreases r@.len() - i,
    {
        let ghost before = r@;
        let x = r.remove(i);
        let ghost mid = r@;
        proof {
            to_multiset_remove(before, i as int);
            assert(mid.subrange(0, i as int) =~= before.subrange(0, i as int));
        }
        let mut pos: usize = 0;
        while pos < i && leq(&r[pos], &x)
            invariant
                pos <= i,
                i < before.len(),
                r@ == mid,
                mid.len() == before.len() - 1,
                forall|k: int| 0 <= k < mid.len() ==> #[trigger] dom(mid[k]),
                dom(x),
                forall|a: int| 0 <= a < pos ==> #[trigger] rel(mid[a], x),
                forall|a: &El, b: &El| dom(*a) && dom(*b) ==> #[trigger] call_requires(
                    leq,
                    (a, b),
                ),
                forall|a: &El, b: &El, o: bool| #[trigger] call_ensures(leq, (a, b), o) ==> o
                    == rel(*a, *b),
            decreases i - pos,
        {
            pos += 1;
        }
        proof {
            if pos < i {
                assert(!rel(mid[pos as int], x));
            }
        }
        r.insert(pos, x);
        proof {
            broadcast use vstd::seq_lib::group_to_multiset_ensures;
            broadcast use vstd::multiset::group_multiset_axioms;

            to_multiset_insert(mid, pos as int, x);
            assert(before.contains(x));
            assert(before.to_multiset().count(x) > 0);
            assert(mid.to_multiset().insert(x) =~= before.to_multiset());
            assert(r@.to_multiset() == orig.to_multiset());
            let now = r@;
            assert(now.len() == before.len());
            assert forall|a: int, b: int| 0 <= a < b < i + 1 implies #[trigger] rel(
                now[a],
                now[b],
            ) by {
                let p = pos as int;
                if b < p {
                    assert(rel(mid[a], mid[b]));
                } else if b == p {
                    assert(rel(mid[a], x));
                } else if a < p {
                    if p == i {
                        assert(rel(mid[a], x));
                        assert(rel(x, now[b]) ==> rel(now[a], now[b]));
                        assert(b == p + 1 ==> now[b] == x);
                    } else {
                        assert(!rel(mid[p], x));
                        assert(rel(x, mid[p]));
                        assert(b - 1 < i);
                        assert(now[b] == mid[b - 1]);
                        if a < b - 1 {
                            assert(rel(mid[a], mid[b - 1]));
                        } else {
                            assert(rel(mid[a], x));
                            assert(rel(x, mid[p]));
                            assert(p <= b - 1);
                            if p < b - 1 {
                                assert(rel(mid[p], mid[b - 1]));
                            }
                        }
                    }
                } else if a == p {
                    assert(now[a] == x);
                    assert(!rel(mid[p], x));
                    assert(rel(x, mid[p]));
                    assert(now[b] == mid[b - 1]);
                    if p < b - 1 {
                        assert(rel(mid[p], mid[b - 1]));
                    }
                } else {
                    assert(now[a] == mid[a - 1]);
                    assert(now[b] == mid[b - 1]);
                    assert(rel(mid[a - 1], mid[b - 1]));
                }
            }
            assert(sorted_by(r@.subrange(0, i + 1), rel)) by {
                assert forall|a: int, b: int| 0 <= a < b < i + 1 implies #[trigger] rel(
                    r@.subrange(0, i + 1)[a],
                    r@.subrange(0, i + 1)[b],
                ) by {
                    assert(rel(r@[a], r@[b]));
                }
            }
        }
        i += 1;
    }
    proof {
        assert(r@.subrange(0, i as int) =~= r@);
    }
    r
}

pub proof fn lemma_desc_int_total()
    ensures
        total_ordering(desc_int_order()),
{
    let r = desc_int_order();
    assert forall|x: int| #[trigger] r(x, x) by {}
    assert forall|x: int, y: int| #[trigger] r(x, y) && #[trigger] r(y, x) implies x == y by {}
    assert forall|x: int, y: int, z: int| #[trigger] r(x, y) && #[trigger] r(y, z) implies r(
        x,
        z,
    ) by {}
    assert forall|x: int, y: int| #[trigger] r(x, y) || #[trigger] r(y, x) by {}
}

pub proof fn lemma_usize_desc_total()
    ensures
        total_ordering(usize_desc_order()),
{
    let r = usize_desc_order();
    assert forall|x: usize| #[trigger] r(x, x) by {}
    assert forall|x: usize, y: usize| #[trigger] r(x, y) && #[trigger] r(y, x) implies x == y by {}
    assert forall|x: usize, y: usize, z: usize|
        #[trigger] r(x, y) && #[trigger] r(y, z) implies r(x, z) by {}
    assert forall|x: usize, y: usize| #[trigger] r(x, y) || #[trigger] r(y, x) by {}
}

pub proof fn lemma_usize_value_order_total<M: Merge>(nodes: Seq<M::Item>)
    ensures
        total_ordering(usize_value_order::<M>(nodes)),
{
    lemma_index_value_order_total::<M>(nodes);
    let iv = index_value_order::<M>(nodes);
    let r = usize_value_order::<M>(nodes);
    assert forall|x: usize| #[trigger] r(x, x) by {
        assert(iv(x as int, x as int));
    }
    assert forall|x: usize, y: usize| #[trigger] r(x, y) && #[trigger] r(y, x) implies x == y by {
        assert(iv(x as int, y as int) && iv(y as int, x as int) ==> x as int == y as int);
    }
    assert forall|x: usize, y: usize, z: usize|
        #[trigger] r(x, y) && #[trigger] r(y, z) implies r(x, z) by {
        assert(iv(x as int, y as int) && iv(y as int, z as int) ==> iv(x as int, z as int));
    }
    assert forall|x: usize, y: usize| #[trigger] r(x, y) || #[trigger] r(y, x) by {
        assert(iv(x as int, y as int) || iv(y as int, x as int));
    }
}

pub proof fn lemma_le_of_total<M: Merge>()
    ensures
        total_ordering(le_of::<M>()),
{
    let r = le_of::<M>();
    assert forall|x: M::Item| #[trigger] r(x, x) by {
        M::le_laws(x, x, x);
    }
    assert forall|x: M::Item, y: M::Item| #[trigger] r(x, y) && #[trigger] r(y, x) implies x
        == y by {
        M::le_laws(x, y, x);
    }
    assert forall|x: M::Item, y: M::Item, z: M::Item|
        #[trigger] r(x, y) && #[trigger] r(y, z) implies r(x, z) by {
        M::le_laws(x, y, z);
    }
    assert forall|x: M::Item, y: M::Item| #[trigger] r(x, y) || #[trigger] r(y, x) by {
        M::le_laws(x, y, x);
    }
}

pub proof fn lemma_index_value_order_total<M: Merge>(nodes: Seq<M::Item>)
    ensures
        total_ordering(index_value_order::<M>(nodes)),
{
    let r = index_value_order::<M>(nodes);
    assert forall|x: int| #[trigger] r(x, x) by {
        M::le_laws(nodes[x], nodes[x], nodes[x]);
    }
    assert forall|x: int, y: int| #[trigger] r(x, y) && #[trigger] r(y, x) implies x == y by {
        M::le_laws(nodes[x], nodes[y], nodes[x]);
    }
    assert forall|x: int, y: int, z: int|
        #[trigger] r(x, y) && #[trigger] r(y, z) implies r(x, z) by {
        M::le_laws(nodes[x], nodes[y], nodes[z]);
        M::le_laws(nodes[z], nodes[x], nodes[y]);
        M::le_laws(nodes[y], nodes[z], nodes[x]);
    }
    assert forall|x: int, y: int| #[trigger] r(x, y) || #[trigger] r(y, x) by {
        M::le_laws(nodes[x], nodes[y], nodes[x]);
    }
}

pub proof fn lemma_pair_desc_total<M: Merge>()
    ensures
        total_ordering(pair_desc_order::<M>()),
{
    let r = pair_desc_order::<M>();
    assert forall|x: (u32, M::Item)| #[trigger] r(x, x) by {
        M::le_laws(x.1, x.1, x.1);
    }
    assert forall|x: (u32, M::Item), y: (u32, M::Item)|
        #[trigger] r(x, y) && #[trigger] r(y, x) implies x == y by {
        M::le_laws(x.1, y.1, x.1);
    }
    assert forall|x: (u32, M::Item), y: (u32, M::Item), z: (u32, M::Item)|
        #[trigger] r(x, y) && #[trigger] r(y, z) implies r(x, z) by {
        M::le_laws(z.1, y.1, x.1);
    }
    assert forall|x: (u32, M::Item), y: (u32, M::Item)| #[trigger] r(x, y) || #[trigger] r(
        y,
        x,
    ) by {
        M::le_laws(x.1, y.1, x.1);
    }
}

/// Mapping a function over two sequences with the same multiset of elements
/// gives two sequences with the same multiset of images.
pub proof fn lemma_map_values_multiset<A, B>(s: Seq<A>, t: Seq<A>, f: spec_fn(A) -> B)
    requires
        s.to_multiset() == t.to_multiset(),
    ensures
        s.map_values(f).to_multiset() == t.map_values(f).to_multiset(),
    decreases s.len(),
{
    broadcast use vstd::seq_lib::group_to_multiset_ensures;
    broadcast use vstd::multiset::group_multiset_axioms;

    if s.len() == 0 {
        assert(t.to_multiset().len() == 0);
        assert(t.len() == 0);
        assert(s.map_values(f) =~= t.map_values(f));
    } else {
        let x = s[0];
        assert(s.contains(x));
        assert(s.to_multiset().count(x) > 0);
        assert(t.contains(x));
        let j = choose|j: int| 0 <= j < t.len() && t[j] == x;
        to_multiset_remove(s, 0);
        to_multiset_remove(t, j);
        lemma_map_values_multiset(s.remove(0), t.remove(j), f);
        assert(s.remove(0).map_values(f) =~= s.map_values(f).remove(0));
        assert(t.remove(j).map_values(f) =~= t.map_values(f).remove(j));
        to_multiset_remove(s.map_values(f), 0);
        to_multiset_remove(t.map_values(f), j);
        assert(s.map_values(f).contains(f(x)));
        assert(s.map_values(f).to_multiset().count(f(x)) > 0);
        assert(t.map_values(f)[j] == f(x));
        assert(t.map_values(f).contains(f(x)));
        assert(t.map_values(f).to_multiset().count(f(x)) > 0);
        let ms = s.map_values(f).to_multiset();
        let mt = t.map_values(f).to_multiset();
        assert(ms.remove(f(x)) == mt.remove(f(x)));
        assert forall|y: B| ms.count(y) == mt.count(y) by {
            assert(ms.remove(f(x)).count(y) == mt.remove(f(x)).count(y));
            if y == f(x) {
                assert(ms.remove(f(x)).count(y) + 1 == ms.count(y));
                assert(mt.remove(f(x)).count(y) + 1 == mt.count(y));
            } else {
                assert(ms.remove(f(x)).count(y) == ms.count(y));
                assert(mt.remove(f(x)).count(y) == mt.count(y));
            }
        }
        assert(ms =~= mt);
    }
}

} // verus!
