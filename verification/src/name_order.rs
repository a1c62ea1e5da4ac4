//! Ordering positions of a list by the names found there, ties broken by
//! position, so that equal names keep the order in which they came.
use crate::lexical::{
    chars_equal, lemma_lex_lt_asymmetric, lemma_lex_lt_total, lemma_lex_lt_transitive, lex_less,
    lex_lt,
};
use vstd::prelude::*;
use vstd::seq_lib::{lemma_multiset_commutative, to_multiset_build};

verus! {

/// Position `a` comes before position `b`: its name is smaller, or the names
/// are equal and `a` is the earlier position.
pub open spec fn name_key_lt(names: Seq<Seq<char>>, a: int, b: int) -> bool {
    lex_lt(names[a], names[b]) || (names[a] == names[b] && a < b)
}

/// Position `a` is `b` or comes before it.
pub open spec fn name_key_le(names: Seq<Seq<char>>, a: int, b: int) -> bool {
    a == b || name_key_lt(names, a, b)
}

/// The positions in `v` come in order.
pub open spec fn sorted_by_name(names: Seq<Seq<char>>, v: Seq<usize>) -> bool {
    forall|i: int, j: int|
        0 <= i < j < v.len() ==> name_key_le(names, #[trigger] v[i] as int, #[trigger] v[j] as int)
}

/// All positions in `v` are positions of `names`.
pub open spec fn within(names: Seq<Seq<char>>, v: Seq<usize>) -> bool {
    forall|i: int| 0 <= i < v.len() ==> #[trigger] v[i] < names.len()
}

/// The order is transitive.
pub proof fn lemma_name_key_le_transitive(names: Seq<Seq<char>>, a: int, b: int, c: int)
    requires
        name_key_le(names, a, b),
        name_key_le(names, b, c),
    ensures
        name_key_le(names, a, c),
{
    if a != b && b != c {
        if lex_lt(names[a], names[b]) && lex_lt(names[b], names[c]) {
            lemma_lex_lt_transitive(names[a], names[b], names[c]);
        }
    }
}

/// The order is strict between different positions and total.
pub proof fn lemma_name_key_total(names: Seq<Seq<char>>, a: int, b: int)
    requires
        a != b,
    ensures
        name_key_lt(names, a, b) != name_key_lt(names, b, a),
{
    lemma_lex_lt_asymmetric(names[a], names[b]);
    lemma_lex_lt_asymmetric(names[a], names[a]);
    if names[a] != names[b] {
        lemma_lex_lt_total(names[a], names[b]);
    }
}

/// Whether position `a` comes before position `b`.
pub fn name_key_less(names: &Vec<Vec<char>>, a: usize, b: usize) -> (r: bool)
    requires
        a < names.len(),
        b < names.len(),
    ensures
        r == name_key_lt(names@.map_values(|v: Vec<char>| v@), a as int, b as int),
{
    let ghost views = names@.map_values(|v: Vec<char>| v@);
    assert(views[a as int] == names@[a as int]@);
    assert(views[b as int] == names@[b as int]@);
    lex_less(&names[a], &names[b]) || (chars_equal(&names[a], &names[b]) && a < b)
}

/// Merges two ordered lists of positions into one.
fn merge(names: &Vec<Vec<char>>, left: &Vec<usize>, right: &Vec<usize>) -> (r: Vec<usize>)
    requires
        within(names@.map_values(|v: Vec<char>| v@), left@),
        within(names@.map_values(|v: Vec<char>| v@), right@),
        sorted_by_name(names@.map_values(|v: Vec<char>| v@), left@),
        sorted_by_name(names@.map_values(|v: Vec<char>| v@), right@),
    ensures
        within(names@.map_values(|v: Vec<char>| v@), r@),
        sorted_by_name(names@.map_values(|v: Vec<char>| v@), r@),
        r@.to_multiset() == left@.to_multiset().add(right@.to_multiset()),
{
    let ghost views = names@.map_values(|v: Vec<char>| v@);
    let mut r: Vec<usize> = Vec::new();
    let mut i: usize = 0;
    let mut j: usize = 0;
    assert(left@.take(0) =~= Seq::<usize>::empty());
    assert(right@.take(0) =~= Seq::<usize>::empty());
    proof {
        assert(r@ =~= left@.take(0) + right@.take(0));
        lemma_multiset_commutative(left@.take(0), right@.take(0));
    }
    while i < left.len() || j < right.len()
        invariant
            views == names@.map_values(|v: Vec<char>| v@),
            views.len() == names.len(),
            within(views, left@),
            within(views, right@),
            sorted_by_name(views, left@),
            sorted_by_name(views, right@),
            i <= left.len(),
            j <= right.len(),
            r.len() == i + j,
            within(views, r@),
            sorted_by_name(views, r@),
            r@.to_multiset() == left@.take(i as int).to_multiset().add(
                right@.take(j as int).to_multiset(),
            ),
            r.len() > 0 && i < left.len() ==> name_key_le(
                views,
                r@.last() as int,
                left@[i as int] as int,
            ),
            r.len() > 0 && j < right.len() ==> name_key_le(
                views,
                r@.last() as int,
                right@[j as int] as int,
            ),
        decreases left.len() + right.len() - i - j,
    {
        let take_left = if i < left.len() && j < right.len() {
            !name_key_less(names, right[j], left[i])
        } else {
            i < left.len()
        };
        let x = if take_left {
            left[i]
        } else {
            right[j]
        };
        proof {
            if i < left.len() && j < right.len() {
                if take_left {
                    if left[i as int] != right[j as int] {
                        lemma_name_key_total(views, left@[i as int] as int, right@[j as int] as int);
                    }
                }
            }
            if r.len() > 0 {
                assert forall|k: int| 0 <= k < r.len() implies name_key_le(
                    views,
                    #[trigger] r@[k] as int,
                    x as int,
                ) by {
                    if k < r.len() - 1 {
                        assert(name_key_le(views, r@[k] as int, r@.last() as int));
                    }
                    lemma_name_key_le_transitive(views, r@[k] as int, r@.last() as int, x as int);
                }
            }
        }
        let ghost before = r@;
        r.push(x);
        proof {
            to_multiset_build(before, x);
            assert forall|a: int, b: int| 0 <= a < b < r.len() implies name_key_le(
                views,
                #[trigger] r@[a] as int,
                #[trigger] r@[b] as int,
            ) by {
                if b < before.len() {
                    assert(r@[a] == before[a] && r@[b] == before[b]);
                } else {
                    assert(r@[a] == before[a]);
                }
            }
        }
        if take_left {
            proof {
                assert(left@.take(i + 1) =~= left@.take(i as int).push(x));
                to_multiset_build(left@.take(i as int), x);
                broadcast use vstd::multiset::group_multiset_axioms;
                assert(r@.to_multiset() =~= left@.take(i + 1).to_multiset().add(
                    right@.take(j as int).to_multiset(),
                ));
                if i + 1 < left.len() {
                    assert(name_key_le(views, left@[i as int] as int, left@[i + 1] as int));
                }
            }
            i = i + 1;
        } else {
            proof {
                assert(right@.take(j + 1) =~= right@.take(j as int).push(x));
                to_multiset_build(right@.take(j as int), x);
                broadcast use vstd::multiset::group_multiset_axioms;
                assert(r@.to_multiset() =~= left@.take(i as int).to_multiset().add(
                    right@.take(j + 1).to_multiset(),
                ));
                if j + 1 < right.len() {
                    assert(name_key_le(views, right@[j as int] as int, right@[j + 1] as int));
                }
                if i < left.len() {
                    assert(name_key_lt(views, right@[j as int] as int, left@[i as int] as int));
                }
            }
            j = j + 1;
        }
    }
    assert(left@.take(left.len() as int) =~= left@);
    assert(right@.take(right.len() as int) =~= right@);
    r
}

/// Sorts a list of positions by the names at those positions, ties broken by
/// position.
pub fn sort_by_name(names: &Vec<Vec<char>>, v: &Vec<usize>) -> (r: Vec<usize>)
    requires
        within(names@.map_values(|v: Vec<char>| v@), v@),
    ensures
        within(names@.map_values(|v: Vec<char>| v@), r@),
        sorted_by_name(names@.map_values(|v: Vec<char>| v@), r@),
        r@.to_multiset() == v@.to_multiset(),
    decreases v.len(),
{
    let ghost views = names@.map_values(|v: Vec<char>| v@);
    if v.len() <= 1 {
        let mut r: Vec<usize> = Vec::new();
        if v.len() == 1 {
            r.push(v[0]);
        }
        assert(r@ =~= v@);
        return r;
    }
    let mid = v.len() / 2;
    let mut left: Vec<usize> = Vec::new();
    let mut right: Vec<usize> = Vec::new();
    let mut k: usize = 0;
    while k < v.len()
        invariant
            mid < v.len(),
            k <= v.len(),
            k <= mid ==> left@ == v@.take(k as int) && right.len() == 0,
            k > mid ==> left@ == v@.take(mid as int) && right@ == v@.subrange(mid as int, k as int),
        decreases v.len() - k,
    {
        if k < mid {
            left.push(v[k]);
            assert(v@.take(k + 1) =~= v@.take(k as int).push(v@[k as int]));
        } else {
            right.push(v[k]);
            assert(v@.subrange(mid as int, k + 1) =~= v@.subrange(mid as int, k as int).push(
                v@[k as int],
            ));
        }
        k = k + 1;
    }
    proof {
        assert(v@ =~= v@.take(mid as int) + v@.subrange(mid as int, v.len() as int));
        lemma_multiset_commutative(v@.take(mid as int), v@.subrange(mid as int, v.len() as int));
    }
    let sorted_left = sort_by_name(names, &left);
    let sorted_right = sort_by_name(names, &right);
    merge(names, &sorted_left, &sorted_right)
}

} // verus!
