//! Alphabets: finite sets of characters kept as a sorted list without
//! repetitions.
use vstd::prelude::*;

verus! {

/// Each character comes strictly before the next (so none occurs twice).
pub open spec fn strictly_sorted(s: Seq<char>) -> bool {
    forall|i: int, j: int| 0 <= i < j < s.len() ==> s[i] < s[j]
}

/// The characters of `chars` in increasing order, each once.
pub open spec fn sorted_listing(chars: Set<char>) -> Seq<char> {
    choose|s: Seq<char>| strictly_sorted(s) && s.to_set() == chars
}

/// The alphabet `alpha` together with the characters of `extra`, listed in
/// order.
pub open spec fn extended_alphabet(alpha: Seq<char>, extra: Seq<char>) -> Seq<char> {
    sorted_listing(alpha.to_set() + extra.to_set())
}

/// A strictly sorted list is determined by the set of its characters.
pub proof fn lemma_sorted_listing_unique(a: Seq<char>, b: Seq<char>)
    requires
        strictly_sorted(a),
        strictly_sorted(b),
        a.to_set() == b.to_set(),
    ensures
        a == b,
    decreases a.len(),
{
    if a.len() == 0 {
        if b.len() > 0 {
            assert(b.to_set().contains(b[0]));
        }
        assert(a =~= b);
    } else {
        assert(a.to_set().contains(a[0]));
        assert(b.len() > 0);
        assert(b.to_set().contains(b[0]));
        let k = choose|k: int| 0 <= k < b.len() && b[k] == a[0];
        let m = choose|m: int| 0 <= m < a.len() && a[m] == b[0];
        assert(a[0] == b[0]);
        let a1 = a.drop_first();
        let b1 = b.drop_first();
        assert forall|c: char| a1.to_set().contains(c) implies b1.to_set().contains(c) by {
            let i = choose|i: int| 0 <= i < a1.len() && a1[i] == c;
            assert(a.to_set().contains(c));
            let j = choose|j: int| 0 <= j < b.len() && b[j] == c;
            if j == 0 {
                assert(a[i + 1] == a[0]);
            }
            assert(b1[j - 1] == c);
        }
        assert forall|c: char| b1.to_set().contains(c) implies a1.to_set().contains(c) by {
            let i = choose|i: int| 0 <= i < b1.len() && b1[i] == c;
            assert(b.to_set().contains(c));
            let j = choose|j: int| 0 <= j < a.len() && a[j] == c;
            if j == 0 {
                assert(b[i + 1] == b[0]);
            }
            assert(a1[j - 1] == c);
        }
        assert(a1.to_set() =~= b1.to_set());
        lemma_sorted_listing_unique(a1, b1);
        assert(a.len() == b.len());
        assert forall|i: int| 0 <= i < a.len() implies a[i] == b[i] by {
            if i > 0 {
                assert(a[i] == a1[i - 1]);
                assert(b[i] == b1[i - 1]);
            }
        }
        assert(a =~= b);
    }
}

/// Any strictly sorted list is the sorted listing of its own characters.
pub proof fn lemma_is_sorted_listing(s: Seq<char>)
    requires
        strictly_sorted(s),
    ensures
        sorted_listing(s.to_set()) == s,
{
    let t = sorted_listing(s.to_set());
    assert(strictly_sorted(t) && t.to_set() == s.to_set());
    lemma_sorted_listing_unique(t, s);
}

/// The place where `c` belongs in the strictly sorted `t`: everything before
/// it is smaller, everything from it on is not.
proof fn lemma_insertion_point(t: Seq<char>, c: char) -> (p: int)
    requires
        strictly_sorted(t),
    ensures
        0 <= p <= t.len(),
        forall|i: int| 0 <= i < p ==> t[i] < c,
        forall|i: int| p <= i < t.len() ==> c <= t[i],
    decreases t.len(),
{
    if t.len() == 0 {
        0
    } else {
        let u = t.drop_last();
        assert forall|i: int, j: int| 0 <= i < j < u.len() implies u[i] < u[j] by {
            assert(u[i] == t[i] && u[j] == t[j]);
        }
        let q = lemma_insertion_point(u, c);
        assert forall|i: int| 0 <= i < u.len() implies #[trigger] u[i] == t[i] by {}
        if q == t.len() - 1 && t.last() < c {
            assert forall|i: int| 0 <= i < t.len() implies t[i] < c by {
                if i < t.len() - 1 {
                    assert(u[i] < c);
                }
            }
            t.len() as int
        } else {
            assert forall|i: int| q <= i < t.len() implies c <= t[i] by {
                if i < t.len() - 1 {
                    assert(c <= u[i]);
                } else if q < t.len() - 1 {
                    assert(c <= u[q]);
                    assert(t[q] < t[i]);
                }
            }
            assert forall|i: int| 0 <= i < q implies t[i] < c by {
                assert(u[i] < c);
            }
            q
        }
    }
}

/// Every finite set of characters has a sorted listing.
pub proof fn lemma_sorted_listing_exists(s: Seq<char>)
    ensures
        strictly_sorted(sorted_listing(s.to_set())),
        sorted_listing(s.to_set()).to_set() == s.to_set(),
    decreases s.len(),
{
    if s.len() == 0 {
        let e = Seq::<char>::empty();
        assert(e.to_set() =~= s.to_set());
        assert(strictly_sorted(e));
    } else {
        let s0 = s.drop_last();
        let c = s.last();
        lemma_sorted_listing_exists(s0);
        let t = sorted_listing(s0.to_set());
        assert(s =~= s0.push(c));
        s0.lemma_push_to_set_commute(c);
        if t.contains(c) {
            assert(t.to_set() =~= s.to_set());
        } else {
            let p = lemma_insertion_point(t, c);
            let r = t.insert(p, c);
            assert forall|i: int, j: int| 0 <= i < j < r.len() implies r[i] < r[j] by {
                if j < p {
                } else if j == p {
                } else if i < p {
                    assert(t[j - 1] != c);
                } else if i == p {
                    assert(t[j - 1] != c);
                } else {
                }
            }
            assert(r.to_set() =~= s.to_set()) by {
                assert forall|x: char| #[trigger] r.to_set().contains(x) implies s.to_set().contains(
                    x,
                ) by {
                    let i = choose|i: int| 0 <= i < r.len() && r[i] == x;
                    if i < p {
                        assert(t[i] == x);
                    } else if i > p {
                        assert(t[i - 1] == x);
                    }
                }
                assert forall|x: char| #[trigger] s.to_set().contains(x) implies r.to_set().contains(
                    x,
                ) by {
                    if x == c {
                        assert(r[p] == c);
                    } else {
                        assert(t.to_set().contains(x));
                        let i = choose|i: int| 0 <= i < t.len() && t[i] == x;
                        if i < p {
                            assert(r[i] == x);
                        } else {
                            assert(r[i + 1] == x);
                        }
                    }
                }
            }
            assert(strictly_sorted(r));
        }
    }
}

/// Extending an alphabet with characters it already holds changes nothing.
pub proof fn lemma_extended_alphabet_idempotent(alpha: Seq<char>, extra: Seq<char>)
    requires
        strictly_sorted(alpha),
        extra.to_set().subset_of(alpha.to_set()),
    ensures
        extended_alphabet(alpha, extra) == alpha,
{
    assert(alpha.to_set() + extra.to_set() =~= alpha.to_set());
    lemma_is_sorted_listing(alpha);
}

/// Inserts `c` into the strictly sorted `v`, unless it is there already.
pub fn insert_sorted(v: &mut Vec<char>, c: char)
    requires
        strictly_sorted(old(v)@),
    ensures
        strictly_sorted(final(v)@),
        final(v)@.to_set() == old(v)@.to_set().insert(c),
{
    let mut p: usize = 0;
    while p < v.len() && v[p] < c
        invariant
            p <= v.len(),
            v@ == old(v)@,
            strictly_sorted(v@),
            forall|i: int| 0 <= i < p ==> #[trigger] v@[i] < c,
        decreases v.len() - p,
    {
        assert(v@[p as int] < c);
        p = p + 1;
    }
    if p < v.len() && v[p] == c {
        assert(v@.to_set() =~= v@.to_set().insert(c));
    } else {
        let ghost before = v@;
        v.insert(p, c);
        assert(v@.to_set() =~= before.to_set().insert(c)) by {
            assert forall|x: char| #[trigger] v@.to_set().contains(x) implies before.to_set().insert(
                c,
            ).contains(x) by {
                let i = choose|i: int| 0 <= i < v@.len() && v@[i] == x;
                if i < p {
                    assert(before[i] == x);
                } else if i > p {
                    assert(before[i - 1] == x);
                }
            }
            assert forall|x: char| #[trigger] before.to_set().insert(c).contains(x) implies v@.to_set().contains(
                x,
            ) by {
                if x == c {
                    assert(v@[p as int] == c);
                } else {
                    let i = choose|i: int| 0 <= i < before.len() && before[i] == x;
                    if i < p {
                        assert(v@[i] == x);
                    } else {
                        assert(v@[i + 1] == x);
                    }
                }
            }
        }
    }
}

/// Adds every character of `chars` to the strictly sorted `v`.
pub fn insert_all_sorted(v: &mut Vec<char>, chars: &Vec<char>)
    requires
        strictly_sorted(old(v)@),
    ensures
        strictly_sorted(final(v)@),
        final(v)@.to_set() == old(v)@.to_set() + chars@.to_set(),
{
    let ghost start = v@;
    let mut k: usize = 0;
    while k < chars.len()
        invariant
            k <= chars.len(),
            strictly_sorted(v@),
            v@.to_set() == start.to_set() + chars@.take(k as int).to_set(),
        decreases chars.len() - k,
    {
        insert_sorted(v, chars[k]);
        assert(chars@.take(k + 1).to_set() =~= chars@.take(k as int).to_set().insert(chars@[k as int]))
            by {
            assert(chars@.take(k + 1) =~= chars@.take(k as int).push(chars@[k as int]));
            chars@.take(k as int).lemma_push_to_set_commute(chars@[k as int]);
        }
        assert(v@.to_set() =~= start.to_set() + chars@.take(k + 1).to_set());
        k = k + 1;
    }
    assert(chars@.take(k as int) =~= chars@);
}

} // verus!
