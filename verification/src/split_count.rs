//! How many split points a computed split gives: exactly as many as asked
//! for. Every evenly spaced point lies strictly between the numbers read from
//! the two bounds, and a digit string whose number lies strictly between
//! them lies strictly between the bounds as strings too, so none is dropped.
use crate::alphabet::{extended_alphabet, strictly_sorted};
use crate::lexical::lex_lt;
use crate::range_splitter::{
    accepted_splits, char_or_default, char_position, digits_string, end_default, end_value,
    has_minimal_length, is_minimal_length, lemma_char_position, lemma_prefix_value_bounds,
    minimal_length, prefix_value, range_width, split_candidate, split_is_computed, split_point,
    split_range_defined, split_range_result, start_value, strictly_inside,
};
use crate::split_laws::{
    lemma_digits_string_monotone, lemma_digits_string_shape, lemma_extended_alphabet,
    lemma_prefix_value_depends_on_prefix, lemma_split_points,
};
use crate::split_termination::within_alphabet;
use vstd::arithmetic::div_mod::lemma_fundamental_div_mod_converse;
use vstd::arithmetic::power::pow;
use vstd::prelude::*;

verus! {

/// The first `len` characters of `s`, padded with `d` past its end.
pub open spec fn padded(s: Seq<char>, d: char, len: nat) -> Seq<char> {
    Seq::new(len, |i: int| char_or_default(s, i, d))
}

/// A string that comes after `x` padded (or cut) to its own length comes
/// after `x` itself.
proof fn lemma_lex_lt_from_padded_below(x: Seq<char>, c: Seq<char>, d: char)
    requires
        lex_lt(padded(x, d, c.len()), c),
    ensures
        lex_lt(x, c),
    decreases c.len(),
{
    let p = padded(x, d, c.len());
    if x.len() > 0 && c.len() > 0 {
        assert(p[0] == x[0]);
        if x[0] == c[0] {
            assert(p.drop_first() =~= padded(x.drop_first(), d, c.drop_first().len()));
            lemma_lex_lt_from_padded_below(x.drop_first(), c.drop_first(), d);
        }
    }
}

/// A string of characters no smaller than `d` that comes before `y` padded
/// with `d` (or cut) to its own length comes before `y` itself.
proof fn lemma_lex_lt_to_padded_above(c: Seq<char>, y: Seq<char>, d: char)
    requires
        lex_lt(c, padded(y, d, c.len())),
        forall|i: int| 0 <= i < c.len() ==> d <= #[trigger] c[i],
    ensures
        lex_lt(c, y),
    decreases c.len(),
{
    let p = padded(y, d, c.len());
    if c.len() > 0 {
        assert(d <= c[0]);
        if y.len() == 0 {
            assert(p[0] == d);
            assert(p.drop_first() =~= padded(y, d, c.drop_first().len()));
            lemma_lex_lt_to_padded_above(c.drop_first(), y, d);
        } else {
            assert(p[0] == y[0]);
            if c[0] == y[0] {
                assert(p.drop_first() =~= padded(y.drop_first(), d, c.drop_first().len()));
                lemma_lex_lt_to_padded_above(c.drop_first(), y.drop_first(), d);
            }
        }
    }
}

/// A string over the alphabet is the digit string of its own value.
proof fn lemma_digits_of_value(alpha: Seq<char>, z: Seq<char>, d: char)
    requires
        strictly_sorted(alpha),
        alpha.len() > 0,
        within_alphabet(alpha, z),
    ensures
        digits_string(alpha, prefix_value(alpha, z, d, z.len()), z.len()) == z,
    decreases z.len(),
{
    if z.len() == 0 {
        assert(digits_string(alpha, prefix_value(alpha, z, d, 0), 0) =~= z);
    } else {
        let m = (z.len() - 1) as nat;
        let z0 = z.drop_last();
        let n = alpha.len() as int;
        assert forall|i: int| 0 <= i < m implies char_or_default(z, i, d) == char_or_default(
            z0,
            i,
            d,
        ) by {
            assert(z0[i] == z[i]);
        }
        lemma_prefix_value_depends_on_prefix(alpha, z, z0, d, m);
        assert(within_alphabet(alpha, z0)) by {
            assert forall|i: int| 0 <= i < z0.len() implies alpha.contains(#[trigger] z0[i]) by {
                assert(z0[i] == z[i]);
            }
        }
        lemma_digits_of_value(alpha, z0, d);
        lemma_prefix_value_bounds(alpha, z0, d, m);
        let c = z[m as int];
        assert(alpha.contains(c));
        let j = choose|j: int| 0 <= j < alpha.len() && alpha[j] == c;
        lemma_char_position(alpha, c, j);
        assert(char_or_default(z, m as int, d) == c);
        let big_p = prefix_value(alpha, z0, d, m);
        let v = prefix_value(alpha, z, d, z.len());
        assert(v == big_p * n + j);
        lemma_fundamental_div_mod_converse(v, n, big_p, j);
        assert(digits_string(alpha, v, z.len()) == digits_string(alpha, big_p, m).push(alpha[j]));
        assert(z0.push(c) =~= z);
    }
}

/// The padded string of `x` is over the alphabet and has `x`'s value.
proof fn lemma_padded_value(alpha: Seq<char>, x: Seq<char>, len: nat)
    requires
        alpha.len() > 0,
        within_alphabet(alpha, x),
    ensures
        within_alphabet(alpha, padded(x, alpha[0], len)),
        prefix_value(alpha, padded(x, alpha[0], len), alpha[0], len) == prefix_value(
            alpha,
            x,
            alpha[0],
            len,
        ),
{
    let z = padded(x, alpha[0], len);
    assert forall|i: int| 0 <= i < z.len() implies alpha.contains(#[trigger] z[i]) by {
        if i < x.len() {
            assert(z[i] == x[i]);
        } else {
            assert(z[i] == alpha[0]);
        }
    }
    lemma_prefix_value_depends_on_prefix(alpha, z, x, alpha[0], len);
}

/// A digit string of a number above the value of `x` comes after `x`.
pub proof fn lemma_digits_above(alpha: Seq<char>, x: Seq<char>, p: int, len: nat)
    requires
        strictly_sorted(alpha),
        alpha.len() > 0,
        within_alphabet(alpha, x),
        prefix_value(alpha, x, alpha[0], len) < p < pow(alpha.len() as int, len),
    ensures
        lex_lt(x, digits_string(alpha, p, len)),
{
    let z = padded(x, alpha[0], len);
    lemma_padded_value(alpha, x, len);
    lemma_digits_of_value(alpha, z, alpha[0]);
    let v = prefix_value(alpha, x, alpha[0], len);
    lemma_prefix_value_bounds(alpha, x, alpha[0], len);
    lemma_digits_string_monotone(alpha, v, p, len);
    lemma_digits_string_shape(alpha, p, len);
    lemma_lex_lt_from_padded_below(x, digits_string(alpha, p, len), alpha[0]);
}

/// A digit string of a non-negative number below the value of `y` comes
/// before `y`.
pub proof fn lemma_digits_below(alpha: Seq<char>, y: Seq<char>, p: int, len: nat)
    requires
        strictly_sorted(alpha),
        alpha.len() > 0,
        within_alphabet(alpha, y),
        0 <= p < prefix_value(alpha, y, alpha[0], len),
    ensures
        lex_lt(digits_string(alpha, p, len), y),
{
    let z = padded(y, alpha[0], len);
    lemma_padded_value(alpha, y, len);
    lemma_digits_of_value(alpha, z, alpha[0]);
    let v = prefix_value(alpha, y, alpha[0], len);
    lemma_prefix_value_bounds(alpha, y, alpha[0], len);
    lemma_digits_string_monotone(alpha, p, v, len);
    lemma_digits_string_shape(alpha, p, len);
    let c = digits_string(alpha, p, len);
    assert forall|i: int| 0 <= i < c.len() implies alpha[0] <= #[trigger] c[i] by {
        assert(alpha.contains(c[i]));
        let j = choose|j: int| 0 <= j < alpha.len() && alpha[j] == c[i];
        if j > 0 {
            assert(alpha[0] < alpha[j]);
        }
    }
    lemma_lex_lt_to_padded_above(c, y, alpha[0]);
}

proof fn lemma_least_wide(
    alpha: Seq<char>,
    start: Seq<char>,
    end: Seq<char>,
    num_splits: int,
    k: nat,
)
    requires
        1 <= k,
        range_width(alpha, start, end, k) > num_splits,
    ensures
        exists|j: nat| is_minimal_length(alpha, start, end, num_splits, j),
    decreases k,
{
    if forall|j: nat| 1 <= j < k ==> #[trigger] range_width(alpha, start, end, j) <= num_splits {
        assert(is_minimal_length(alpha, start, end, num_splits, k));
    } else {
        let j = choose|j: nat| 1 <= j < k && #[trigger] range_width(alpha, start, end, j) > num_splits;
        lemma_least_wide(alpha, start, end, num_splits, j);
    }
}

/// When some length makes the range wide enough, the least one does.
pub proof fn lemma_minimal_length_is_minimal(
    alpha: Seq<char>,
    start: Seq<char>,
    end: Seq<char>,
    num_splits: int,
)
    requires
        has_minimal_length(alpha, start, end, num_splits),
    ensures
        is_minimal_length(alpha, start, end, num_splits, minimal_length(alpha, start, end, num_splits)),
{
    let k = choose|k: nat|
        1 <= k <= usize::MAX && #[trigger] range_width(alpha, start, end, k) > num_splits;
    lemma_least_wide(alpha, start, end, num_splits, k);
}

proof fn lemma_accepted_all(
    alpha: Seq<char>,
    start: Seq<char>,
    end: Seq<char>,
    start_int: int,
    end_int: int,
    num_splits: int,
    len: nat,
    m: int,
)
    requires
        m >= 0,
        forall|i: int|
            1 <= i <= m ==> strictly_inside(
                start,
                end,
                #[trigger] split_candidate(alpha, start_int, end_int, num_splits, len, i),
            ),
    ensures
        accepted_splits(alpha, start, end, start_int, end_int, num_splits, len, m).len() == m,
    decreases m,
{
    if m > 0 {
        lemma_accepted_all(alpha, start, end, start_int, end_int, num_splits, len, m - 1);
        assert(strictly_inside(
            start,
            end,
            split_candidate(alpha, start_int, end_int, num_splits, len, m),
        ));
    }
}

/// A computed split gives exactly as many split points as were asked for:
/// every evenly spaced point falls strictly inside the range, so none is
/// dropped.
pub proof fn lemma_split_range_count(
    alpha: Seq<char>,
    start: Seq<char>,
    end: Seq<char>,
    num_splits: int,
)
    requires
        strictly_sorted(alpha),
        split_range_defined(alpha, start, end, num_splits),
        split_is_computed(alpha, start, end, num_splits),
    ensures
        split_range_result(alpha, start, end, num_splits).len() == num_splits,
{
    let a = extended_alphabet(alpha, start + end);
    lemma_extended_alphabet(alpha, start + end);
    assert forall|i: int| 0 <= i < start.len() implies a.contains(#[trigger] start[i]) by {
        assert((start + end)[i] == start[i]);
        assert((start + end).to_set().contains(start[i]));
        assert(a.to_set().contains(start[i]));
    }
    assert forall|i: int| 0 <= i < end.len() implies a.contains(#[trigger] end[i]) by {
        assert((start + end)[start.len() + i] == end[i]);
        assert((start + end).to_set().contains(end[i]));
        assert(a.to_set().contains(end[i]));
    }
    lemma_minimal_length_is_minimal(a, start, end, num_splits);
    let len = minimal_length(a, start, end, num_splits);
    let s = start_value(a, start, len);
    let e = end_value(a, end, len);
    lemma_prefix_value_bounds(a, start, a[0], len);
    lemma_prefix_value_bounds(a, end, end_default(a, end), len);
    assert(0int / (num_splits + 1) == 0) by (nonlinear_arith)
        requires
            num_splits >= 1,
    ;
    assert(split_point(s, e, num_splits, 0) == s);
    assert forall|i: int| 1 <= i <= num_splits implies strictly_inside(
        start,
        end,
        #[trigger] split_candidate(a, s, e, num_splits, len, i),
    ) by {
        lemma_split_points(s, e, num_splits, 0, i);
        let p = split_point(s, e, num_splits, i);
        lemma_digits_string_shape(a, p, len);
        lemma_digits_above(a, start, p, len);
        if end.len() > 0 {
            lemma_digits_below(a, end, p, len);
        }
    }
    lemma_accepted_all(a, start, end, s, e, num_splits, len, num_splits);
}

} // verus!
