//! When splitting returns: the widths of a range grow without bound exactly
//! when the extended alphabet has two characters or more and the bounds do
//! not agree once padded with its smallest character.
use crate::alphabet::{extended_alphabet, strictly_sorted};
use crate::lexical::{lemma_lex_lt_skip_common, lex_lt};
use crate::range_splitter::{
    char_or_default, char_position, end_default, equal_with_padding, has_minimal_length,
    lemma_char_position, prefix_value, range_width, split_is_computed, split_range_defined,
};
use crate::split_laws::{lemma_equal_with_padding_zero_width, lemma_extended_alphabet};
use vstd::arithmetic::power2::{lemma2_to64, lemma_pow2_pos, lemma_pow2_unfold, pow2};
use vstd::prelude::*;

verus! {

/// The width at one more digit.
proof fn lemma_width_step(alpha: Seq<char>, start: Seq<char>, end: Seq<char>, k: nat)
    ensures
        range_width(alpha, start, end, k + 1) == alpha.len() * range_width(alpha, start, end, k)
            + char_position(alpha, char_or_default(end, k as int, end_default(alpha, end)))
            - char_position(alpha, char_or_default(start, k as int, alpha[0])),
{
    let n = alpha.len() as int;
    let e = prefix_value(alpha, end, end_default(alpha, end), k);
    let s = prefix_value(alpha, start, alpha[0], k);
    assert(e * n - s * n == n * (e - s)) by (nonlinear_arith);
}

/// Every character of `s` is in the alphabet.
pub open spec fn within_alphabet(alpha: Seq<char>, s: Seq<char>) -> bool {
    forall|i: int| 0 <= i < s.len() ==> alpha.contains(#[trigger] s[i])
}

/// Positions of alphabet characters follow the order of the characters.
proof fn lemma_position_order(alpha: Seq<char>, c: char, d: char)
    requires
        strictly_sorted(alpha),
        alpha.contains(c),
        alpha.contains(d),
    ensures
        0 <= char_position(alpha, c) < alpha.len(),
        alpha[char_position(alpha, c)] == c,
        c < d ==> char_position(alpha, c) < char_position(alpha, d),
        c == alpha[0] ==> char_position(alpha, c) == 0,
        c != alpha[0] ==> char_position(alpha, c) > 0,
{
    let i = choose|i: int| 0 <= i < alpha.len() && alpha[i] == c;
    let j = choose|j: int| 0 <= j < alpha.len() && alpha[j] == d;
    lemma_char_position(alpha, c, i);
    lemma_char_position(alpha, d, j);
    if c < d && j <= i {
        if j < i {
            assert(alpha[j] < alpha[i]);
        }
    }
}

/// With a single character every width is zero.
proof fn lemma_single_character_zero_width(alpha: Seq<char>, start: Seq<char>, end: Seq<char>, k: nat)
    requires
        alpha.len() == 1,
    ensures
        range_width(alpha, start, end, k) == 0,
    decreases k,
{
    if k > 0 {
        lemma_single_character_zero_width(alpha, start, end, (k - 1) as nat);
        lemma_width_step(alpha, start, end, (k - 1) as nat);
    }
}

/// Without an end, the widths never go negative and, once past the start,
/// at least double (plus one) with each digit.
proof fn lemma_unbounded_growth(alpha: Seq<char>, start: Seq<char>, end: Seq<char>, t: nat)
    requires
        strictly_sorted(alpha),
        alpha.len() >= 2,
        end.len() == 0,
    ensures
        range_width(alpha, start, end, t) >= 0,
        range_width(alpha, start, end, start.len() + t) >= pow2(t) - 1,
    decreases t,
{
    let n = alpha.len() as int;
    lemma_char_position(alpha, alpha[n - 1], n - 1);
    lemma_char_position(alpha, alpha[0], 0);
    assert(alpha.last() == alpha[n - 1]);
    if t == 0 {
        lemma2_to64();
        lemma_unbounded_nonnegative(alpha, start, end, start.len());
    } else {
        lemma_unbounded_growth(alpha, start, end, (t - 1) as nat);
        let k = (start.len() + t - 1) as nat;
        lemma_width_step(alpha, start, end, k);
        lemma_unbounded_nonnegative(alpha, start, end, k);
        lemma_pow2_unfold(t);
        let w = range_width(alpha, start, end, k);
        assert(n * w >= 2 * w) by (nonlinear_arith)
            requires
                n >= 2,
                w >= 0,
        ;
        lemma_unbounded_nonnegative(alpha, start, end, t);
    }
}

/// Without an end, widths are never negative.
proof fn lemma_unbounded_nonnegative(alpha: Seq<char>, start: Seq<char>, end: Seq<char>, k: nat)
    requires
        strictly_sorted(alpha),
        alpha.len() >= 2,
        end.len() == 0,
    ensures
        range_width(alpha, start, end, k) >= 0,
    decreases k,
{
    if k > 0 {
        let n = alpha.len() as int;
        lemma_unbounded_nonnegative(alpha, start, end, (k - 1) as nat);
        lemma_width_step(alpha, start, end, (k - 1) as nat);
        lemma_char_position(alpha, alpha[n - 1], n - 1);
        assert(alpha.last() == alpha[n - 1]);
        let w = range_width(alpha, start, end, (k - 1) as nat);
        assert(n * w >= 0) by (nonlinear_arith)
            requires
                n >= 2,
                w >= 0,
        ;
    }
}

/// The bounds agree at every position below `k` once padded.
spec fn agree_below(alpha: Seq<char>, start: Seq<char>, end: Seq<char>, k: int) -> bool {
    forall|i: int|
        0 <= i < k ==> char_or_default(start, i, alpha[0]) == #[trigger] char_or_default(
            end,
            i,
            alpha[0],
        )
}

/// At the first position where the padded bounds of an ordered range
/// differ, the end has the larger character.
proof fn lemma_first_difference(alpha: Seq<char>, start: Seq<char>, end: Seq<char>, k: int)
    requires
        strictly_sorted(alpha),
        alpha.len() > 0,
        within_alphabet(alpha, start),
        within_alphabet(alpha, end),
        end.len() > 0,
        lex_lt(start, end),
        0 <= k,
        agree_below(alpha, start, end, k),
        char_or_default(start, k, alpha[0]) != char_or_default(end, k, alpha[0]),
    ensures
        char_position(alpha, char_or_default(start, k, alpha[0])) < char_position(
            alpha,
            char_or_default(end, k, alpha[0]),
        ),
{
    let sc = char_or_default(start, k, alpha[0]);
    let ec = char_or_default(end, k, alpha[0]);
    assert(alpha.contains(alpha[0]));
    if k < start.len() {
        assert(alpha.contains(start[k]));
    }
    if k < end.len() {
        assert(alpha.contains(end[k]));
    }
    if k < start.len() && k < end.len() {
        assert forall|i: int| 0 <= i < k implies start.take(k)[i] == end.take(k)[i] by {
            assert(char_or_default(start, i, alpha[0]) == char_or_default(end, i, alpha[0]));
        }
        assert(start.take(k) =~= end.take(k));
        lemma_lex_lt_skip_common(start, end, k);
        assert(start.skip(k)[0] == start[k]);
        assert(end.skip(k)[0] == end[k]);
        lemma_position_order(alpha, sc, ec);
    } else if k >= start.len() && k < end.len() {
        lemma_position_order(alpha, sc, ec);
        lemma_position_order(alpha, ec, sc);
    } else if k < start.len() && k >= end.len() {
        assert forall|i: int| 0 <= i < end.len() implies start.take(end.len() as int)[i]
            == end.take(end.len() as int)[i] by {
            assert(char_or_default(start, i, alpha[0]) == char_or_default(end, i, alpha[0]));
        }
        assert(start.take(end.len() as int) =~= end.take(end.len() as int));
        lemma_lex_lt_skip_common(start, end, end.len() as int);
        assert(end.skip(end.len() as int).len() == 0);
        assert(false);
    }
}

/// For an ordered, bounded range whose bounds disagree once padded, the
/// width at the longer bound's length is positive.
proof fn lemma_bounded_positive(alpha: Seq<char>, start: Seq<char>, end: Seq<char>, k: nat)
    requires
        strictly_sorted(alpha),
        alpha.len() > 0,
        within_alphabet(alpha, start),
        within_alphabet(alpha, end),
        end.len() > 0,
        lex_lt(start, end),
    ensures
        (range_width(alpha, start, end, k) == 0 && agree_below(alpha, start, end, k as int)) || (
        range_width(alpha, start, end, k) >= 1),
    decreases k,
{
    if k > 0 {
        let j = (k - 1) as nat;
        let n = alpha.len() as int;
        lemma_bounded_positive(alpha, start, end, j);
        lemma_width_step(alpha, start, end, j);
        let sc = char_or_default(start, j as int, alpha[0]);
        let ec = char_or_default(end, j as int, alpha[0]);
        assert(end_default(alpha, end) == alpha[0]);
        assert(alpha.contains(alpha[0]));
        if j < start.len() {
            assert(alpha.contains(start[j as int]));
        }
        if j < end.len() {
            assert(alpha.contains(end[j as int]));
        }
        lemma_position_order(alpha, sc, ec);
        lemma_position_order(alpha, ec, sc);
        let w = range_width(alpha, start, end, j);
        if w == 0 && agree_below(alpha, start, end, j as int) {
            if sc != ec {
                lemma_first_difference(alpha, start, end, j as int);
            } else {
                assert forall|i: int| 0 <= i < k implies char_or_default(start, i, alpha[0])
                    == #[trigger] char_or_default(end, i, alpha[0]) by {
                    if i < j {
                        assert(char_or_default(start, i, alpha[0]) == char_or_default(
                            end,
                            i,
                            alpha[0],
                        ));
                    }
                }
            }
        } else {
            assert(n * w - (n - 1) >= 1) by (nonlinear_arith)
                requires
                    n >= 1,
                    w >= 1,
            ;
        }
    }
}

/// Past both bounds, the width of a bounded range multiplies by the
/// alphabet's size with each digit.
proof fn lemma_bounded_growth(alpha: Seq<char>, start: Seq<char>, end: Seq<char>, m: nat, t: nat)
    requires
        strictly_sorted(alpha),
        alpha.len() >= 2,
        end.len() > 0,
        start.len() <= m,
        end.len() <= m,
        range_width(alpha, start, end, m) >= 1,
    ensures
        range_width(alpha, start, end, m + t) >= pow2(t),
    decreases t,
{
    if t == 0 {
        lemma2_to64();
    } else {
        lemma_bounded_growth(alpha, start, end, m, (t - 1) as nat);
        let k = (m + t - 1) as nat;
        lemma_width_step(alpha, start, end, k);
        lemma_char_position(alpha, alpha[0], 0);
        lemma_pow2_unfold(t);
        lemma_pow2_pos((t - 1) as nat);
        let w = range_width(alpha, start, end, k);
        let n = alpha.len() as int;
        assert(n * w >= 2 * w) by (nonlinear_arith)
            requires
                n >= 2,
                w >= 0,
        ;
    }
}

/// The bounds padded with the smallest character differ somewhere below the
/// longer length, unless they agree everywhere.
proof fn lemma_agree_everywhere(alpha: Seq<char>, start: Seq<char>, end: Seq<char>, m: int)
    requires
        end.len() > 0,
        start.len() <= m,
        end.len() <= m,
        agree_below(alpha, start, end, m),
    ensures
        equal_with_padding(alpha, start, end),
{
    assert forall|i: int| 0 <= i < start.len() || 0 <= i < end.len() implies char_or_default(
        start,
        i,
        alpha[0],
    ) == char_or_default(end, i, alpha[0]) by {
        assert(char_or_default(start, i, alpha[0]) == char_or_default(end, i, alpha[0]));
    }
}

/// Splitting returns exactly when, whenever the arithmetic is reached, the
/// alphabet extended with the bounds' characters has at least two
/// characters, the bounds of a bounded range do not agree once padded with
/// its smallest character, and the number of parts fits in a `usize`
/// (bounds of at most `usize::MAX / 2` characters, as every string held in
/// memory is).
pub proof fn lemma_split_range_defined_iff(
    alpha: Seq<char>,
    start: Seq<char>,
    end: Seq<char>,
    num_splits: int,
)
    requires
        strictly_sorted(alpha),
        0 <= num_splits <= usize::MAX,
        start.len() <= usize::MAX / 2,
        end.len() <= usize::MAX / 2,
    ensures
        split_range_defined(alpha, start, end, num_splits) <==> {
            &&& (num_splits >= 1 && end.len() > 0 && lex_lt(start, end)) ==> alpha.len() > 0
            &&& split_is_computed(alpha, start, end, num_splits) ==> {
                let a = extended_alphabet(alpha, start + end);
                &&& a.len() >= 2
                &&& num_splits < usize::MAX
                &&& (end.len() > 0 ==> !equal_with_padding(a, start, end))
            }
        },
{
    if split_is_computed(alpha, start, end, num_splits) && ((num_splits >= 1 && end.len() > 0
        && lex_lt(start, end)) ==> alpha.len() > 0) {
        let a = extended_alphabet(alpha, start + end);
        lemma_extended_alphabet(alpha, start + end);
        assert forall|i: int| 0 <= i < start.len() implies a.contains(#[trigger] start[i]) by {
            assert((start + end)[i] == start[i]);
            assert((start + end).to_set().contains(start[i]));
            assert(a.to_set().contains(start[i]));
        }
        assert forall|i: int| 0 <= i < end.len() implies a.contains(#[trigger] end[i]) by {
            assert((start + end)[start.len() + i] == end[i]);
            assert((start + end).to_set().contains(end[i]));
            assert(a.to_set().contains(end[i]));
        }
        if a.len() >= 2 && num_splits < usize::MAX && (end.len() > 0 ==> !equal_with_padding(
            a,
            start,
            end,
        )) {
            lemma2_to64();
            if end.len() == 0 {
                lemma_unbounded_growth(a, start, end, 64);
                let k = (start.len() + 64) as nat;
                assert(range_width(a, start, end, k) > num_splits);
                assert(has_minimal_length(a, start, end, num_splits));
            } else {
                let m = if start.len() < end.len() {
                    end.len()
                } else {
                    start.len()
                };
                lemma_bounded_positive(a, start, end, m);
                if range_width(a, start, end, m) == 0 {
                    lemma_agree_everywhere(a, start, end, m as int);
                }
                lemma_bounded_growth(a, start, end, m, 64);
                let k = (m + 64) as nat;
                assert(range_width(a, start, end, k) > num_splits);
                assert(has_minimal_length(a, start, end, num_splits));
            }
        } else if a.len() > 0 && num_splits < usize::MAX {
            if has_minimal_length(a, start, end, num_splits) {
                let k = choose|k: nat|
                    1 <= k <= usize::MAX && #[trigger] range_width(a, start, end, k) > num_splits;
                if a.len() < 2 {
                    lemma_single_character_zero_width(a, start, end, k);
                } else {
                    lemma_equal_with_padding_zero_width(a, start, end, k);
                }
            }
        }
    }
}

} // verus!
