//! Properties of the split points: each lies strictly inside its range, they
//! come in increasing order, there are at most as many as asked for, and all
//! of them are spelled with the alphabet at the computed length.
use crate::alphabet::{
    extended_alphabet, lemma_extended_alphabet_idempotent, lemma_sorted_listing_exists,
    strictly_sorted,
};
use crate::lexical::{lemma_lex_lt_push_both, lemma_lex_lt_push_last, lex_lt};
use crate::range_splitter::{
    accepted_splits, char_or_default, digits_string, int_string, equal_with_padding, lemma_char_position,
    prefix_value, range_width, split_candidate, split_is_computed, split_point,
    split_range_alphabet, split_range_defined, split_range_result, strictly_inside,
};
use vstd::arithmetic::div_mod::{
    lemma_div_is_ordered, lemma_div_pos_is_pos, lemma_fundamental_div_mod,
    lemma_fundamental_div_mod_converse, lemma_hoist_over_denominator, lemma_mod_pos_bound,
    lemma_multiply_divide_lt,
};
use vstd::arithmetic::power::pow;
use vstd::seq_lib::seq_to_set_distributes_over_add;
use vstd::prelude::*;

verus! {

/// A digit string has the requested length and uses only alphabet characters.
pub proof fn lemma_digits_string_shape(alpha: Seq<char>, p: int, len: nat)
    requires
        alpha.len() > 0,
        p >= 0,
    ensures
        digits_string(alpha, p, len).len() == len,
        forall|i: int|
            0 <= i < len ==> alpha.contains(#[trigger] digits_string(alpha, p, len)[i]),
    decreases len,
{
    if len > 0 {
        let n = alpha.len() as int;
        lemma_div_pos_is_pos(p, n);
        lemma_mod_pos_bound(p, n);
        lemma_digits_string_shape(alpha, p / n, (len - 1) as nat);
        let prev = digits_string(alpha, p / n, (len - 1) as nat);
        assert forall|i: int| 0 <= i < len implies alpha.contains(
            #[trigger] digits_string(alpha, p, len)[i],
        ) by {
            if i < len - 1 {
                assert(digits_string(alpha, p, len)[i] == prev[i]);
            } else {
                assert(alpha[p % n] == digits_string(alpha, p, len)[i]);
            }
        }
    }
}

/// The string written for any integer has the requested length and uses
/// only alphabet characters.
pub proof fn lemma_int_string_shape(alpha: Seq<char>, p: int, len: nat)
    requires
        alpha.len() > 0,
    ensures
        int_string(alpha, p, len).len() == len,
        forall|i: int| 0 <= i < len ==> alpha.contains(#[trigger] int_string(alpha, p, len)[i]),
{
    if p >= 0 {
        lemma_digits_string_shape(alpha, p, len);
    } else {
        assert forall|i: int| 0 <= i < len implies alpha.contains(
            #[trigger] int_string(alpha, p, len)[i],
        ) by {
            assert(alpha[0] == int_string(alpha, p, len)[i]);
        }
    }
}

/// Only the first `k` characters (padded with `d`) enter a prefix value.
pub proof fn lemma_prefix_value_depends_on_prefix(
    alpha: Seq<char>,
    s: Seq<char>,
    t: Seq<char>,
    d: char,
    k: nat,
)
    requires
        forall|i: int| 0 <= i < k ==> char_or_default(s, i, d) == char_or_default(t, i, d),
    ensures
        prefix_value(alpha, s, d, k) == prefix_value(alpha, t, d, k),
    decreases k,
{
    if k > 0 {
        lemma_prefix_value_depends_on_prefix(alpha, s, t, d, (k - 1) as nat);
        assert(char_or_default(s, k - 1, d) == char_or_default(t, k - 1, d));
    }
}

/// Reading back the digit string of a number below `n^len` gives the
/// number: digit strings decode to what they encode.
pub proof fn lemma_digits_string_decodes(alpha: Seq<char>, v: int, len: nat)
    requires
        alpha.len() > 0,
        strictly_sorted(alpha),
        0 <= v < pow(alpha.len() as int, len),
    ensures
        prefix_value(alpha, digits_string(alpha, v, len), alpha[0], len) == v,
    decreases len,
{
    reveal(pow);
    if len > 0 {
        let n = alpha.len() as int;
        let m = (len - 1) as nat;
        let pn = pow(n, m);
        let d = alpha[0];
        assert(pow(n, len) == n * pn);
        lemma_div_pos_is_pos(v, n);
        lemma_mod_pos_bound(v, n);
        lemma_multiply_divide_lt(v, n, pn);
        lemma_digits_string_decodes(alpha, v / n, m);
        lemma_digits_string_shape(alpha, v / n, m);
        let s = digits_string(alpha, v / n, m);
        let c = alpha[v % n];
        assert(digits_string(alpha, v, len) == s.push(c));
        assert forall|i: int| 0 <= i < m implies char_or_default(s.push(c), i, d)
            == char_or_default(s, i, d) by {
            assert(s.push(c)[i] == s[i]);
        }
        lemma_prefix_value_depends_on_prefix(alpha, s.push(c), s, d, m);
        assert(char_or_default(s.push(c), m as int, d) == c);
        lemma_char_position(alpha, c, v % n);
        lemma_fundamental_div_mod(v, n);
        assert((v / n) * n == n * (v / n)) by (nonlinear_arith);
    }
}

/// Over a sorted alphabet, a smaller number gets a smaller digit string of
/// the same length.
pub proof fn lemma_digits_string_monotone(alpha: Seq<char>, p: int, q: int, len: nat)
    requires
        alpha.len() > 0,
        strictly_sorted(alpha),
        0 <= p < q,
        q < pow(alpha.len() as int, len),
    ensures
        lex_lt(digits_string(alpha, p, len), digits_string(alpha, q, len)),
    decreases len,
{
    reveal(pow);
    let n = alpha.len() as int;
    if len == 0 {
        assert(false);
    } else {
        let m = (len - 1) as nat;
        let pn = pow(n, m);
        assert(pow(n, len) == n * pn);
        lemma_div_pos_is_pos(p, n);
        lemma_div_pos_is_pos(q, n);
        lemma_mod_pos_bound(p, n);
        lemma_mod_pos_bound(q, n);
        lemma_div_is_ordered(p, q, n);
        lemma_multiply_divide_lt(q, n, pn);
        lemma_digits_string_shape(alpha, p / n, m);
        lemma_digits_string_shape(alpha, q / n, m);
        if p / n < q / n {
            lemma_digits_string_monotone(alpha, p / n, q / n, m);
            lemma_lex_lt_push_both(
                digits_string(alpha, p / n, m),
                digits_string(alpha, q / n, m),
                alpha[p % n],
                alpha[q % n],
            );
        } else {
            lemma_fundamental_div_mod(p, n);
            lemma_fundamental_div_mod(q, n);
            assert(p % n < q % n);
            assert(alpha[p % n] < alpha[q % n]);
            lemma_lex_lt_push_last(digits_string(alpha, p / n, m), alpha[p % n], alpha[q % n]);
        }
    }
}

/// The split points for `0..=num_splits` of an integer range wider than
/// `num_splits` with a non-negative start are increasing and stay within
/// `[start_int, end_int)`.
pub proof fn lemma_split_points(start_int: int, end_int: int, num_splits: int, i: int, j: int)
    requires
        num_splits >= 0,
        start_int >= 0,
        end_int - start_int > num_splits,
        0 <= i < j <= num_splits,
    ensures
        0 <= split_point(start_int, end_int, num_splits, i),
        split_point(start_int, end_int, num_splits, i) < split_point(
            start_int,
            end_int,
            num_splits,
            j,
        ),
        split_point(start_int, end_int, num_splits, j) < end_int,
{
    let w = end_int - start_int;
    let d = num_splits + 1;
    assert(w * i >= 0) by (nonlinear_arith)
        requires
            w > 0,
            i >= 0,
    ;
    assert(w * (j - i) >= w) by (nonlinear_arith)
        requires
            w > 0,
            j - i >= 1,
    ;
    assert(w * j - w * i == w * (j - i)) by (nonlinear_arith);
    assert(w * j >= w * i + d);
    assert(w * j < d * w) by (nonlinear_arith)
        requires
            w > 0,
            j < d,
    ;
    lemma_div_pos_is_pos(w * i, d);
    lemma_hoist_over_denominator(w * i, 1, d as nat);
    lemma_div_is_ordered(w * i + d, w * j, d);
    lemma_multiply_divide_lt(w * j, d, w);
}

/// Every split point of an ordered integer range with a non-negative start
/// is non-negative.
pub proof fn lemma_split_point_nonnegative(start_int: int, end_int: int, num_splits: int, i: int)
    requires
        num_splits >= 0,
        0 <= start_int <= end_int,
        i >= 0,
    ensures
        split_point(start_int, end_int, num_splits, i) >= 0,
{
    let w = end_int - start_int;
    assert(w * i >= 0) by (nonlinear_arith)
        requires
            w >= 0,
            i >= 0,
    ;
    lemma_div_pos_is_pos(w * i, num_splits + 1);
}

/// The split points are evenly spaced: from one to the next the step is the
/// width divided by the number of parts, rounded down or up.
pub proof fn lemma_split_points_evenly_spaced(start_int: int, end_int: int, num_splits: int, i: int)
    requires
        num_splits >= 0,
        start_int <= end_int,
        i >= 0,
    ensures
        ({
            let w = end_int - start_int;
            let d = num_splits + 1;
            let step = split_point(start_int, end_int, num_splits, i + 1) - split_point(
                start_int,
                end_int,
                num_splits,
                i,
            );
            step == w / d || step == w / d + 1
        }),
{
    let w = end_int - start_int;
    let d = num_splits + 1;
    let x = w * i;
    assert(w * (i + 1) == x + w) by (nonlinear_arith)
        requires
            x == w * i,
    ;
    assert(x >= 0) by (nonlinear_arith)
        requires
            x == w * i,
            w >= 0,
            i >= 0,
    ;
    lemma_fundamental_div_mod(x, d);
    lemma_fundamental_div_mod(w, d);
    lemma_mod_pos_bound_any(x, d);
    lemma_mod_pos_bound_any(w, d);
    let qx = x / d;
    let qw = w / d;
    let rx = x % d;
    let rw = w % d;
    assert(x + w == (qx + qw) * d + (rx + rw)) by (nonlinear_arith)
        requires
            x == d * qx + rx,
            w == d * qw + rw,
    ;
    if rx + rw < d {
        lemma_fundamental_div_mod_converse(x + w, d, qx + qw, rx + rw);
    } else {
        assert(x + w == (qx + qw + 1) * d + (rx + rw - d)) by (nonlinear_arith)
            requires
                x + w == (qx + qw) * d + (rx + rw),
        ;
        lemma_fundamental_div_mod_converse(x + w, d, qx + qw + 1, rx + rw - d);
    }
}

proof fn lemma_mod_pos_bound_any(x: int, d: int)
    requires
        d > 0,
    ensures
        0 <= x % d < d,
{
    vstd::arithmetic::div_mod::lemma_mod_bound(x, d);
}

/// Split candidates come in strictly increasing order when the integer range
/// is wider than `num_splits` and fits in `len` digits.
pub proof fn lemma_candidates_increasing(
    alpha: Seq<char>,
    start_int: int,
    end_int: int,
    num_splits: int,
    len: nat,
    i: int,
    j: int,
)
    requires
        alpha.len() > 0,
        strictly_sorted(alpha),
        num_splits >= 0,
        start_int >= 0,
        end_int - start_int > num_splits,
        end_int <= pow(alpha.len() as int, len),
        0 <= i < j <= num_splits,
    ensures
        lex_lt(
            split_candidate(alpha, start_int, end_int, num_splits, len, i),
            split_candidate(alpha, start_int, end_int, num_splits, len, j),
        ),
{
    lemma_split_points(start_int, end_int, num_splits, i, j);
    lemma_digits_string_monotone(
        alpha,
        split_point(start_int, end_int, num_splits, i),
        split_point(start_int, end_int, num_splits, j),
        len,
    );
}

/// Every accepted split lies strictly inside the range, and there are at
/// most `m` of them.
pub proof fn lemma_accepted_inside(
    alpha: Seq<char>,
    start: Seq<char>,
    end: Seq<char>,
    start_int: int,
    end_int: int,
    num_splits: int,
    len: nat,
    m: int,
)
    ensures
        forall|k: int|
            0 <= k < accepted_splits(alpha, start, end, start_int, end_int, num_splits, len, m).len()
                ==> strictly_inside(
                start,
                end,
                #[trigger] accepted_splits(
                    alpha,
                    start,
                    end,
                    start_int,
                    end_int,
                    num_splits,
                    len,
                    m,
                )[k],
            ),
        accepted_splits(alpha, start, end, start_int, end_int, num_splits, len, m).len() <= if m
            < 0 {
            0
        } else {
            m
        },
    decreases m,
{
    if m > 0 {
        lemma_accepted_inside(alpha, start, end, start_int, end_int, num_splits, len, m - 1);
    }
}

/// Every accepted split is spelled with the alphabet and has length `len`.
pub proof fn lemma_accepted_shape(
    alpha: Seq<char>,
    start: Seq<char>,
    end: Seq<char>,
    start_int: int,
    end_int: int,
    num_splits: int,
    len: nat,
    m: int,
)
    requires
        alpha.len() > 0,
    ensures
        forall|k: int|
            0 <= k < accepted_splits(alpha, start, end, start_int, end_int, num_splits, len, m).len()
                ==> {
                let s = #[trigger] accepted_splits(
                    alpha,
                    start,
                    end,
                    start_int,
                    end_int,
                    num_splits,
                    len,
                    m,
                )[k];
                &&& s.len() == len
                &&& forall|c: int| 0 <= c < s.len() ==> alpha.contains(#[trigger] s[c])
            },
    decreases m,
{
    if m > 0 {
        lemma_accepted_shape(alpha, start, end, start_int, end_int, num_splits, len, m - 1);
        lemma_int_string_shape(alpha, split_point(start_int, end_int, num_splits, m), len);
        let prev = accepted_splits(alpha, start, end, start_int, end_int, num_splits, len, m - 1);
        let cur = accepted_splits(alpha, start, end, start_int, end_int, num_splits, len, m);
        let c = split_candidate(alpha, start_int, end_int, num_splits, len, m);
        assert forall|k: int| 0 <= k < cur.len() implies {
            let s = #[trigger] cur[k];
            &&& s.len() == len
            &&& forall|x: int| 0 <= x < s.len() ==> alpha.contains(#[trigger] s[x])
        } by {
            if k < prev.len() {
                assert(cur[k] == prev[k]);
            } else {
                assert(cur[k] == c);
            }
        }
    }
}

/// Every accepted split among the first `m` candidates comes before any later
/// candidate.
proof fn lemma_accepted_before(
    alpha: Seq<char>,
    start: Seq<char>,
    end: Seq<char>,
    start_int: int,
    end_int: int,
    num_splits: int,
    len: nat,
    m: int,
    j: int,
)
    requires
        alpha.len() > 0,
        strictly_sorted(alpha),
        num_splits >= 0,
        start_int >= 0,
        end_int - start_int > num_splits,
        end_int <= pow(alpha.len() as int, len),
        m < j <= num_splits,
    ensures
        forall|k: int|
            0 <= k < accepted_splits(alpha, start, end, start_int, end_int, num_splits, len, m).len()
                ==> lex_lt(
                #[trigger] accepted_splits(
                    alpha,
                    start,
                    end,
                    start_int,
                    end_int,
                    num_splits,
                    len,
                    m,
                )[k],
                split_candidate(alpha, start_int, end_int, num_splits, len, j),
            ),
    decreases m,
{
    if m > 0 {
        lemma_accepted_before(alpha, start, end, start_int, end_int, num_splits, len, m - 1, j);
        lemma_candidates_increasing(alpha, start_int, end_int, num_splits, len, m, j);
        let prev = accepted_splits(alpha, start, end, start_int, end_int, num_splits, len, m - 1);
        let cur = accepted_splits(alpha, start, end, start_int, end_int, num_splits, len, m);
        assert forall|k: int| 0 <= k < cur.len() implies lex_lt(
            #[trigger] cur[k],
            split_candidate(alpha, start_int, end_int, num_splits, len, j),
        ) by {
            if k < prev.len() {
                assert(cur[k] == prev[k]);
            }
        }
    }
}

/// The accepted splits of an integer range wider than `num_splits` that fits
/// in `len` digits come in strictly increasing order.
pub proof fn lemma_accepted_sorted(
    alpha: Seq<char>,
    start: Seq<char>,
    end: Seq<char>,
    start_int: int,
    end_int: int,
    num_splits: int,
    len: nat,
    m: int,
)
    requires
        alpha.len() > 0,
        strictly_sorted(alpha),
        num_splits >= 0,
        start_int >= 0,
        end_int - start_int > num_splits,
        end_int <= pow(alpha.len() as int, len),
        m <= num_splits,
    ensures
        forall|a: int, b: int|
            0 <= a < b < accepted_splits(
                alpha,
                start,
                end,
                start_int,
                end_int,
                num_splits,
                len,
                m,
            ).len() ==> lex_lt(
                #[trigger] accepted_splits(
                    alpha,
                    start,
                    end,
                    start_int,
                    end_int,
                    num_splits,
                    len,
                    m,
                )[a],
                #[trigger] accepted_splits(
                    alpha,
                    start,
                    end,
                    start_int,
                    end_int,
                    num_splits,
                    len,
                    m,
                )[b],
            ),
    decreases m,
{
    if m > 0 {
        lemma_accepted_sorted(alpha, start, end, start_int, end_int, num_splits, len, m - 1);
        lemma_accepted_before(alpha, start, end, start_int, end_int, num_splits, len, m - 1, m);
        let prev = accepted_splits(alpha, start, end, start_int, end_int, num_splits, len, m - 1);
        let cur = accepted_splits(alpha, start, end, start_int, end_int, num_splits, len, m);
        assert forall|a: int, b: int| 0 <= a < b < cur.len() implies lex_lt(
            #[trigger] cur[a],
            #[trigger] cur[b],
        ) by {
            assert(cur[a] == prev[a]);
            if b < prev.len() {
                assert(cur[b] == prev[b]);
            }
        }
    }
}

/// The characters of an extended alphabet are those of the alphabet and of
/// the extra characters, sorted, each once.
pub proof fn lemma_extended_alphabet(alpha: Seq<char>, extra: Seq<char>)
    ensures
        strictly_sorted(extended_alphabet(alpha, extra)),
        extended_alphabet(alpha, extra).to_set() == alpha.to_set() + extra.to_set(),
{
    let all = alpha + extra;
    assert(all.to_set() =~= alpha.to_set() + extra.to_set()) by {
        assert forall|c: char| #[trigger] all.to_set().contains(c) implies (alpha.to_set()
            + extra.to_set()).contains(c) by {
            let i = choose|i: int| 0 <= i < all.len() && all[i] == c;
            if i < alpha.len() {
                assert(alpha[i] == c);
            } else {
                assert(extra[i - alpha.len()] == c);
            }
        }
        assert forall|c: char| #[trigger] (alpha.to_set() + extra.to_set()).contains(c) implies all.to_set().contains(
            c,
        ) by {
            if alpha.to_set().contains(c) {
                let i = choose|i: int| 0 <= i < alpha.len() && alpha[i] == c;
                assert(all[i] == c);
            } else {
                let i = choose|i: int| 0 <= i < extra.len() && extra[i] == c;
                assert(all[alpha.len() + i] == c);
            }
        }
    }
    lemma_sorted_listing_exists(all);
}

/// Adding two strings of characters to an alphabet one after the other, in
/// either order, gives the alphabet that adding them together gives.
pub proof fn lemma_extended_alphabet_order_independent(
    alpha: Seq<char>,
    x: Seq<char>,
    y: Seq<char>,
)
    ensures
        extended_alphabet(extended_alphabet(alpha, x), y) == extended_alphabet(alpha, x + y),
        extended_alphabet(extended_alphabet(alpha, y), x) == extended_alphabet(alpha, x + y),
{
    lemma_extended_alphabet(alpha, x);
    lemma_extended_alphabet(alpha, y);
    seq_to_set_distributes_over_add(x, y);
    assert(extended_alphabet(alpha, x).to_set() + y.to_set() =~= alpha.to_set() + (x
        + y).to_set());
    assert(extended_alphabet(alpha, y).to_set() + x.to_set() =~= alpha.to_set() + (x
        + y).to_set());
}

/// Whether two non-empty bounds agree once padded does not depend on which
/// of them is the start.
pub proof fn lemma_equal_with_padding_symmetric(alpha: Seq<char>, a: Seq<char>, b: Seq<char>)
    requires
        a.len() > 0,
        b.len() > 0,
    ensures
        equal_with_padding(alpha, a, b) == equal_with_padding(alpha, b, a),
{
}

/// Bounds that agree once padded with the smallest character have the same
/// value at every length.
pub proof fn lemma_equal_with_padding_zero_width(
    alpha: Seq<char>,
    start: Seq<char>,
    end: Seq<char>,
    k: nat,
)
    requires
        alpha.len() > 0,
        equal_with_padding(alpha, start, end),
    ensures
        range_width(alpha, start, end, k) == 0,
    decreases k,
{
    if k > 0 {
        lemma_equal_with_padding_zero_width(alpha, start, end, (k - 1) as nat);
    }
}

/// Splitting the same range again with the same splitter gives the same
/// split points, and the alphabet does not change the second time.
pub proof fn lemma_split_range_repeatable(
    alpha: Seq<char>,
    start: Seq<char>,
    end: Seq<char>,
    num_splits: int,
)
    requires
        strictly_sorted(alpha),
        split_range_defined(alpha, start, end, num_splits),
    ensures
        ({
            let again = split_range_alphabet(alpha, start, end, num_splits);
            &&& split_range_defined(again, start, end, num_splits)
            &&& split_range_alphabet(again, start, end, num_splits) == again
            &&& split_range_result(again, start, end, num_splits) == split_range_result(
                alpha,
                start,
                end,
                num_splits,
            )
        }),
{
    if split_is_computed(alpha, start, end, num_splits) {
        let a2 = extended_alphabet(alpha, start + end);
        lemma_extended_alphabet(alpha, start + end);
        lemma_extended_alphabet_idempotent(a2, start + end);
        if equal_with_padding(a2, start, end) {
            let k = choose|k: nat|
                1 <= k <= usize::MAX && #[trigger] range_width(a2, start, end, k) > num_splits;
            lemma_equal_with_padding_zero_width(a2, start, end, k);
        }
        assert(split_is_computed(a2, start, end, num_splits));
    }
}

} // verus!
