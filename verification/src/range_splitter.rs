//! Splitting a lexicographic range of strings into equal parts.
//!
//! Strings over a sorted alphabet of `n` characters are read as numbers in
//! base `n` (the first character is the most significant digit). A range
//! `[start, end)` is turned into a pair of integers of the smallest length
//! whose difference exceeds the number of splits wanted; the split points
//! are then spaced evenly between them and written back as strings of that
//! length. An empty `end` stands for the end of the whole namespace.
use crate::alphabet::{
    extended_alphabet, insert_all_sorted, lemma_extended_alphabet_idempotent,
    lemma_is_sorted_listing, sorted_listing, strictly_sorted,
};
use crate::bignum::{
    big_add, big_div, big_from_usize, big_gt, big_mul, big_rem, big_sub, big_to_usize, trunc_div,
    trunc_rem, BigNum,
};
use crate::lexical::{chars_of, lex_less, lex_lt, push_char};
use crate::split_laws::{
    lemma_accepted_inside, lemma_accepted_shape, lemma_accepted_sorted, lemma_digits_string_decodes,
    lemma_extended_alphabet,
};
use crate::split_count::lemma_split_range_count;
use crate::split_termination::lemma_split_range_defined_iff;
use vstd::arithmetic::div_mod::{lemma_div_pos_is_pos, lemma_mod_pos_bound};
use vstd::arithmetic::power::pow;
use std::collections::{HashMap, HashSet};
use vstd::prelude::*;
use vstd::std_specs::cmp::PartialEqSpecImpl;

verus! {

// ---------------------------------------------------------------------------
// Specification
// ---------------------------------------------------------------------------

/// The position of `c` in the alphabet, or 0 when `c` is not in it.
pub open spec fn char_position(alpha: Seq<char>, c: char) -> int {
    if alpha.contains(c) {
        choose|i: int| 0 <= i < alpha.len() && alpha[i] == c
    } else {
        0
    }
}

/// The `i`-th character of `s`, or `d` past its end.
pub open spec fn char_or_default(s: Seq<char>, i: int, d: char) -> char {
    if 0 <= i < s.len() {
        s[i]
    } else {
        d
    }
}

/// The first `k` characters of `s` (padded with `d`) read as a base-`n`
/// number, most significant digit first, where `n` is the alphabet's size.
pub open spec fn prefix_value(alpha: Seq<char>, s: Seq<char>, d: char, k: nat) -> int
    decreases k,
{
    if k == 0 {
        0
    } else {
        prefix_value(alpha, s, d, (k - 1) as nat) * alpha.len() + char_position(
            alpha,
            char_or_default(s, k - 1, d),
        )
    }
}

/// The character that pads the end of the range: the largest character
/// when the range is unbounded above, the smallest one otherwise.
pub open spec fn end_default(alpha: Seq<char>, end: Seq<char>) -> char {
    if end.len() == 0 {
        alpha.last()
    } else {
        alpha[0]
    }
}

/// The start of the range as a number of `k` digits.
pub open spec fn start_value(alpha: Seq<char>, start: Seq<char>, k: nat) -> int {
    prefix_value(alpha, start, alpha[0], k)
}

/// The end of the range as a number of `k` digits.
pub open spec fn end_value(alpha: Seq<char>, end: Seq<char>, k: nat) -> int {
    prefix_value(alpha, end, end_default(alpha, end), k)
}

/// How many `k`-digit numbers lie between start and end.
pub open spec fn range_width(alpha: Seq<char>, start: Seq<char>, end: Seq<char>, k: nat) -> int {
    end_value(alpha, end, k) - start_value(alpha, start, k)
}

/// `k` is the least number of digits at which the range is wider than
/// `num_splits`.
pub open spec fn is_minimal_length(
    alpha: Seq<char>,
    start: Seq<char>,
    end: Seq<char>,
    num_splits: int,
    k: nat,
) -> bool {
    &&& 1 <= k
    &&& range_width(alpha, start, end, k) > num_splits
    &&& forall|j: nat| 1 <= j < k ==> #[trigger] range_width(alpha, start, end, j) <= num_splits
}

/// Some length that fits in a `usize` makes the range wider than
/// `num_splits`.
pub open spec fn has_minimal_length(
    alpha: Seq<char>,
    start: Seq<char>,
    end: Seq<char>,
    num_splits: int,
) -> bool {
    exists|k: nat| 1 <= k <= usize::MAX && #[trigger] range_width(alpha, start, end, k) > num_splits
}

/// The least number of digits at which the range is wider than `num_splits`.
pub open spec fn minimal_length(
    alpha: Seq<char>,
    start: Seq<char>,
    end: Seq<char>,
    num_splits: int,
) -> nat {
    choose|k: nat| is_minimal_length(alpha, start, end, num_splits, k)
}

/// The `i`-th of `num_splits` evenly spaced points between the integers
/// `start_int` and `end_int`: the width times `i` is divided by the number of
/// parts, truncating toward zero.
pub open spec fn split_point(start_int: int, end_int: int, num_splits: int, i: int) -> int {
    start_int + trunc_div((end_int - start_int) * i, num_splits + 1)
}

/// The `len` least significant base-`n` digits of `p`, written with the
/// alphabet, most significant first.
pub open spec fn digits_string(alpha: Seq<char>, p: int, len: nat) -> Seq<char>
    decreases len,
{
    if len == 0 {
        Seq::empty()
    } else {
        digits_string(alpha, p / (alpha.len() as int), (len - 1) as nat).push(alpha[p % (alpha.len() as int)])
    }
}

/// The string of `len` characters written for the integer `p`: its digits
/// when it is not negative; a negative number leaves every digit at the
/// smallest character.
pub open spec fn int_string(alpha: Seq<char>, p: int, len: nat) -> Seq<char> {
    if p >= 0 {
        digits_string(alpha, p, len)
    } else {
        Seq::new(len, |i: int| alpha[0])
    }
}

/// The string of `len` digits for the `i`-th split point.
pub open spec fn split_candidate(
    alpha: Seq<char>,
    start_int: int,
    end_int: int,
    num_splits: int,
    len: nat,
    i: int,
) -> Seq<char> {
    int_string(alpha, split_point(start_int, end_int, num_splits, i), len)
}

/// `s` is non-empty and lies strictly inside the range.
pub open spec fn strictly_inside(start: Seq<char>, end: Seq<char>, s: Seq<char>) -> bool {
    &&& s.len() > 0
    &&& lex_lt(start, s)
    &&& (end.len() == 0 || lex_lt(s, end))
}

/// The candidates for the split points `1..=m` of the integer range
/// `[start_int, end_int)` that lie strictly inside the string range
/// `[start, end)`, in order.
pub open spec fn accepted_splits(
    alpha: Seq<char>,
    start: Seq<char>,
    end: Seq<char>,
    start_int: int,
    end_int: int,
    num_splits: int,
    len: nat,
    m: int,
) -> Seq<Seq<char>>
    decreases m,
{
    if m <= 0 {
        Seq::empty()
    } else {
        let prev = accepted_splits(alpha, start, end, start_int, end_int, num_splits, len, m - 1);
        let c = split_candidate(alpha, start_int, end_int, num_splits, len, m);
        if strictly_inside(start, end, c) {
            prev.push(c)
        } else {
            prev
        }
    }
}

/// Start and end (with a non-empty end) agree once both are padded with
/// the alphabet's smallest character.
pub open spec fn equal_with_padding(alpha: Seq<char>, start: Seq<char>, end: Seq<char>) -> bool {
    &&& end.len() > 0
    &&& forall|i: int|
        0 <= i < start.len() || 0 <= i < end.len() ==> char_or_default(start, i, alpha[0])
            == char_or_default(end, i, alpha[0])
}

/// The request asks for a split of a proper range: at least one split, a
/// start before the end (or no end), and bounds that do not name the same
/// point.
pub open spec fn split_is_computed(
    alpha: Seq<char>,
    start: Seq<char>,
    end: Seq<char>,
    num_splits: int,
) -> bool {
    &&& num_splits >= 1
    &&& (end.len() == 0 || lex_lt(start, end))
    &&& !equal_with_padding(alpha, start, end)
}

/// The inputs on which splitting returns: the alphabet is not empty where a
/// character of it is needed, some length makes the range wide enough, and
/// the number of intervals fits in a `usize`.
pub open spec fn split_range_defined(
    alpha: Seq<char>,
    start: Seq<char>,
    end: Seq<char>,
    num_splits: int,
) -> bool {
    &&& (num_splits >= 1 && end.len() > 0 && lex_lt(start, end)) ==> alpha.len() > 0
    &&& split_is_computed(alpha, start, end, num_splits) ==> {
        let a = extended_alphabet(alpha, start + end);
        &&& a.len() > 0
        &&& num_splits < usize::MAX
        &&& has_minimal_length(a, start, end, num_splits)
    }
}

/// The split points returned for a range, given the alphabet before the call.
pub open spec fn split_range_result(
    alpha: Seq<char>,
    start: Seq<char>,
    end: Seq<char>,
    num_splits: int,
) -> Seq<Seq<char>> {
    if split_is_computed(alpha, start, end, num_splits) {
        let a = extended_alphabet(alpha, start + end);
        let len = minimal_length(a, start, end, num_splits);
        accepted_splits(
            a,
            start,
            end,
            start_value(a, start, len),
            end_value(a, end, len),
            num_splits,
            len,
            num_splits,
        )
    } else {
        Seq::empty()
    }
}

/// The alphabet after a call, given the alphabet before it.
pub open spec fn split_range_alphabet(
    alpha: Seq<char>,
    start: Seq<char>,
    end: Seq<char>,
    num_splits: int,
) -> Seq<char> {
    if split_is_computed(alpha, start, end, num_splits) {
        extended_alphabet(alpha, start + end)
    } else {
        alpha
    }
}

/// The views of a list of strings.
pub open spec fn string_views(v: Seq<String>) -> Seq<Seq<char>> {
    v.map_values(|s: String| s@)
}

// ---------------------------------------------------------------------------
// Lemmas
// ---------------------------------------------------------------------------

/// In a strictly sorted alphabet a character sits at a single position.
pub proof fn lemma_char_position(alpha: Seq<char>, c: char, i: int)
    requires
        strictly_sorted(alpha),
        0 <= i < alpha.len(),
        alpha[i] == c,
    ensures
        char_position(alpha, c) == i,
{
    assert(alpha.contains(c));
    let j = choose|j: int| 0 <= j < alpha.len() && alpha[j] == c;
    if j < i {
        assert(alpha[j] < alpha[i]);
    } else if j > i {
        assert(alpha[i] < alpha[j]);
    }
}

/// Positions lie within the alphabet.
pub proof fn lemma_char_position_bounds(alpha: Seq<char>, c: char)
    requires
        alpha.len() > 0,
    ensures
        0 <= char_position(alpha, c) < alpha.len(),
{
}

/// A prefix value is a non-negative number below `n^k`.
pub proof fn lemma_prefix_value_bounds(alpha: Seq<char>, s: Seq<char>, d: char, k: nat)
    requires
        alpha.len() > 0,
    ensures
        0 <= prefix_value(alpha, s, d, k),
        prefix_value(alpha, s, d, k) < pow(alpha.len() as int, k),
    decreases k,
{
    reveal(pow);
    if k > 0 {
        lemma_prefix_value_bounds(alpha, s, d, (k - 1) as nat);
        lemma_char_position_bounds(alpha, char_or_default(s, k - 1, d));
        let v = prefix_value(alpha, s, d, (k - 1) as nat);
        let n = alpha.len() as int;
        let p = pow(n, (k - 1) as nat);
        let c = char_position(alpha, char_or_default(s, k - 1, d));
        assert(pow(n, k) == n * p);
        assert(p * n == n * p) by (nonlinear_arith);
        assert(v * n + c < p * n) by (nonlinear_arith)
            requires
                0 <= v < p,
                0 <= c < n,
        ;
        assert(0 <= v * n) by (nonlinear_arith)
            requires
                0 <= v,
                0 < n,
        ;
    }
}

/// Only one length is the minimal one.
pub proof fn lemma_minimal_length_unique(
    alpha: Seq<char>,
    start: Seq<char>,
    end: Seq<char>,
    num_splits: int,
    k: nat,
)
    requires
        is_minimal_length(alpha, start, end, num_splits, k),
    ensures
        minimal_length(alpha, start, end, num_splits) == k,
{
    let m = minimal_length(alpha, start, end, num_splits);
    assert(is_minimal_length(alpha, start, end, num_splits, m));
    if m < k {
        assert(range_width(alpha, start, end, m) <= num_splits);
    } else if m > k {
        assert(range_width(alpha, start, end, k) <= num_splits);
    }
}

proof fn lemma_push_reverse(s: Seq<char>, c: char)
    ensures
        s.push(c).reverse() == seq![c] + s.reverse(),
{
    assert(s.push(c).reverse() =~= seq![c] + s.reverse());
}

// ---------------------------------------------------------------------------
// Implementation
// ---------------------------------------------------------------------------

/// A range of strings read as a pair of integers of `min_len` digits. Two
/// of them are equal when their bounds have equal values and their lengths
/// agree.
#[derive(Debug, Clone)]
pub struct MinimalIntRange {
    pub start_int: BigNum,
    pub end_int: BigNum,
    pub min_len: usize,
}

impl PartialEq for MinimalIntRange {
    fn eq(&self, other: &Self) -> (r: bool) {
        self.start_int == other.start_int && self.end_int == other.end_int && self.min_len
            == other.min_len
    }
}

impl PartialEqSpecImpl for MinimalIntRange {
    open spec fn obeys_eq_spec() -> bool {
        true
    }

    open spec fn eq_spec(&self, other: &Self) -> bool {
        &&& self.start_int@ == other.start_int@
        &&& self.end_int@ == other.end_int@
        &&& self.min_len == other.min_len
    }
}

/// The key under which a character is filed: its code point.
pub open spec fn char_key(c: char) -> u32 {
    c as u32
}

/// The keys of the characters of `chars`.
pub open spec fn alphabet_keys(chars: Seq<char>) -> Set<u32> {
    Set::new(|k: u32| exists|c: char| chars.contains(c) && char_key(c) == k)
}

proof fn lemma_char_key_injective(a: char, b: char)
    requires
        char_key(a) == char_key(b),
    ensures
        a == b,
{
}

/// Adding a character adds its key.
proof fn lemma_alphabet_keys_push(s: Seq<char>, c: char)
    ensures
        alphabet_keys(s.push(c)) == alphabet_keys(s).insert(char_key(c)),
{
    assert forall|k: u32| #[trigger] alphabet_keys(s.push(c)).contains(k) implies alphabet_keys(
        s,
    ).insert(char_key(c)).contains(k) by {
        let x = choose|x: char| s.push(c).contains(x) && char_key(x) == k;
        let i = choose|i: int| 0 <= i < s.len() + 1 && s.push(c)[i] == x;
        if i < s.len() {
            assert(s[i] == x);
            assert(s.contains(x));
        }
    }
    assert forall|k: u32| #[trigger] alphabet_keys(s).insert(char_key(c)).contains(k) implies alphabet_keys(
        s.push(c),
    ).contains(k) by {
        if k == char_key(c) {
            assert(s.push(c)[s.len() as int] == c);
            assert(s.push(c).contains(c));
        } else {
            let x = choose|x: char| s.contains(x) && char_key(x) == k;
            let i = choose|i: int| 0 <= i < s.len() && s[i] == x;
            assert(s.push(c)[i] == x);
            assert(s.push(c).contains(x));
        }
    }
    assert(alphabet_keys(s.push(c)) =~= alphabet_keys(s).insert(char_key(c)));
}

/// The keys of a list of characters depend only on which characters it
/// holds.
proof fn lemma_alphabet_keys_union(a: Seq<char>, b: Seq<char>, u: Seq<char>)
    requires
        u.to_set() == a.to_set() + b.to_set(),
    ensures
        alphabet_keys(u) == alphabet_keys(a) + alphabet_keys(b),
{
    assert forall|c: char| u.contains(c) <==> a.contains(c) || b.contains(c) by {
        assert(u.to_set().contains(c) == u.contains(c));
        assert(a.to_set().contains(c) == a.contains(c));
        assert(b.to_set().contains(c) == b.contains(c));
    }
    assert(alphabet_keys(u) =~= alphabet_keys(a) + alphabet_keys(b));
}

/// Splits lexicographic ranges of strings over a growing alphabet. The
/// alphabet is kept sorted, together with the set of its characters and the
/// position of each, both filed under the character's key.
pub struct RangeSplitter {
    alphabet_map: HashMap<u32, usize>,
    sorted_alphabet: Vec<char>,
    alphabet_set: HashSet<u32>,
}

impl RangeSplitter {
    #[verifier::type_invariant]
    spec fn well_formed(self) -> bool {
        &&& strictly_sorted(self.sorted_alphabet@)
        &&& self.alphabet_set@ == alphabet_keys(self.sorted_alphabet@)
        &&& self.alphabet_map@.dom() == alphabet_keys(self.sorted_alphabet@)
        &&& forall|i: int|
            0 <= i < self.sorted_alphabet@.len() ==> self.alphabet_map@[char_key(
                #[trigger] self.sorted_alphabet@[i],
            )] == i
    }
}

impl View for RangeSplitter {
    type V = Seq<char>;

    /// The alphabet, sorted, each character once.
    closed spec fn view(&self) -> Seq<char> {
        self.sorted_alphabet@
    }
}

/// The `index`-th character of `characters`, or `default_char` past its end.
pub fn get_char_or_default(characters: &str, index: usize, default_char: char) -> (c: char)
    ensures
        c == char_or_default(characters@, index as int, default_char),
{
    if index < characters.unicode_len() {
        characters.get_char(index)
    } else {
        default_char
    }
}

/// The position of each character of a strictly sorted alphabet, filed
/// under its key.
fn alphabet_positions(sorted_alphabet: &Vec<char>) -> (map: HashMap<u32, usize>)
    requires
        strictly_sorted(sorted_alphabet@),
    ensures
        map@.dom() == alphabet_keys(sorted_alphabet@),
        forall|i: int|
            0 <= i < sorted_alphabet@.len() ==> map@[char_key(#[trigger] sorted_alphabet@[i])] == i,
{
    broadcast use vstd::std_specs::hash::group_hash_axioms;

    let mut map: HashMap<u32, usize> = HashMap::new();
    let mut i: usize = 0;
    proof {
        assert(alphabet_keys(sorted_alphabet@.take(0)) =~= Set::<u32>::empty());
        assert(map@.dom() =~= Set::<u32>::empty());
    }
    while i < sorted_alphabet.len()
        invariant
            i <= sorted_alphabet.len(),
            strictly_sorted(sorted_alphabet@),
            map@.dom() == alphabet_keys(sorted_alphabet@.take(i as int)),
            forall|j: int| 0 <= j < i ==> map@[char_key(#[trigger] sorted_alphabet@[j])] == j,
        decreases sorted_alphabet.len() - i,
    {
        let c = sorted_alphabet[i];
        proof {
            lemma_alphabet_keys_push(sorted_alphabet@.take(i as int), c);
            assert(sorted_alphabet@.take(i + 1) =~= sorted_alphabet@.take(i as int).push(c));
            assert forall|j: int| 0 <= j < i implies char_key(#[trigger] sorted_alphabet@[j])
                != char_key(c) by {
                assert(sorted_alphabet@[j] < c);
                if char_key(sorted_alphabet@[j]) == char_key(c) {
                    lemma_char_key_injective(sorted_alphabet@[j], c);
                }
            }
        }
        map.insert(c as u32, i);
        proof {
            assert(map@.dom() =~= alphabet_keys(sorted_alphabet@.take(i + 1)));
        }
        i = i + 1;
    }
    proof {
        assert(sorted_alphabet@.take(i as int) =~= sorted_alphabet@);
    }
    map
}

/// The keys of the characters of `chars`, as a set.
fn alphabet_key_set(chars: &Vec<char>) -> (set: HashSet<u32>)
    ensures
        set@ == alphabet_keys(chars@),
{
    broadcast use vstd::std_specs::hash::group_hash_axioms;

    let mut set: HashSet<u32> = HashSet::new();
    let mut i: usize = 0;
    proof {
        assert(alphabet_keys(chars@.take(0)) =~= Set::<u32>::empty());
    }
    while i < chars.len()
        invariant
            i <= chars.len(),
            set@ == alphabet_keys(chars@.take(i as int)),
        decreases chars.len() - i,
    {
        let c = chars[i];
        proof {
            lemma_alphabet_keys_push(chars@.take(i as int), c);
            assert(chars@.take(i + 1) =~= chars@.take(i as int).push(c));
        }
        set.insert(c as u32);
        i = i + 1;
    }
    proof {
        assert(chars@.take(i as int) =~= chars@);
    }
    set
}

/// A non-empty `end_range` and `start_range` agree once both are padded with
/// `smallest_char`.
fn equal_when_padded(smallest_char: char, start_range: &str, end_range: &str) -> (r: bool)
    requires
        end_range@.len() > 0,
    ensures
        r == forall|i: int|
            0 <= i < start_range@.len() || 0 <= i < end_range@.len() ==> char_or_default(
                start_range@,
                i,
                smallest_char,
            ) == char_or_default(end_range@, i, smallest_char),
{
    let start_len = start_range.unicode_len();
    let end_len = end_range.unicode_len();
    let longest = if start_len < end_len {
        end_len
    } else {
        start_len
    };
    let mut i: usize = 0;
    while i < longest
        invariant
            i <= longest,
            longest == start_range@.len() || longest == end_range@.len(),
            start_range@.len() <= longest,
            end_range@.len() <= longest,
            forall|j: int|
                0 <= j < i ==> char_or_default(start_range@, j, smallest_char) == char_or_default(
                    end_range@,
                    j,
                    smallest_char,
                ),
        decreases longest - i,
    {
        let char_start = get_char_or_default(start_range, i, smallest_char);
        let char_end = get_char_or_default(end_range, i, smallest_char);
        if char_start != char_end {
            return false;
        }
        i = i + 1;
    }
    true
}

impl RangeSplitter {
    /// A splitter whose alphabet is the characters of `alphabet`, sorted,
    /// each once.
    pub fn new(alphabet: &str) -> (splitter: Self)
        ensures
            splitter@ == sorted_listing(alphabet@.to_set()),
            strictly_sorted(splitter@),
            splitter@.to_set() == alphabet@.to_set(),
    {
        let chars = chars_of(alphabet);
        let mut sorted_alphabet: Vec<char> = Vec::new();
        insert_all_sorted(&mut sorted_alphabet, &chars);
        proof {
            assert(Seq::<char>::empty().to_set() + alphabet@.to_set() =~= alphabet@.to_set());
            lemma_is_sorted_listing(sorted_alphabet@);
        }
        let alphabet_set = alphabet_key_set(&sorted_alphabet);
        let alphabet_map = alphabet_positions(&sorted_alphabet);
        RangeSplitter { alphabet_map, sorted_alphabet, alphabet_set }
    }

    /// The alphabet: its characters in increasing order, each once.
    pub fn alphabet(&self) -> (a: &[char])
        ensures
            a@ == self@,
            strictly_sorted(self@),
    {
        proof {
            use_type_invariant(self);
        }
        self.sorted_alphabet.as_slice()
    }

    /// The position of `c` in the alphabet, or 0 when it is not there.
    fn position_of(&self, c: char) -> (p: usize)
        ensures
            p == char_position(self@, c),
    {
        broadcast use vstd::std_specs::hash::group_hash_axioms;

        proof {
            use_type_invariant(self);
        }
        let key: u32 = c as u32;
        match self.alphabet_map.get(&key) {
            Some(p) => {
                proof {
                    assert(alphabet_keys(self@).contains(char_key(c)));
                    let x = choose|x: char| self@.contains(x) && char_key(x) == char_key(c);
                    lemma_char_key_injective(x, c);
                    let i = choose|i: int| 0 <= i < self@.len() && self@[i] == c;
                    lemma_char_position(self@, c, i);
                }
                *p
            },
            None => {
                proof {
                    if self@.contains(c) {
                        assert(alphabet_keys(self@).contains(char_key(c)));
                    }
                }
                0
            },
        }
    }

    /// Adds the characters of `characters` to the alphabet. Characters it
    /// holds already leave it as it is.
    pub fn add_characters_to_alphabet(&mut self, characters: &str)
        ensures
            final(self)@ == extended_alphabet(old(self)@, characters@),
            final(self)@.to_set() == old(self)@.to_set() + characters@.to_set(),
            characters@.to_set().subset_of(old(self)@.to_set()) ==> final(self)@ == old(self)@,
    {
        broadcast use vstd::std_specs::hash::group_hash_axioms;

        proof {
            use_type_invariant(&*self);
        }
        let ghost alpha = self@;
        proof {
            if characters@.to_set().subset_of(alpha.to_set()) {
                lemma_extended_alphabet_idempotent(alpha, characters@);
            }
        }
        let chars = chars_of(characters);
        let empty_map: HashMap<u32, usize> = HashMap::new();
        let empty_alphabet: Vec<char> = Vec::new();
        let empty_set: HashSet<u32> = HashSet::new();
        proof {
            assert(alphabet_keys(empty_alphabet@) =~= Set::<u32>::empty());
            assert(empty_map@.dom() =~= Set::<u32>::empty());
        }
        let mut taken = RangeSplitter {
            alphabet_map: empty_map,
            sorted_alphabet: empty_alphabet,
            alphabet_set: empty_set,
        };
        std::mem::swap(self, &mut taken);
        proof {
            use_type_invariant(&taken);
        }
        let RangeSplitter { alphabet_map, mut sorted_alphabet, mut alphabet_set } = taken;
        let mut new_chars = false;
        let mut j: usize = 0;
        proof {
            assert(alphabet_keys(chars@.take(0)) =~= Set::<u32>::empty());
            assert(alphabet_set@ =~= alphabet_keys(alpha) + alphabet_keys(chars@.take(0)));
        }
        while j < chars.len()
            invariant
                j <= chars.len(),
                chars@ == characters@,
                alphabet_set@ == alphabet_keys(alpha) + alphabet_keys(chars@.take(j as int)),
                !new_chars ==> alphabet_keys(chars@.take(j as int)).subset_of(alphabet_keys(alpha)),
            decreases chars.len() - j,
        {
            let c = chars[j];
            proof {
                lemma_alphabet_keys_push(chars@.take(j as int), c);
                assert(chars@.take(j + 1) =~= chars@.take(j as int).push(c));
            }
            if alphabet_set.insert(c as u32) {
                new_chars = true;
            }
            proof {
                assert(alphabet_set@ =~= alphabet_keys(alpha) + alphabet_keys(chars@.take(j + 1)));
            }
            j = j + 1;
        }
        proof {
            assert(chars@.take(j as int) =~= chars@);
        }
        if new_chars {
            insert_all_sorted(&mut sorted_alphabet, &chars);
            let alphabet_map = alphabet_positions(&sorted_alphabet);
            proof {
                lemma_alphabet_keys_union(alpha, chars@, sorted_alphabet@);
            }
            *self = RangeSplitter { alphabet_map, sorted_alphabet, alphabet_set };
            proof {
                lemma_is_sorted_listing(self@);
            }
        } else {
            proof {
                assert forall|c: char| #[trigger] characters@.to_set().contains(c) implies alpha.to_set().contains(c) by {
                    assert(characters@.contains(c));
                    assert(alphabet_keys(chars@).contains(char_key(c)));
                    let x = choose|x: char| alpha.contains(x) && char_key(x) == char_key(c);
                    lemma_char_key_injective(x, c);
                }
                lemma_extended_alphabet_idempotent(alpha, characters@);
                assert(alphabet_set@ =~= alphabet_keys(alpha));
            }
            *self = RangeSplitter { alphabet_map, sorted_alphabet, alphabet_set };
        }
        proof {
            lemma_extended_alphabet(alpha, characters@);
        }
    }

    /// Start and end (with a non-empty end) name the same point once both
    /// are padded with the smallest character.
    pub fn is_range_equal_with_padding(&self, start_range: &str, end_range: &str) -> (r: bool)
        requires
            end_range@.len() > 0 ==> self@.len() > 0,
        ensures
            r == equal_with_padding(self@, start_range@, end_range@),
    {
        if end_range.is_empty() {
            return false;
        }
        equal_when_padded(self.sorted_alphabet[0], start_range, end_range)
    }

    /// Whether `split_range` returns on these arguments (its precondition).
    /// Bounds longer than `usize::MAX / 2` characters, which no string in
    /// memory reaches, are answered `false`.
    pub fn split_range_returns(&self, start_range: &str, end_range: &str, num_splits: usize) -> (r:
        bool)
        ensures
            r ==> split_range_defined(self@, start_range@, end_range@, num_splits as int),
            start_range@.len() <= usize::MAX / 2 && end_range@.len() <= usize::MAX / 2 ==> (r
                == split_range_defined(self@, start_range@, end_range@, num_splits as int)),
    {
        proof {
            use_type_invariant(self);
        }
        if start_range.unicode_len() > usize::MAX / 2 || end_range.unicode_len() > usize::MAX / 2 {
            return false;
        }
        proof {
            lemma_split_range_defined_iff(self@, start_range@, end_range@, num_splits as int);
        }
        if num_splits < 1 {
            return true;
        }
        if !end_range.is_empty() {
            let start_chars = chars_of(start_range);
            let end_chars = chars_of(end_range);
            if !lex_less(&start_chars, &end_chars) {
                return true;
            }
            if self.sorted_alphabet.len() == 0 {
                return false;
            }
        }
        if self.is_range_equal_with_padding(start_range, end_range) {
            return true;
        }
        if num_splits == usize::MAX {
            return false;
        }
        let mut combined = String::from_str(start_range);
        combined.append(end_range);
        let mut extended = self.sorted_alphabet.clone();
        let combined_chars = chars_of(combined.as_str());
        proof {
            assert(extended@ =~= self.sorted_alphabet@);
        }
        insert_all_sorted(&mut extended, &combined_chars);
        proof {
            lemma_is_sorted_listing(extended@);
            assert(combined@ == start_range@ + end_range@);
        }
        if extended.len() < 2 {
            return false;
        }
        end_range.is_empty() || !equal_when_padded(extended[0], start_range, end_range)
    }

    /// Splits the range `[start_range, end_range)` into `num_splits + 1`
    /// parts of (nearly) equal size and returns the split points that fall
    /// strictly inside the range, in increasing order. An empty `end_range`
    /// means the range is unbounded above. The characters of both bounds join
    /// the alphabet before the arithmetic.
    pub fn split_range(&mut self, start_range: &str, end_range: &str, num_splits: usize) -> (splits:
        Vec<String>)
        requires
            split_range_defined(old(self)@, start_range@, end_range@, num_splits as int),
        ensures
            final(self)@ == split_range_alphabet(
                old(self)@,
                start_range@,
                end_range@,
                num_splits as int,
            ),
            strictly_sorted(final(self)@),
            string_views(splits@) == split_range_result(
                old(self)@,
                start_range@,
                end_range@,
                num_splits as int,
            ),
            splits.len() <= num_splits,
            forall|k: int|
                0 <= k < splits.len() ==> strictly_inside(
                    start_range@,
                    end_range@,
                    #[trigger] splits@[k]@,
                ),
            forall|a: int, b: int|
                0 <= a < b < splits.len() ==> lex_lt(#[trigger] splits@[a]@, #[trigger] splits@[b]@),
            forall|k: int|
                0 <= k < splits.len() ==> {
                    let s = #[trigger] splits@[k]@;
                    &&& s.len() == minimal_length(
                        final(self)@,
                        start_range@,
                        end_range@,
                        num_splits as int,
                    )
                    &&& forall|c: int| 0 <= c < s.len() ==> final(self)@.contains(#[trigger] s[c])
                },
            split_is_computed(old(self)@, start_range@, end_range@, num_splits as int)
                ==> final(self)@.to_set() == old(self)@.to_set() + (start_range@ + end_range@).to_set(),
            split_is_computed(old(self)@, start_range@, end_range@, num_splits as int)
                ==> splits.len() == num_splits,
    {
        proof {
            use_type_invariant(&*self);
            if split_is_computed(self@, start_range@, end_range@, num_splits as int) {
                lemma_split_range_count(self@, start_range@, end_range@, num_splits as int);
            }
        }
        if num_splits < 1 {
            return Vec::new();
        }
        if !end_range.is_empty() {
            let start_chars = chars_of(start_range);
            let end_chars = chars_of(end_range);
            if !lex_less(&start_chars, &end_chars) {
                return Vec::new();
            }
        }
        if self.is_range_equal_with_padding(start_range, end_range) {
            return Vec::new();
        }
        let mut combined = String::from_str(start_range);
        combined.append(end_range);
        self.add_characters_to_alphabet(combined.as_str());
        proof {
            use_type_invariant(&*self);
            assert(combined@ == start_range@ + end_range@);
        }
        let min_int_range = self.string_to_minimal_int_range(start_range, end_range, num_splits);
        proof {
            lemma_minimal_length_unique(
                self@,
                start_range@,
                end_range@,
                num_splits as int,
                min_int_range.min_len as nat,
            );
            let len = min_int_range.min_len as nat;
            lemma_prefix_value_bounds(self@, start_range@, self@[0], len);
            lemma_prefix_value_bounds(self@, end_range@, end_default(self@, end_range@), len);
        }
        self.generate_splits(&min_int_range, num_splits, start_range, end_range)
    }

    /// The evenly spaced split points of the integer range `[start_int,
    /// end_int)`, written as strings of `min_len` characters, keeping those
    /// strictly inside the string range. When the integer range starts at a
    /// non-negative number, is wider than `num_splits` and fits in `min_len`
    /// digits, they come in increasing order.
    pub fn generate_splits(
        &self,
        min_int_range: &MinimalIntRange,
        num_splits: usize,
        start_range: &str,
        end_range: &str,
    ) -> (splits: Vec<String>)
        requires
            self@.len() > 0,
            num_splits < usize::MAX,
        ensures
            string_views(splits@) == accepted_splits(
                self@,
                start_range@,
                end_range@,
                min_int_range.start_int@,
                min_int_range.end_int@,
                num_splits as int,
                min_int_range.min_len as nat,
                num_splits as int,
            ),
            splits.len() <= num_splits,
            forall|k: int|
                0 <= k < splits.len() ==> strictly_inside(
                    start_range@,
                    end_range@,
                    #[trigger] splits@[k]@,
                ),
            forall|k: int|
                0 <= k < splits.len() ==> {
                    let s = #[trigger] splits@[k]@;
                    &&& s.len() == min_int_range.min_len
                    &&& forall|c: int| 0 <= c < s.len() ==> self@.contains(#[trigger] s[c])
                },
            0 <= min_int_range.start_int@ && min_int_range.end_int@ - min_int_range.start_int@
                > num_splits && min_int_range.end_int@ <= pow(
                self@.len() as int,
                min_int_range.min_len as nat,
            )
                ==> forall|a: int, b: int|
                0 <= a < b < splits.len() ==> lex_lt(
                    #[trigger] splits@[a]@,
                    #[trigger] splits@[b]@,
                ),
    {
        proof {
            use_type_invariant(self);
        }
        let ghost alpha = self@;
        let ghost start = start_range@;
        let ghost end = end_range@;
        let ghost n = num_splits as int;
        let ghost len = min_int_range.min_len as nat;
        let ghost s_int = min_int_range.start_int@;
        let ghost e_int = min_int_range.end_int@;
        let mut split_points: Vec<String> = Vec::new();
        let range_diff = big_sub(&min_int_range.end_int, &min_int_range.start_int);
        let range_interval = num_splits + 1;
        let interval_bg = big_from_usize(range_interval);
        let start_chars = chars_of(start_range);
        let end_chars = chars_of(end_range);
        proof {
            assert(string_views(split_points@) =~= accepted_splits(
                alpha,
                start,
                end,
                s_int,
                e_int,
                n,
                len,
                0,
            ));
        }
        let mut i: usize = 1;
        while i <= num_splits
            invariant
                alpha == self@,
                alpha.len() > 0,
                start == start_range@,
                end == end_range@,
                n == num_splits as int,
                n < usize::MAX,
                len == min_int_range.min_len as nat,
                s_int == min_int_range.start_int@,
                e_int == min_int_range.end_int@,
                1 <= i <= num_splits + 1,
                start_chars@ == start,
                end_chars@ == end,
                range_diff@ == e_int - s_int,
                interval_bg@ == n + 1,
                string_views(split_points@) == accepted_splits(
                    alpha,
                    start,
                    end,
                    s_int,
                    e_int,
                    n,
                    len,
                    i - 1,
                ),
            decreases num_splits + 1 - i,
        {
            let scaled = big_mul(&range_diff, &big_from_usize(i));
            let offset = big_div(&scaled, &interval_bg);
            let split_point = big_add(&min_int_range.start_int, &offset);
            let split_string = self.int_to_string(&split_point, min_int_range.min_len);
            let split_chars = chars_of(split_string.as_str());
            let is_greater_than_start = split_chars.len() > 0 && lex_less(&start_chars, &split_chars);
            let is_less_than_end = end_range.is_empty() || (split_chars.len() > 0 && lex_less(
                &split_chars,
                &end_chars,
            ));
            let ghost prev = split_points@;
            if is_greater_than_start && is_less_than_end {
                split_points.push(split_string);
                proof {
                    assert(string_views(split_points@) =~= string_views(prev).push(split_string@));
                }
            }
            assert(split_string@ == split_candidate(alpha, s_int, e_int, n, len, i as int));
            i = i + 1;
        }
        proof {
            lemma_accepted_inside(alpha, start, end, s_int, e_int, n, len, n);
            lemma_accepted_shape(alpha, start, end, s_int, e_int, n, len, n);
            let acc = accepted_splits(alpha, start, end, s_int, e_int, n, len, n);
            assert forall|k: int| 0 <= k < split_points.len() implies #[trigger] split_points@[k]@
                == acc[k] by {
                assert(string_views(split_points@)[k] == split_points@[k]@);
            }
            if 0 <= s_int && e_int - s_int > n && e_int <= pow(alpha.len() as int, len) {
                lemma_accepted_sorted(alpha, start, end, s_int, e_int, n, len, n);
                assert forall|a: int, b: int| 0 <= a < b < split_points.len() implies lex_lt(
                    #[trigger] split_points@[a]@,
                    #[trigger] split_points@[b]@,
                ) by {
                    assert(split_points@[a]@ == acc[a]);
                    assert(split_points@[b]@ == acc[b]);
                }
            }
        }
        split_points
    }

    /// Reads the range as a pair of integers of the least length at which
    /// their difference exceeds `num_splits`.
    pub fn string_to_minimal_int_range(&self, start_range: &str, end_range: &str, num_splits: usize) -> (r:
        MinimalIntRange)
        requires
            self@.len() > 0,
            has_minimal_length(self@, start_range@, end_range@, num_splits as int),
        ensures
            is_minimal_length(self@, start_range@, end_range@, num_splits as int, r.min_len as nat),
            r.start_int@ == start_value(self@, start_range@, r.min_len as nat),
            r.end_int@ == end_value(self@, end_range@, r.min_len as nat),
    {
        let ghost alpha = self@;
        let ghost start = start_range@;
        let ghost end = end_range@;
        let ghost n = num_splits as int;
        let mut start_int = big_from_usize(0);
        let mut end_int = big_from_usize(0);
        let alphabet_len = big_from_usize(self.sorted_alphabet.len());
        let start_char = self.sorted_alphabet[0];
        let end_char = self.sorted_alphabet[self.sorted_alphabet.len() - 1];
        let end_default_char = if end_range.is_empty() {
            end_char
        } else {
            start_char
        };
        let limit = big_from_usize(num_splits);
        let ghost k = choose|k: nat|
            1 <= k <= usize::MAX && #[trigger] range_width(alpha, start, end, k) > n;
        let mut i: usize = 0;
        loop
            invariant
                alpha == self@,
                alpha.len() > 0,
                start == start_range@,
                end == end_range@,
                n == num_splits as int,
                alphabet_len@ == alpha.len(),
                limit@ == n,
                start_char == alpha[0],
                end_default_char == end_default(alpha, end),
                1 <= k <= usize::MAX,
                range_width(alpha, start, end, k) > n,
                i < k,
                start_int@ == start_value(alpha, start, i as nat),
                end_int@ == end_value(alpha, end, i as nat),
                forall|j: nat| 1 <= j <= i ==> #[trigger] range_width(alpha, start, end, j) <= n,
            decreases k - i,
        {
            let start_c = get_char_or_default(start_range, i, start_char);
            let start_pos = self.position_of(start_c);
            start_int = big_mul(&start_int, &alphabet_len);
            start_int = big_add(&start_int, &big_from_usize(start_pos));

            let end_c = get_char_or_default(end_range, i, end_default_char);
            let end_pos = self.position_of(end_c);
            end_int = big_mul(&end_int, &alphabet_len);
            end_int = big_add(&end_int, &big_from_usize(end_pos));

            assert(start_int@ == start_value(alpha, start, (i + 1) as nat));
            assert(end_int@ == end_value(alpha, end, (i + 1) as nat));
            let difference = big_sub(&end_int, &start_int);
            if big_gt(&difference, &limit) {
                return MinimalIntRange { start_int, end_int, min_len: i + 1 };
            }
            i = i + 1;
        }
    }

    /// The string of `string_len` alphabet characters that spells the last
    /// `string_len` base-`n` digits of `split_point`; a negative point gives
    /// the smallest character throughout. A point below `n^string_len` reads
    /// back as itself.
    pub fn int_to_string(&self, split_point: &BigNum, string_len: usize) -> (s: String)
        requires
            self@.len() > 0,
        ensures
            s@ == int_string(self@, split_point@, string_len as nat),
            strictly_sorted(self@),
            0 <= split_point@ < pow(self@.len() as int, string_len as nat) ==> prefix_value(
                self@,
                s@,
                self@[0],
                string_len as nat,
            ) == split_point@,
    {
        proof {
            use_type_invariant(self);
            if 0 <= split_point@ < pow(self@.len() as int, string_len as nat) {
                lemma_digits_string_decodes(self@, split_point@, string_len as nat);
            }
        }
        let ghost alpha = self@;
        let ghost p = split_point@;
        let ghost len = string_len as nat;
        let alphabet_len = big_from_usize(self.sorted_alphabet.len());
        let mut current_point = split_point.clone();
        let mut reversed: Vec<char> = Vec::new();
        assert(reversed@.reverse() =~= Seq::<char>::empty());
        assert(digits_string(alpha, p, len) =~= digits_string(alpha, current_point@, len)
            + reversed@.reverse());
        let mut j: usize = 0;
        while j < string_len
            invariant
                alpha == self@,
                alpha.len() > 0,
                alpha.len() == self.sorted_alphabet.len(),
                alphabet_len@ == alpha.len(),
                p == split_point@,
                len == string_len as nat,
                j <= string_len,
                reversed@.len() == j,
                p >= 0 ==> current_point@ >= 0 && digits_string(alpha, p, len) == digits_string(
                    alpha,
                    current_point@,
                    (string_len - j) as nat,
                ) + reversed@.reverse(),
                p < 0 ==> current_point@ <= 0 && forall|x: int|
                    0 <= x < j ==> #[trigger] reversed@[x] == alpha[0],
            decreases string_len - j,
        {
            let ghost cur = current_point@;
            let ghost n = alpha.len() as int;
            let remainder = big_rem(&current_point, &alphabet_len);
            proof {
                if cur >= 0 {
                    lemma_mod_pos_bound(cur, n);
                    lemma_div_pos_is_pos(cur, n);
                } else {
                    lemma_mod_pos_bound(-cur, n);
                    lemma_div_pos_is_pos(-cur, n);
                }
            }
            let digit = match big_to_usize(&remainder) {
                Some(d) => d,
                None => 0,
            };
            proof {
                if cur == 0 {
                    assert(cur % n == 0) by (nonlinear_arith)
                        requires
                            cur == 0,
                            n > 0,
                    ;
                }
            }
            assert(cur >= 0 ==> digit as int == cur % n);
            assert(cur <= 0 ==> digit == 0);
            let ghost before = reversed@;
            let c = self.sorted_alphabet[digit];
            reversed.push(c);
            current_point = big_div(&current_point, &alphabet_len);
            proof {
                if p >= 0 {
                    let m = (string_len - j) as nat;
                    assert(c == alpha[cur % n]);
                    lemma_push_reverse(before, c);
                    assert(digits_string(alpha, cur, m) == digits_string(
                        alpha,
                        cur / n,
                        (m - 1) as nat,
                    ).push(c));
                    assert(digits_string(alpha, cur / n, (m - 1) as nat) + reversed@.reverse()
                        =~= digits_string(alpha, cur / n, (m - 1) as nat).push(c)
                        + before.reverse());
                } else {
                    assert(c == alpha[0]);
                    assert forall|x: int| 0 <= x < j + 1 implies #[trigger] reversed@[x]
                        == alpha[0] by {
                        if x < j {
                            assert(reversed@[x] == before[x]);
                        }
                    }
                }
            }
            j = j + 1;
        }
        proof {
            if p >= 0 {
                assert(digits_string(alpha, current_point@, 0) =~= Seq::<char>::empty());
                assert(digits_string(alpha, p, len) =~= reversed@.reverse());
            } else {
                assert(reversed@.reverse() =~= Seq::new(len, |i: int| alpha[0]));
            }
            assert(int_string(alpha, p, len) == reversed@.reverse());
        }
        let mut split_string = String::new();
        let mut k: usize = 0;
        while k < string_len
            invariant
                k <= string_len,
                reversed@.len() == string_len,
                split_string@ == reversed@.reverse().take(k as int),
            decreases string_len - k,
        {
            push_char(&mut split_string, reversed[string_len - 1 - k]);
            assert(reversed@.reverse().take(k + 1) =~= reversed@.reverse().take(k as int).push(
                reversed@[string_len - 1 - k],
            ));
            k = k + 1;
        }
        assert(reversed@.reverse().take(string_len as int) =~= reversed@.reverse());
        split_string
    }
}

} // verus!
