use dataflux_rust::bignum::BigNum;
use dataflux_rust::range_splitter::{MinimalIntRange, RangeSplitter};

fn neg(x: u32) -> BigNum {
    BigNum { negative: true, magnitude: vec![x] }
}

fn big(x: u32) -> BigNum {
    BigNum { negative: false, magnitude: if x == 0 { vec![] } else { vec![x] } }
}

fn value(b: &BigNum) -> i128 {
    let mut v: i128 = 0;
    for d in b.magnitude.iter().rev() {
        v = v * (1i128 << 32) + *d as i128;
    }
    if b.negative { -v } else { v }
}

#[test]
fn test_split_range_simple() {
    let mut splitter = RangeSplitter::new("ab");
    let splits = splitter.split_range("a", "b", 1);
    assert_eq!(splits, vec!["ab"]);
}

#[test]
fn test_split_range_alphabet_expansion() {
    let mut splitter = RangeSplitter::new("ab");
    // 'c' and 'd' are added to the alphabet dynamically
    let splits = splitter.split_range("a", "d", 1);
    assert_eq!(splits, vec!["b"]);
}

#[test]
fn test_split_range_unbounded_end() {
    let mut splitter = RangeSplitter::new("ab");
    // No end range means it goes to infinity essentially
    let splits = splitter.split_range("a", "", 1);
    assert_eq!(splits, vec!["ab"]);
}

#[test]
fn three_even_splits_of_a_single_letter_range() {
    let mut splitter = RangeSplitter::new("ab");
    let splits = splitter.split_range("a", "b", 3);
    assert_eq!(splits, vec!["aab", "aba", "abb"]);
}

#[test]
fn no_splits_requested_gives_nothing() {
    let mut splitter = RangeSplitter::new("ab");
    assert!(splitter.split_range("a", "b", 0).is_empty());
}

#[test]
fn empty_or_reversed_range_gives_nothing() {
    let mut splitter = RangeSplitter::new("ab");
    assert!(splitter.split_range("b", "a", 1).is_empty());
    assert!(splitter.split_range("a", "a", 1).is_empty());
}

#[test]
fn bounds_equal_after_padding_give_nothing() {
    let mut splitter = RangeSplitter::new("ab");
    assert!(splitter.split_range("a", "aa", 1).is_empty());
    assert!(splitter.split_range("", "aaa", 2).is_empty());
}

#[test]
fn long_common_prefix_needs_long_split_points() {
    let mut splitter = RangeSplitter::new("ab");
    let start = "a".repeat(70);
    let end = format!("{}b", "a".repeat(69));
    let splits = splitter.split_range(&start, &end, 1);
    assert_eq!(splits, vec![format!("{}b", "a".repeat(70))]);
}

#[test]
fn arithmetic_beyond_machine_words() {
    // The range is read as numbers near 2^72.
    let mut splitter = RangeSplitter::new("ab");
    let start = "b".repeat(70);
    let splits = splitter.split_range(&start, "", 1);
    assert_eq!(splits, vec![format!("{}ab", "b".repeat(70))]);
}

#[test]
fn characters_outside_ascii_join_the_alphabet() {
    let mut splitter = RangeSplitter::new("ab");
    let splits = splitter.split_range("a", "\u{e9}", 1);
    assert_eq!(splits, vec!["b"]);
}

#[test]
fn splits_lie_inside_the_range_in_increasing_order() {
    let mut splitter = RangeSplitter::new("abc");
    let splits = splitter.split_range("apple", "banana", 5);
    assert!(!splits.is_empty());
    assert!(splits.len() <= 5);
    for s in &splits {
        assert!(s.as_str() > "apple" && s.as_str() < "banana");
    }
    for w in splits.windows(2) {
        assert!(w[0] < w[1]);
    }
}

#[test]
fn splitting_twice_gives_the_same_points() {
    let mut splitter = RangeSplitter::new("ab");
    let first = splitter.split_range("cat", "dog", 4);
    let second = splitter.split_range("cat", "dog", 4);
    assert_eq!(first, second);
}

#[test]
fn split_points_have_the_minimal_length() {
    let mut splitter = RangeSplitter::new("ab");
    let splits = splitter.split_range("a", "b", 3);
    assert!(splits.iter().all(|s| s.chars().count() == 3));
}

#[test]
fn split_range_returns_exactly_when_split_range_does() {
    assert!(RangeSplitter::new("ab").split_range_returns("a", "b", 1));
    assert!(RangeSplitter::new("ab").split_range_returns("a", "", 1));
    assert!(RangeSplitter::new("ab").split_range_returns("a", "b", 0));
    // A single character cannot spell different points.
    assert!(!RangeSplitter::new("a").split_range_returns("a", "", 1));
    // The new smallest character pads the end to the start.
    assert!(!RangeSplitter::new("b").split_range_returns("b", "ba", 1));
    // An empty alphabet has no smallest character to pad with.
    assert!(!RangeSplitter::new("").split_range_returns("a", "b", 1));
    assert!(!RangeSplitter::new("").split_range_returns("", "", 1));
    // Nothing to split: returns at once.
    assert!(RangeSplitter::new("").split_range_returns("b", "a", 1));
    assert!(!RangeSplitter::new("ab").split_range_returns("a", "b", usize::MAX));
}

#[test]
fn split_points_are_evenly_spaced() {
    let mut splitter = RangeSplitter::new("ab");
    assert_eq!(splitter.split_range("a", "b", 2), vec!["aab", "aba"]);
}

#[test]
fn earlier_bounds_grow_the_alphabet() {
    let mut splitter = RangeSplitter::new("ab");
    assert_eq!(splitter.split_range("a", "d", 1), vec!["b"]);
    // 'd' is now a digit too.
    assert_eq!(splitter.split_range("a", "b", 2), vec!["ab", "ad"]);
}

#[test]
fn digit_strings_read_back() {
    let splitter = RangeSplitter::new("cab");
    // 5 = 0*9 + 1*3 + 2 over the alphabet a < b < c.
    assert_eq!(splitter.int_to_string(&big(5), 3), "abc");
    assert_eq!(splitter.int_to_string(&big(0), 2), "aa");
    assert_eq!(splitter.int_to_string(&big(8), 2), "cc");
    // Only the last digits of a value that does not fit are written.
    assert_eq!(splitter.int_to_string(&big(30), 2), "ba");
    assert_eq!(splitter.int_to_string(&big(7), 0), "");
}

#[test]
fn padded_equality_is_symmetric() {
    let splitter = RangeSplitter::new("ab");
    assert!(splitter.is_range_equal_with_padding("a", "aa"));
    assert!(splitter.is_range_equal_with_padding("aa", "a"));
    assert!(!splitter.is_range_equal_with_padding("ab", "a"));
    assert!(!splitter.is_range_equal_with_padding("a", "ab"));
    assert!(!splitter.is_range_equal_with_padding("a", ""));
}

#[test]
fn adding_characters_in_any_order_gives_one_alphabet() {
    let mut first = RangeSplitter::new("a");
    first.add_characters_to_alphabet("dc");
    first.add_characters_to_alphabet("b");
    let mut second = RangeSplitter::new("a");
    second.add_characters_to_alphabet("b");
    second.add_characters_to_alphabet("dc");
    let mut together = RangeSplitter::new("a");
    together.add_characters_to_alphabet("dcb");
    for splitter in [&first, &second, &together] {
        assert_eq!(splitter.int_to_string(&big(6), 2), "bc");
    }
    // Characters already there change nothing.
    together.add_characters_to_alphabet("ab");
    assert_eq!(together.int_to_string(&big(6), 2), "bc");
}

#[test]
fn any_integer_range_splits_evenly() {
    let splitter = RangeSplitter::new("ab");
    let range = MinimalIntRange { start_int: big(1), end_int: big(7), min_len: 3 };
    assert_eq!(splitter.generate_splits(&range, 2, "", ""), vec!["abb", "bab"]);
    // Points outside the string range are dropped.
    assert_eq!(splitter.generate_splits(&range, 2, "abb", ""), vec!["bab"]);
    assert_eq!(splitter.generate_splits(&range, 2, "", "bab"), vec!["abb"]);
}

#[test]
fn minimal_length_is_the_first_wide_enough() {
    let splitter = RangeSplitter::new("ab");
    let r = splitter.string_to_minimal_int_range("a", "b", 1);
    assert_eq!(r.min_len, 2);
    assert_eq!((value(&r.start_int), value(&r.end_int)), (0, 2));
    let r = splitter.string_to_minimal_int_range("a", "", 2);
    assert_eq!(r.min_len, 2);
    assert_eq!((value(&r.start_int), value(&r.end_int)), (0, 3));
}

#[test]
fn split_adds_the_characters_of_the_bounds() {
    let mut splitter = RangeSplitter::new("ab");
    assert_eq!(splitter.split_range("a", "d", 1), vec!["b"]);
    assert_eq!(splitter.alphabet(), &['a', 'b', 'd']);
}

#[test]
fn big_numbers_compare_by_value() {
    assert!(BigNum { negative: true, magnitude: vec![] } == big(0));
    assert!(BigNum { negative: false, magnitude: vec![7, 0] } == big(7));
    assert!(neg(7) != big(7));
    let a = MinimalIntRange { start_int: big(1), end_int: big(9), min_len: 2 };
    let b = MinimalIntRange { start_int: BigNum { negative: false, magnitude: vec![1, 0] }, end_int: big(9), min_len: 2 };
    assert!(a == b);
    let c = MinimalIntRange { start_int: big(1), end_int: big(9), min_len: 3 };
    assert!(a != c);
}

#[test]
fn negative_numbers_are_written_with_the_smallest_character() {
    let splitter = RangeSplitter::new("ab");
    assert_eq!(splitter.int_to_string(&neg(5), 3), "aaa");
    assert_eq!(splitter.int_to_string(&neg(1), 1), "a");
}

#[test]
fn reversed_integer_ranges_divide_toward_zero() {
    let splitter = RangeSplitter::new("ab");
    // Width -5 in three parts: -5/3 and -10/3 truncate to -1 and -3.
    let range = MinimalIntRange { start_int: big(5), end_int: big(0), min_len: 3 };
    assert_eq!(splitter.generate_splits(&range, 2, "", ""), vec!["baa", "aba"]);
    // A negative start is written with the smallest character.
    let range = MinimalIntRange { start_int: neg(4), end_int: big(4), min_len: 2 };
    assert_eq!(splitter.generate_splits(&range, 1, "", ""), vec!["aa"]);
    assert_eq!(splitter.generate_splits(&range, 3, "", ""), vec!["aa", "aa", "ba"]);
}
