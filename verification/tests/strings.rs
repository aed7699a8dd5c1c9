use aoc25::ds::rolling_hash::RollingHash;
use aoc25::ds::string_alg::{kmp_prefix, kmp_search, z_function};

#[test]
fn kmp_and_z() {
    let t = "ababaabababa";
    let p = "ababa";
    let occ = kmp_search(t, p);
    assert_eq!(occ, vec![0, 5, 7]);
    let z = z_function("aaaaa");
    assert_eq!(z, vec![5, 4, 3, 2, 1]);
}

#[test]
fn roll_hash() {
    let s = "abcdefg";
    let h = RollingHash::new(s, 911382323, 972663749);
    assert_eq!(h.hash(0, 3), h.hash(0, 3));
    assert_ne!(h.hash(0, 3), h.hash(1, 4));
}

#[test]
fn border_table_of_a_pattern() {
    assert_eq!(kmp_prefix(b""), Vec::<usize>::new());
    assert_eq!(kmp_prefix(b"a"), vec![0]);
    assert_eq!(kmp_prefix(b"ababa"), vec![0, 0, 1, 2, 3]);
    assert_eq!(kmp_prefix(b"aabaaab"), vec![0, 1, 0, 1, 2, 2, 3]);
    assert_eq!(kmp_prefix(b"abcd"), vec![0, 0, 0, 0]);
}

#[test]
fn search_finds_overlapping_places() {
    assert_eq!(kmp_search("aaaa", "aa"), vec![0, 1, 2]);
    assert_eq!(kmp_search("ababa", "aba"), vec![0, 2]);
    assert_eq!(kmp_search("abcabca", "ab"), vec![0, 3]);
}

#[test]
fn search_for_what_is_not_there() {
    assert_eq!(kmp_search("abc", "d"), Vec::<usize>::new());
    assert_eq!(kmp_search("ab", "abc"), Vec::<usize>::new());
    assert_eq!(kmp_search("", "a"), Vec::<usize>::new());
}

#[test]
fn empty_pattern_stands_everywhere() {
    assert_eq!(kmp_search("abc", ""), vec![0, 1, 2, 3]);
    assert_eq!(kmp_search("", ""), vec![0]);
}

#[test]
fn common_prefix_table() {
    assert_eq!(z_function("a"), vec![1]);
    assert_eq!(z_function("abacaba"), vec![7, 0, 1, 0, 3, 0, 1]);
    assert_eq!(z_function("aabxaab"), vec![7, 1, 0, 0, 3, 1, 0]);
}

#[test]
fn hash_of_a_piece_is_its_polynomial() {
    let h = RollingHash::new("abc", 10, 1000);
    assert_eq!(h.hash(0, 0), 0);
    assert_eq!(h.hash(0, 1), 97);
    assert_eq!(h.hash(0, 2), (97 * 10 + 98) % 1000);
    assert_eq!(h.hash(0, 3), (97 * 100 + 98 * 10 + 99) % 1000);
    assert_eq!(h.hash(1, 3), 98 * 10 + 99 - 1000);
    assert_eq!(h.hash(2, 3), 99);
    assert_eq!(h.hash(3, 3), 0);
}

#[test]
fn equal_pieces_have_equal_hashes() {
    let h = RollingHash::new("abcabc", 911382323, 972663749);
    assert_eq!(h.hash(0, 3), h.hash(3, 6));
    assert_eq!(h.hash(1, 2), h.hash(4, 5));
}

#[test]
fn hash_with_a_large_modulus_does_not_wrap() {
    let m = u64::MAX;
    let b = u64::MAX - 1;
    let h = RollingHash::new("ab", b, m);
    let expected = ((97u128 * b as u128 + 98) % m as u128) as u64;
    assert_eq!(h.hash(0, 2), expected);
    let one = RollingHash::new("ab", 7, 1);
    assert_eq!(one.hash(0, 2), 0);
}
