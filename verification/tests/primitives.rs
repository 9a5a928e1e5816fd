use onpair_rs::flatten_strings;
use onpair_rs::is_prefix;
use onpair_rs::load_u64_le_masked;
use onpair_rs::shared_prefix_size;
use onpair_rs::training::identity_order;
use onpair_rs::training::random_order;
use onpair_rs::training::seeded_random_order;
use onpair_rs::training::threshold_for;
use onpair_rs::word::keep_low_bytes;
use onpair_rs::word::load_word_at;
use onpair_rs::word::low_mask;
use onpair_rs::word::pack_key;

#[test]
fn load_reads_little_endian() {
    assert_eq!(load_u64_le_masked(b"abcdefgh", 8), 0x6867666564636261);
    assert_eq!(load_u64_le_masked(b"abcdefgh", 3), 0x636261);
    assert_eq!(load_u64_le_masked(b"abcdefgh", 0), 0);
    assert_eq!(load_u64_le_masked(b"a", 1), 0x61);
    assert_eq!(load_u64_le_masked(b"abcdefghijkl", 8), 0x6867666564636261);
    assert_eq!(load_word_at(b"abcdefghijkl", 8, 4), 0x6c6b6a69);
    assert_eq!(load_word_at(b"abcdefghijkl", 12, 0), 0);
}

#[test]
fn masks_keep_low_bytes() {
    assert_eq!(low_mask(0), 0);
    assert_eq!(low_mask(1), 0xFF);
    assert_eq!(low_mask(4), 0xFFFF_FFFF);
    assert_eq!(low_mask(7), 0x00FF_FFFF_FFFF_FFFF);
    assert_eq!(low_mask(8), u64::MAX);
    assert_eq!(keep_low_bytes(0x1122334455667788, 3), 0x667788);
    assert_eq!(keep_low_bytes(0x1122334455667788, 8), 0x1122334455667788);
    assert_eq!(keep_low_bytes(0x1122334455667788, 0), 0);
}

#[test]
fn shared_prefix_counts_whole_bytes() {
    assert_eq!(shared_prefix_size(0x11223344, 0x11223344), 8);
    assert_eq!(shared_prefix_size(0x11223344, 0x11223355), 0);
    assert_eq!(shared_prefix_size(0x11223344, 0x11993344), 2);
    assert_eq!(shared_prefix_size(0x0100, 0x0000), 1);
    assert_eq!(shared_prefix_size(0x8000_0000_0000_0000, 0), 7);
    assert_eq!(shared_prefix_size(0x10, 0), 0);
}

#[test]
fn prefix_test_on_words() {
    let text = load_u64_le_masked(b"abcdef", 6);
    assert!(is_prefix(text, load_u64_le_masked(b"abc", 3), 6, 3));
    assert!(is_prefix(text, load_u64_le_masked(b"abcdef", 6), 6, 6));
    assert!(is_prefix(text, 0, 6, 0));
    assert!(!is_prefix(text, load_u64_le_masked(b"abd", 3), 6, 3));
    assert!(!is_prefix(load_u64_le_masked(b"ab", 2), load_u64_le_masked(b"abc", 3), 2, 3));
    assert!(!is_prefix(load_u64_le_masked(b"ab\0", 3), load_u64_le_masked(b"abc", 3), 3, 3));
    assert!(is_prefix(load_u64_le_masked(b"ab\0", 3), load_u64_le_masked(b"ab\0", 3), 3, 3));
}

#[test]
fn key_code_holds_length_above_word() {
    assert_eq!(pack_key(0x6261, 2), (2u128 << 64) | 0x6261);
    assert_eq!(pack_key(0, 0), 0);
    assert_eq!(pack_key(u64::MAX, 8), (8u128 << 64) | (u64::MAX as u128));
}

#[test]
fn threshold_is_logarithm_of_mebibytes_but_at_least_two() {
    assert_eq!(threshold_for(0), 2);
    assert_eq!(threshold_for(1000), 2);
    assert_eq!(threshold_for(1 << 20), 2);
    assert_eq!(threshold_for(4 << 20), 2);
    assert_eq!(threshold_for((8 << 20) - 1), 2);
    assert_eq!(threshold_for(8 << 20), 3);
    assert_eq!(threshold_for(1 << 30), 10);
    assert_eq!(threshold_for((1 << 31) - 1), 10);
}

#[test]
fn flatten_lays_strings_end_to_end() {
    let (data, ends) = flatten_strings(&["abc", "", "de"]);
    assert_eq!(data, b"abcde".to_vec());
    assert_eq!(ends, vec![0, 3, 3, 5]);
    let none: Vec<&str> = Vec::new();
    let (data, ends) = flatten_strings(&none);
    assert_eq!(data, Vec::<u8>::new());
    assert_eq!(ends, vec![0]);
}

#[test]
fn random_order_is_a_permutation() {
    let n = 1000;
    let order = random_order(n);
    assert_eq!(order.len(), n);
    let mut seen = vec![false; n];
    for i in &order {
        assert!(!seen[*i]);
        seen[*i] = true;
    }
    assert_ne!(order, identity_order(n));
    assert_eq!(identity_order(4), vec![0, 1, 2, 3]);
    assert_eq!(random_order(0), Vec::<usize>::new());
}

#[test]
fn seeded_order_depends_on_seed_alone() {
    let n = 200;
    let first = seeded_random_order(n, 17);
    let again = seeded_random_order(n, 17);
    let other = seeded_random_order(n, 18);
    assert_eq!(first, again);
    assert_ne!(first, other);
    assert_ne!(first, identity_order(n));
    let mut sorted = first.clone();
    sorted.sort();
    assert_eq!(sorted, identity_order(n));
}
