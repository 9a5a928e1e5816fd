use onpair_rs::LongestPrefixMatcher;
use onpair_rs::LongestPrefixMatcher16;

fn next(state: &mut u64) -> u64 {
    *state = state.wrapping_mul(6364136223846793005).wrapping_add(1442695040888963407);
    *state >> 33
}

fn random_key(state: &mut u64, max_len: usize, alphabet: u64) -> Vec<u8> {
    let len = 1 + (next(state) as usize) % max_len;
    let mut key = Vec::new();
    for _ in 0..len {
        key.push((next(state) % alphabet) as u8);
    }
    key
}

fn brute_force(keys: &[(Vec<u8>, u16)], query: &[u8]) -> Option<(u16, usize)> {
    let mut best: Option<(u16, usize)> = None;
    for (key, id) in keys {
        if !key.is_empty() && query.starts_with(key) {
            match best {
                Some((_, len)) if len > key.len() => {}
                Some((_, len)) if len == key.len() => {
                    best = Some((*id, len));
                }
                _ => {
                    best = Some((*id, key.len()));
                }
            }
        }
    }
    best
}

#[test]
fn empty_matcher_finds_nothing() {
    let a: LongestPrefixMatcher<u16> = LongestPrefixMatcher::new();
    assert_eq!(a.find_longest_match(b"abc"), None);
    assert_eq!(a.find_longest_match(b""), None);
    assert_eq!(a.find_longest_match(b"abcdefghijklmnop"), None);
    let b = LongestPrefixMatcher16::new();
    assert_eq!(b.find_longest_match(b"abc"), None);
    assert_eq!(b.find_longest_match(b""), None);
    assert_eq!(b.find_longest_match(b"abcdefghijklmnop"), None);
    let fixed = b.finalize().unwrap();
    assert_eq!(fixed.find_longest_match(b"abc"), None);
    assert_eq!(fixed.find_longest_match(b""), None);
    assert_eq!(fixed.find_longest_match(b"abcdefghijklmnop"), None);
    assert_eq!(fixed.find_longest_match(&[0u8; 12]), None);
}

#[test]
fn longest_key_wins_variant_a() {
    let mut m: LongestPrefixMatcher<u16> = LongestPrefixMatcher::new();
    m.insert(b"a", 1);
    m.insert(b"ab", 2);
    m.insert(b"abcdefgh", 3);
    m.insert(b"abcdefghi", 4);
    m.insert(b"abcdefghijklmnopqrstuvwxyz", 5);
    m.insert(b"abcdefghijk", 6);
    assert_eq!(m.find_longest_match(b"a"), Some((1, 1)));
    assert_eq!(m.find_longest_match(b"ax"), Some((1, 1)));
    assert_eq!(m.find_longest_match(b"abx"), Some((2, 2)));
    assert_eq!(m.find_longest_match(b"abcdefg"), Some((2, 2)));
    assert_eq!(m.find_longest_match(b"abcdefgh"), Some((3, 8)));
    assert_eq!(m.find_longest_match(b"abcdefghx"), Some((3, 8)));
    assert_eq!(m.find_longest_match(b"abcdefghi"), Some((4, 9)));
    assert_eq!(m.find_longest_match(b"abcdefghij"), Some((4, 9)));
    assert_eq!(m.find_longest_match(b"abcdefghijk"), Some((6, 11)));
    assert_eq!(m.find_longest_match(b"abcdefghijklmnopqrstuvwxy"), Some((6, 11)));
    assert_eq!(m.find_longest_match(b"abcdefghijklmnopqrstuvwxyz!"), Some((5, 26)));
    assert_eq!(m.find_longest_match(b"b"), None);
    assert_eq!(m.find_longest_match(b""), None);
}

#[test]
fn last_write_wins_variant_a() {
    let mut m: LongestPrefixMatcher<u16> = LongestPrefixMatcher::new();
    m.insert(b"key", 1);
    m.insert(b"key", 2);
    m.insert(b"a long key of many bytes", 3);
    m.insert(b"a long key of many bytes", 4);
    m.insert(b"", 9);
    assert_eq!(m.find_longest_match(b"key"), Some((2, 3)));
    assert_eq!(m.find_longest_match(b"a long key of many bytes."), Some((4, 24)));
    assert_eq!(m.find_longest_match(b"x"), None);
}

#[test]
fn longest_key_wins_variant_b() {
    let mut m = LongestPrefixMatcher16::new();
    assert!(m.insert(b"a", 1));
    assert!(m.insert(b"ab", 2));
    assert!(m.insert(b"abcdefgh", 3));
    assert!(m.insert(b"abcdefghi", 4));
    assert!(m.insert(b"abcdefghijklmnop", 5));
    assert!(m.insert(b"abcdefghijk", 6));
    let fixed = m.finalize().unwrap();
    let queries: Vec<(&[u8], Option<(u16, usize)>)> = vec![
        (b"a", Some((1, 1))),
        (b"ax", Some((1, 1))),
        (b"abx", Some((2, 2))),
        (b"abcdefg", Some((2, 2))),
        (b"abcdefgh", Some((3, 8))),
        (b"abcdefghx", Some((3, 8))),
        (b"abcdefghi", Some((4, 9))),
        (b"abcdefghij", Some((4, 9))),
        (b"abcdefghijk", Some((6, 11))),
        (b"abcdefghijklmno", Some((6, 11))),
        (b"abcdefghijklmnop", Some((5, 16))),
        (b"abcdefghijklmnopqrstuvwxyz", Some((5, 16))),
        (b"b", None),
        (b"", None),
        (b"bbbbbbbbbbbb", None),
    ];
    for (query, expected) in queries {
        assert_eq!(m.find_longest_match(query), expected);
        assert_eq!(fixed.find_longest_match(query), expected);
    }
}

#[test]
fn long_key_without_short_ones_variant_b() {
    let mut m = LongestPrefixMatcher16::new();
    assert!(m.insert(b"abcdefghij", 7));
    assert!(m.insert(&[0, 0, 0, 0, 0, 0, 0, 0, 1], 8));
    let fixed = m.finalize().unwrap();
    assert_eq!(m.find_longest_match(b"abcdefghij"), Some((7, 10)));
    assert_eq!(fixed.find_longest_match(b"abcdefghij"), Some((7, 10)));
    assert_eq!(m.find_longest_match(b"abcdefghi"), None);
    assert_eq!(fixed.find_longest_match(b"abcdefghi"), None);
    assert_eq!(fixed.find_longest_match(b"abcdefgh"), None);
    assert_eq!(fixed.find_longest_match(&[0, 0, 0, 0, 0, 0, 0, 0, 2]), None);
    assert_eq!(fixed.find_longest_match(&[0, 0, 0, 0, 0, 0, 0, 0, 1, 1]), Some((8, 9)));
    assert_eq!(fixed.compute_long_answer(0, 1, 1), Some((8, 9)));
    assert_eq!(fixed.compute_long_answer(0, 2, 1), None);
    assert_eq!(fixed.compute_long_answer(77, 0, 0), None);
}

#[test]
fn full_bucket_refuses_keys() {
    let mut m = LongestPrefixMatcher16::new();
    let mut key = b"abcdefgh..".to_vec();
    for i in 0..128u16 {
        key[8] = (i % 256) as u8;
        key[9] = (i / 256) as u8;
        assert!(m.insert(&key, i));
    }
    key[8] = 200;
    key[9] = 7;
    assert!(!m.insert(&key, 1000));
    assert_eq!(m.find_longest_match(&key), None);
    assert!(!m.insert(b"abcdefghXY", 400));
    assert_eq!(m.find_longest_match(b"abcdefghXY"), None);
    key[8] = 5;
    key[9] = 0;
    assert!(!m.insert(&key, 1001));
    assert_eq!(m.find_longest_match(&key), Some((5, 10)));
    assert!(m.insert(b"abcdefgh", 2000));
    assert!(m.insert(b"abcdefgX..", 2001));
    let fixed = m.finalize().unwrap();
    for i in 0..128u16 {
        key[8] = (i % 256) as u8;
        key[9] = (i / 256) as u8;
        assert_eq!(fixed.find_longest_match(&key), Some((i, 10)));
    }
    key[8] = 200;
    key[9] = 7;
    assert_eq!(fixed.find_longest_match(&key), Some((2000, 8)));
}

#[test]
fn bucket_takes_its_last_key() {
    let mut m = LongestPrefixMatcher16::new();
    for i in 0..127u16 {
        let key = [b"abcdefgh".as_slice(), &[i as u8]].concat();
        assert!(m.insert(&key, 256 + i));
    }
    assert!(m.insert(b"abcdefghXY", 400));
    assert_eq!(m.find_longest_match(b"abcdefghXYZ"), Some((400, 10)));
    assert!(!m.insert(b"abcdefgh\xC8\xC8", 401));
    assert_eq!(m.find_longest_match(b"abcdefgh\xC8\xC8"), None);
}

#[test]
fn random_keys_match_brute_force_variant_a() {
    let mut state = 3u64;
    let mut keys: Vec<(Vec<u8>, u16)> = Vec::new();
    let mut m: LongestPrefixMatcher<u16> = LongestPrefixMatcher::new();
    for id in 0..600u16 {
        let key = random_key(&mut state, 24, 3);
        m.insert(&key, id);
        keys.push((key, id));
    }
    for _ in 0..3000 {
        let query = random_key(&mut state, 24, 3);
        assert_eq!(m.find_longest_match(&query), brute_force(&keys, &query));
    }
}

#[test]
fn random_keys_match_brute_force_variant_b() {
    let mut state = 4u64;
    let mut keys: Vec<(Vec<u8>, u16)> = Vec::new();
    let mut m = LongestPrefixMatcher16::new();
    for id in 0..2000u16 {
        let key = random_key(&mut state, 16, 3);
        if m.insert(&key, id) {
            keys.push((key, id));
        }
    }
    let fixed = m.finalize().unwrap();
    for _ in 0..3000 {
        let query = random_key(&mut state, 24, 3);
        let expected = brute_force(&keys, &query);
        assert_eq!(m.find_longest_match(&query), expected);
        assert_eq!(fixed.find_longest_match(&query), expected);
    }
}

#[test]
fn finalized_matcher_agrees_on_wide_alphabet() {
    let mut state = 5u64;
    let mut keys: Vec<(Vec<u8>, u16)> = Vec::new();
    let mut m = LongestPrefixMatcher16::new();
    for id in 0..5000u16 {
        let key = random_key(&mut state, 16, 256);
        assert!(m.insert(&key, id));
        keys.push((key, id));
    }
    let fixed = m.finalize().unwrap();
    for (key, _) in &keys {
        let mut query = key.clone();
        query.push(1);
        query.push(2);
        let expected = brute_force(&keys, &query);
        assert_eq!(m.find_longest_match(&query), expected);
        assert_eq!(fixed.find_longest_match(&query), expected);
    }
    for _ in 0..2000 {
        let query = random_key(&mut state, 24, 256);
        assert_eq!(fixed.find_longest_match(&query), m.find_longest_match(&query));
    }
}

#[test]
fn blank_record_is_all_zero() {
    let blank = onpair_rs::static_lpm16::LongMatchInfo::empty();
    assert_eq!(blank.prefix, 0);
    assert_eq!(blank.inline_suffixes, [0u64; 4]);
    assert_eq!(blank.inline_lengths, [0u8; 4]);
    assert_eq!(blank.inline_ids, [0u16; 4]);
    assert_eq!(blank.n_suffixes, 0);
    assert_eq!(blank.offset, 0);
    assert_eq!(blank.answer_id, 0);
    assert_eq!(blank.answer_length, 0);
}
