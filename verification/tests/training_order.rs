use onpair_rs::OnPair;
use onpair_rs::OnPair16;

fn sample() -> (Vec<u8>, Vec<usize>) {
    let words = ["user_000001", "user_000002", "user_000003", "admin_001", "user_000004",
        "user_000005", "guest_001", "user_000006", "admin_002", "user_000007"];
    let mut data = Vec::new();
    let mut ends = vec![0usize];
    for round in 0..20 {
        for (i, word) in words.iter().enumerate() {
            if (round + i) % 7 != 0 {
                data.extend_from_slice(word.as_bytes());
            }
            ends.push(data.len());
        }
    }
    (data, ends)
}

#[test]
fn same_seed_gives_same_result_variant_a() {
    let (data, ends) = sample();
    let mut first = OnPair::new();
    let mut second = OnPair::new();
    first.compress_bytes_seeded(&data, &ends, 42);
    second.compress_bytes_seeded(&data, &ends, 42);
    assert_eq!(first.num_tokens(), second.num_tokens());
    for id in 0..first.num_tokens() {
        assert_eq!(first.token(id as u16), second.token(id as u16));
    }
    for i in 0..first.num_strings() {
        assert_eq!(first.token_ids(i), second.token_ids(i));
        assert_eq!(first.decoded_len(i), ends[i + 1] - ends[i]);
    }
    assert_eq!(first.space_used(), second.space_used());
}

#[test]
fn same_seed_gives_same_result_variant_b() {
    let (data, ends) = sample();
    let mut first = OnPair16::new(3);
    let mut second = OnPair16::new(3);
    first.compress_bytes_seeded(&data, &ends, 42);
    second.compress_bytes_seeded(&data, &ends, 42);
    assert_eq!(first.num_tokens(), second.num_tokens());
    for id in 0..first.num_tokens() {
        assert_eq!(first.token(id as u16), second.token(id as u16));
    }
    for i in 0..first.num_strings() {
        assert_eq!(first.token_ids(i), second.token_ids(i));
        assert_eq!(first.decoded_len(i), ends[i + 1] - ends[i]);
    }
    assert_eq!(first.space_used(), second.space_used());
}

#[test]
fn given_order_decides_the_tokens() {
    let data = b"ababab".to_vec();
    let ends = vec![0, 6];
    let mut c = OnPair16::new(2);
    c.compress_bytes_in_order(&data, &ends, &[0]);
    // "ab" is seen at 0 and 2: at the second time the pair becomes token 256;
    // then "ab" and "a" have been seen once only.
    assert_eq!(c.num_tokens(), 257);
    assert_eq!(c.token(256), b"ab".to_vec());
    assert_eq!(c.token_ids(0), vec![256, 256, 256]);
    let mut a = OnPair::new();
    a.compress_bytes_in_order(&data, &ends, &[0]);
    assert_eq!(a.num_tokens(), 257);
    assert_eq!(a.token(256), b"ab".to_vec());
    assert_eq!(a.token_ids(0), vec![256, 256, 256]);
}

#[test]
fn empty_order_learns_single_bytes_only() {
    let data = b"abcabc".to_vec();
    let ends = vec![0, 3, 6];
    let mut c = OnPair::new();
    c.compress_bytes_in_order(&data, &ends, &[]);
    assert_eq!(c.num_tokens(), 256);
    assert_eq!(c.token_ids(0), vec![97, 98, 99]);
    assert_eq!(c.token_ids(1), vec![97, 98, 99]);
    for b in 0..256usize {
        assert_eq!(c.token(b as u16), vec![b as u8]);
    }
}

#[test]
fn compressing_again_replaces_the_collection() {
    let mut c = OnPair16::new(2);
    c.compress_strings(&["first", "collection"]);
    c.compress_strings(&["second"]);
    assert_eq!(c.num_strings(), 1);
    let mut buffer = vec![0u8; 32];
    let n = c.decompress_string(0, &mut buffer);
    assert_eq!(&buffer[..n], b"second");
    c.shrink_to_fit();
    assert_eq!(c.num_strings(), 1);
    let n = c.decompress_all(&mut buffer);
    assert_eq!(&buffer[..n], b"second");
    let mut a = OnPair::new();
    a.compress_strings(&["first", "collection"]);
    a.compress_strings(&["second", "one"]);
    a.shrink_to_fit();
    assert_eq!(a.num_strings(), 2);
    let n = a.decompress_all(&mut buffer);
    assert_eq!(&buffer[..n], b"secondone");
    assert_eq!(&buffer[n..], &vec![0u8; 32 - n][..]);
}

#[test]
fn high_threshold_merges_late() {
    let strings = vec!["abab"; 3];
    let mut c = OnPair16::new(100);
    c.compress_strings(&strings);
    assert_eq!(c.num_tokens(), 256);
    assert_eq!(c.token_ids(2), vec![97, 98, 97, 98]);
}
