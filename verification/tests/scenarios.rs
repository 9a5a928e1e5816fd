use onpair_rs::OnPair;
use onpair_rs::OnPair16;

fn read_a(c: &OnPair, index: usize, longest: usize) -> Vec<u8> {
    let mut buffer = vec![0u8; longest + 16];
    let n = c.decompress_string(index, &mut buffer);
    buffer[..n].to_vec()
}

fn read_b(c: &OnPair16, index: usize, longest: usize) -> Vec<u8> {
    let mut buffer = vec![0u8; longest + 16];
    let n = c.decompress_string(index, &mut buffer);
    buffer[..n].to_vec()
}

fn pseudo_random_bytes(n: usize, mut state: u64) -> Vec<u8> {
    let mut out = Vec::with_capacity(n);
    for _ in 0..n {
        state = state.wrapping_mul(6364136223846793005).wrapping_add(1442695040888963407);
        out.push((state >> 33) as u8);
    }
    out
}

#[test]
fn empty_collection_variant_a() {
    let strings: Vec<&str> = Vec::new();
    let mut c = OnPair::new();
    c.compress_strings(&strings);
    assert_eq!(c.num_strings(), 0);
    assert_eq!(c.num_tokens(), 256);
    assert_eq!(c.space_used(), 256 + 257 * std::mem::size_of::<usize>());
    let mut buffer = vec![7u8; 16];
    assert_eq!(c.decompress_all(&mut buffer), 0);
    assert_eq!(buffer, vec![7u8; 16]);
}

#[test]
fn empty_collection_variant_b() {
    let strings: Vec<&str> = Vec::new();
    let mut c = OnPair16::new(2);
    c.compress_strings(&strings);
    assert_eq!(c.num_strings(), 0);
    assert_eq!(c.num_tokens(), 256);
    assert_eq!(c.space_used(), 256 + 257 * 4);
    let mut buffer = vec![7u8; 16];
    assert_eq!(c.decompress_all(&mut buffer), 0);
    assert_eq!(buffer, vec![7u8; 16]);
}

#[test]
fn fresh_compressor_holds_nothing() {
    let a = OnPair::with_capacity(10, 100);
    assert_eq!(a.num_strings(), 0);
    assert_eq!(a.num_tokens(), 0);
    assert_eq!(a.space_used(), 0);
    let b = OnPair16::with_capacity(3, 10, 100);
    assert_eq!(b.num_strings(), 0);
    assert_eq!(b.num_tokens(), 0);
    assert_eq!(b.space_used(), 0);
    let mut buffer = vec![1u8; 4];
    assert_eq!(a.decompress_all(&mut buffer), 0);
    assert_eq!(b.decompress_all(&mut buffer), 0);
}

#[test]
fn empty_strings_around_one_byte_variant_a() {
    let strings = vec!["", "a", ""];
    let mut c = OnPair::new();
    c.compress_strings(&strings);
    assert_eq!(c.num_strings(), 3);
    assert_eq!(read_a(&c, 0, 1), b"".to_vec());
    assert_eq!(read_a(&c, 1, 1), b"a".to_vec());
    assert_eq!(read_a(&c, 2, 1), b"".to_vec());
    assert_eq!(c.token_ids(0), Vec::<u16>::new());
    assert_eq!(c.token_ids(1), vec![97u16]);
    assert_eq!(c.token_ids(2), Vec::<u16>::new());
}

#[test]
fn empty_strings_around_one_byte_variant_b() {
    let strings = vec!["", "a", ""];
    let mut c = OnPair16::new(2);
    c.compress_strings(&strings);
    assert_eq!(c.num_strings(), 3);
    assert_eq!(read_b(&c, 0, 1), b"".to_vec());
    assert_eq!(read_b(&c, 1, 1), b"a".to_vec());
    assert_eq!(read_b(&c, 2, 1), b"".to_vec());
    assert_eq!(c.token_ids(1), vec![97u16]);
}

#[test]
fn ten_copies_become_long_tokens() {
    let strings = vec!["user_000001"; 10];
    let mut c = OnPair::new();
    c.compress_strings(&strings);
    let mut longest = 0;
    for id in 256..c.num_tokens() {
        let token = c.token(id as u16);
        assert!(b"user_000001".starts_with(&token[..]) || b"user_000001".ends_with(&token[..])
            || token.len() <= 11);
        if b"user_000001".starts_with(&token[..]) && token.len() > longest {
            longest = token.len();
        }
    }
    assert!(longest >= 8);
    for i in 0..10 {
        assert_eq!(read_a(&c, i, 11), b"user_000001".to_vec());
    }
    for i in 0..10 {
        assert!(c.token_ids(i).len() >= 1);
    }
    // the strings that are parsed after training use the longest tokens
    assert!(c.token_ids(9).len() <= 2);
    assert!(c.token_ids(0).len() <= 2);
}

#[test]
fn eighteen_bytes_alone_learn_three_tokens() {
    let strings = vec!["aaaaaaaaaaaaaaaaaa"];
    let mut c = OnPair16::new(2);
    c.compress_strings(&strings);
    for id in 0..c.num_tokens() {
        let token = c.token(id as u16);
        assert!(token.len() >= 1 && token.len() <= 16);
    }
    assert_eq!(read_b(&c, 0, 18), strings[0].as_bytes().to_vec());
    assert_eq!(c.num_tokens(), 259);
    assert_eq!(c.token(256), b"aa".to_vec());
    assert_eq!(c.token(257), b"aaaa".to_vec());
    assert_eq!(c.token(258), b"aaaaaaaa".to_vec());
    assert_eq!(c.token_ids(0), vec![258, 258, 256]);
}

#[test]
fn repeated_long_string_needs_two_tokens_variant_b() {
    let strings = vec!["aaaaaaaaaaaaaaaaaa"; 40];
    let mut c = OnPair16::new(2);
    c.compress_strings(&strings);
    for id in 0..c.num_tokens() {
        assert!(c.token(id as u16).len() <= 16);
    }
    for i in 0..40 {
        assert_eq!(c.token_ids(i).len(), 2);
    }
    for i in 0..40 {
        assert_eq!(read_b(&c, i, 18), strings[i].as_bytes().to_vec());
    }
}

#[test]
fn shared_prefix_of_eight_bytes_variant_a() {
    let strings = vec!["abcdefghijkl", "abcdefghxyz", "abcdefghijkl", "abcdefghxyz", "abcdefghijkl",
        "abcdefghxyz", "abcdefghijkl", "abcdefghxyz"];
    let mut c = OnPair::new();
    c.compress_strings(&strings);
    for i in 0..strings.len() {
        assert_eq!(read_a(&c, i, 12), strings[i].as_bytes().to_vec());
    }
}

#[test]
fn shared_prefix_of_eight_bytes_variant_b() {
    let mut strings = Vec::new();
    for _ in 0..64 {
        strings.push("abcdefghijkl");
        strings.push("abcdefghxyz");
    }
    let mut c = OnPair16::new(2);
    c.compress_strings(&strings);
    for i in 0..strings.len() {
        assert_eq!(read_b(&c, i, 12), strings[i].as_bytes().to_vec());
    }
    let mut has_first = false;
    let mut has_second = false;
    for id in 256..c.num_tokens() {
        let token = c.token(id as u16);
        if token.len() > 8 && b"abcdefghijkl".starts_with(&token[..]) {
            has_first = true;
        }
        if token.len() > 8 && b"abcdefghxyz".starts_with(&token[..]) {
            has_second = true;
        }
    }
    assert!(has_first && has_second);
}

fn cut(data: &[u8], mut state: u64) -> Vec<usize> {
    let mut ends = vec![0usize];
    let mut at = 0;
    while at < data.len() {
        state = state.wrapping_mul(6364136223846793005).wrapping_add(1442695040888963407);
        let len = ((state >> 40) % 48) as usize;
        at = std::cmp::min(data.len(), at + len);
        ends.push(at);
    }
    ends
}

#[test]
fn one_mebibyte_of_random_bytes_variant_a() {
    let data = pseudo_random_bytes(1 << 20, 11);
    let ends = cut(&data, 5);
    let mut c = OnPair::new();
    c.compress_bytes(&data, &ends);
    assert_eq!(c.num_strings(), ends.len() - 1);
    let mut buffer = vec![0u8; 48 + 16];
    let mut emitted = 0;
    let mut arena = 0;
    for i in 0..c.num_strings() {
        let n = c.decompress_string(i, &mut buffer);
        assert_eq!(&buffer[..n], &data[ends[i]..ends[i + 1]]);
        let ids = c.token_ids(i).len();
        assert!(ids <= n);
        assert!(n == 0 || ids >= 1);
        emitted += ids;
    }
    for id in 0..c.num_tokens() {
        arena += c.token(id as u16).len();
    }
    assert!(c.num_tokens() >= 256 && c.num_tokens() <= 65536);
    assert_eq!(c.space_used(), 2 * emitted + arena + (c.num_tokens() + 1) * std::mem::size_of::<usize>());
}

#[test]
fn one_mebibyte_of_random_bytes_variant_b() {
    let data = pseudo_random_bytes(1 << 20, 12);
    let ends = cut(&data, 6);
    let mut c = OnPair16::new(2);
    c.compress_bytes(&data, &ends);
    assert_eq!(c.num_strings(), ends.len() - 1);
    let mut buffer = vec![0u8; 48 + 16];
    let mut emitted = 0;
    let mut arena = 0;
    for i in 0..c.num_strings() {
        let n = c.decompress_string(i, &mut buffer);
        assert_eq!(&buffer[..n], &data[ends[i]..ends[i + 1]]);
        let ids = c.token_ids(i).len();
        assert!(ids <= n);
        assert!(n == 0 || ids >= 1);
        emitted += ids;
    }
    for id in 0..c.num_tokens() {
        let len = c.token(id as u16).len();
        assert!(len >= 1 && len <= 16);
        arena += len;
    }
    assert!(c.num_tokens() >= 256 && c.num_tokens() <= 65536);
    assert_eq!(c.space_used(), 2 * emitted + arena + (c.num_tokens() + 1) * 4);
    let mut all = vec![0u8; data.len()];
    assert_eq!(c.decompress_all(&mut all), data.len());
    assert_eq!(all, data);
}
