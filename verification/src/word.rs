//! Byte packing: up to eight bytes held in one little-endian 64-bit word.
//!
//! A key of at most eight bytes is compared and hashed as a pair of a word and
//! a length. The functions here load such words from byte buffers and compare
//! them; the lemmas tie every operation on words back to the bytes it stands
//! for, so that the matchers can be stated over byte sequences alone.

use vstd::prelude::*;
use vstd::arithmetic::div_mod::lemma_breakdown;
use vstd::std_specs::bits::u64_trailing_zeros;
use vstd::std_specs::bits::axiom_u64_trailing_zeros;

verus! {

/// 256 raised to the power `n`.
pub open spec fn pow256(n: nat) -> nat
    decreases n,
{
    if n == 0 {
        1
    } else {
        256 * pow256((n - 1) as nat)
    }
}

/// The number that the bytes of `s` spell, least significant byte first.
pub open spec fn le_value(s: Seq<u8>) -> nat
    decreases s.len(),
{
    if s.len() == 0 {
        0
    } else {
        s[0] as nat + 256 * le_value(s.skip(1))
    }
}

/// The `n` low bytes of `w`, least significant byte first.
pub open spec fn le_bytes(w: nat, n: nat) -> Seq<u8>
    decreases n,
{
    if n == 0 {
        Seq::empty()
    } else {
        seq![(w % 256) as u8] + le_bytes(w / 256, (n - 1) as nat)
    }
}

/// How many low bytes two words share: the trailing zero bits of their
/// difference, in whole bytes.
pub open spec fn shared_prefix_bytes(a: u64, b: u64) -> nat {
    (u64_trailing_zeros(a ^ b) / 8) as nat
}

/// Whether the candidate word, of `cand_len` bytes, spells a prefix of the
/// text word, of `text_len` bytes.
pub open spec fn word_is_prefix(text: u64, cand: u64, text_len: nat, cand_len: nat) -> bool {
    cand_len <= text_len && shared_prefix_bytes(text, cand) >= cand_len
}

/// The code under which a key of at most eight bytes is stored: its length
/// above its word.
pub open spec fn key_code(s: Seq<u8>) -> nat {
    s.len() * 0x1_0000_0000_0000_0000 + le_value(s)
}

/// The bytes that a key code stands for.
pub open spec fn code_bytes(code: nat) -> Seq<u8> {
    le_bytes(code % 0x1_0000_0000_0000_0000, code / 0x1_0000_0000_0000_0000)
}

/// The powers of 256 up to the eighth.
pub proof fn lemma_pow256_values()
    ensures
        pow256(0) == 1,
        pow256(1) == 0x100,
        pow256(2) == 0x1_0000,
        pow256(3) == 0x100_0000,
        pow256(4) == 0x1_0000_0000,
        pow256(5) == 0x100_0000_0000,
        pow256(6) == 0x1_0000_0000_0000,
        pow256(7) == 0x100_0000_0000_0000,
        pow256(8) == 0x1_0000_0000_0000_0000,
{
    reveal_with_fuel(pow256, 10);
}

/// Powers of 256 are positive and grow with the exponent.
pub proof fn lemma_pow256_increases(a: nat, b: nat)
    requires
        a <= b,
    ensures
        0 < pow256(a) <= pow256(b),
    decreases b,
{
    if b == 0 {
    } else if a == b {
        lemma_pow256_increases(0, (b - 1) as nat);
    } else {
        lemma_pow256_increases(a, (b - 1) as nat);
    }
}

/// A value of `n` bytes is below 256 to the `n`.
pub proof fn lemma_le_value_bound(s: Seq<u8>)
    ensures
        le_value(s) < pow256(s.len()),
    decreases s.len(),
{
    if s.len() > 0 {
        lemma_le_value_bound(s.skip(1));
        assert(le_value(s.skip(1)) + 1 <= pow256((s.len() - 1) as nat));
    }
}

/// Reading bytes as a number and writing the number out again gives the bytes.
pub proof fn lemma_bytes_of_value(s: Seq<u8>)
    ensures
        le_bytes(le_value(s), s.len()) == s,
    decreases s.len(),
{
    if s.len() > 0 {
        let rest = s.skip(1);
        lemma_bytes_of_value(rest);
        let v = le_value(s);
        assert(v % 256 == s[0] as nat);
        assert(v / 256 == le_value(rest));
        assert(le_bytes(v, s.len()) =~= s);
    } else {
        assert(le_bytes(le_value(s), s.len()) =~= s);
    }
}

/// Two byte strings of one length that spell the same number are equal.
pub proof fn lemma_le_value_injective(a: Seq<u8>, b: Seq<u8>)
    requires
        a.len() == b.len(),
        le_value(a) == le_value(b),
    ensures
        a == b,
{
    lemma_bytes_of_value(a);
    lemma_bytes_of_value(b);
}

/// Writing a number out in `n` bytes gives `n` bytes.
pub proof fn lemma_le_bytes_len(w: nat, n: nat)
    ensures
        le_bytes(w, n).len() == n,
    decreases n,
{
    if n > 0 {
        lemma_le_bytes_len(w / 256, (n - 1) as nat);
    }
}

/// Writing a number out in `n` bytes keeps it modulo 256 to the `n`.
pub proof fn lemma_value_of_bytes(w: nat, n: nat)
    ensures
        le_bytes(w, n).len() == n,
        le_value(le_bytes(w, n)) == w % pow256(n),
    decreases n,
{
    lemma_le_bytes_len(w, n);
    if n > 0 {
        let m = (n - 1) as nat;
        lemma_value_of_bytes(w / 256, m);
        lemma_le_bytes_len(w / 256, m);
        lemma_pow256_increases(0, m);
        let s = le_bytes(w, n);
        assert(s.skip(1) =~= le_bytes(w / 256, m));
        lemma_breakdown(w as int, 256, pow256(m) as int);
    }
}

/// The value of the first `n` bytes is the value modulo 256 to the `n`.
pub proof fn lemma_le_value_take(s: Seq<u8>, n: nat)
    requires
        n <= s.len(),
    ensures
        le_value(s.take(n as int)) == le_value(s) % pow256(n),
    decreases n,
{
    if n > 0 {
        let m = (n - 1) as nat;
        let rest = s.skip(1);
        lemma_le_value_take(rest, m);
        lemma_pow256_increases(0, m);
        assert(s.take(n as int).skip(1) =~= rest.take(m as int));
        lemma_breakdown(le_value(s) as int, 256, pow256(m) as int);
        assert(le_value(s) / 256 == le_value(rest));
        assert(le_value(s) % 256 == s[0] as nat);
    } else {
        assert(s.take(0).len() == 0);
    }
}

/// A key of at most eight bytes is found again from its code.
pub proof fn lemma_code_bytes(s: Seq<u8>)
    requires
        s.len() <= 8,
    ensures
        key_code(s) < 9 * 0x1_0000_0000_0000_0000,
        code_bytes(key_code(s)) == s,
{
    lemma_le_value_bound(s);
    lemma_pow256_increases(s.len(), 8);
    lemma_pow256_values();
    lemma_bytes_of_value(s);
    let c = key_code(s);
    assert(c % 0x1_0000_0000_0000_0000 == le_value(s));
    assert(c / 0x1_0000_0000_0000_0000 == s.len());
}

/// Keys of at most eight bytes with one code are one key.
pub proof fn lemma_key_code_injective(a: Seq<u8>, b: Seq<u8>)
    requires
        a.len() <= 8,
        b.len() <= 8,
        key_code(a) == key_code(b),
    ensures
        a == b,
{
    lemma_code_bytes(a);
    lemma_code_bytes(b);
}

/// Two words share at least `n` low bytes exactly when they agree modulo 256
/// to the `n`.
pub proof fn lemma_shared_prefix_mod(a: u64, b: u64, n: nat)
    requires
        n <= 8,
    ensures
        shared_prefix_bytes(a, b) >= n <==> (a as nat) % pow256(n) == (b as nat) % pow256(n),
{
    lemma_pow256_values();
    let x: u64 = a ^ b;
    axiom_u64_trailing_zeros(x);
    let t: u64 = u64_trailing_zeros(x) as u64;
    let sh: u64 = (64 - t) as u64;
    assert(x << sh == 0);
    assert(t < 64 ==> (x >> t) & 1 == 1);
    if n == 0 {
    } else if n == 1 {
        assert(t >= 8 <==> a % 0x100 == b % 0x100) by (bit_vector)
            requires
                x == a ^ b,
                t <= 64,
                sh + t == 64,
                x << sh == 0,
                t < 64 ==> (x >> t) & 1 == 1,
        ;
    } else if n == 2 {
        assert(t >= 16 <==> a % 0x1_0000 == b % 0x1_0000) by (bit_vector)
            requires
                x == a ^ b,
                t <= 64,
                sh + t == 64,
                x << sh == 0,
                t < 64 ==> (x >> t) & 1 == 1,
        ;
    } else if n == 3 {
        assert(t >= 24 <==> a % 0x100_0000 == b % 0x100_0000) by (bit_vector)
            requires
                x == a ^ b,
                t <= 64,
                sh + t == 64,
                x << sh == 0,
                t < 64 ==> (x >> t) & 1 == 1,
        ;
    } else if n == 4 {
        assert(t >= 32 <==> a % 0x1_0000_0000 == b % 0x1_0000_0000) by (bit_vector)
            requires
                x == a ^ b,
                t <= 64,
                sh + t == 64,
                x << sh == 0,
                t < 64 ==> (x >> t) & 1 == 1,
        ;
    } else if n == 5 {
        assert(t >= 40 <==> a % 0x100_0000_0000 == b % 0x100_0000_0000) by (bit_vector)
            requires
                x == a ^ b,
                t <= 64,
                sh + t == 64,
                x << sh == 0,
                t < 64 ==> (x >> t) & 1 == 1,
        ;
    } else if n == 6 {
        assert(t >= 48 <==> a % 0x1_0000_0000_0000 == b % 0x1_0000_0000_0000) by (bit_vector)
            requires
                x == a ^ b,
                t <= 64,
                sh + t == 64,
                x << sh == 0,
                t < 64 ==> (x >> t) & 1 == 1,
        ;
    } else if n == 7 {
        assert(t >= 56 <==> a % 0x100_0000_0000_0000 == b % 0x100_0000_0000_0000) by (bit_vector)
            requires
                x == a ^ b,
                t <= 64,
                sh + t == 64,
                x << sh == 0,
                t < 64 ==> (x >> t) & 1 == 1,
        ;
    } else {
        assert(t >= 64 <==> a == b) by (bit_vector)
            requires
                x == a ^ b,
                t <= 64,
                sh + t == 64,
                x << sh == 0,
                t < 64 ==> (x >> t) & 1 == 1,
        ;
        assert((a as nat) % pow256(8) == a as nat);
        assert((b as nat) % pow256(8) == b as nat);
    }
}

/// On words that spell byte strings, the bitwise test is the test on bytes.
pub proof fn lemma_word_is_prefix(text: Seq<u8>, cand: Seq<u8>)
    requires
        text.len() <= 8,
        cand.len() <= 8,
    ensures
        le_value(text) <= u64::MAX,
        le_value(cand) <= u64::MAX,
        word_is_prefix(le_value(text) as u64, le_value(cand) as u64, text.len(), cand.len()) <==> (
        cand.len() <= text.len() && text.take(cand.len() as int) == cand),
{
    lemma_pow256_values();
    lemma_le_value_bound(text);
    lemma_le_value_bound(cand);
    lemma_pow256_increases(text.len(), 8);
    lemma_pow256_increases(cand.len(), 8);
    if cand.len() <= text.len() {
        let n = cand.len();
        lemma_shared_prefix_mod(le_value(text) as u64, le_value(cand) as u64, n);
        lemma_le_value_take(text, n);
        vstd::arithmetic::div_mod::lemma_small_mod(le_value(cand), pow256(n));
        if le_value(text.take(n as int)) == le_value(cand) {
            lemma_le_value_injective(text.take(n as int), cand);
        }
    }
}

/// The mask that keeps the `len` low bytes of a word.
pub fn low_mask(len: usize) -> (m: u64)
    requires
        len <= 8,
    ensures
        m as nat == pow256(len as nat) - 1,
{
    proof {
        lemma_pow256_values();
    }
    if len == 0 {
        0x0000000000000000
    } else if len == 1 {
        0x00000000000000FF
    } else if len == 2 {
        0x000000000000FFFF
    } else if len == 3 {
        0x0000000000FFFFFF
    } else if len == 4 {
        0x00000000FFFFFFFF
    } else if len == 5 {
        0x000000FFFFFFFFFF
    } else if len == 6 {
        0x0000FFFFFFFFFFFF
    } else if len == 7 {
        0x00FFFFFFFFFFFFFF
    } else {
        0xFFFFFFFFFFFFFFFF
    }
}

/// Clears all but the `len` low bytes of `word`.
pub fn keep_low_bytes(word: u64, len: usize) -> (w: u64)
    requires
        len <= 8,
    ensures
        w as nat == (word as nat) % pow256(len as nat),
{
    let m = low_mask(len);
    proof {
        lemma_pow256_values();
        if len == 0 {
            assert(word & m == 0) by (bit_vector)
                requires
                    m == 0,
            ;
        } else if len == 1 {
            assert(word & m == word % 0x100) by (bit_vector)
                requires
                    m == 0xFF,
            ;
        } else if len == 2 {
            assert(word & m == word % 0x1_0000) by (bit_vector)
                requires
                    m == 0xFFFF,
            ;
        } else if len == 3 {
            assert(word & m == word % 0x100_0000) by (bit_vector)
                requires
                    m == 0xFF_FFFF,
            ;
        } else if len == 4 {
            assert(word & m == word % 0x1_0000_0000) by (bit_vector)
                requires
                    m == 0xFFFF_FFFF,
            ;
        } else if len == 5 {
            assert(word & m == word % 0x100_0000_0000) by (bit_vector)
                requires
                    m == 0xFF_FFFF_FFFF,
            ;
        } else if len == 6 {
            assert(word & m == word % 0x1_0000_0000_0000) by (bit_vector)
                requires
                    m == 0xFFFF_FFFF_FFFF,
            ;
        } else if len == 7 {
            assert(word & m == word % 0x100_0000_0000_0000) by (bit_vector)
                requires
                    m == 0xFF_FFFF_FFFF_FFFF,
            ;
        } else {
            assert(word & m == word) by (bit_vector)
                requires
                    m == 0xFFFF_FFFF_FFFF_FFFF,
            ;
            assert((word as nat) % pow256(8) == word as nat);
        }
    }
    word & m
}

/// Loads the `len` bytes of `buf` that start at `from` as a little-endian
/// word; the bytes above them are zero.
pub fn load_word_at(buf: &[u8], from: usize, len: usize) -> (w: u64)
    requires
        len <= 8,
        from + len <= buf@.len(),
    ensures
        w as nat == le_value(buf@.subrange(from as int, from + len)),
{
    let mut w: u64 = 0;
    let mut i: usize = len;
    let total: usize = buf.len();
    proof {
        assert(buf@.subrange(from + len, from + len).len() == 0);
    }
    while i > 0
        invariant
            i <= len <= 8,
            from + len <= buf@.len() == total,
            w as nat == le_value(buf@.subrange(from + i, from + len)),
        decreases i,
    {
        let b: u8 = buf[from + i - 1];
        proof {
            let tail = buf@.subrange(from + i, from + len);
            let next = buf@.subrange(from + i - 1, from + len);
            lemma_le_value_bound(tail);
            lemma_pow256_increases(tail.len(), 7);
            lemma_pow256_values();
            assert(next.skip(1) =~= tail);
            assert(next[0] == b);
            assert((w << 8) | (b as u64) == w * 256 + b) by (bit_vector)
                requires
                    w < 0x100_0000_0000_0000,
            ;
        }
        w = (w << 8) | (b as u64);
        i = i - 1;
    }
    w
}

/// Loads the first `len` bytes of `buf` as a little-endian word; the bytes
/// above them are zero.
pub fn load_u64_le_masked(buf: &[u8], len: usize) -> (w: u64)
    requires
        len <= 8,
        len <= buf@.len(),
    ensures
        w as nat == le_value(buf@.take(len as int)),
{
    proof {
        assert(buf@.subrange(0, 0 + len) =~= buf@.take(len as int));
    }
    load_word_at(buf, 0, len)
}

/// The number of low bytes that two words share.
pub fn shared_prefix_size(a: u64, b: u64) -> (n: usize)
    ensures
        n == shared_prefix_bytes(a, b),
        n <= 8,
{
    let t: u32 = (a ^ b).trailing_zeros();
    proof {
        axiom_u64_trailing_zeros(a ^ b);
        assert(t >> 3 == t / 8) by (bit_vector);
    }
    (t >> 3) as usize
}

/// Whether `prefix`, a word of `prefix_size` bytes, spells a prefix of `text`,
/// a word of `text_size` bytes. Both words must hold zeros above their bytes.
pub fn is_prefix(text: u64, prefix: u64, text_size: usize, prefix_size: usize) -> (r: bool)
    ensures
        r == word_is_prefix(text, prefix, text_size as nat, prefix_size as nat),
{
    prefix_size <= text_size && shared_prefix_size(text, prefix) >= prefix_size
}

/// The code of a key of `len` bytes whose word is `word`.
pub fn pack_key(word: u64, len: usize) -> (code: u128)
    requires
        len <= 8,
    ensures
        code as nat == len * 0x1_0000_0000_0000_0000 + word,
{
    (len as u128) * 0x1_0000_0000_0000_0000u128 + (word as u128)
}

/// The first eight bytes of the data are the bytes of the word they spell.
pub proof fn lemma_prefix_word(data: Seq<u8>)
    requires
        data.len() >= 8,
    ensures
        le_value(data.take(8)) <= u64::MAX,
        le_bytes(le_value(data.take(8)), 8) == data.take(8),
{
    lemma_le_value_bound(data.take(8));
    lemma_pow256_values();
    lemma_bytes_of_value(data.take(8));
}

/// Two words with the same eight bytes are one word.
pub proof fn lemma_word_of_bytes(p: u64, q: u64)
    requires
        le_bytes(p as nat, 8) == le_bytes(q as nat, 8),
    ensures
        p == q,
{
    lemma_value_of_bytes(p as nat, 8);
    lemma_value_of_bytes(q as nat, 8);
    lemma_pow256_values();
}

} // verus!
