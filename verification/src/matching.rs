//! What a longest-prefix matcher answers, stated over its set of keys.

use vstd::prelude::*;

verus! {

/// The greatest length between 1 and `n` at which a prefix of `data` is a key,
/// or 0 where no such prefix is one.
pub open spec fn longest_match_len<V>(keys: Map<Seq<u8>, V>, data: Seq<u8>, n: nat) -> nat
    decreases n,
{
    if n == 0 {
        0
    } else if keys.contains_key(data.take(n as int)) {
        n
    } else {
        longest_match_len(keys, data, (n - 1) as nat)
    }
}

/// The longest key that is a non-empty prefix of `data`, as its id and its
/// length; `None` where no key is such a prefix.
pub open spec fn longest_match<V>(keys: Map<Seq<u8>, V>, data: Seq<u8>) -> Option<(V, usize)> {
    let len = longest_match_len(keys, data, data.len());
    if len == 0 {
        None
    } else {
        Some((keys[data.take(len as int)], len as usize))
    }
}

/// The length that `longest_match_len` gives belongs to a key, and no longer
/// prefix up to `n` is one.
pub proof fn lemma_longest_match_len<V>(keys: Map<Seq<u8>, V>, data: Seq<u8>, n: nat)
    ensures
        longest_match_len(keys, data, n) <= n,
        longest_match_len(keys, data, n) > 0 ==> keys.contains_key(
            data.take(longest_match_len(keys, data, n) as int),
        ),
        forall|j: int|
            longest_match_len(keys, data, n) < j <= n ==> !keys.contains_key(
                #[trigger] data.take(j),
            ),
    decreases n,
{
    if n > 0 && !keys.contains_key(data.take(n as int)) {
        lemma_longest_match_len(keys, data, (n - 1) as nat);
    }
}

/// A length that belongs to a key, with no key between it and `n`, is the
/// longest match up to `n`.
pub proof fn lemma_longest_match_is<V>(keys: Map<Seq<u8>, V>, data: Seq<u8>, n: nat, len: nat)
    requires
        len <= n,
        len > 0 ==> keys.contains_key(data.take(len as int)),
        forall|j: int| len < j <= n ==> !keys.contains_key(#[trigger] data.take(j)),
    ensures
        longest_match_len(keys, data, n) == len,
    decreases n,
{
    if n > len {
        assert(!keys.contains_key(data.take(n as int)));
        lemma_longest_match_is(keys, data, (n - 1) as nat, len);
    }
}

/// Only the first `m` bytes of the data decide the matches of length up to `m`.
pub proof fn lemma_longest_match_of_prefix<V>(
    keys: Map<Seq<u8>, V>,
    data: Seq<u8>,
    m: nat,
    n: nat,
)
    requires
        n <= m <= data.len(),
    ensures
        longest_match_len(keys, data.take(m as int), n) == longest_match_len(keys, data, n),
    decreases n,
{
    if n > 0 {
        assert(data.take(m as int).take(n as int) =~= data.take(n as int));
        lemma_longest_match_of_prefix(keys, data, m, (n - 1) as nat);
    }
}

/// Lengths at which no prefix is a key can be left out of the search.
pub proof fn lemma_longest_match_skip<V>(keys: Map<Seq<u8>, V>, data: Seq<u8>, m: nat, n: nat)
    requires
        m <= n,
        forall|j: int| m < j <= n ==> !keys.contains_key(#[trigger] data.take(j)),
    ensures
        longest_match_len(keys, data, n) == longest_match_len(keys, data, m),
    decreases n,
{
    if n > m {
        assert(!keys.contains_key(data.take(n as int)));
        lemma_longest_match_skip(keys, data, m, (n - 1) as nat);
    }
}

/// Where the first byte of the data is a key by itself, some key matches.
pub proof fn lemma_first_byte_matches<V>(keys: Map<Seq<u8>, V>, data: Seq<u8>)
    requires
        data.len() > 0,
        keys.contains_key(seq![data[0]]),
    ensures
        longest_match_len(keys, data, data.len()) >= 1,
{
    assert(data.take(1) =~= seq![data[0]]);
    lemma_longest_match_len(keys, data, data.len());
}

/// Putting a key in twice under one id is the same as putting it in once.
pub proof fn lemma_insert_idempotent<V>(keys: Map<Seq<u8>, V>, key: Seq<u8>, id: V)
    ensures
        keys.insert(key, id).insert(key, id) == keys.insert(key, id),
{
    assert(keys.insert(key, id).insert(key, id) =~= keys.insert(key, id));
}

/// Of two ids under which a key is put in, the later one stays.
pub proof fn lemma_last_write_wins<V>(keys: Map<Seq<u8>, V>, key: Seq<u8>, first: V, second: V)
    ensures
        keys.insert(key, first).insert(key, second) == keys.insert(key, second),
{
    assert(keys.insert(key, first).insert(key, second) =~= keys.insert(key, second));
}

} // verus!
