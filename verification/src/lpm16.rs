//! The longest-prefix matcher for keys of at most sixteen bytes, as it is
//! filled during training.
//!
//! Keys of at most eight bytes sit in one hash map under their key code. A
//! longer key is split: its first eight bytes select a bucket, and the bucket
//! holds the remaining one to eight bytes as a word, a length and the id.
//! Buckets are kept ordered by decreasing length, so the first entry that
//! matches is the longest.

use vstd::prelude::*;
use rustc_hash::FxHashMap;
use vstd::std_specs::hash::spec_hash_map_iter;
use vstd::std_specs::iter::IteratorSpec;
use crate::fx::hasher_is_valid;
use crate::fx::new_fx_map;
use crate::matching::lemma_longest_match_is;
use crate::matching::lemma_longest_match_skip;
use crate::matching::longest_match;
use crate::matching::longest_match_len;
use crate::static_lpm16::answer_ok;
use crate::static_lpm16::lemma_entries_stable;
use crate::static_lpm16::occupied;
use crate::static_lpm16::record_covers;
use crate::static_lpm16::record_entries;
use crate::static_lpm16::record_in_range;
use crate::static_lpm16::record_ok;
use crate::static_lpm16::records_cover;
use crate::static_lpm16::records_ok;
use crate::static_lpm16::LongMatchInfo;
use crate::static_lpm16::StaticLongestPrefixMatcher16;
use crate::static_lpm16::N_INLINE_SUFFIXES;
use crate::short_index::find_short;
use crate::short_index::lemma_short_insert;
use crate::short_index::lemma_short_keeps;
use crate::short_index::short_index_ok;
use crate::word::code_bytes;
use crate::word::lemma_prefix_word;
use crate::word::lemma_word_of_bytes;
use crate::word::is_prefix;
use crate::word::key_code;
use crate::word::le_bytes;
use crate::word::le_value;
use crate::word::lemma_bytes_of_value;
use crate::word::lemma_le_bytes_len;
use crate::word::lemma_le_value_bound;
use crate::word::lemma_pow256_increases;
use crate::word::lemma_pow256_values;
use crate::word::lemma_value_of_bytes;
use crate::word::lemma_word_is_prefix;
use crate::word::load_word_at;
use crate::word::pack_key;
use crate::word::pow256;
use crate::word::word_is_prefix;

verus! {

/// The greatest number of entries that a bucket holds.
pub const MAX_BUCKET_SIZE: usize = 128;

/// The greatest length of a key.
pub const MAX_KEY_LENGTH: usize = 16;

/// The bytes of a bucket entry: the low bytes of its word.
pub open spec fn entry_bytes(e: (u64, u8, u16)) -> Seq<u8> {
    le_bytes(e.0 as nat, e.1 as nat)
}

/// An entry holds one to eight bytes and zeros above them.
pub open spec fn entry_ok(e: (u64, u8, u16)) -> bool {
    1 <= e.1 <= 8 && (e.0 as nat) < pow256(e.1 as nat)
}

/// Whether the bytes of the entry follow the first eight bytes of the data.
pub open spec fn entry_matches(e: (u64, u8, u16), data: Seq<u8>) -> bool {
    8 + e.1 <= data.len() && data.subrange(8, 8 + e.1) == entry_bytes(e)
}

/// Longer entries stand before shorter ones.
pub open spec fn entries_sorted(b: Seq<(u64, u8, u16)>) -> bool {
    forall|i: int, j: int| 0 <= i < j < b.len() ==> b[i].1 >= b[j].1
}

/// Whether some entry of the bucket holds exactly the bytes `u`.
pub open spec fn bucket_has(b: Seq<(u64, u8, u16)>, u: Seq<u8>) -> bool {
    exists|i: int| 0 <= i < b.len() && #[trigger] entry_bytes(b[i]) == u
}

/// The key that an entry of the bucket for `prefix` stands for.
pub open spec fn entry_key(prefix: u64, e: (u64, u8, u16)) -> Seq<u8> {
    le_bytes(prefix as nat, 8) + entry_bytes(e)
}

/// Every entry of the bucket for `prefix` is a key with the entry's id, and
/// the bucket is ordered.
pub open spec fn bucket_ok(keys: Map<Seq<u8>, u16>, prefix: u64, b: Seq<(u64, u8, u16)>) -> bool {
    &&& entries_sorted(b)
    &&& forall|i: int|
        0 <= i < b.len() ==> {
            &&& entry_ok(#[trigger] b[i])
            &&& keys.contains_key(entry_key(prefix, b[i]))
            &&& keys[entry_key(prefix, b[i])] == b[i].2
        }
}

/// The buckets hold exactly the keys of more than eight bytes.
pub open spec fn long_index_ok(
    keys: Map<Seq<u8>, u16>,
    long: Map<u64, Vec<(u64, u8, u16)>>,
) -> bool {
    &&& forall|p: u64| #[trigger] long.contains_key(p) ==> bucket_ok(keys, p, long[p]@)
    &&& forall|s: Seq<u8>|
        #[trigger] keys.contains_key(s) && s.len() > 8 ==> long.contains_key(
            le_value(s.take(8)) as u64,
        ) && bucket_has(long[le_value(s.take(8)) as u64]@, s.skip(8))
}

/// The bytes of a well-formed entry spell its word.
pub proof fn lemma_entry_word(e: (u64, u8, u16))
    requires
        entry_ok(e),
    ensures
        entry_bytes(e).len() == e.1,
        le_value(entry_bytes(e)) == e.0,
{
    lemma_value_of_bytes(e.0 as nat, e.1 as nat);
    vstd::arithmetic::div_mod::lemma_small_mod(e.0 as nat, pow256(e.1 as nat));
}

/// The test on words decides whether an entry matches the data.
pub proof fn lemma_entry_test(data: Seq<u8>, suffix_len: nat, e: (u64, u8, u16))
    requires
        data.len() >= 8,
        suffix_len == (if data.len() < 16 {
            data.len() - 8
        } else {
            8
        }),
        entry_ok(e),
    ensures
        le_value(data.subrange(8, 8 + suffix_len as int)) <= u64::MAX,
        word_is_prefix(
            le_value(data.subrange(8, 8 + suffix_len as int)) as u64,
            e.0,
            suffix_len,
            e.1 as nat,
        ) <==> entry_matches(e, data),
{
    let text = data.subrange(8, 8 + suffix_len as int);
    let cand = entry_bytes(e);
    lemma_entry_word(e);
    lemma_word_is_prefix(text, cand);
    if e.1 <= suffix_len {
        assert(text.take(e.1 as int) =~= data.subrange(8, 8 + e.1));
    }
}

/// Every key of more than eight bytes that begins with the bytes of `prefix`
/// has an entry in the bucket.
pub open spec fn bucket_complete(
    keys: Map<Seq<u8>, u16>,
    prefix: u64,
    b: Seq<(u64, u8, u16)>,
) -> bool {
    forall|s: Seq<u8>|
        #[trigger] keys.contains_key(s) && s.len() > 8 && le_value(s.take(8)) == prefix
            ==> bucket_has(b, s.skip(8))
}

/// Where an entry of the bucket of the data's first eight bytes matches and
/// no entry before it does, the entry is the longest match.
pub proof fn lemma_first_entry_is_longest(
    keys: Map<Seq<u8>, u16>,
    data: Seq<u8>,
    p: u64,
    b: Seq<(u64, u8, u16)>,
    i: int,
)
    requires
        bucket_ok(keys, p, b),
        bucket_complete(keys, p, b),
        data.len() > 8,
        p == le_value(data.take(8)),
        0 <= i < b.len(),
        entry_matches(b[i], data),
        forall|j: int| 0 <= j < i ==> !entry_matches(#[trigger] b[j], data),
    ensures
        longest_match_len(keys, data, data.len()) == 8 + b[i].1,
        keys.contains_key(data.take(8 + b[i].1)),
        keys[data.take(8 + b[i].1)] == b[i].2,
{
    let e = b[i];
    let len = (8 + e.1) as nat;
    lemma_prefix_word(data);
    assert(entry_ok(b[i]));
    assert(entry_key(p, e) =~= data.take(len as int));
    assert forall|j: int| len < j <= data.len() implies !keys.contains_key(
        #[trigger] data.take(j),
    ) by {
        let s = data.take(j);
        if keys.contains_key(s) {
            assert(s.take(8) =~= data.take(8));
            assert(bucket_has(b, s.skip(8)));
            let k = choose|k: int| 0 <= k < b.len() && #[trigger] entry_bytes(b[k]) == s.skip(8);
            assert(entry_ok(b[k]));
            lemma_entry_word(b[k]);
            assert(s.skip(8) =~= data.subrange(8, j));
            assert(entry_matches(b[k], data));
            assert(b[k].1 == j - 8);
            if k < i {
            } else if k > i {
                assert(b[i].1 >= b[k].1);
            }
        }
    }
    lemma_longest_match_is(keys, data, data.len(), len);
}

/// Where no entry of the bucket of the data's first eight bytes matches, no
/// key of more than eight bytes is a prefix.
pub proof fn lemma_no_entry_matches(
    keys: Map<Seq<u8>, u16>,
    data: Seq<u8>,
    p: u64,
    b: Seq<(u64, u8, u16)>,
)
    requires
        bucket_ok(keys, p, b),
        bucket_complete(keys, p, b),
        data.len() >= 8,
        p == le_value(data.take(8)),
        forall|j: int| 0 <= j < b.len() ==> !entry_matches(#[trigger] b[j], data),
    ensures
        forall|j: int| 8 < j <= data.len() ==> !keys.contains_key(#[trigger] data.take(j)),
        longest_match_len(keys, data, data.len()) == longest_match_len(keys, data, 8),
{
    assert forall|j: int| 8 < j <= data.len() implies !keys.contains_key(
        #[trigger] data.take(j),
    ) by {
        let s = data.take(j);
        if keys.contains_key(s) {
            assert(s.take(8) =~= data.take(8));
            assert(bucket_has(b, s.skip(8)));
            let k = choose|k: int| 0 <= k < b.len() && #[trigger] entry_bytes(b[k]) == s.skip(8);
            assert(entry_ok(b[k]));
            lemma_entry_word(b[k]);
            assert(s.skip(8) =~= data.subrange(8, j));
            assert(entry_matches(b[k], data));
        }
    }
    lemma_longest_match_skip(keys, data, 8, data.len());
}

/// The bucket of a prefix in the buckets of a matcher, or the empty bucket
/// where there is none, is well formed and complete.
pub proof fn lemma_bucket_of(
    keys: Map<Seq<u8>, u16>,
    long: Map<u64, Vec<(u64, u8, u16)>>,
    p: u64,
)
    requires
        long_index_ok(keys, long),
    ensures
        long.contains_key(p) ==> bucket_ok(keys, p, long[p]@) && bucket_complete(
            keys,
            p,
            long[p]@,
        ),
        !long.contains_key(p) ==> bucket_ok(keys, p, Seq::empty()) && bucket_complete(
            keys,
            p,
            Seq::empty(),
        ),
{
    lemma_pow256_values();
    assert forall|s: Seq<u8>|
        #[trigger] keys.contains_key(s) && s.len() > 8 && le_value(s.take(8)) == p implies (
    long.contains_key(p) && bucket_has(long[p]@, s.skip(8))) by {
        lemma_le_value_bound(s.take(8));
    }
}

/// A key of at most eight bytes does not touch the buckets.
pub proof fn lemma_long_keeps(
    keys: Map<Seq<u8>, u16>,
    long: Map<u64, Vec<(u64, u8, u16)>>,
    t: Seq<u8>,
    id: u16,
)
    requires
        long_index_ok(keys, long),
        t.len() <= 8,
    ensures
        long_index_ok(keys.insert(t, id), long),
{
    let keys2 = keys.insert(t, id);
    assert forall|p: u64| #[trigger] long.contains_key(p) implies bucket_ok(
        keys2,
        p,
        long[p]@,
    ) by {
        let b = long[p]@;
        assert(bucket_ok(keys, p, b));
        assert forall|i: int| 0 <= i < b.len() implies {
            &&& entry_ok(#[trigger] b[i])
            &&& keys2.contains_key(entry_key(p, b[i]))
            &&& keys2[entry_key(p, b[i])] == b[i].2
        } by {
            assert(entry_ok(b[i]));
            lemma_le_bytes_len(p as nat, 8);
            lemma_le_bytes_len(b[i].0 as nat, b[i].1 as nat);
        }
    }
    assert forall|s: Seq<u8>| #[trigger] keys2.contains_key(s) && s.len() > 8 implies (
    long.contains_key(le_value(s.take(8)) as u64) && bucket_has(
        long[le_value(s.take(8)) as u64]@,
        s.skip(8),
    )) by {
        assert(keys.contains_key(s));
    }
}

/// What a bucket becomes when a key is put into it: entries with the key's
/// bytes take the new id where there are any, else one entry is added; all
/// other entries stay, in their order.
pub open spec fn bucket_after_insert(
    old_b: Seq<(u64, u8, u16)>,
    new_b: Seq<(u64, u8, u16)>,
    e: (u64, u8, u16),
    pos: int,
) -> bool {
    if exists|i: int| 0 <= i < old_b.len() && (#[trigger] old_b[i]).0 == e.0 && old_b[i].1 == e.1 {
        &&& new_b.len() == old_b.len()
        &&& forall|i: int|
            0 <= i < old_b.len() ==> #[trigger] new_b[i] == (if old_b[i].0 == e.0 && old_b[i].1
                == e.1 {
                e
            } else {
                old_b[i]
            })
    } else {
        &&& 0 <= pos <= old_b.len()
        &&& new_b == old_b.insert(pos, e)
        &&& forall|i: int| 0 <= i < pos ==> (#[trigger] old_b[i]).1 >= e.1
        &&& forall|i: int| pos <= i < old_b.len() ==> (#[trigger] old_b[i]).1 <= e.1
    }
}

/// Putting a key of more than eight bytes into its bucket keeps the buckets
/// in step with the keys.
pub proof fn lemma_long_insert(
    keys: Map<Seq<u8>, u16>,
    long: Map<u64, Vec<(u64, u8, u16)>>,
    t: Seq<u8>,
    id: u16,
    new_bucket: Vec<(u64, u8, u16)>,
    pos: int,
)
    requires
        long_index_ok(keys, long),
        8 < t.len() <= 16,
        bucket_after_insert(
            if long.contains_key(le_value(t.take(8)) as u64) {
                long[le_value(t.take(8)) as u64]@
            } else {
                Seq::empty()
            },
            new_bucket@,
            (le_value(t.skip(8)) as u64, (t.len() - 8) as u8, id),
            pos,
        ),
    ensures
        long_index_ok(keys.insert(t, id), long.insert(le_value(t.take(8)) as u64, new_bucket)),
        keys.contains_key(t) <==> (long.contains_key(le_value(t.take(8)) as u64)
            && new_bucket@.len() == long[le_value(t.take(8)) as u64]@.len()),
        !keys.contains_key(t) ==> new_bucket@.len() == 1 + (if long.contains_key(
            le_value(t.take(8)) as u64,
        ) {
            long[le_value(t.take(8)) as u64]@.len()
        } else {
            0
        }),
{
    let p = le_value(t.take(8)) as u64;
    let u = t.skip(8);
    let e = (le_value(u) as u64, (t.len() - 8) as u8, id);
    let old_b: Seq<(u64, u8, u16)> = if long.contains_key(p) {
        long[p]@
    } else {
        Seq::empty()
    };
    let new_b = new_bucket@;
    let keys2 = keys.insert(t, id);
    let long2 = long.insert(p, new_bucket);
    lemma_prefix_word(t);
    lemma_le_value_bound(u);
    lemma_pow256_increases(u.len(), 8);
    lemma_pow256_values();
    lemma_bytes_of_value(u);
    assert(entry_ok(e));
    assert(entry_bytes(e) == u);
    assert(entry_key(p, e) =~= t);
    if long.contains_key(p) {
        assert(bucket_ok(keys, p, old_b));
    }
    let found = exists|i: int|
        0 <= i < old_b.len() && (#[trigger] old_b[i]).0 == e.0 && old_b[i].1 == e.1;
    // an old entry with other bytes stands for another key
    assert forall|i: int| 0 <= i < old_b.len() && !(old_b[i].0 == e.0 && old_b[i].1
        == e.1) implies entry_key(p, #[trigger] old_b[i]) != t by {
        assert(entry_ok(old_b[i]));
        lemma_entry_word(old_b[i]);
        lemma_le_bytes_len(p as nat, 8);
        if entry_key(p, old_b[i]) == t {
            assert(entry_key(p, old_b[i]).skip(8) =~= entry_bytes(old_b[i]));
        }
    }
    assert forall|i: int| 0 <= i < old_b.len() && old_b[i].0 == e.0 && old_b[i].1
        == e.1 implies entry_key(p, #[trigger] old_b[i]) == t by {
        assert(entry_bytes(old_b[i]) == entry_bytes(e));
    }
    // the key was there exactly if an entry with its bytes was
    if keys.contains_key(t) {
        assert(bucket_has(old_b, u));
        let k = choose|k: int| 0 <= k < old_b.len() && #[trigger] entry_bytes(old_b[k]) == u;
        assert(entry_ok(old_b[k]));
        lemma_entry_word(old_b[k]);
        assert(old_b[k].0 == e.0 && old_b[k].1 == e.1);
        assert(found);
    }
    if found {
        let k = choose|k: int|
            0 <= k < old_b.len() && (#[trigger] old_b[k]).0 == e.0 && old_b[k].1 == e.1;
        assert(entry_key(p, old_b[k]) == t);
        assert(keys.contains_key(t));
    }
    // the new bucket
    assert(bucket_ok(keys2, p, new_b)) by {
        if found {
            assert forall|i: int, j: int| 0 <= i < j < new_b.len() implies new_b[i].1
                >= new_b[j].1 by {
                assert(old_b[i].1 >= old_b[j].1);
            }
            assert forall|i: int| 0 <= i < new_b.len() implies {
                &&& entry_ok(#[trigger] new_b[i])
                &&& keys2.contains_key(entry_key(p, new_b[i]))
                &&& keys2[entry_key(p, new_b[i])] == new_b[i].2
            } by {
                assert(entry_ok(old_b[i]));
                if old_b[i].0 == e.0 && old_b[i].1 == e.1 {
                    assert(new_b[i] == e);
                } else {
                    assert(new_b[i] == old_b[i]);
                    assert(entry_key(p, old_b[i]) != t);
                }
            }
        } else {
            assert forall|i: int, j: int| 0 <= i < j < new_b.len() implies new_b[i].1
                >= new_b[j].1 by {
                if j < pos {
                    assert(old_b[i].1 >= old_b[j].1);
                } else if j == pos {
                    assert(old_b[i].1 >= e.1);
                } else if i < pos {
                    assert(old_b[i].1 >= old_b[j - 1].1);
                } else if i == pos {
                    assert(old_b[j - 1].1 <= e.1);
                } else {
                    assert(old_b[i - 1].1 >= old_b[j - 1].1);
                }
            }
            assert forall|i: int| 0 <= i < new_b.len() implies {
                &&& entry_ok(#[trigger] new_b[i])
                &&& keys2.contains_key(entry_key(p, new_b[i]))
                &&& keys2[entry_key(p, new_b[i])] == new_b[i].2
            } by {
                if i < pos {
                    assert(new_b[i] == old_b[i]);
                    assert(entry_ok(old_b[i]));
                    assert(entry_key(p, old_b[i]) != t);
                } else if i == pos {
                    assert(new_b[i] == e);
                } else {
                    assert(new_b[i] == old_b[i - 1]);
                    assert(entry_ok(old_b[i - 1]));
                    assert(entry_key(p, old_b[i - 1]) != t);
                }
            }
        }
    }
    // the new bucket still holds the bytes that the old one held
    assert forall|w: Seq<u8>| bucket_has(old_b, w) implies bucket_has(new_b, w) by {
        let k = choose|k: int| 0 <= k < old_b.len() && #[trigger] entry_bytes(old_b[k]) == w;
        if found {
            assert(entry_bytes(new_b[k]) == w);
        } else if k < pos {
            assert(entry_bytes(new_b[k]) == w);
        } else {
            assert(new_b[k + 1] == old_b[k]);
            assert(entry_bytes(new_b[k + 1]) == w);
        }
    }
    assert(bucket_has(new_b, u)) by {
        if found {
            let k = choose|k: int|
                0 <= k < old_b.len() && (#[trigger] old_b[k]).0 == e.0 && old_b[k].1 == e.1;
            assert(new_b[k] == e);
            assert(entry_bytes(new_b[k]) == u);
        } else {
            assert(new_b[pos] == e);
            assert(entry_bytes(new_b[pos]) == u);
        }
    }
    assert forall|q: u64| #[trigger] long2.contains_key(q) implies bucket_ok(
        keys2,
        q,
        long2[q]@,
    ) by {
        if q != p {
            let b = long[q]@;
            assert(bucket_ok(keys, q, b));
            assert forall|i: int| 0 <= i < b.len() implies {
                &&& entry_ok(#[trigger] b[i])
                &&& keys2.contains_key(entry_key(q, b[i]))
                &&& keys2[entry_key(q, b[i])] == b[i].2
            } by {
                assert(entry_ok(b[i]));
                if entry_key(q, b[i]) == t {
                    lemma_le_bytes_len(q as nat, 8);
                    assert(entry_key(q, b[i]).take(8) =~= le_bytes(q as nat, 8));
                    lemma_word_of_bytes(p, q);
                }
            }
        }
    }
    assert forall|s: Seq<u8>| #[trigger] keys2.contains_key(s) && s.len() > 8 implies (
    long2.contains_key(le_value(s.take(8)) as u64) && bucket_has(
        long2[le_value(s.take(8)) as u64]@,
        s.skip(8),
    )) by {
        if s != t {
            assert(keys.contains_key(s));
            let q = le_value(s.take(8)) as u64;
            if q == p {
                assert(bucket_has(old_b, s.skip(8)));
            }
        }
    }
}

/// Looks through the entries `from..to` of a bucket for the first that
/// matches the word after the data's first eight bytes; gives its index.
pub(crate) fn scan_entries(
    entries: &Vec<(u64, u8, u16)>,
    from: usize,
    to: usize,
    suffix: u64,
    suffix_len: usize,
    Ghost(data): Ghost<Seq<u8>>,
) -> (found: Option<usize>)
    requires
        from <= to <= entries@.len(),
        forall|j: int| from <= j < to ==> entry_ok(#[trigger] entries@[j]),
        data.len() >= 8,
        suffix_len == (if data.len() < 16 {
            data.len() - 8
        } else {
            8
        }),
        suffix == le_value(data.subrange(8, 8 + suffix_len as int)),
    ensures
        match found {
            Some(i) => from <= i < to && entry_matches(entries@[i as int], data) && forall|j: int|
                from <= j < i ==> !entry_matches(#[trigger] entries@[j], data),
            None => forall|j: int| from <= j < to ==> !entry_matches(#[trigger] entries@[j], data),
        },
{
    let mut i: usize = from;
    while i < to
        invariant
            from <= i <= to <= entries@.len(),
            forall|j: int| from <= j < to ==> entry_ok(#[trigger] entries@[j]),
            data.len() >= 8,
            suffix_len == (if data.len() < 16 {
                data.len() - 8
            } else {
                8
            }),
            suffix == le_value(data.subrange(8, 8 + suffix_len as int)),
            forall|j: int| from <= j < i ==> !entry_matches(#[trigger] entries@[j], data),
        decreases to - i,
    {
        let entry = entries[i];
        proof {
            lemma_entry_test(data, suffix_len as nat, entry);
        }
        if is_prefix(suffix, entry.0, suffix_len, entry.1 as usize) {
            return Some(i);
        }
        i += 1;
    }
    None
}

/// The two parts of the code of a key of at most eight bytes.
pub proof fn lemma_key_code_parts(s: Seq<u8>)
    requires
        s.len() <= 8,
    ensures
        key_code(s) <= u128::MAX,
        (key_code(s) as u128) / 0x1_0000_0000_0000_0000 == s.len(),
        (key_code(s) as u128) % 0x1_0000_0000_0000_0000 == le_value(s),
        le_value(s) <= u64::MAX,
{
    lemma_le_value_bound(s);
    lemma_pow256_increases(s.len(), 8);
    lemma_pow256_values();
}

/// Whether the key with the code `c` has been dealt with: a key of eight
/// bytes has a bucket or a record of its own, a shorter key is in the map.
pub open spec fn code_done(
    c: u128,
    long: Map<u64, Vec<(u64, u8, u16)>>,
    records: Seq<LongMatchInfo>,
    n0: int,
    short: Map<u128, u16>,
) -> bool {
    if c / 0x1_0000_0000_0000_0000 == 8 {
        long.contains_key((c % 0x1_0000_0000_0000_0000) as u64) || has_prefix_from(
            records,
            n0,
            (c % 0x1_0000_0000_0000_0000) as u64,
        )
    } else {
        short.contains_key(c)
    }
}

/// A code of the map of short keys that stands for eight bytes stands for a
/// key, and the map gives the key's id.
pub open spec fn promotable(keys: Map<Seq<u8>, u16>, dict: Map<u128, u16>, c: u128) -> bool {
    c / 0x1_0000_0000_0000_0000 == 8 ==> keys.contains_key(
        le_bytes((c % 0x1_0000_0000_0000_0000) as nat, 8),
    ) && keys[le_bytes((c % 0x1_0000_0000_0000_0000) as nat, 8)] == dict[c]
}

/// Every code of the map of short keys that stands for eight bytes can be
/// given a record of its own.
pub proof fn lemma_promotable(keys: Map<Seq<u8>, u16>, dict: Map<u128, u16>)
    requires
        short_index_ok(keys, dict, 8),
    ensures
        forall|c: u128| #[trigger] dict.contains_key(c) ==> promotable(keys, dict, c),
{
    assert forall|c: u128| #[trigger] dict.contains_key(c) implies promotable(keys, dict, c) by {
        if c / 0x1_0000_0000_0000_0000 == 8 {
            let word = (c % 0x1_0000_0000_0000_0000) as nat;
            let key = code_bytes(c as nat);
            assert(key == le_bytes(word, 8));
            assert(keys.contains_key(key));
            lemma_value_of_bytes(word, 8);
            lemma_pow256_values();
            assert(key_code(key) == c as nat);
        }
    }
}

/// The record of a key of exactly eight bytes that begins no longer key.
pub(crate) fn promoted(word: u64, id: u16) -> (r: LongMatchInfo)
    ensures
        r.prefix == word,
        r.n_suffixes == 0,
        r.answer_length == 8,
        r.answer_id == id,
{
    let mut record = LongMatchInfo::empty();
    record.prefix = word;
    record.answer_id = id;
    record.answer_length = 8;
    record
}

/// A key that has been dealt with stays so when records and short keys are
/// added.
pub proof fn lemma_code_done_stays(
    c: u128,
    long: Map<u64, Vec<(u64, u8, u16)>>,
    records: Seq<LongMatchInfo>,
    more_records: Seq<LongMatchInfo>,
    n0: int,
    short: Map<u128, u16>,
    more_short: Map<u128, u16>,
)
    requires
        0 <= n0,
        code_done(c, long, records, n0, short),
        records.len() <= more_records.len(),
        more_records.take(records.len() as int) == records,
        forall|k: u128| short.contains_key(k) ==> more_short.contains_key(k),
    ensures
        code_done(c, long, more_records, n0, more_short),
{
    let p = (c % 0x1_0000_0000_0000_0000) as u64;
    if has_prefix_from(records, n0, p) {
        let k = choose|k: int| n0 <= k < records.len() && (#[trigger] records[k]).prefix == p;
        assert(more_records.take(records.len() as int)[k] == more_records[k]);
        assert(more_records[k].prefix == p);
    }
}

/// A record that was made from the bucket of its prefix.
pub open spec fn bucket_record(
    keys: Map<Seq<u8>, u16>,
    long: Map<u64, Vec<(u64, u8, u16)>>,
    r: LongMatchInfo,
    overflow: Seq<(u64, u8, u16)>,
) -> bool {
    &&& long.contains_key(r.prefix)
    &&& record_in_range(r, overflow)
    &&& record_entries(r, overflow) == long[r.prefix]@
    &&& answer_ok(keys, r)
}

/// A record that stands for a key of exactly eight bytes with no longer key
/// behind it.
pub open spec fn promoted_record(keys: Map<Seq<u8>, u16>, r: LongMatchInfo) -> bool {
    &&& r.n_suffixes == 0
    &&& r.answer_length == 8
    &&& keys.contains_key(le_bytes(r.prefix as nat, 8))
    &&& r.answer_id == keys[le_bytes(r.prefix as nat, 8)]
}

/// Whether a record from index `from` on has the prefix `p`.
pub open spec fn has_prefix_from(records: Seq<LongMatchInfo>, from: int, p: u64) -> bool {
    exists|k: int| from <= k < records.len() && (#[trigger] records[k]).prefix == p
}

/// The records of all buckets, followed by the records of the eight-byte keys
/// that have no bucket, agree with the keys and cover them.
pub proof fn lemma_records_ok(
    keys: Map<Seq<u8>, u16>,
    long: Map<u64, Vec<(u64, u8, u16)>>,
    records: Seq<LongMatchInfo>,
    n0: int,
    overflow: Seq<(u64, u8, u16)>,
)
    requires
        long_index_ok(keys, long),
        forall|p: u64| #[trigger] long.contains_key(p) ==> long[p]@.len() >= 1,
        0 <= n0 <= records.len(),
        forall|k: int| 0 <= k < n0 ==> bucket_record(keys, long, #[trigger] records[k], overflow),
        forall|p: u64| #[trigger] long.contains_key(p) ==> has_prefix_from(records.take(n0), 0, p),
        forall|k: int| n0 <= k < records.len() ==> promoted_record(keys, #[trigger] records[k]),
        forall|s: Seq<u8>|
            #[trigger] keys.contains_key(s) && s.len() == 8 ==> long.contains_key(
                le_value(s) as u64,
            ) || has_prefix_from(records, n0, le_value(s) as u64),
    ensures
        records_ok(keys, records, overflow),
{
    assert forall|k: int| 0 <= k < records.len() implies record_ok(
        keys,
        #[trigger] records[k],
        overflow,
    ) && occupied(records[k]) by {
        let r = records[k];
        if k < n0 {
            assert(bucket_record(keys, long, r, overflow));
            assert(bucket_ok(keys, r.prefix, long[r.prefix]@));
            assert(record_entries(r, overflow).len() == r.n_suffixes);
        } else {
            assert(promoted_record(keys, r));
            let pb = le_bytes(r.prefix as nat, 8);
            lemma_le_bytes_len(r.prefix as nat, 8);
            assert(pb.take(8) =~= pb);
            assert(record_entries(r, overflow) =~= Seq::empty());
        }
    }
    assert forall|s: Seq<u8>| #[trigger] keys.contains_key(s) && s.len() >= 8 implies records_cover(
        records,
        overflow,
        s,
    ) by {
        lemma_prefix_word(s);
        let q = le_value(s.take(8)) as u64;
        if s.len() == 8 {
            assert(s.take(8) =~= s);
        }
        if long.contains_key(q) {
            assert(has_prefix_from(records.take(n0), 0, q));
            let k = choose|k: int|
                0 <= k < records.take(n0).len() && (#[trigger] records.take(n0)[k]).prefix == q;
            assert(records.take(n0)[k] == records[k]);
            assert(bucket_record(keys, long, records[k], overflow));
            assert(record_entries(records[k], overflow).len() == records[k].n_suffixes);
            assert(record_covers(records[k], overflow, s));
        } else {
            assert(has_prefix_from(records, n0, q));
            let k = choose|k: int| n0 <= k < records.len() && (#[trigger] records[k]).prefix == q;
            assert(promoted_record(keys, records[k]));
            assert(record_covers(records[k], overflow, s));
        }
    }
}

/// Makes the record of the bucket of `prefix`: its first four endings go into
/// the record, the others to the end of the overflow array.
pub(crate) fn make_record(
    prefix: u64,
    bucket: &Vec<(u64, u8, u16)>,
    answer_id: u16,
    answer_length: u8,
    overflow: &mut Vec<(u64, u8, u16)>,
) -> (r: LongMatchInfo)
    requires
        bucket@.len() <= MAX_BUCKET_SIZE,
    ensures
        r.prefix == prefix,
        r.answer_id == answer_id,
        r.answer_length == answer_length,
        r.n_suffixes == bucket@.len(),
        old(overflow)@.len() <= final(overflow)@.len(),
        final(overflow)@.take(old(overflow)@.len() as int) == old(overflow)@,
        record_in_range(r, final(overflow)@),
        record_entries(r, final(overflow)@) == bucket@,
{
    let offset = overflow.len();
    let n = bucket.len();
    let ghost before = overflow@;
    let mut inline_suffixes: [u64; 4] = [0; 4];
    let mut inline_lengths: [u8; 4] = [0; 4];
    let mut inline_ids: [u16; 4] = [0; 4];
    let mut i: usize = 0;
    while i < n && i < N_INLINE_SUFFIXES
        invariant
            i <= n,
            i <= 4,
            overflow@ == before,
            n == bucket@.len(),
            forall|j: int|
                0 <= j < i ==> inline_suffixes[j] == (#[trigger] bucket@[j]).0 && inline_lengths[j]
                    == bucket@[j].1 && inline_ids[j] == bucket@[j].2,
        decreases n - i,
    {
        let e = bucket[i];
        inline_suffixes[i] = e.0;
        inline_lengths[i] = e.1;
        inline_ids[i] = e.2;
        i += 1;
    }
    proof {
        if n >= 4 {
            assert(before + bucket@.subrange(4, 4) =~= before);
        }
    }
    while i < n
        invariant
            n == bucket@.len(),
            i <= n,
            i >= 4 || i == n,
            forall|j: int|
                0 <= j < n && j < 4 ==> inline_suffixes[j] == (#[trigger] bucket@[j]).0
                    && inline_lengths[j] == bucket@[j].1 && inline_ids[j] == bucket@[j].2,
            i < 4 ==> overflow@ == before,
            i >= 4 ==> overflow@ == before + bucket@.subrange(4, i as int),
        decreases n - i,
    {
        proof {
            assert((before + bucket@.subrange(4, i as int)).push(bucket@[i as int]) =~= before
                + bucket@.subrange(4, i + 1));
        }
        overflow.push(bucket[i]);
        i += 1;
    }
    let r = LongMatchInfo {
        prefix,
        inline_suffixes,
        inline_lengths,
        inline_ids,
        n_suffixes: n as u16,
        offset,
        answer_id,
        answer_length,
    };
    proof {
        assert(overflow@.take(before.len() as int) =~= before);
        assert(record_entries(r, overflow@) =~= bucket@);
    }
    r
}

/// The number of longer keys that begin with the eight bytes `p`.
pub open spec fn load_of(load: Map<Seq<u8>, nat>, p: Seq<u8>) -> nat {
    if load.contains_key(p) {
        load[p]
    } else {
        0
    }
}

/// Whether the matcher takes the key: a key of more than eight bytes is
/// refused when `MAX_BUCKET_SIZE` keys begin as it does already.
pub open spec fn takes(load: Map<Seq<u8>, nat>, key: Seq<u8>) -> bool {
    key.len() <= 8 || load_of(load, key.take(8)) < MAX_BUCKET_SIZE
}

/// The loads after a key was taken.
pub open spec fn load_with(
    load: Map<Seq<u8>, nat>,
    keys: Map<Seq<u8>, u16>,
    key: Seq<u8>,
) -> Map<Seq<u8>, nat> {
    if key.len() > 8 && !keys.contains_key(key) {
        load.insert(key.take(8), load_of(load, key.take(8)) + 1)
    } else {
        load
    }
}

/// The matcher that training fills.
pub struct LongestPrefixMatcher16 {
    pub(crate) dictionary: FxHashMap<u128, u16>,
    pub(crate) buckets: FxHashMap<u64, Vec<(u64, u8, u16)>>,
    pub(crate) keys: Ghost<Map<Seq<u8>, u16>>,
}

impl View for LongestPrefixMatcher16 {
    type V = Map<Seq<u8>, u16>;

    /// The keys that were put in, each with the id it was last given.
    open(crate) spec fn view(&self) -> Map<Seq<u8>, u16> {
        self.keys@
    }
}

impl LongestPrefixMatcher16 {
    /// The two indices hold exactly the keys of the view.
    pub open(crate) spec fn wf(&self) -> bool {
        &&& hasher_is_valid(&self.dictionary)
        &&& hasher_is_valid(&self.buckets)
        &&& forall|s: Seq<u8>| #[trigger] self.keys@.contains_key(s) ==> s.len() <= 16
        &&& short_index_ok(self.keys@, self.dictionary@, 8)
        &&& long_index_ok(self.keys@, self.buckets@)
        &&& forall|p: u64| #[trigger]
            self.buckets@.contains_key(p) ==> 1 <= self.buckets@[p]@.len() <= MAX_BUCKET_SIZE
    }

    /// The number of keys longer than eight bytes that begin with the eight
    /// bytes `prefix`.
    pub open(crate) spec fn bucket_len(&self, prefix: Seq<u8>) -> nat {
        if self.buckets@.contains_key(le_value(prefix) as u64) {
            self.buckets@[le_value(prefix) as u64]@.len()
        } else {
            0
        }
    }

    /// For every eight bytes with which a key of more than eight bytes
    /// begins, the number of such keys.
    pub open(crate) spec fn loads(&self) -> Map<Seq<u8>, nat> {
        Map::new(
            |p: Seq<u8>| p.len() == 8 && self.bucket_len(p) > 0,
            |p: Seq<u8>| self.bucket_len(p),
        )
    }

    /// A matcher without keys.
    pub fn new() -> (lpm: Self)
        ensures
            lpm.wf(),
            lpm@ == Map::<Seq<u8>, u16>::empty(),
            forall|p: Seq<u8>| lpm.bucket_len(p) == 0,
            lpm.loads() == Map::<Seq<u8>, nat>::empty(),
    {
        let lpm = LongestPrefixMatcher16 {
            dictionary: new_fx_map(),
            buckets: new_fx_map(),
            keys: Ghost(Map::empty()),
        };
        proof {
            assert(lpm.loads() =~= Map::<Seq<u8>, nat>::empty());
        }
        lpm
    }

    /// How the loads change when a key is put in.
    pub proof fn lemma_loads_after(before: &Self, after: &Self, key: Seq<u8>, added: bool)
        requires
            forall|p: Seq<u8>|
                p.len() == 8 ==> #[trigger] after.bucket_len(p) == before.bucket_len(p) + (if added
                    && key.len() > 8 && p == key.take(8) && !before@.contains_key(key) {
                    1nat
                } else {
                    0nat
                }),
        ensures
            key.len() > 8 ==> load_of(before.loads(), key.take(8))
                == before.bucket_len(key.take(8)),
            added ==> after.loads() == load_with(before.loads(), before@, key),
            !added ==> after.loads() == before.loads(),
    {
        let l0 = before.loads();
        let l1 = after.loads();
        if added {
            let expected = load_with(l0, before@, key);
            assert forall|p: Seq<u8>| l1.contains_key(p) <==> expected.contains_key(p) by {
                if p.len() == 8 {
                    assert(after.bucket_len(p) == before.bucket_len(p) + (if added && key.len() > 8
                        && p == key.take(8) && !before@.contains_key(key) {
                        1nat
                    } else {
                        0nat
                    }));
                }
            }
            assert forall|p: Seq<u8>| #[trigger] l1.contains_key(p) implies l1[p] == expected[p] by {
                assert(after.bucket_len(p) == before.bucket_len(p) + (if added && key.len() > 8 && p
                    == key.take(8) && !before@.contains_key(key) {
                    1nat
                } else {
                    0nat
                }));
            }
            assert(l1 =~= expected);
        } else {
            assert forall|p: Seq<u8>| l1.contains_key(p) <==> l0.contains_key(p) by {
                if p.len() == 8 {
                    assert(after.bucket_len(p) == before.bucket_len(p) + 0nat);
                }
            }
            assert forall|p: Seq<u8>| #[trigger] l1.contains_key(p) implies l1[p] == l0[p] by {
                assert(after.bucket_len(p) == before.bucket_len(p) + 0nat);
            }
            assert(l1 =~= l0);
        }
    }

    /// Puts the key `data` in under `id`, and says whether it was taken. A key
    /// of more than eight bytes is refused when the bucket of its first eight
    /// bytes holds `MAX_BUCKET_SIZE` keys already, so that no bucket grows
    /// beyond that. A key that is already there takes the new id.
    pub fn insert(&mut self, data: &[u8], id: u16) -> (added: bool)
        requires
            old(self).wf(),
            data@.len() <= MAX_KEY_LENGTH,
        ensures
            final(self).wf(),
            added == (data@.len() <= 8 || old(self).bucket_len(data@.take(8)) < MAX_BUCKET_SIZE),
            added ==> final(self)@ == old(self)@.insert(data@, id),
            !added ==> final(self)@ == old(self)@,
            added == takes(old(self).loads(), data@),
            added ==> final(self).loads() == load_with(
                old(self).loads(),
                old(self)@,
                data@,
            ),
            !added ==> final(self).loads() == old(self).loads(),
            forall|p: Seq<u8>|
                p.len() == 8 ==> #[trigger] final(self).bucket_len(p) == old(self).bucket_len(p) + (
                if added && data@.len() > 8 && p == data@.take(8) && !old(self)@.contains_key(
                    data@,
                ) {
                    1nat
                } else {
                    0nat
                }),
    {
        let added = self.insert_entry(data, id);
        proof {
            Self::lemma_loads_after(&*old(self), &*self, data@, added);
        }
        added
    }

    /// Puts the key in: into the map of short keys, or into the bucket of its
    /// first eight bytes.
    fn insert_entry(&mut self, data: &[u8], id: u16) -> (added: bool)
        requires
            old(self).wf(),
            data@.len() <= MAX_KEY_LENGTH,
        ensures
            final(self).wf(),
            added == (data@.len() <= 8 || old(self).bucket_len(data@.take(8)) < MAX_BUCKET_SIZE),
            added ==> final(self)@ == old(self)@.insert(data@, id),
            !added ==> final(self)@ == old(self)@,
            forall|p: Seq<u8>|
                p.len() == 8 ==> #[trigger] final(self).bucket_len(p) == old(self).bucket_len(p) + (
                if added && data@.len() > 8 && p == data@.take(8) && !old(self)@.contains_key(
                    data@,
                ) {
                    1nat
                } else {
                    0nat
                }),
    {
        broadcast use vstd::std_specs::hash::group_hash_axioms;

        let length = data.len();
        if length <= 8 {
            let word = load_word_at(data, 0, length);
            let code = pack_key(word, length);
            proof {
                assert(data@.subrange(0, 0 + length) =~= data@);
                lemma_short_insert(self.keys@, self.dictionary@, 8, data@, id);
                lemma_long_keeps(self.keys@, self.buckets@, data@, id);
            }
            self.dictionary.insert(code, id);
            self.keys = Ghost(self.keys@.insert(data@, id));
            true
        } else {
            let prefix = load_word_at(data, 0, 8);
            proof {
                assert(data@.subrange(0, 8) =~= data@.take(8));
                lemma_prefix_word(data@);
            }
            let full = match self.buckets.get(&prefix) {
                Some(b) => b.len() >= MAX_BUCKET_SIZE,
                None => false,
            };
            if full {
                return false;
            }
            let suffix_len = length - 8;
            let suffix = load_word_at(data, 8, suffix_len);
            let ghost old_bucket: Seq<(u64, u8, u16)> = if self.buckets@.contains_key(prefix) {
                self.buckets@[prefix]@
            } else {
                Seq::empty()
            };
            let ghost old_long = self.buckets@;
            let mut bucket = match self.buckets.remove(&prefix) {
                Some(b) => b,
                None => Vec::new(),
            };
            assert(bucket@ == old_bucket);
            let entry = (suffix, suffix_len as u8, id);
            proof {
                assert(data@.subrange(8, 8 + suffix_len) =~= data@.skip(8));
            }
            let mut found = false;
            let mut i: usize = 0;
            while i < bucket.len()
                invariant
                    i <= bucket@.len() == old_bucket.len(),
                    found <==> exists|j: int|
                        0 <= j < i && (#[trigger] old_bucket[j]).0 == entry.0 && old_bucket[j].1
                            == entry.1,
                    forall|j: int|
                        0 <= j < old_bucket.len() ==> #[trigger] bucket@[j] == (if j < i
                            && old_bucket[j].0 == entry.0 && old_bucket[j].1 == entry.1 {
                            entry
                        } else {
                            old_bucket[j]
                        }),
                decreases bucket@.len() - i,
            {
                let current = bucket[i];
                if current.1 == entry.1 && current.0 == entry.0 {
                    bucket.set(i, entry);
                    found = true;
                }
                i += 1;
            }
            let mut pos: usize = 0;
            if !found {
                proof {
                    assert(bucket@ =~= old_bucket);
                    assert(long_index_ok(self.keys@, old_long));
                    if old_long.contains_key(prefix) {
                        assert(bucket_ok(self.keys@, prefix, old_bucket));
                    }
                }
                while pos < bucket.len() && bucket[pos].1 > entry.1
                    invariant
                        pos <= bucket@.len(),
                        bucket@ == old_bucket,
                        forall|j: int| 0 <= j < pos ==> (#[trigger] old_bucket[j]).1 > entry.1,
                    decreases bucket@.len() - pos,
                {
                    pos += 1;
                }
                proof {
                    assert forall|j: int| pos <= j < old_bucket.len() implies (
                    #[trigger] old_bucket[j]).1 <= entry.1 by {
                        if j > pos {
                            assert(old_bucket[pos as int].1 >= old_bucket[j].1);
                        }
                    }
                }
                bucket.insert(pos, entry);
            }
            proof {
                lemma_long_insert(self.keys@, old_long, data@, id, bucket, pos as int);
                lemma_short_keeps(self.keys@, self.dictionary@, 8, data@, id);
                assert(old_long.remove(prefix).insert(prefix, bucket) =~= old_long.insert(
                    prefix,
                    bucket,
                ));
            }
            self.buckets.insert(prefix, bucket);
            self.keys = Ghost(self.keys@.insert(data@, id));
            proof {
                assert forall|p: Seq<u8>| p.len() == 8 implies #[trigger] self.bucket_len(p) == old(
                    self,
                ).bucket_len(p) + (if data@.len() > 8 && p == data@.take(8) && !old(
                    self,
                )@.contains_key(data@) {
                    1nat
                } else {
                    0nat
                }) by {
                    lemma_prefix_word(p);
                    assert(p.take(8) =~= p);
                    if le_value(p) as u64 == prefix {
                        lemma_word_of_bytes(le_value(p) as u64, prefix);
                        assert(p == data@.take(8));
                    }
                }
            }
            true
        }
    }

    /// The longest key that is a prefix of `data`, as its id and its length.
    pub fn find_longest_match(&self, data: &[u8]) -> (r: Option<(u16, usize)>)
        requires
            self.wf(),
        ensures
            r == longest_match(self@, data@),
    {
        broadcast use vstd::std_specs::hash::group_hash_axioms;

        let n = data.len();
        if n > 8 {
            let suffix_len = if n < 16 {
                n - 8
            } else {
                8
            };
            let prefix = load_word_at(data, 0, 8);
            let suffix = load_word_at(data, 8, suffix_len);
            proof {
                assert(data@.subrange(0, 8) =~= data@.take(8));
                lemma_prefix_word(data@);
                lemma_bucket_of(self.keys@, self.buckets@, prefix);
            }
            match self.buckets.get(&prefix) {
                Some(bucket) => {
                    let found = scan_entries(bucket, 0, bucket.len(), suffix, suffix_len, Ghost(data@));
                    match found {
                        Some(i) => {
                            proof {
                                lemma_first_entry_is_longest(
                                    self.keys@,
                                    data@,
                                    prefix,
                                    bucket@,
                                    i as int,
                                );
                            }
                            let entry = bucket[i];
                            return Some((entry.2, 8 + entry.1 as usize));
                        },
                        None => {
                            proof {
                                lemma_no_entry_matches(self.keys@, data@, prefix, bucket@);
                            }
                        },
                    }
                },
                None => {
                    proof {
                        lemma_no_entry_matches(self.keys@, data@, prefix, Seq::empty());
                    }
                },
            }
        }
        let m: usize = if n < 8 {
            n
        } else {
            8
        };
        let word = load_word_at(data, 0, m);
        proof {
            assert(data@.subrange(0, 0 + m) =~= data@.take(m as int));
            lemma_longest_match_skip(self.keys@, data@, m as nat, n as nat);
        }
        find_short(&self.dictionary, word, m, Ghost(self.keys@), Ghost(data@), Ghost(8))
    }

    /// The records of all buckets; their endings beyond the fourth are added
    /// to the overflow array.
    pub(crate) fn bucket_records(&self, overflow: &mut Vec<(u64, u8, u16)>) -> (records: Vec<
        LongMatchInfo,
    >)
        requires
            self.wf(),
        ensures
            forall|k: int|
                0 <= k < records@.len() ==> bucket_record(
                    self.keys@,
                    self.buckets@,
                    #[trigger] records@[k],
                    final(overflow)@,
                ),
            forall|p: u64| #[trigger]
                self.buckets@.contains_key(p) ==> has_prefix_from(records@, 0, p),
    {
        broadcast use vstd::std_specs::hash::group_hash_axioms;

        let mut records: Vec<LongMatchInfo> = Vec::new();
        let ghost all = spec_hash_map_iter(&self.buckets).remaining();
        for (prefix, bucket) in it: self.buckets.iter()
            invariant
                hasher_is_valid(&self.dictionary),
                hasher_is_valid(&self.buckets),
                short_index_ok(self.keys@, self.dictionary@, 8),
                forall|p: u64| #[trigger]
                    self.buckets@.contains_key(p) ==> self.buckets@[p]@.len() <= MAX_BUCKET_SIZE,
                it.seq() == all,
                all == spec_hash_map_iter(&self.buckets).remaining(),
                records@.len() == it.index(),
                forall|k: int|
                    0 <= k < records@.len() ==> bucket_record(
                        self.keys@,
                        self.buckets@,
                        #[trigger] records@[k],
                        overflow@,
                    ) && records@[k].prefix == *all[k].0,
        {
            let ghost at = it.index();
            let ghost pb = le_bytes(*prefix as nat, 8);
            proof {
                assert(all[at] == (prefix, bucket));
                assert(self.buckets@.contains_key(*all[at].0));
                assert(self.buckets@[*all[at].0] == *all[at].1);
                lemma_value_of_bytes(*prefix as nat, 8);
                lemma_pow256_values();
                assert(pb.take(8) =~= pb);
            }
            let answer = find_short(
                &self.dictionary,
                *prefix,
                8,
                Ghost(self.keys@),
                Ghost(pb),
                Ghost(8),
            );
            let (answer_id, answer_length): (u16, u8) = match answer {
                Some((id, len)) => (id, len as u8),
                None => (0, 0),
            };
            let ghost before = overflow@;
            let ghost made = records@;
            let record = make_record(*prefix, bucket, answer_id, answer_length, overflow);
            proof {
                assert(answer_ok(self.keys@, record));
                assert(bucket_record(self.keys@, self.buckets@, record, overflow@));
                assert forall|k: int| 0 <= k < made.len() implies bucket_record(
                    self.keys@,
                    self.buckets@,
                    #[trigger] made[k],
                    overflow@,
                ) by {
                    assert(bucket_record(self.keys@, self.buckets@, made[k], before));
                    lemma_entries_stable(made[k], before, overflow@);
                }
            }
            records.push(record);
        }
        proof {
            assert forall|p: u64| #[trigger] self.buckets@.contains_key(p) implies has_prefix_from(
                records@,
                0,
                p,
            ) by {
                assert(all.contains((&p, &self.buckets@[p])));
                let i = choose|i: int| 0 <= i < all.len() && all[i] == (&p, &self.buckets@[p]);
                assert(records@[i].prefix == p);
            }
        }
        records
    }

    /// A copy of the map of short keys without the keys of eight bytes. For
    /// each key of eight bytes that begins no longer key, a record is added to
    /// `records`.
    pub(crate) fn split_short_keys(&self, records: &mut Vec<LongMatchInfo>) -> (short: FxHashMap<
        u128,
        u16,
    >)
        requires
            self.wf(),
        ensures
            hasher_is_valid(&short),
            short_index_ok(self.keys@, short@, 7),
            old(records)@.len() <= final(records)@.len(),
            final(records)@.take(old(records)@.len() as int) == old(records)@,
            forall|k: int|
                old(records)@.len() <= k < final(records)@.len() ==> promoted_record(
                    self.keys@,
                    #[trigger] final(records)@[k],
                ),
            forall|s: Seq<u8>|
                #[trigger] self.keys@.contains_key(s) && s.len() == 8 ==> self.buckets@.contains_key(
                    le_value(s) as u64,
                ) || has_prefix_from(final(records)@, old(records)@.len() as int, le_value(s) as u64),
    {
        broadcast use vstd::std_specs::hash::group_hash_axioms;

        let mut short: FxHashMap<u128, u16> = new_fx_map();
        let ghost first = records@;
        let ghost n0 = records@.len() as int;
        let ghost all = spec_hash_map_iter(&self.dictionary).remaining();
        proof {
            lemma_promotable(self.keys@, self.dictionary@);
        }
        for (code, id) in it: self.dictionary.iter()
            invariant
                hasher_is_valid(&self.dictionary),
                hasher_is_valid(&self.buckets),
                hasher_is_valid(&short),
                forall|c: u128| #[trigger]
                    self.dictionary@.contains_key(c) ==> promotable(
                        self.keys@,
                        self.dictionary@,
                        c,
                    ),
                it.seq() == all,
                all == spec_hash_map_iter(&self.dictionary).remaining(),
                n0 == first.len(),
                n0 <= records@.len(),
                records@.take(n0) == first,
                forall|k: int|
                    n0 <= k < records@.len() ==> promoted_record(self.keys@, #[trigger] records@[k]),
                forall|c: u128| #[trigger]
                    short@.contains_key(c) ==> self.dictionary@.contains_key(c) && short@[c]
                        == self.dictionary@[c] && c / 0x1_0000_0000_0000_0000 != 8,
                forall|j: int|
                    0 <= j < it.index() ==> code_done(
                        *(#[trigger] all[j]).0,
                        self.buckets@,
                        records@,
                        n0,
                        short@,
                    ),
        {
            let ghost at = it.index();
            let ghost before = records@;
            let ghost short_before = short@;
            let length: u128 = *code / 0x1_0000_0000_0000_0000u128;
            let word: u64 = (*code % 0x1_0000_0000_0000_0000u128) as u64;
            proof {
                assert(all[at] == (code, id));
                assert(self.dictionary@.contains_key(*all[at].0));
                assert(self.dictionary@[*all[at].0] == *all[at].1);
                assert(promotable(self.keys@, self.dictionary@, *code));
            }
            if length == 8 {
                if !self.buckets.contains_key(&word) {
                    records.push(promoted(word, *id));
                    proof {
                        assert(records@.take(n0) =~= first);
                        assert(records@[records@.len() - 1].prefix == word);
                    }
                }
            } else {
                short.insert(*code, *id);
            }
            proof {
                assert(records@.take(before.len() as int) =~= before);
                assert(code_done(*all[at].0, self.buckets@, records@, n0, short@));
                assert forall|j: int| 0 <= j < at implies code_done(
                    *(#[trigger] all[j]).0,
                    self.buckets@,
                    records@,
                    n0,
                    short@,
                ) by {
                    lemma_code_done_stays(
                        *all[j].0,
                        self.buckets@,
                        before,
                        records@,
                        n0,
                        short_before,
                        short@,
                    );
                }
            }
        }
        proof {
            assert forall|s: Seq<u8>| #[trigger]
                self.keys@.contains_key(s) && s.len() <= 7 implies short@.contains_key(
                key_code(s) as u128,
            ) && short@[key_code(s) as u128] == self.keys@[s] by {
                lemma_key_code_parts(s);
                let c = key_code(s) as u128;
                assert(self.dictionary@.contains_key(c));
                assert(all.contains((&c, &self.dictionary@[c])));
                let j = choose|j: int| 0 <= j < all.len() && all[j] == (&c, &self.dictionary@[c]);
                assert(code_done(*all[j].0, self.buckets@, records@, n0, short@));
            }
            assert forall|c: u128| #[trigger] short@.contains_key(c) implies self.keys@.contains_key(
                code_bytes(c as nat),
            ) && code_bytes(c as nat).len() <= 7 by {
                assert(self.dictionary@.contains_key(c));
                lemma_le_bytes_len(
                    (c as nat) % 0x1_0000_0000_0000_0000,
                    (c as nat) / 0x1_0000_0000_0000_0000,
                );
            }
            assert forall|s: Seq<u8>| #[trigger]
                self.keys@.contains_key(s) && s.len() == 8 implies self.buckets@.contains_key(
                le_value(s) as u64,
            ) || has_prefix_from(records@, n0, le_value(s) as u64) by {
                lemma_key_code_parts(s);
                let c = key_code(s) as u128;
                assert(self.dictionary@.contains_key(c));
                assert(all.contains((&c, &self.dictionary@[c])));
                let j = choose|j: int| 0 <= j < all.len() && all[j] == (&c, &self.dictionary@[c]);
                assert(code_done(*all[j].0, self.buckets@, records@, n0, short@));
            }
        }
        short
    }

    /// The same keys in the read-only form that parsing uses: a matcher that
    /// answers every query as this one does. `None` where no perfect hash of
    /// the prefixes could be had.
    pub fn finalize(&self) -> (r: Option<StaticLongestPrefixMatcher16>)
        requires
            self.wf(),
        ensures
            match r {
                Some(s) => s.wf() && s@ == self@,
                None => true,
            },
    {
        let mut long_buckets: Vec<(u64, u8, u16)> = Vec::new();
        let mut records = self.bucket_records(&mut long_buckets);
        let ghost n0 = records@.len() as int;
        let ghost from_buckets = records@;
        let short_dictionary = self.split_short_keys(&mut records);
        proof {
            assert forall|k: int| 0 <= k < n0 implies bucket_record(
                self.keys@,
                self.buckets@,
                #[trigger] records@[k],
                long_buckets@,
            ) by {
                assert(records@.take(n0)[k] == records@[k]);
            }
            lemma_records_ok(self.keys@, self.buckets@, records@, n0, long_buckets@);
        }
        StaticLongestPrefixMatcher16::assemble(
            short_dictionary,
            records,
            long_buckets,
            Ghost(self.keys@),
        )
    }
}

} // verus!
