//! The longest-prefix matcher for keys of at most sixteen bytes, in the
//! read-only form that parsing uses.
//!
//! Every eight-byte prefix that begins a key of eight bytes or more has one
//! record, found through a perfect hash of the prefix. The record holds the
//! first four endings of the keys that begin with the prefix; further endings
//! stand in a shared overflow array. It also holds the answer for data that
//! begins with the prefix and matches none of the endings.

use vstd::prelude::*;
use ptr_hash::FastPtrHash;
use ptr_hash::PtrHashParams;
use rustc_hash::FxHashMap;
use crate::fx::hasher_is_valid;
use crate::lpm16::bucket_complete;
use crate::lpm16::bucket_has;
use crate::lpm16::bucket_ok;
use crate::lpm16::entry_key;
use crate::lpm16::entry_matches;
use crate::lpm16::entry_ok;
use crate::short_index::find_short;
use crate::lpm16::lemma_entry_test;
use crate::lpm16::lemma_entry_word;
use crate::lpm16::lemma_first_entry_is_longest;
use crate::lpm16::lemma_no_entry_matches;
use crate::word::lemma_prefix_word;
use crate::lpm16::scan_entries;
use crate::short_index::short_index_ok;
use crate::matching::lemma_longest_match_len;
use crate::matching::lemma_longest_match_of_prefix;
use crate::matching::lemma_longest_match_skip;
use crate::matching::longest_match;
use crate::matching::longest_match_len;
use crate::word::is_prefix;
use crate::word::le_bytes;
use crate::word::le_value;
use crate::word::lemma_le_bytes_len;
use crate::word::lemma_le_value_bound;
use crate::word::lemma_pow256_values;
use crate::word::lemma_value_of_bytes;
use crate::word::load_word_at;
use crate::word::pow256;

verus! {

/// The number of endings that a record holds itself.
pub const N_INLINE_SUFFIXES: usize = 4;

/// A hash function over eight-byte prefixes: a `PtrHash` of `ptr_hash` in its
/// fast form, which gives slots without remapping them.
#[verifier::external_body]
pub struct PrefixHash {
    inner: FastPtrHash,
}

/// The slot that a prefix hash gives to each word.
pub uninterp spec fn phf_slots(h: PrefixHash) -> Map<u64, usize>;

/// `PtrHash::try_new` of `ptr_hash`, in its fast configuration without
/// remapping: a hash function built for the given keys, or `None` where the
/// construction gave up.
#[verifier::external_body]
pub(crate) fn build_prefix_hash(keys: &Vec<u64>) -> (r: Option<PrefixHash>) {
    match <FastPtrHash>::try_new(keys.as_slice(), PtrHashParams::default_fast()) {
        Some(inner) => Some(PrefixHash { inner }),
        None => None,
    }
}

/// `PtrHash::index_no_remap` of `ptr_hash`: the slot of a word, which depends
/// on the hash function and the word alone.
#[verifier::external_body]
pub(crate) fn prefix_slot(h: &PrefixHash, key: u64) -> (slot: usize)
    ensures
        slot == phf_slots(*h)[key],
{
    h.inner.index_no_remap(&key)
}

/// What is known of the keys that begin with one eight-byte prefix.
#[derive(Clone, Copy)]
pub struct LongMatchInfo {
    /// The prefix, as a word.
    pub prefix: u64,
    /// The words of the first four endings.
    pub inline_suffixes: [u64; 4],
    /// The lengths of the first four endings.
    pub inline_lengths: [u8; 4],
    /// The ids of the keys with the first four endings.
    pub inline_ids: [u16; 4],
    /// The number of endings, those in the overflow array included.
    pub n_suffixes: u16,
    /// Where the fifth and further endings begin in the overflow array.
    pub offset: usize,
    /// The id of the longest key of at most eight bytes that is a prefix of
    /// the prefix.
    pub answer_id: u16,
    /// The length of that key; 0 where there is none.
    pub answer_length: u8,
}

/// The `i`-th ending of a record.
pub open spec fn record_entry(
    r: LongMatchInfo,
    overflow: Seq<(u64, u8, u16)>,
    i: int,
) -> (u64, u8, u16) {
    if i < 4 {
        (r.inline_suffixes[i], r.inline_lengths[i], r.inline_ids[i])
    } else {
        overflow[r.offset + i - 4]
    }
}

/// The endings of a record, in their order.
pub open spec fn record_entries(r: LongMatchInfo, overflow: Seq<(u64, u8, u16)>) -> Seq<
    (u64, u8, u16),
> {
    Seq::new(r.n_suffixes as nat, |i: int| record_entry(r, overflow, i))
}

/// Whether a record stands for a prefix; a slot of the table that no prefix
/// hashes to holds a record that does not.
pub open spec fn occupied(r: LongMatchInfo) -> bool {
    r.n_suffixes > 0 || r.answer_length > 0
}

/// The answer of a record is the longest key among the prefixes of its eight
/// bytes.
pub open spec fn answer_ok(keys: Map<Seq<u8>, u16>, r: LongMatchInfo) -> bool {
    &&& r.answer_length <= 8
    &&& r.answer_length as nat == longest_match_len(keys, le_bytes(r.prefix as nat, 8), 8)
    &&& r.answer_length > 0 ==> r.answer_id == keys[le_bytes(r.prefix as nat, 8).take(
        r.answer_length as int,
    )]
}

/// The endings of a record lie within the overflow array.
pub open spec fn record_in_range(r: LongMatchInfo, overflow: Seq<(u64, u8, u16)>) -> bool {
    r.n_suffixes > 4 ==> r.offset + r.n_suffixes - 4 <= overflow.len()
}

/// A record agrees with the keys.
pub open spec fn record_ok(
    keys: Map<Seq<u8>, u16>,
    r: LongMatchInfo,
    overflow: Seq<(u64, u8, u16)>,
) -> bool {
    &&& record_in_range(r, overflow)
    &&& bucket_ok(keys, r.prefix, record_entries(r, overflow))
    &&& r.answer_length <= 8
    &&& occupied(r) ==> answer_ok(keys, r) && (r.n_suffixes == 0 ==> r.answer_length == 8)
}

/// Whether a record is the one for the first eight bytes of the key `s` and
/// holds the key's ending.
pub open spec fn record_covers(
    r: LongMatchInfo,
    overflow: Seq<(u64, u8, u16)>,
    s: Seq<u8>,
) -> bool {
    &&& r.prefix == le_value(s.take(8))
    &&& occupied(r)
    &&& s.len() > 8 ==> bucket_has(record_entries(r, overflow), s.skip(8))
}

/// Whether some record of the list covers the key `s`.
pub open spec fn records_cover(
    records: Seq<LongMatchInfo>,
    overflow: Seq<(u64, u8, u16)>,
    s: Seq<u8>,
) -> bool {
    exists|k: int| 0 <= k < records.len() && record_covers(#[trigger] records[k], overflow, s)
}

/// A list of records that agree with the keys and cover every key of eight
/// bytes or more.
pub open spec fn records_ok(
    keys: Map<Seq<u8>, u16>,
    records: Seq<LongMatchInfo>,
    overflow: Seq<(u64, u8, u16)>,
) -> bool {
    &&& forall|k: int|
        0 <= k < records.len() ==> record_ok(keys, #[trigger] records[k], overflow) && occupied(
            records[k],
        )
    &&& forall|s: Seq<u8>|
        #[trigger] keys.contains_key(s) && s.len() >= 8 ==> records_cover(records, overflow, s)
}

/// Every key of eight bytes or more finds its record in the table, at the
/// slot of its first eight bytes.
#[verifier::opaque]
pub open spec fn table_complete(
    keys: Map<Seq<u8>, u16>,
    slots: Map<u64, usize>,
    info: Seq<LongMatchInfo>,
    overflow: Seq<(u64, u8, u16)>,
) -> bool {
    forall|s: Seq<u8>|
        #[trigger] keys.contains_key(s) && s.len() >= 8 ==> slots[le_value(s.take(8)) as u64]
            < info.len() && record_covers(info[slots[le_value(s.take(8)) as u64] as int], overflow, s)
}

/// Whether some key of eight bytes or more begins with the eight bytes `p`.
pub open spec fn has_long_prefix(keys: Map<Seq<u8>, u16>, p: Seq<u8>) -> bool {
    exists|s: Seq<u8>| #[trigger] keys.contains_key(s) && s.len() >= 8 && s.take(8) == p
}

/// What the table of records answers for data of eight bytes or more: the
/// longest match where some key of eight bytes or more begins as the data
/// does, else nothing.
pub open spec fn long_answer(keys: Map<Seq<u8>, u16>, data: Seq<u8>) -> Option<(u16, usize)> {
    if has_long_prefix(keys, data.take(8)) {
        longest_match(keys, data)
    } else {
        None
    }
}

/// The endings of a record do not change when the overflow array grows.
pub proof fn lemma_entries_stable(
    r: LongMatchInfo,
    before: Seq<(u64, u8, u16)>,
    after: Seq<(u64, u8, u16)>,
)
    requires
        record_in_range(r, before),
        before.len() <= after.len(),
        after.take(before.len() as int) == before,
    ensures
        record_entries(r, after) == record_entries(r, before),
        record_in_range(r, after),
{
    assert forall|i: int| 0 <= i < r.n_suffixes implies record_entry(r, after, i) == record_entry(
        r,
        before,
        i,
    ) by {
        if i >= 4 {
            assert(after.take(before.len() as int)[r.offset + i - 4] == after[r.offset + i - 4]);
        }
    }
    assert(record_entries(r, after) =~= record_entries(r, before));
}

/// The data that a prefix word and a suffix word stand for.
pub open spec fn words_data(prefix: u64, suffix: u64, suffix_len: nat) -> Seq<u8> {
    le_bytes(prefix as nat, 8) + le_bytes(suffix as nat, suffix_len)
}

/// The data of a prefix word and a suffix word begins with the bytes of the
/// prefix and goes on with the bytes of the suffix.
pub proof fn lemma_words_data(prefix: u64, suffix: u64, suffix_len: nat)
    requires
        suffix_len <= 8,
        (suffix as nat) < pow256(suffix_len),
    ensures
        words_data(prefix, suffix, suffix_len).len() == 8 + suffix_len,
        words_data(prefix, suffix, suffix_len).take(8) == le_bytes(prefix as nat, 8),
        le_value(words_data(prefix, suffix, suffix_len).take(8)) == prefix,
        le_value(words_data(prefix, suffix, suffix_len).subrange(8, 8 + suffix_len as int))
            == suffix,
{
    let d = words_data(prefix, suffix, suffix_len);
    lemma_value_of_bytes(prefix as nat, 8);
    lemma_value_of_bytes(suffix as nat, suffix_len);
    lemma_pow256_values();
    vstd::arithmetic::div_mod::lemma_small_mod(suffix as nat, pow256(suffix_len));
    assert(d.take(8) =~= le_bytes(prefix as nat, 8));
    assert(d.subrange(8, 8 + suffix_len as int) =~= le_bytes(suffix as nat, suffix_len));
}

/// A record that covers some key gives the answer for all data that begins
/// with its prefix and matches none of its endings.
pub proof fn lemma_default_answer(
    keys: Map<Seq<u8>, u16>,
    r: LongMatchInfo,
    overflow: Seq<(u64, u8, u16)>,
    data: Seq<u8>,
)
    requires
        record_ok(keys, r, overflow),
        occupied(r),
        bucket_complete(keys, r.prefix, record_entries(r, overflow)),
        data.len() >= 8,
        r.prefix == le_value(data.take(8)),
        forall|j: int|
            0 <= j < r.n_suffixes ==> !entry_matches(
                #[trigger] record_entries(r, overflow)[j],
                data,
            ),
    ensures
        has_long_prefix(keys, data.take(8)),
        longest_match_len(keys, data, data.len()) == r.answer_length,
        r.answer_length > 0 ==> keys[data.take(r.answer_length as int)] == r.answer_id,
{
    let p = r.prefix;
    let b = record_entries(r, overflow);
    lemma_prefix_word(data);
    lemma_no_entry_matches(keys, data, p, b);
    lemma_longest_match_of_prefix(keys, data, 8, 8);
    let pb = le_bytes(p as nat, 8);
    assert(pb == data.take(8));
    if r.answer_length > 0 {
        assert(pb.take(r.answer_length as int) =~= data.take(r.answer_length as int));
    }
    if r.n_suffixes > 0 {
        assert(entry_ok(b[0]));
        lemma_entry_word(b[0]);
        lemma_le_bytes_len(p as nat, 8);
        let s = entry_key(p, b[0]);
        assert(keys.contains_key(s));
        assert(s.take(8) =~= pb);
    } else {
        lemma_longest_match_len(keys, pb, 8);
        assert(pb.take(8) =~= pb);
        assert(keys.contains_key(pb));
        lemma_le_bytes_len(p as nat, 8);
    }
}

/// Where the table holds no record for the first eight bytes of the data, or
/// one that stands for no prefix, no key of eight bytes or more begins as the
/// data does.
pub proof fn lemma_prefix_absent(
    keys: Map<Seq<u8>, u16>,
    slots: Map<u64, usize>,
    info: Seq<LongMatchInfo>,
    overflow: Seq<(u64, u8, u16)>,
    data: Seq<u8>,
)
    requires
        table_complete(keys, slots, info, overflow),
        data.len() >= 8,
        slots[le_value(data.take(8)) as u64] >= info.len() || info[slots[le_value(
            data.take(8),
        ) as u64] as int].prefix != le_value(data.take(8)) || !occupied(
            info[slots[le_value(data.take(8)) as u64] as int],
        ),
    ensures
        !has_long_prefix(keys, data.take(8)),
{
    reveal(table_complete);
    if has_long_prefix(keys, data.take(8)) {
        let s = choose|s: Seq<u8>|
            #[trigger] keys.contains_key(s) && s.len() >= 8 && s.take(8) == data.take(8);
        assert(record_covers(info[slots[le_value(s.take(8)) as u64] as int], overflow, s));
    }
}

/// The record at the slot of a prefix holds an ending for every longer key
/// that begins with the prefix.
pub proof fn lemma_record_complete(
    keys: Map<Seq<u8>, u16>,
    slots: Map<u64, usize>,
    info: Seq<LongMatchInfo>,
    overflow: Seq<(u64, u8, u16)>,
    p: u64,
)
    requires
        table_complete(keys, slots, info, overflow),
        slots[p] < info.len(),
    ensures
        bucket_complete(keys, p, record_entries(info[slots[p] as int], overflow)),
{
    reveal(table_complete);
    lemma_pow256_values();
    assert forall|s: Seq<u8>|
        #[trigger] keys.contains_key(s) && s.len() > 8 && le_value(s.take(8)) == p implies bucket_has(
        record_entries(info[slots[p] as int], overflow),
        s.skip(8),
    ) by {
        lemma_le_value_bound(s.take(8));
        assert(record_covers(info[slots[le_value(s.take(8)) as u64] as int], overflow, s));
    }
}

/// Keys of at most sixteen bytes match data as they match its first sixteen
/// bytes.
pub proof fn lemma_match_within_sixteen(keys: Map<Seq<u8>, u16>, data: Seq<u8>, k: nat)
    requires
        forall|s: Seq<u8>| #[trigger] keys.contains_key(s) ==> s.len() <= 16,
        k <= data.len(),
        k == data.len() || k == 16,
    ensures
        longest_match(keys, data.take(k as int)) == longest_match(keys, data),
{
    let d = data.take(k as int);
    assert forall|j: int| k < j <= data.len() implies !keys.contains_key(
        #[trigger] data.take(j),
    ) by {}
    lemma_longest_match_skip(keys, data, k, data.len());
    lemma_longest_match_of_prefix(keys, data, k, k);
    let len = longest_match_len(keys, data, data.len());
    lemma_longest_match_len(keys, data, k);
    assert(d.take(len as int) =~= data.take(len as int));
}

/// A match of eight bytes or more is the answer of the table of records.
pub proof fn lemma_long_answer_of_match(keys: Map<Seq<u8>, u16>, data: Seq<u8>, len: nat)
    requires
        8 <= len <= data.len(),
        len <= 16,
        longest_match_len(keys, data, data.len()) == len,
        keys.contains_key(data.take(len as int)),
    ensures
        long_answer(keys, data) == Some((keys[data.take(len as int)], len as usize)),
{
    let s = data.take(len as int);
    assert(s.take(8) =~= data.take(8));
    assert(keys.contains_key(s) && s.len() >= 8 && s.take(8) == data.take(8));
}

/// Looks through the endings that a record holds itself for the first that
/// matches the word after the data's first eight bytes; gives its index.
pub(crate) fn scan_inline(
    info: &LongMatchInfo,
    suffix: u64,
    suffix_len: usize,
    Ghost(data): Ghost<Seq<u8>>,
    Ghost(overflow): Ghost<Seq<(u64, u8, u16)>>,
) -> (found: Option<usize>)
    requires
        forall|j: int|
            0 <= j < info.n_suffixes ==> entry_ok(#[trigger] record_entries(*info, overflow)[j]),
        data.len() >= 8,
        suffix_len == (if data.len() < 16 {
            data.len() - 8
        } else {
            8
        }),
        suffix == le_value(data.subrange(8, 8 + suffix_len as int)),
    ensures
        match found {
            Some(i) => i < 4 && i < info.n_suffixes && entry_matches(
                record_entries(*info, overflow)[i as int],
                data,
            ) && record_entries(*info, overflow)[i as int] == (
                info.inline_suffixes[i as int],
                info.inline_lengths[i as int],
                info.inline_ids[i as int],
            ) && forall|j: int|
                0 <= j < i ==> !entry_matches(#[trigger] record_entries(*info, overflow)[j], data),
            None => forall|j: int|
                0 <= j < info.n_suffixes && j < 4 ==> !entry_matches(
                    #[trigger] record_entries(*info, overflow)[j],
                    data,
                ),
        },
{
    let n = info.n_suffixes as usize;
    let inline_n: usize = if n < N_INLINE_SUFFIXES {
        n
    } else {
        N_INLINE_SUFFIXES
    };
    let ghost entries = record_entries(*info, overflow);
    let mut i: usize = 0;
    while i < inline_n
        invariant
            i <= inline_n <= 4,
            inline_n <= info.n_suffixes,
            inline_n == 4 || inline_n == info.n_suffixes,
            entries == record_entries(*info, overflow),
            forall|j: int| 0 <= j < info.n_suffixes ==> entry_ok(#[trigger] entries[j]),
            data.len() >= 8,
            suffix_len == (if data.len() < 16 {
                data.len() - 8
            } else {
                8
            }),
            suffix == le_value(data.subrange(8, 8 + suffix_len as int)),
            forall|j: int| 0 <= j < i ==> !entry_matches(#[trigger] entries[j], data),
        decreases inline_n - i,
    {
        let inline_suffix = info.inline_suffixes[i];
        let inline_len = info.inline_lengths[i];
        proof {
            assert(entries[i as int] == (inline_suffix, inline_len, info.inline_ids[i as int]));
            assert(entry_ok(entries[i as int]));
            lemma_entry_test(data, suffix_len as nat, entries[i as int]);
        }
        if is_prefix(suffix, inline_suffix, suffix_len, inline_len as usize) {
            return Some(i);
        }
        i += 1;
    }
    None
}

/// The answer of one record for data that begins with the record's prefix:
/// the first ending that matches, else the record's own answer.
pub(crate) fn record_answer(
    info: &LongMatchInfo,
    long_buckets: &Vec<(u64, u8, u16)>,
    suffix: u64,
    suffix_len: usize,
    Ghost(keys): Ghost<Map<Seq<u8>, u16>>,
    Ghost(data): Ghost<Seq<u8>>,
) -> (r: Option<(u16, usize)>)
    requires
        record_ok(keys, *info, long_buckets@),
        bucket_complete(keys, info.prefix, record_entries(*info, long_buckets@)),
        !occupied(*info) ==> !has_long_prefix(keys, data.take(8)),
        suffix_len <= 8,
        data.len() == 8 + suffix_len,
        info.prefix == le_value(data.take(8)),
        suffix == le_value(data.subrange(8, 8 + suffix_len as int)),
    ensures
        r == long_answer(keys, data),
{
    let ghost overflow = long_buckets@;
    let ghost entries = record_entries(*info, overflow);
    let ghost prefix = info.prefix;
    match scan_inline(info, suffix, suffix_len, Ghost(data), Ghost(overflow)) {
        Some(i) => {
            proof {
                lemma_first_entry_is_longest(keys, data, prefix, entries, i as int);
                lemma_long_answer_of_match(keys, data, (8 + entries[i as int].1) as nat);
            }
            return Some((info.inline_ids[i], 8 + info.inline_lengths[i] as usize));
        },
        None => {},
    }
    let n = info.n_suffixes as usize;
    if n > N_INLINE_SUFFIXES {
        let start = info.offset;
        let total = long_buckets.len();
        assert(start + (n - N_INLINE_SUFFIXES) <= total);
        let end = start + (n - N_INLINE_SUFFIXES);
        proof {
            assert forall|j: int| start <= j < end implies entry_ok(#[trigger] long_buckets@[j]) by {
                assert(entries[4 + j - start] == long_buckets@[j]);
                assert(entry_ok(entries[4 + j - start]));
            }
        }
        let found = scan_entries(long_buckets, start, end, suffix, suffix_len, Ghost(data));
        match found {
            Some(at) => {
                let item = long_buckets[at];
                proof {
                    let k = 4 + at - start;
                    assert(entries[k] == item);
                    assert forall|j: int| 0 <= j < k implies !entry_matches(
                        #[trigger] entries[j],
                        data,
                    ) by {
                        if j >= 4 {
                            assert(entries[j] == long_buckets@[start + j - 4]);
                        }
                    }
                    lemma_first_entry_is_longest(keys, data, prefix, entries, k);
                    lemma_long_answer_of_match(keys, data, (8 + item.1) as nat);
                }
                return Some((item.2, 8 + item.1 as usize));
            },
            None => {
                proof {
                    assert forall|j: int| 0 <= j < n implies !entry_matches(
                        #[trigger] entries[j],
                        data,
                    ) by {
                        if j >= 4 {
                            assert(entries[j] == long_buckets@[start + j - 4]);
                        }
                    }
                }
            },
        }
    }
    proof {
        if occupied(*info) {
            lemma_default_answer(keys, *info, overflow, data);
        }
    }
    if info.answer_length > 0 {
        Some((info.answer_id, info.answer_length as usize))
    } else {
        None
    }
}

/// A record that stands for no prefix: all its numbers are 0.
pub open spec fn is_blank(r: LongMatchInfo) -> bool {
    &&& r.prefix == 0
    &&& r.n_suffixes == 0
    &&& r.offset == 0
    &&& r.answer_id == 0
    &&& r.answer_length == 0
    &&& forall|i: int| 0 <= i < 4 ==> #[trigger] r.inline_suffixes[i] == 0
    &&& forall|i: int| 0 <= i < 4 ==> #[trigger] r.inline_lengths[i] == 0
    &&& forall|i: int| 0 <= i < 4 ==> #[trigger] r.inline_ids[i] == 0
}

/// The greatest slot of the first `n` records; 0 where there is none.
pub open spec fn max_slot(slots: Map<u64, usize>, records: Seq<LongMatchInfo>, n: nat) -> usize
    decreases n,
{
    if n == 0 {
        0
    } else {
        let before = max_slot(slots, records, (n - 1) as nat);
        let slot = slots[records[n - 1].prefix];
        if slot > before {
            slot
        } else {
            before
        }
    }
}

/// Whether the records can be laid out in a table by their slots: no two
/// have one slot, and a table up to the greatest slot has a length.
pub open spec fn placeable(slots: Map<u64, usize>, records: Seq<LongMatchInfo>) -> bool {
    &&& max_slot(slots, records, records.len()) < usize::MAX
    &&& forall|j: int, k: int|
        0 <= j < k < records.len() ==> slots[(#[trigger] records[j]).prefix] != slots[(
        #[trigger] records[k]).prefix]
}

/// Whether one of the first `n` records has the slot `i`.
pub open spec fn slot_taken(
    slots: Map<u64, usize>,
    records: Seq<LongMatchInfo>,
    n: int,
    i: int,
) -> bool {
    exists|j: int| 0 <= j < n && slots[(#[trigger] records[j]).prefix] == i
}

/// The table of the records: as long as the greatest slot asks for, with
/// every record at its slot and blank records at the slots that no record
/// has.
pub open spec fn is_table(
    slots: Map<u64, usize>,
    records: Seq<LongMatchInfo>,
    info: Seq<LongMatchInfo>,
) -> bool {
    &&& info.len() == max_slot(slots, records, records.len()) + 1
    &&& forall|k: int|
        0 <= k < records.len() ==> slots[(#[trigger] records[k]).prefix] < info.len()
            && info[slots[records[k].prefix] as int] == records[k]
    &&& forall|i: int|
        0 <= i < info.len() && !slot_taken(slots, records, records.len() as int, i) ==> is_blank(
            #[trigger] info[i],
        )
}

/// No slot of the first `n` records is beyond their greatest slot.
pub proof fn lemma_max_slot(slots: Map<u64, usize>, records: Seq<LongMatchInfo>, n: nat, j: int)
    requires
        0 <= j < n,
    ensures
        slots[records[j].prefix] <= max_slot(slots, records, n),
    decreases n,
{
    if j < n - 1 {
        lemma_max_slot(slots, records, (n - 1) as nat, j);
    }
}

impl LongMatchInfo {
    /// The record of a slot that no prefix hashes to.
    pub fn empty() -> (r: Self)
        ensures
            is_blank(r),
    {
        LongMatchInfo {
            prefix: 0,
            inline_suffixes: [0; 4],
            inline_lengths: [0; 4],
            inline_ids: [0; 4],
            n_suffixes: 0,
            offset: 0,
            answer_id: 0,
            answer_length: 0,
        }
    }
}

/// The prefixes of the records, in their order.
pub(crate) fn prefixes_of(records: &Vec<LongMatchInfo>) -> (prefixes: Vec<u64>)
    ensures
        prefixes@.len() == records@.len(),
        forall|k: int| 0 <= k < records@.len() ==> #[trigger] prefixes@[k] == records@[k].prefix,
{
    let mut prefixes: Vec<u64> = Vec::new();
    let mut k: usize = 0;
    while k < records.len()
        invariant
            k <= records@.len(),
            prefixes@.len() == k,
            forall|j: int| 0 <= j < k ==> #[trigger] prefixes@[j] == records@[j].prefix,
        decreases records@.len() - k,
    {
        prefixes.push(records[k].prefix);
        k += 1;
    }
    prefixes
}

/// Puts every record at the slot of its prefix, in a table that reaches up to
/// the greatest slot; the other slots hold blank records. `None` where two
/// records meet in one slot or the table would be longer than a `usize` can
/// say.
pub(crate) fn place_records(
    records: &Vec<LongMatchInfo>,
    phf: &PrefixHash,
    Ghost(keys): Ghost<Map<Seq<u8>, u16>>,
    Ghost(overflow): Ghost<Seq<(u64, u8, u16)>>,
) -> (r: Option<Vec<LongMatchInfo>>)
    requires
        forall|k: int|
            0 <= k < records@.len() ==> record_ok(keys, #[trigger] records@[k], overflow)
                && occupied(records@[k]),
    ensures
        r is Some <==> placeable(phf_slots(*phf), records@),
        match r {
            Some(info) => {
                &&& is_table(phf_slots(*phf), records@, info@)
                &&& forall|i: int|
                    0 <= i < info@.len() ==> record_ok(keys, #[trigger] info@[i], overflow)
            },
            None => true,
        },
{
    let ghost slots = phf_slots(*phf);
    let mut max: usize = 0;
    let mut k: usize = 0;
    while k < records.len()
        invariant
            k <= records@.len(),
            slots == phf_slots(*phf),
            max == max_slot(slots, records@, k as nat),
        decreases records@.len() - k,
    {
        let slot = prefix_slot(phf, records[k].prefix);
        if slot > max {
            max = slot;
        }
        k += 1;
    }
    if max == usize::MAX {
        return None;
    }
    let mut info: Vec<LongMatchInfo> = Vec::new();
    let mut i: usize = 0;
    while i <= max
        invariant
            i <= max + 1,
            max < usize::MAX,
            info@.len() == i,
            forall|j: int| 0 <= j < i ==> is_blank(#[trigger] info@[j]) && record_ok(
                keys,
                info@[j],
                overflow,
            ),
        decreases max + 1 - i,
    {
        let blank = LongMatchInfo::empty();
        proof {
            assert(record_entries(blank, overflow) =~= Seq::empty());
        }
        info.push(blank);
        i += 1;
    }
    let mut k: usize = 0;
    while k < records.len()
        invariant
            k <= records@.len(),
            slots == phf_slots(*phf),
            max == max_slot(slots, records@, records@.len()),
            max < usize::MAX,
            info@.len() == max + 1,
            forall|j: int|
                0 <= j < records@.len() ==> record_ok(keys, #[trigger] records@[j], overflow)
                    && occupied(records@[j]),
            forall|i: int| 0 <= i < info@.len() ==> record_ok(keys, #[trigger] info@[i], overflow),
            forall|j: int|
                0 <= j < k ==> slots[(#[trigger] records@[j]).prefix] < info@.len()
                    && info@[slots[records@[j].prefix] as int] == records@[j],
            forall|i: int|
                0 <= i < info@.len() && !slot_taken(slots, records@, k as int, i) ==> is_blank(
                    #[trigger] info@[i],
                ),
            forall|j: int, l: int|
                0 <= j < l < k ==> slots[(#[trigger] records@[j]).prefix] != slots[(
                #[trigger] records@[l]).prefix],
        decreases records@.len() - k,
    {
        let record = records[k];
        let slot = prefix_slot(phf, record.prefix);
        proof {
            lemma_max_slot(slots, records@, records@.len(), k as int);
        }
        let there = info[slot];
        if there.n_suffixes > 0 || there.answer_length > 0 {
            proof {
                assert(!is_blank(there));
                assert(slot_taken(slots, records@, k as int, slot as int));
                let j = choose|j: int| 0 <= j < k && slots[(#[trigger] records@[j]).prefix] == slot;
                assert(slots[records@[j].prefix] == slots[records@[k as int].prefix]);
                assert(!placeable(slots, records@));
            }
            return None;
        }
        proof {
            assert forall|j: int| 0 <= j < k implies slots[(#[trigger] records@[j]).prefix]
                != slot by {
                if slots[records@[j].prefix] == slot {
                    assert(info@[slot as int] == records@[j]);
                    assert(occupied(records@[j]));
                }
            }
        }
        let ghost before = info@;
        info.set(slot, record);
        proof {
            assert forall|i: int|
                0 <= i < info@.len() && !slot_taken(slots, records@, k + 1, i) implies is_blank(
                #[trigger] info@[i],
            ) by {
                if i == slot {
                    assert(slots[records@[k as int].prefix] == i);
                    assert(slot_taken(slots, records@, k + 1, i));
                } else {
                    if slot_taken(slots, records@, k as int, i) {
                        let j = choose|j: int|
                            0 <= j < k && slots[(#[trigger] records@[j]).prefix] == i;
                        assert(slot_taken(slots, records@, k + 1, i));
                    }
                    assert(info@[i] == before[i]);
                }
            }
        }
        k += 1;
    }
    Some(info)
}

/// The matcher that parsing uses.
pub struct StaticLongestPrefixMatcher16 {
    pub(crate) short_dictionary: FxHashMap<u128, u16>,
    pub(crate) long_phf: PrefixHash,
    pub(crate) long_info: Vec<LongMatchInfo>,
    pub(crate) long_buckets: Vec<(u64, u8, u16)>,
    pub(crate) keys: Ghost<Map<Seq<u8>, u16>>,
}

impl View for StaticLongestPrefixMatcher16 {
    type V = Map<Seq<u8>, u16>;

    /// The keys that the matcher was built from, each with its id.
    open(crate) spec fn view(&self) -> Map<Seq<u8>, u16> {
        self.keys@
    }
}

impl StaticLongestPrefixMatcher16 {
    /// The map of short keys and the table of records hold exactly the keys
    /// of the view.
    pub open(crate) spec fn wf(&self) -> bool {
        &&& hasher_is_valid(&self.short_dictionary)
        &&& forall|s: Seq<u8>| #[trigger] self.keys@.contains_key(s) ==> s.len() <= 16
        &&& short_index_ok(self.keys@, self.short_dictionary@, 7)
        &&& forall|i: int|
            0 <= i < self.long_info@.len() ==> record_ok(
                self.keys@,
                #[trigger] self.long_info@[i],
                self.long_buckets@,
            )
        &&& table_complete(
            self.keys@,
            phf_slots(self.long_phf),
            self.long_info@,
            self.long_buckets@,
        )
    }

    /// Builds the matcher from the map of its keys of at most seven bytes, the
    /// records of its longer keys and their overflow array; `None` where no
    /// perfect hash of the prefixes could be had.
    pub(crate) fn assemble(
        short_dictionary: FxHashMap<u128, u16>,
        records: Vec<LongMatchInfo>,
        long_buckets: Vec<(u64, u8, u16)>,
        Ghost(keys): Ghost<Map<Seq<u8>, u16>>,
    ) -> (r: Option<Self>)
        requires
            hasher_is_valid(&short_dictionary),
            forall|s: Seq<u8>| #[trigger] keys.contains_key(s) ==> s.len() <= 16,
            short_index_ok(keys, short_dictionary@, 7),
            records_ok(keys, records@, long_buckets@),
        ensures
            match r {
                Some(s) => {
                    &&& s.wf()
                    &&& s@ == keys
                    &&& s.short_dictionary == short_dictionary
                    &&& s.long_buckets == long_buckets
                    &&& placeable(phf_slots(s.long_phf), records@)
                    &&& is_table(phf_slots(s.long_phf), records@, s.long_info@)
                },
                None => true,
            },
    {
        let prefixes = prefixes_of(&records);
        match build_prefix_hash(&prefixes) {
            Some(long_phf) => Self::with_hash(
                short_dictionary,
                records,
                long_buckets,
                long_phf,
                Ghost(keys),
            ),
            None => None,
        }
    }

    /// Builds the matcher from its parts and a hash of the prefixes: the
    /// records are laid out in a table by the slots that the hash gives
    /// their prefixes. `None` exactly where they cannot be laid out so.
    pub(crate) fn with_hash(
        short_dictionary: FxHashMap<u128, u16>,
        records: Vec<LongMatchInfo>,
        long_buckets: Vec<(u64, u8, u16)>,
        long_phf: PrefixHash,
        Ghost(keys): Ghost<Map<Seq<u8>, u16>>,
    ) -> (r: Option<Self>)
        requires
            hasher_is_valid(&short_dictionary),
            forall|s: Seq<u8>| #[trigger] keys.contains_key(s) ==> s.len() <= 16,
            short_index_ok(keys, short_dictionary@, 7),
            records_ok(keys, records@, long_buckets@),
        ensures
            r is Some <==> placeable(phf_slots(long_phf), records@),
            match r {
                Some(s) => {
                    &&& s.wf()
                    &&& s@ == keys
                    &&& s.short_dictionary == short_dictionary
                    &&& s.long_buckets == long_buckets
                    &&& s.long_phf == long_phf
                    &&& is_table(phf_slots(long_phf), records@, s.long_info@)
                },
                None => true,
            },
    {
        let long_info = match place_records(
            &records,
            &long_phf,
            Ghost(keys),
            Ghost(long_buckets@),
        ) {
            Some(t) => t,
            None => {
                return None;
            },
        };
        proof {
            reveal(table_complete);
            let slots = phf_slots(long_phf);
            assert forall|s: Seq<u8>| #[trigger] keys.contains_key(s) && s.len() >= 8 implies slots[le_value(
                s.take(8),
            ) as u64] < long_info@.len() && record_covers(
                long_info@[slots[le_value(s.take(8)) as u64] as int],
                long_buckets@,
                s,
            ) by {
                assert(records_cover(records@, long_buckets@, s));
                let k = choose|k: int|
                    0 <= k < records@.len() && record_covers(
                        #[trigger] records@[k],
                        long_buckets@,
                        s,
                    );
                lemma_le_value_bound(s.take(8));
                lemma_pow256_values();
                assert(records@[k].prefix == le_value(s.take(8)) as u64);
            }
        }
        Some(
            StaticLongestPrefixMatcher16 {
                short_dictionary,
                long_phf,
                long_info,
                long_buckets,
                keys: Ghost(keys),
            },
        )
    }

    /// The answer of the table of records for data that begins with the
    /// eight bytes of `prefix` and goes on with the `suffix_len` bytes of
    /// `suffix`: the longest key that is a prefix of the data, where some key
    /// of eight bytes or more begins with the eight bytes; else `None`.
    pub fn compute_long_answer(&self, prefix: u64, suffix: u64, suffix_len: usize) -> (r: Option<
        (u16, usize),
    >)
        requires
            self.wf(),
            suffix_len <= 8,
            (suffix as nat) < pow256(suffix_len as nat),
        ensures
            r == long_answer(self@, words_data(prefix, suffix, suffix_len as nat)),
    {
        let ghost data = words_data(prefix, suffix, suffix_len as nat);
        proof {
            lemma_words_data(prefix, suffix, suffix_len as nat);
        }
        let index = prefix_slot(&self.long_phf, prefix);
        if index >= self.long_info.len() || prefix != self.long_info[index].prefix {
            proof {
                lemma_prefix_absent(
                    self.keys@,
                    phf_slots(self.long_phf),
                    self.long_info@,
                    self.long_buckets@,
                    data,
                );
            }
            return None;
        }
        proof {
            assert(record_ok(self.keys@, self.long_info@[index as int], self.long_buckets@));
            lemma_record_complete(
                self.keys@,
                phf_slots(self.long_phf),
                self.long_info@,
                self.long_buckets@,
                prefix,
            );
            if !occupied(self.long_info@[index as int]) {
                lemma_prefix_absent(
                    self.keys@,
                    phf_slots(self.long_phf),
                    self.long_info@,
                    self.long_buckets@,
                    data,
                );
            }
        }
        record_answer(
            &self.long_info[index],
            &self.long_buckets,
            suffix,
            suffix_len,
            Ghost(self.keys@),
            Ghost(data),
        )
    }

    /// The longest key that is a prefix of `data`, as its id and its length.
    pub fn find_longest_match(&self, data: &[u8]) -> (r: Option<(u16, usize)>)
        requires
            self.wf(),
        ensures
            r == longest_match(self@, data@),
    {
        let n = data.len();
        let ghost keys = self.keys@;
        if n >= 8 {
            let suffix_len = if n < 16 {
                n - 8
            } else {
                8
            };
            let prefix = load_word_at(data, 0, 8);
            let suffix = load_word_at(data, 8, suffix_len);
            proof {
                let head = data@.take(8 + suffix_len as int);
                assert(data@.subrange(0, 8) =~= data@.take(8));
                lemma_prefix_word(data@);
                lemma_le_value_bound(data@.subrange(8, 8 + suffix_len as int));
                crate::word::lemma_pow256_increases(suffix_len as nat, 8);
                crate::word::lemma_bytes_of_value(data@.subrange(8, 8 + suffix_len as int));
                assert(words_data(prefix, suffix, suffix_len as nat) =~= head);
                lemma_match_within_sixteen(keys, data@, (8 + suffix_len) as nat);
                assert(head.take(8) =~= data@.take(8));
            }
            let long_answer = self.compute_long_answer(prefix, suffix, suffix_len);
            if long_answer.is_some() {
                return long_answer;
            }
            proof {
                if has_long_prefix(keys, data@.take(8)) {
                    lemma_longest_match_len(keys, data@, n as nat);
                } else {
                    assert forall|j: int| 8 <= j <= n implies !keys.contains_key(
                        #[trigger] data@.take(j),
                    ) by {
                        assert(data@.take(j).take(8) =~= data@.take(8));
                    }
                }
            }
        }
        let m: usize = if n < 7 {
            n
        } else {
            7
        };
        let word = load_word_at(data, 0, m);
        proof {
            assert(data@.subrange(0, 0 + m) =~= data@.take(m as int));
            lemma_longest_match_skip(keys, data@, m as nat, n as nat);
        }
        find_short(&self.short_dictionary, word, m, Ghost(keys), Ghost(data@), Ghost(7))
    }
}

/// A matcher that was finalized answers every query as the matcher it was
/// made from.
pub proof fn lemma_finalize_equivalence(
    dynamic: crate::lpm16::LongestPrefixMatcher16,
    fixed: StaticLongestPrefixMatcher16,
    query: Seq<u8>,
)
    requires
        fixed@ == dynamic@,
    ensures
        longest_match(fixed@, query) == longest_match(dynamic@, query),
{
}

} // verus!
