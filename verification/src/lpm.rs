//! The longest-prefix matcher for keys of any length.
//!
//! Keys of at most eight bytes sit in one hash map under their key code. A
//! longer key is split: its first eight bytes select a bucket, and the bucket
//! holds, for each key, where the rest of the key lies in a byte arena, how
//! long it is, and the id. Buckets are kept ordered by decreasing length, so
//! the first entry that matches is the longest.

use vstd::prelude::*;
use rustc_hash::FxHashMap;
use crate::fx::hasher_is_valid;
use crate::fx::new_fx_map;
use crate::short_index::find_short;
use crate::word::lemma_prefix_word;
use crate::short_index::lemma_short_insert;
use crate::short_index::lemma_short_keeps;
use crate::word::lemma_word_of_bytes;
use crate::short_index::short_index_ok;
use crate::matching::lemma_longest_match_is;
use crate::matching::lemma_longest_match_skip;
use crate::matching::longest_match;
use crate::matching::longest_match_len;
use crate::word::le_bytes;
use crate::word::le_value;
use crate::word::lemma_le_bytes_len;
use crate::word::load_word_at;
use crate::word::pack_key;

verus! {

/// Keys of more than this many bytes go to the buckets.
pub const MIN_MATCH: usize = 8;

/// The bytes of a bucket entry: the part of the arena that it points to.
pub open spec fn suffix_of<V>(arena: Seq<u8>, e: (usize, usize, V)) -> Seq<u8> {
    arena.subrange(e.0 as int, e.0 + e.1)
}

/// An entry points to at least one byte inside the arena.
pub open spec fn entry_fits<V>(arena: Seq<u8>, e: (usize, usize, V)) -> bool {
    e.1 >= 1 && e.0 + e.1 <= arena.len()
}

/// Whether the bytes `u` follow the first eight bytes of the data.
pub open spec fn suffix_matches(u: Seq<u8>, data: Seq<u8>) -> bool {
    8 + u.len() <= data.len() && data.subrange(8, 8 + u.len() as int) == u
}

/// Whether some entry of the bucket holds exactly the bytes `u`.
pub open spec fn bucket_holds<V>(arena: Seq<u8>, b: Seq<(usize, usize, V)>, u: Seq<u8>) -> bool {
    exists|i: int| 0 <= i < b.len() && suffix_of(arena, #[trigger] b[i]) == u
}

/// Every entry of the bucket for `prefix` is a key with the entry's id, and
/// longer entries stand before shorter ones.
pub open spec fn long_bucket_ok<V>(
    keys: Map<Seq<u8>, V>,
    arena: Seq<u8>,
    prefix: u64,
    b: Seq<(usize, usize, V)>,
) -> bool {
    &&& forall|i: int, j: int| 0 <= i < j < b.len() ==> b[i].1 >= b[j].1
    &&& forall|i: int|
        0 <= i < b.len() ==> {
            &&& entry_fits(arena, #[trigger] b[i])
            &&& keys.contains_key(le_bytes(prefix as nat, 8) + suffix_of(arena, b[i]))
            &&& keys[le_bytes(prefix as nat, 8) + suffix_of(arena, b[i])] == b[i].2
        }
}

/// Every key of more than eight bytes that begins with the bytes of `prefix`
/// has an entry in the bucket.
pub open spec fn long_bucket_complete<V>(
    keys: Map<Seq<u8>, V>,
    arena: Seq<u8>,
    prefix: u64,
    b: Seq<(usize, usize, V)>,
) -> bool {
    forall|s: Seq<u8>|
        #[trigger] keys.contains_key(s) && s.len() > 8 && le_value(s.take(8)) == prefix
            ==> bucket_holds(arena, b, s.skip(8))
}

/// The buckets hold exactly the keys of more than eight bytes.
pub open spec fn long_buckets_ok<V>(
    keys: Map<Seq<u8>, V>,
    arena: Seq<u8>,
    long: Map<u64, Vec<(usize, usize, V)>>,
) -> bool {
    &&& forall|p: u64| #[trigger] long.contains_key(p) ==> long_bucket_ok(keys, arena, p, long[p]@)
    &&& forall|p: u64|
        !(#[trigger] long.contains_key(p)) ==> long_bucket_complete(
            keys,
            arena,
            p,
            Seq::<(usize, usize, V)>::empty(),
        )
    &&& forall|p: u64|
        #[trigger] long.contains_key(p) ==> long_bucket_complete(keys, arena, p, long[p]@)
}

/// Where an entry of the bucket of the data's first eight bytes matches and
/// no entry before it does, the entry is the longest match.
pub proof fn lemma_first_suffix_is_longest<V>(
    keys: Map<Seq<u8>, V>,
    arena: Seq<u8>,
    data: Seq<u8>,
    p: u64,
    b: Seq<(usize, usize, V)>,
    i: int,
)
    requires
        long_bucket_ok(keys, arena, p, b),
        long_bucket_complete(keys, arena, p, b),
        data.len() > 8,
        p == le_value(data.take(8)),
        0 <= i < b.len(),
        suffix_matches(suffix_of(arena, b[i]), data),
        forall|j: int| 0 <= j < i ==> !suffix_matches(suffix_of(arena, #[trigger] b[j]), data),
    ensures
        longest_match_len(keys, data, data.len()) == 8 + b[i].1,
        keys.contains_key(data.take(8 + b[i].1)),
        keys[data.take(8 + b[i].1)] == b[i].2,
{
    let e = b[i];
    let len = (8 + e.1) as nat;
    lemma_prefix_word(data);
    assert(entry_fits(arena, b[i]));
    assert(le_bytes(p as nat, 8) + suffix_of(arena, e) =~= data.take(len as int));
    assert forall|j: int| len < j <= data.len() implies !keys.contains_key(
        #[trigger] data.take(j),
    ) by {
        let s = data.take(j);
        if keys.contains_key(s) {
            assert(s.take(8) =~= data.take(8));
            assert(bucket_holds(arena, b, s.skip(8)));
            let k = choose|k: int| 0 <= k < b.len() && suffix_of(arena, #[trigger] b[k]) == s.skip(8);
            assert(entry_fits(arena, b[k]));
            assert(s.skip(8) =~= data.subrange(8, j));
            assert(suffix_matches(suffix_of(arena, b[k]), data));
            assert(b[k].1 == j - 8);
            if k > i {
                assert(b[i].1 >= b[k].1);
            }
        }
    }
    lemma_longest_match_is(keys, data, data.len(), len);
}

/// Where no entry of the bucket of the data's first eight bytes matches, no
/// key of more than eight bytes is a prefix.
pub proof fn lemma_no_suffix_matches<V>(
    keys: Map<Seq<u8>, V>,
    arena: Seq<u8>,
    data: Seq<u8>,
    p: u64,
    b: Seq<(usize, usize, V)>,
)
    requires
        long_bucket_ok(keys, arena, p, b),
        long_bucket_complete(keys, arena, p, b),
        data.len() >= 8,
        p == le_value(data.take(8)),
        forall|j: int| 0 <= j < b.len() ==> !suffix_matches(suffix_of(arena, #[trigger] b[j]), data),
    ensures
        longest_match_len(keys, data, data.len()) == longest_match_len(keys, data, 8),
{
    assert forall|j: int| 8 < j <= data.len() implies !keys.contains_key(
        #[trigger] data.take(j),
    ) by {
        let s = data.take(j);
        if keys.contains_key(s) {
            assert(s.take(8) =~= data.take(8));
            assert(bucket_holds(arena, b, s.skip(8)));
            let k = choose|k: int| 0 <= k < b.len() && suffix_of(arena, #[trigger] b[k]) == s.skip(8);
            assert(entry_fits(arena, b[k]));
            assert(s.skip(8) =~= data.subrange(8, j));
            assert(suffix_matches(suffix_of(arena, b[k]), data));
        }
    }
    lemma_longest_match_skip(keys, data, 8, data.len());
}

/// A key of at most eight bytes does not touch the buckets.
pub proof fn lemma_long_buckets_keep<V>(
    keys: Map<Seq<u8>, V>,
    arena: Seq<u8>,
    long: Map<u64, Vec<(usize, usize, V)>>,
    t: Seq<u8>,
    id: V,
)
    requires
        long_buckets_ok(keys, arena, long),
        t.len() <= 8,
    ensures
        long_buckets_ok(keys.insert(t, id), arena, long),
{
    let keys2 = keys.insert(t, id);
    assert forall|p: u64| #[trigger] long.contains_key(p) implies long_bucket_ok(
        keys2,
        arena,
        p,
        long[p]@,
    ) by {
        let b = long[p]@;
        assert(long_bucket_ok(keys, arena, p, b));
        assert forall|i: int| 0 <= i < b.len() implies {
            &&& entry_fits(arena, #[trigger] b[i])
            &&& keys2.contains_key(le_bytes(p as nat, 8) + suffix_of(arena, b[i]))
            &&& keys2[le_bytes(p as nat, 8) + suffix_of(arena, b[i])] == b[i].2
        } by {
            assert(entry_fits(arena, b[i]));
            lemma_le_bytes_len(p as nat, 8);
        }
    }
    assert forall|p: u64| !(#[trigger] long.contains_key(p)) implies long_bucket_complete(
        keys2,
        arena,
        p,
        Seq::<(usize, usize, V)>::empty(),
    ) by {
        assert(long_bucket_complete(keys, arena, p, Seq::<(usize, usize, V)>::empty()));
        assert forall|s: Seq<u8>|
            #[trigger] keys2.contains_key(s) && s.len() > 8 && le_value(s.take(8))
                == p implies bucket_holds(
            arena,
            Seq::<(usize, usize, V)>::empty(),
            s.skip(8),
        ) by {
            assert(keys.contains_key(s));
        }
    }
    assert forall|p: u64| #[trigger] long.contains_key(p) implies long_bucket_complete(
        keys2,
        arena,
        p,
        long[p]@,
    ) by {
        assert(long_bucket_complete(keys, arena, p, long[p]@));
        assert forall|s: Seq<u8>|
            #[trigger] keys2.contains_key(s) && s.len() > 8 && le_value(s.take(8))
                == p implies bucket_holds(arena, long[p]@, s.skip(8)) by {
            assert(keys.contains_key(s));
        }
    }
}

/// What a bucket and the arena become when a key is put in: entries with the
/// key's bytes take the new id where there are any; else the bytes are added
/// to the arena and an entry for them to the bucket. All other entries stay,
/// in their order.
pub open spec fn long_bucket_after_insert<V>(
    arena: Seq<u8>,
    new_arena: Seq<u8>,
    old_b: Seq<(usize, usize, V)>,
    new_b: Seq<(usize, usize, V)>,
    u: Seq<u8>,
    id: V,
    pos: int,
) -> bool {
    if bucket_holds(arena, old_b, u) {
        &&& new_arena == arena
        &&& new_b.len() == old_b.len()
        &&& forall|i: int|
            0 <= i < old_b.len() ==> #[trigger] new_b[i] == (if suffix_of(arena, old_b[i]) == u {
                (old_b[i].0, old_b[i].1, id)
            } else {
                old_b[i]
            })
    } else {
        &&& new_arena == arena + u
        &&& arena.len() + u.len() <= usize::MAX
        &&& 0 <= pos <= old_b.len()
        &&& new_b == old_b.insert(pos, (arena.len() as usize, u.len() as usize, id))
        &&& forall|i: int| 0 <= i < pos ==> (#[trigger] old_b[i]).1 >= u.len()
        &&& forall|i: int| pos <= i < old_b.len() ==> (#[trigger] old_b[i]).1 <= u.len()
    }
}

/// Putting a key of more than eight bytes into its bucket keeps the bucket in
/// step with the keys.
pub proof fn lemma_long_bucket_insert<V>(
    keys: Map<Seq<u8>, V>,
    arena: Seq<u8>,
    new_arena: Seq<u8>,
    old_b: Seq<(usize, usize, V)>,
    new_b: Seq<(usize, usize, V)>,
    t: Seq<u8>,
    id: V,
    pos: int,
)
    requires
        t.len() > 8,
        long_bucket_ok(keys, arena, le_value(t.take(8)) as u64, old_b),
        long_bucket_complete(keys, arena, le_value(t.take(8)) as u64, old_b),
        long_bucket_after_insert(arena, new_arena, old_b, new_b, t.skip(8), id, pos),
    ensures
        long_bucket_ok(keys.insert(t, id), new_arena, le_value(t.take(8)) as u64, new_b),
        long_bucket_complete(keys.insert(t, id), new_arena, le_value(t.take(8)) as u64, new_b),
{
    let p = le_value(t.take(8)) as u64;
    let u = t.skip(8);
    let keys2 = keys.insert(t, id);
    let pb = le_bytes(p as nat, 8);
    lemma_prefix_word(t);
    lemma_le_bytes_len(p as nat, 8);
    assert(pb + u =~= t);
    let found = bucket_holds(arena, old_b, u);
    // the bytes of the old entries are the same in the new arena
    assert forall|i: int| 0 <= i < old_b.len() implies suffix_of(new_arena, #[trigger] old_b[i])
        == suffix_of(arena, old_b[i]) by {
        assert(entry_fits(arena, old_b[i]));
        assert(suffix_of(new_arena, old_b[i]) =~= suffix_of(arena, old_b[i]));
    }
    // an old entry with other bytes stands for another key
    assert forall|i: int| 0 <= i < old_b.len() && suffix_of(arena, old_b[i]) != u implies pb
        + suffix_of(arena, #[trigger] old_b[i]) != t by {
        if pb + suffix_of(arena, old_b[i]) == t {
            assert((pb + suffix_of(arena, old_b[i])).skip(8) =~= suffix_of(arena, old_b[i]));
        }
    }
    if found {
        assert forall|i: int, j: int| 0 <= i < j < new_b.len() implies new_b[i].1
            >= new_b[j].1 by {
            assert(old_b[i].1 >= old_b[j].1);
        }
        assert forall|i: int| 0 <= i < new_b.len() implies {
            &&& entry_fits(new_arena, #[trigger] new_b[i])
            &&& keys2.contains_key(pb + suffix_of(new_arena, new_b[i]))
            &&& keys2[pb + suffix_of(new_arena, new_b[i])] == new_b[i].2
        } by {
            assert(entry_fits(arena, old_b[i]));
            assert(suffix_of(new_arena, new_b[i]) == suffix_of(arena, old_b[i]));
            if suffix_of(arena, old_b[i]) != u {
                assert(pb + suffix_of(arena, old_b[i]) != t);
            }
        }
    } else {
        let e = (arena.len() as usize, u.len() as usize, id);
        assert(suffix_of(new_arena, e) =~= u);
        assert forall|i: int, j: int| 0 <= i < j < new_b.len() implies new_b[i].1
            >= new_b[j].1 by {
            if j < pos {
                assert(old_b[i].1 >= old_b[j].1);
            } else if j == pos {
                assert(old_b[i].1 >= u.len());
            } else if i < pos {
                assert(old_b[i].1 >= old_b[j - 1].1);
            } else if i == pos {
                assert(old_b[j - 1].1 <= u.len());
            } else {
                assert(old_b[i - 1].1 >= old_b[j - 1].1);
            }
        }
        assert forall|i: int| 0 <= i < new_b.len() implies {
            &&& entry_fits(new_arena, #[trigger] new_b[i])
            &&& keys2.contains_key(pb + suffix_of(new_arena, new_b[i]))
            &&& keys2[pb + suffix_of(new_arena, new_b[i])] == new_b[i].2
        } by {
            if i < pos {
                assert(new_b[i] == old_b[i]);
                assert(entry_fits(arena, old_b[i]));
                assert(suffix_of(new_arena, old_b[i]) == suffix_of(arena, old_b[i]));
                assert(suffix_of(arena, old_b[i]) != u);
            } else if i == pos {
                assert(new_b[i] == e);
            } else {
                assert(new_b[i] == old_b[i - 1]);
                assert(entry_fits(arena, old_b[i - 1]));
                assert(suffix_of(new_arena, old_b[i - 1]) == suffix_of(arena, old_b[i - 1]));
                assert(suffix_of(arena, old_b[i - 1]) != u);
            }
        }
    }
    assert forall|s: Seq<u8>|
        #[trigger] keys2.contains_key(s) && s.len() > 8 && le_value(s.take(8))
            == p implies bucket_holds(new_arena, new_b, s.skip(8)) by {
        let w = s.skip(8);
        if s == t {
            if found {
                let k = choose|k: int|
                    0 <= k < old_b.len() && suffix_of(arena, #[trigger] old_b[k]) == u;
                assert(suffix_of(new_arena, new_b[k]) == suffix_of(arena, old_b[k]));
            } else {
                assert(suffix_of(new_arena, new_b[pos]) =~= u);
            }
        } else {
            assert(keys.contains_key(s));
            assert(bucket_holds(arena, old_b, w));
            let k = choose|k: int| 0 <= k < old_b.len() && suffix_of(arena, #[trigger] old_b[k]) == w;
            assert(suffix_of(new_arena, old_b[k]) == suffix_of(arena, old_b[k]));
            if found {
                assert(suffix_of(new_arena, new_b[k]) == suffix_of(arena, old_b[k]));
            } else if k < pos {
                assert(new_b[k] == old_b[k]);
            } else {
                assert(new_b[k + 1] == old_b[k]);
            }
        }
    }
}

/// Putting a key of more than eight bytes into the bucket of its prefix keeps
/// all other buckets as they were.
pub proof fn lemma_other_buckets_keep<V>(
    keys: Map<Seq<u8>, V>,
    arena: Seq<u8>,
    new_arena: Seq<u8>,
    t: Seq<u8>,
    id: V,
    q: u64,
    b: Seq<(usize, usize, V)>,
)
    requires
        t.len() > 8,
        q != le_value(t.take(8)),
        arena.len() <= new_arena.len(),
        new_arena.take(arena.len() as int) == arena,
        long_bucket_ok(keys, arena, q, b),
        long_bucket_complete(keys, arena, q, b),
    ensures
        long_bucket_ok(keys.insert(t, id), new_arena, q, b),
        long_bucket_complete(keys.insert(t, id), new_arena, q, b),
{
    let keys2 = keys.insert(t, id);
    let pb = le_bytes(q as nat, 8);
    lemma_prefix_word(t);
    lemma_le_bytes_len(q as nat, 8);
    assert forall|i: int| 0 <= i < b.len() implies suffix_of(new_arena, #[trigger] b[i])
        == suffix_of(arena, b[i]) by {
        assert(entry_fits(arena, b[i]));
        assert forall|k: int| 0 <= k < b[i].1 implies suffix_of(new_arena, b[i])[k] == suffix_of(
            arena,
            b[i],
        )[k] by {
            assert(new_arena.take(arena.len() as int)[b[i].0 + k] == new_arena[b[i].0 + k]);
        }
        assert(suffix_of(new_arena, b[i]) =~= suffix_of(arena, b[i]));
    }
    assert forall|i: int| 0 <= i < b.len() implies {
        &&& entry_fits(new_arena, #[trigger] b[i])
        &&& keys2.contains_key(pb + suffix_of(new_arena, b[i]))
        &&& keys2[pb + suffix_of(new_arena, b[i])] == b[i].2
    } by {
        assert(entry_fits(arena, b[i]));
        assert(suffix_of(new_arena, b[i]) == suffix_of(arena, b[i]));
        let key = pb + suffix_of(arena, b[i]);
        if key == t {
            assert(key.take(8) =~= pb);
            lemma_word_of_bytes(q, le_value(t.take(8)) as u64);
        }
    }
    assert forall|s: Seq<u8>|
        #[trigger] keys2.contains_key(s) && s.len() > 8 && le_value(s.take(8))
            == q implies bucket_holds(new_arena, b, s.skip(8)) by {
        assert(keys.contains_key(s));
        assert(bucket_holds(arena, b, s.skip(8)));
        let k = choose|k: int| 0 <= k < b.len() && suffix_of(arena, #[trigger] b[k]) == s.skip(8);
        assert(suffix_of(new_arena, b[k]) == suffix_of(arena, b[k]));
    }
}

/// Whether the `len` bytes of the arena from `start` follow the data's byte
/// `from`.
pub(crate) fn follows_at(data: &[u8], from: usize, arena: &Vec<u8>, start: usize, len: usize) -> (r:
    bool)
    requires
        start + len <= arena@.len(),
        from <= data@.len(),
    ensures
        r == (from + len <= data@.len() && data@.subrange(from as int, from + len)
            == arena@.subrange(start as int, start + len)),
{
    let n = data.len();
    if len > n - from {
        return false;
    }
    let total = arena.len();
    let mut k: usize = 0;
    while k < len
        invariant
            k <= len,
            from + len <= n == data@.len(),
            start + len <= total == arena@.len(),
            data@.subrange(from as int, from + k) == arena@.subrange(start as int, start + k),
        decreases len - k,
    {
        if data[from + k] != arena[start + k] {
            proof {
                let a = data@.subrange(from as int, from + len);
                let b = arena@.subrange(start as int, start + len);
                assert(a[k as int] != b[k as int]);
            }
            return false;
        }
        proof {
            assert(data@.subrange(from as int, from + k + 1) =~= data@.subrange(
                from as int,
                from + k,
            ).push(data@[from + k]));
            assert(arena@.subrange(start as int, start + k + 1) =~= arena@.subrange(
                start as int,
                start + k,
            ).push(arena@[start + k]));
        }
        k += 1;
    }
    true
}

/// The matcher for keys of any length, with ids of type `V`.
pub struct LongestPrefixMatcher<V> {
    pub(crate) long_match_buckets: FxHashMap<u64, Vec<(usize, usize, V)>>,
    pub(crate) short_match_lookup: FxHashMap<u128, V>,
    pub(crate) dictionary: Vec<u8>,
    pub(crate) keys: Ghost<Map<Seq<u8>, V>>,
}

impl<V> View for LongestPrefixMatcher<V> {
    type V = Map<Seq<u8>, V>;

    /// The keys that were put in, each with the id it was last given.
    open(crate) spec fn view(&self) -> Map<Seq<u8>, V> {
        self.keys@
    }
}

impl<V: Copy> LongestPrefixMatcher<V> {
    /// The two indices hold exactly the keys of the view.
    pub open(crate) spec fn wf(&self) -> bool {
        &&& hasher_is_valid(&self.short_match_lookup)
        &&& hasher_is_valid(&self.long_match_buckets)
        &&& short_index_ok(self.keys@, self.short_match_lookup@, 8)
        &&& long_buckets_ok(self.keys@, self.dictionary@, self.long_match_buckets@)
    }

    /// A matcher without keys.
    pub fn new() -> (lpm: Self)
        ensures
            lpm.wf(),
            lpm@ == Map::<Seq<u8>, V>::empty(),
    {
        let lpm = LongestPrefixMatcher {
            long_match_buckets: new_fx_map(),
            short_match_lookup: new_fx_map(),
            dictionary: Vec::with_capacity(1024 * 1024),
            keys: Ghost(Map::empty()),
        };
        proof {
            assert forall|p: u64| !(#[trigger] lpm.long_match_buckets@.contains_key(p)) implies long_bucket_complete(
                lpm.keys@,
                lpm.dictionary@,
                p,
                Seq::<(usize, usize, V)>::empty(),
            ) by {}
        }
        lpm
    }

    /// Puts the key `entry` in under `id`. A key that is already there takes
    /// the new id.
    pub fn insert(&mut self, entry: &[u8], id: V)
        requires
            old(self).wf(),
        ensures
            final(self).wf(),
            final(self)@ == old(self)@.insert(entry@, id),
    {
        broadcast use vstd::std_specs::hash::group_hash_axioms;

        let length = entry.len();
        if length <= MIN_MATCH {
            let word = load_word_at(entry, 0, length);
            let code = pack_key(word, length);
            proof {
                assert(entry@.subrange(0, 0 + length) =~= entry@);
                lemma_short_insert(self.keys@, self.short_match_lookup@, 8, entry@, id);
                lemma_long_buckets_keep(
                    self.keys@,
                    self.dictionary@,
                    self.long_match_buckets@,
                    entry@,
                    id,
                );
            }
            self.short_match_lookup.insert(code, id);
            self.keys = Ghost(self.keys@.insert(entry@, id));
        } else {
            self.insert_long(entry, id);
        }
    }

    /// Puts a key of more than eight bytes in.
    fn insert_long(&mut self, entry: &[u8], id: V)
        requires
            old(self).wf(),
            entry@.len() > 8,
        ensures
            final(self).wf(),
            final(self)@ == old(self)@.insert(entry@, id),
    {
        broadcast use vstd::std_specs::hash::group_hash_axioms;

        let length = entry.len();
        let prefix = load_word_at(entry, 0, MIN_MATCH);
        let suffix_len = length - MIN_MATCH;
        let ghost u = entry@.skip(8);
        let ghost arena = self.dictionary@;
        let ghost old_long = self.long_match_buckets@;
        let ghost keys = self.keys@;
        proof {
            assert(entry@.subrange(0, 8) =~= entry@.take(8));
            lemma_prefix_word(entry@);
            assert(entry@.subrange(8, 8 + suffix_len) =~= u);
        }
        let ghost old_bucket: Seq<(usize, usize, V)> = if old_long.contains_key(prefix) {
            old_long[prefix]@
        } else {
            Seq::empty()
        };
        let mut bucket = match self.long_match_buckets.remove(&prefix) {
            Some(b) => b,
            None => Vec::new(),
        };
        proof {
            assert(bucket@ == old_bucket);
            assert(long_bucket_ok(keys, arena, prefix, old_bucket));
            assert(long_bucket_complete(keys, arena, prefix, old_bucket));
        }
        let mut found = false;
        let mut i: usize = 0;
        while i < bucket.len()
            invariant
                i <= bucket@.len() == old_bucket.len(),
                arena == self.dictionary@,
                entry@.len() == length,
                length == 8 + suffix_len,
                u == entry@.skip(8),
                forall|j: int| 0 <= j < old_bucket.len() ==> entry_fits(arena, #[trigger] old_bucket[j]),
                found <==> exists|j: int|
                    0 <= j < i && suffix_of(arena, #[trigger] old_bucket[j]) == u,
                forall|j: int|
                    0 <= j < old_bucket.len() ==> #[trigger] bucket@[j] == (if j < i && suffix_of(
                        arena,
                        old_bucket[j],
                    ) == u {
                        (old_bucket[j].0, old_bucket[j].1, id)
                    } else {
                        old_bucket[j]
                    }),
            decreases bucket@.len() - i,
        {
            let current = bucket[i];
            let ghost su = suffix_of(arena, old_bucket[i as int]);
            proof {
                assert(current == old_bucket[i as int]);
                assert(entry_fits(arena, old_bucket[i as int]));
                assert(su.len() == current.1);
                assert(entry@.subrange(8, 8 + suffix_len) =~= u);
            }
            let same = current.1 == suffix_len && follows_at(
                entry,
                MIN_MATCH,
                &self.dictionary,
                current.0,
                current.1,
            );
            assert(same == (su == u));
            if same {
                bucket.set(i, (current.0, current.1, id));
                found = true;
            }
            i += 1;
        }
        let mut pos: usize = 0;
        if !found {
            proof {
                assert(bucket@ =~= old_bucket);
            }
            while pos < bucket.len() && bucket[pos].1 > suffix_len
                invariant
                    pos <= bucket@.len(),
                    bucket@ == old_bucket,
                    forall|j: int| 0 <= j < pos ==> (#[trigger] old_bucket[j]).1 > suffix_len,
                decreases bucket@.len() - pos,
            {
                pos += 1;
            }
            proof {
                assert forall|j: int| pos <= j < old_bucket.len() implies (
                #[trigger] old_bucket[j]).1 <= suffix_len by {
                    if j > pos {
                        assert(old_bucket[pos as int].1 >= old_bucket[j].1);
                    }
                }
            }
            let start = self.dictionary.len();
            let rest = vstd::slice::slice_subrange(entry, MIN_MATCH, length);
            proof {
                assert(entry@.subrange(8, length as int) =~= u);
            }
            self.dictionary.extend_from_slice(rest);
            proof {
                assert(self.dictionary@.len() == self.dictionary.len());
            }
            bucket.insert(pos, (start, suffix_len, id));
        }
        proof {
            if found {
                let j = choose|j: int|
                    0 <= j < old_bucket.len() && suffix_of(arena, #[trigger] old_bucket[j]) == u;
                assert(bucket_holds(arena, old_bucket, u));
            } else {
                assert(!bucket_holds(arena, old_bucket, u));
                assert(self.dictionary@ == arena + u);
                assert(bucket@ == old_bucket.insert(pos as int, (arena.len() as usize, u.len() as usize, id)));
            }
            assert(long_bucket_after_insert(
                arena,
                self.dictionary@,
                old_bucket,
                bucket@,
                u,
                id,
                pos as int,
            ));
            lemma_long_bucket_insert(
                keys,
                arena,
                self.dictionary@,
                old_bucket,
                bucket@,
                entry@,
                id,
                pos as int,
            );
            lemma_short_keeps(keys, self.short_match_lookup@, 8, entry@, id);
            assert(old_long.remove(prefix).insert(prefix, bucket) =~= old_long.insert(
                prefix,
                bucket,
            ));
            assert(self.dictionary@.take(arena.len() as int) =~= arena);
            assert forall|q: u64| q != prefix implies (if old_long.contains_key(q) {
                long_bucket_ok(keys.insert(entry@, id), self.dictionary@, q, old_long[q]@)
                    && long_bucket_complete(
                    keys.insert(entry@, id),
                    self.dictionary@,
                    q,
                    old_long[q]@,
                )
            } else {
                long_bucket_complete(
                    keys.insert(entry@, id),
                    self.dictionary@,
                    q,
                    Seq::<(usize, usize, V)>::empty(),
                )
            }) by {
                if old_long.contains_key(q) {
                    lemma_other_buckets_keep(
                        keys,
                        arena,
                        self.dictionary@,
                        entry@,
                        id,
                        q,
                        old_long[q]@,
                    );
                } else {
                    assert(long_bucket_ok(keys, arena, q, Seq::<(usize, usize, V)>::empty()));
                    lemma_other_buckets_keep(
                        keys,
                        arena,
                        self.dictionary@,
                        entry@,
                        id,
                        q,
                        Seq::<(usize, usize, V)>::empty(),
                    );
                }
            }
        }
        self.long_match_buckets.insert(prefix, bucket);
        self.keys = Ghost(self.keys@.insert(entry@, id));
    }

    /// The longest key that is a prefix of `data`, as its id and its length.
    pub fn find_longest_match(&self, data: &[u8]) -> (r: Option<(V, usize)>)
        requires
            self.wf(),
        ensures
            r == longest_match(self@, data@),
    {
        broadcast use vstd::std_specs::hash::group_hash_axioms;

        let n = data.len();
        if n > MIN_MATCH {
            let prefix = load_word_at(data, 0, MIN_MATCH);
            proof {
                assert(data@.subrange(0, 8) =~= data@.take(8));
                lemma_prefix_word(data@);
            }
            match self.long_match_buckets.get(&prefix) {
                Some(bucket) => {
                    let mut i: usize = 0;
                    while i < bucket.len()
                        invariant
                            i <= bucket@.len(),
                            n == data@.len(),
                            n > 8,
                            long_bucket_ok(self.keys@, self.dictionary@, prefix, bucket@),
                            long_bucket_complete(self.keys@, self.dictionary@, prefix, bucket@),
                            prefix == le_value(data@.take(8)),
                            forall|j: int|
                                0 <= j < i ==> !suffix_matches(
                                    suffix_of(self.dictionary@, #[trigger] bucket@[j]),
                                    data@,
                                ),
                        decreases bucket@.len() - i,
                    {
                        let entry = bucket[i];
                        proof {
                            assert(entry_fits(self.dictionary@, bucket@[i as int]));
                        }
                        if follows_at(data, MIN_MATCH, &self.dictionary, entry.0, entry.1) {
                            proof {
                                lemma_first_suffix_is_longest(
                                    self.keys@,
                                    self.dictionary@,
                                    data@,
                                    prefix,
                                    bucket@,
                                    i as int,
                                );
                            }
                            return Some((entry.2, MIN_MATCH + entry.1));
                        }
                        i += 1;
                    }
                    proof {
                        lemma_no_suffix_matches(
                            self.keys@,
                            self.dictionary@,
                            data@,
                            prefix,
                            bucket@,
                        );
                    }
                },
                None => {
                    proof {
                        lemma_no_suffix_matches(
                            self.keys@,
                            self.dictionary@,
                            data@,
                            prefix,
                            Seq::<(usize, usize, V)>::empty(),
                        );
                    }
                },
            }
        }
        let m: usize = if n < MIN_MATCH {
            n
        } else {
            MIN_MATCH
        };
        let word = load_word_at(data, 0, m);
        proof {
            assert(data@.subrange(0, 0 + m) =~= data@.take(m as int));
            if n <= 8 {
                lemma_longest_match_skip(self.keys@, data@, m as nat, n as nat);
            }
        }
        let r = find_short(
            &self.short_match_lookup,
            word,
            m,
            Ghost(self.keys@),
            Ghost(data@),
            Ghost(8),
        );
        proof {
            match r {
                Some((id, len)) => {
                    assert(len <= usize::MAX);
                },
                None => {},
            }
        }
        r
    }
}

} // verus!
