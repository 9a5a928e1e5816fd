//! The index of the keys of at most eight bytes: one hash map from the code
//! of a key to its id.

use vstd::prelude::*;
use rustc_hash::FxHashMap;
use crate::fx::hasher_is_valid;
use crate::matching::lemma_longest_match_is;
use crate::matching::longest_match_len;
use crate::word::code_bytes;
use crate::word::keep_low_bytes;
use crate::word::key_code;
use crate::word::lemma_code_bytes;
use crate::word::lemma_key_code_injective;
use crate::word::lemma_le_value_take;
use crate::word::le_value;
use crate::word::pack_key;

verus! {

/// The map of short keys holds exactly the keys of at most `max_len` bytes,
/// each under its code and with its id.
pub open spec fn short_index_ok<V>(
    keys: Map<Seq<u8>, V>,
    short: Map<u128, V>,
    max_len: nat,
) -> bool {
    &&& forall|s: Seq<u8>|
        #![trigger keys.contains_key(s), key_code(s)]
        keys.contains_key(s) && s.len() <= max_len ==> short.contains_key(key_code(s) as u128)
            && short[key_code(s) as u128] == keys[s]
    &&& forall|c: u128| #[trigger]
        short.contains_key(c) ==> keys.contains_key(code_bytes(c as nat)) && code_bytes(
            c as nat,
        ).len() <= max_len
}

/// A look-up of the code of the first `len` bytes decides whether they are a
/// key.
pub proof fn lemma_short_lookup<V>(
    keys: Map<Seq<u8>, V>,
    short: Map<u128, V>,
    max_len: nat,
    t: Seq<u8>,
)
    requires
        short_index_ok(keys, short, max_len),
        t.len() <= max_len <= 8,
    ensures
        key_code(t) <= u128::MAX,
        short.contains_key(key_code(t) as u128) == keys.contains_key(t),
        keys.contains_key(t) ==> short[key_code(t) as u128] == keys[t],
{
    lemma_code_bytes(t);
    if short.contains_key(key_code(t) as u128) {
        assert(keys.contains_key(code_bytes(key_code(t) as u128 as nat)));
    }
}

/// Putting a short key into both the keys and the map of short keys keeps
/// them in step.
pub proof fn lemma_short_insert<V>(
    keys: Map<Seq<u8>, V>,
    short: Map<u128, V>,
    max_len: nat,
    t: Seq<u8>,
    id: V,
)
    requires
        short_index_ok(keys, short, max_len),
        t.len() <= max_len <= 8,
    ensures
        short_index_ok(keys.insert(t, id), short.insert(key_code(t) as u128, id), max_len),
{
    let keys2 = keys.insert(t, id);
    let short2 = short.insert(key_code(t) as u128, id);
    lemma_code_bytes(t);
    assert forall|s: Seq<u8>| #[trigger] keys2.contains_key(s) && s.len() <= max_len implies (
    short2.contains_key(key_code(s) as u128) && short2[key_code(s) as u128] == keys2[s]) by {
        lemma_code_bytes(s);
        if s != t {
            if key_code(s) == key_code(t) {
                lemma_key_code_injective(s, t);
            }
            assert(keys.contains_key(s));
        }
    }
    assert forall|c: u128| #[trigger] short2.contains_key(c) implies keys2.contains_key(
        code_bytes(c as nat),
    ) && code_bytes(c as nat).len() <= max_len by {
        if c != key_code(t) as u128 {
            assert(short.contains_key(c));
        }
    }
}

/// A key of more than eight bytes does not touch the map of short keys.
pub proof fn lemma_short_keeps<V>(
    keys: Map<Seq<u8>, V>,
    short: Map<u128, V>,
    max_len: nat,
    t: Seq<u8>,
    id: V,
)
    requires
        short_index_ok(keys, short, max_len),
        t.len() > max_len,
    ensures
        short_index_ok(keys.insert(t, id), short, max_len),
{
    let keys2 = keys.insert(t, id);
    assert forall|s: Seq<u8>| #[trigger] keys2.contains_key(s) && s.len() <= max_len implies (
    short.contains_key(key_code(s) as u128) && short[key_code(s) as u128] == keys2[s]) by {
        assert(keys.contains_key(s));
    }
    assert forall|c: u128| #[trigger] short.contains_key(c) implies keys2.contains_key(
        code_bytes(c as nat),
    ) && code_bytes(c as nat).len() <= max_len by {
        assert(keys.contains_key(code_bytes(c as nat)));
    }
}

/// Looks the first `m` bytes of the data up in a map of short keys, then the
/// first `m - 1`, and so on down to one byte; `word` spells the first `m`
/// bytes.
pub(crate) fn find_short<V: Copy>(
    short: &FxHashMap<u128, V>,
    word: u64,
    m: usize,
    Ghost(keys): Ghost<Map<Seq<u8>, V>>,
    Ghost(data): Ghost<Seq<u8>>,
    Ghost(max_len): Ghost<nat>,
) -> (r: Option<(V, usize)>)
    requires
        hasher_is_valid(short),
        short_index_ok(keys, short@, max_len),
        m <= max_len <= 8,
        m <= data.len(),
        word == le_value(data.take(m as int)),
    ensures
        match r {
            Some((id, len)) => 0 < len <= m && len == longest_match_len(keys, data, m as nat)
                && keys.contains_key(data.take(len as int)) && id == keys[data.take(len as int)],
            None => longest_match_len(keys, data, m as nat) == 0,
        },
{
    broadcast use vstd::std_specs::hash::group_hash_axioms;

    let mut prefix = word;
    let mut length: usize = m;
    while length > 0
        invariant
            hasher_is_valid(short),
            short_index_ok(keys, short@, max_len),
            length <= m <= max_len <= 8,
            m <= data.len(),
            prefix == le_value(data.take(length as int)),
            forall|j: int| length < j <= m ==> !keys.contains_key(#[trigger] data.take(j)),
        decreases length,
    {
        let code = pack_key(prefix, length);
        proof {
            lemma_short_lookup(keys, short@, max_len, data.take(length as int));
        }
        match short.get(&code) {
            Some(id) => {
                proof {
                    lemma_longest_match_is(keys, data, m as nat, length as nat);
                }
                return Some((*id, length));
            },
            None => {},
        }
        proof {
            let shorter = (length - 1) as nat;
            lemma_le_value_take(data.take(length as int), shorter);
            assert(data.take(length as int).take(shorter as int) =~= data.take(shorter as int));
        }
        length -= 1;
        prefix = keep_low_bytes(prefix, length);
    }
    proof {
        lemma_longest_match_is(keys, data, m as nat, 0);
    }
    None
}

} // verus!
