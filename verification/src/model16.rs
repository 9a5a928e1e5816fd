//! What the compressor with tokens of at most sixteen bytes computes, as a
//! function of the strings, the order in which training walks them, and the
//! threshold.

use vstd::prelude::*;
use crate::dictionary::Compressed;
use crate::dictionary::MAX_TOKENS;
use crate::lpm16::load_with;
use crate::lpm16::takes;
use crate::matching::longest_match;
use crate::model::initial_keys;
use crate::model::initial_tokens;
use crate::model::parse_all;
use crate::training::bumped;
use crate::training::pair_code;

verus! {

/// What training has learned so far: the keys of the matcher with their ids;
/// for every eight bytes, how many keys of more than eight bytes begin with
/// them; the tokens; and how often each pair of ids has been seen since it
/// last became a token.
pub struct Learner16 {
    pub keys: Map<Seq<u8>, u16>,
    pub load: Map<Seq<u8>, nat>,
    pub tokens: Seq<Seq<u8>>,
    pub counts: Map<u32, u16>,
}

/// The learner before the first string.
pub open spec fn initial_learner16() -> Learner16 {
    Learner16 {
        keys: initial_keys(),
        load: Map::empty(),
        tokens: initial_tokens(),
        counts: Map::empty(),
    }
}

/// Training on the string `s` from the position `pos` on, where the token
/// before `pos` has the id `previous_id` and is `previous_len` bytes long:
/// where the longest match at `pos` and the token before it are together at
/// most sixteen bytes, the pair is counted; a pair that has been seen
/// `threshold` times becomes a token if the matcher takes it, and then is the
/// token before the next position.
pub open spec fn learn_from16(
    st: Learner16,
    s: Seq<u8>,
    pos: nat,
    previous_id: u16,
    previous_len: nat,
    threshold: u16,
) -> Learner16
    decreases s.len() - pos,
{
    if pos >= s.len() || st.tokens.len() >= MAX_TOKENS {
        st
    } else {
        match longest_match(st.keys, s.skip(pos as int)) {
            None => st,
            Some((id, len)) => {
                if len == 0 || pos + len > s.len() || previous_len > pos {
                    st
                } else if previous_len + len > 16 {
                    learn_from16(st, s, (pos + len) as nat, id, len as nat, threshold)
                } else {
                    let code = pair_code(previous_id, id);
                    let count = bumped(st.counts, code);
                    let merged = s.subrange(pos - previous_len, pos + len);
                    if count >= threshold && takes(st.load, merged) {
                        let next = st.tokens.len() as u16;
                        learn_from16(
                            Learner16 {
                                keys: st.keys.insert(merged, next),
                                load: load_with(st.load, st.keys, merged),
                                tokens: st.tokens.push(merged),
                                counts: st.counts.insert(code, count).remove(code),
                            },
                            s,
                            (pos + len) as nat,
                            next,
                            (previous_len + len) as nat,
                            threshold,
                        )
                    } else {
                        learn_from16(
                            Learner16 {
                                keys: st.keys,
                                load: st.load,
                                tokens: st.tokens,
                                counts: st.counts.insert(code, count),
                            },
                            s,
                            (pos + len) as nat,
                            id,
                            len as nat,
                            threshold,
                        )
                    }
                }
            },
        }
    }
}

/// Training on one string: nothing for an empty string or when the tokens
/// are 65 536 already; else the walk begins behind the first match.
pub open spec fn learn_string16(st: Learner16, s: Seq<u8>, threshold: u16) -> Learner16 {
    if s.len() == 0 || st.tokens.len() >= MAX_TOKENS {
        st
    } else {
        match longest_match(st.keys, s) {
            None => st,
            Some((id, len)) => {
                if len == 0 || len > s.len() {
                    st
                } else {
                    learn_from16(st, s, len as nat, id, len as nat, threshold)
                }
            },
        }
    }
}

/// Training on the strings with the indices `order[0..k]`, one after the
/// other.
pub open spec fn learn_all16(
    st: Learner16,
    strings: Seq<Seq<u8>>,
    order: Seq<usize>,
    k: nat,
    threshold: u16,
) -> Learner16
    decreases k,
{
    if k == 0 {
        st
    } else {
        learn_string16(
            learn_all16(st, strings, order, (k - 1) as nat, threshold),
            strings[order[k - 1] as int],
            threshold,
        )
    }
}

/// The compressed collection for the given strings, order of training and
/// threshold.
pub open spec fn compressed16(
    strings: Seq<Seq<u8>>,
    order: Seq<usize>,
    threshold: u16,
) -> Compressed {
    let st = learn_all16(initial_learner16(), strings, order, order.len(), threshold);
    Compressed { tokens: st.tokens, strings: parse_all(st.keys, strings) }
}

/// When the tokens are 65 536, training on further strings changes nothing.
pub proof fn lemma_learn_all16_full(
    st: Learner16,
    strings: Seq<Seq<u8>>,
    order: Seq<usize>,
    k: nat,
    n: nat,
    threshold: u16,
)
    requires
        k <= n,
        learn_all16(st, strings, order, k, threshold).tokens.len() >= MAX_TOKENS,
    ensures
        learn_all16(st, strings, order, n, threshold) == learn_all16(
            st,
            strings,
            order,
            k,
            threshold,
        ),
    decreases n - k,
{
    if k < n {
        lemma_learn_all16_full(st, strings, order, k, (n - 1) as nat, threshold);
    }
}

/// Training and parsing are deterministic: the same strings, walked in the
/// same order with the same threshold, give the same tokens and the same ids.
pub proof fn lemma_deterministic16(
    first: Compressed,
    second: Compressed,
    strings: Seq<Seq<u8>>,
    order: Seq<usize>,
    threshold: u16,
)
    requires
        first == compressed16(strings, order, threshold),
        second == compressed16(strings, order, threshold),
    ensures
        first.tokens == second.tokens,
        first.strings == second.strings,
{
}

} // verus!
