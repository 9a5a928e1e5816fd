//! What the compressor with tokens of any length computes, as a function of
//! the strings, the order in which training walks them, and the threshold.

use vstd::prelude::*;
use crate::dictionary::expand;
use crate::dictionary::learned;
use crate::dictionary::lemma_expand_append;
use crate::dictionary::lemma_expand_push;
use crate::dictionary::lemma_learned_match;
use crate::dictionary::string_ok;
use crate::dictionary::Compressed;
use crate::dictionary::MAX_TOKENS;
use crate::matching::lemma_longest_match_len;
use crate::matching::longest_match;
use crate::training::bumped;
use crate::training::pair_code;

verus! {

/// What training has learned so far: the keys of the matcher with their ids,
/// the tokens, and how often each pair of ids has been seen since it last
/// became a token.
pub struct Learner {
    pub keys: Map<Seq<u8>, u16>,
    pub tokens: Seq<Seq<u8>>,
    pub counts: Map<u32, u16>,
}

/// The keys before the first string: the 256 single bytes, each with its
/// value as its id.
pub open spec fn initial_keys() -> Map<Seq<u8>, u16> {
    Map::new(|s: Seq<u8>| s.len() == 1, |s: Seq<u8>| s[0] as u16)
}

/// The 256 tokens of one byte each.
pub open spec fn initial_tokens() -> Seq<Seq<u8>> {
    Seq::new(256, |b: int| seq![b as u8])
}

/// The learner before the first string.
pub open spec fn initial_learner() -> Learner {
    Learner { keys: initial_keys(), tokens: initial_tokens(), counts: Map::empty() }
}

/// Training on the string `s` from the position `pos` on, where the token
/// before `pos` has the id `previous_id` and is `previous_len` bytes long:
/// the longest match at `pos` is paired with the token before it and the
/// pair is counted; a pair that has been seen `threshold` times becomes a
/// token, which then is the token before the next position.
pub open spec fn learn_from(
    st: Learner,
    s: Seq<u8>,
    pos: nat,
    previous_id: u16,
    previous_len: nat,
    threshold: u16,
) -> Learner
    decreases s.len() - pos,
{
    if pos >= s.len() || st.tokens.len() >= MAX_TOKENS {
        st
    } else {
        match longest_match(st.keys, s.skip(pos as int)) {
            None => st,
            Some((id, len)) => {
                if len == 0 || pos + len > s.len() || previous_len > pos {
                    st
                } else {
                    let code = pair_code(previous_id, id);
                    let count = bumped(st.counts, code);
                    if count >= threshold {
                        let merged = s.subrange(pos - previous_len, pos + len);
                        let next = st.tokens.len() as u16;
                        learn_from(
                            Learner {
                                keys: st.keys.insert(merged, next),
                                tokens: st.tokens.push(merged),
                                counts: st.counts.insert(code, count).remove(code),
                            },
                            s,
                            (pos + len) as nat,
                            next,
                            (previous_len + len) as nat,
                            threshold,
                        )
                    } else {
                        learn_from(
                            Learner {
                                keys: st.keys,
                                tokens: st.tokens,
                                counts: st.counts.insert(code, count),
                            },
                            s,
                            (pos + len) as nat,
                            id,
                            len as nat,
                            threshold,
                        )
                    }
                }
            },
        }
    }
}

/// Training on one string: nothing for an empty string or when the tokens
/// are 65 536 already; else the walk begins behind the first match.
pub open spec fn learn_string(st: Learner, s: Seq<u8>, threshold: u16) -> Learner {
    if s.len() == 0 || st.tokens.len() >= MAX_TOKENS {
        st
    } else {
        match longest_match(st.keys, s) {
            None => st,
            Some((id, len)) => {
                if len == 0 || len > s.len() {
                    st
                } else {
                    learn_from(st, s, len as nat, id, len as nat, threshold)
                }
            },
        }
    }
}

/// Training on the strings with the indices `order[0..k]`, one after the
/// other.
pub open spec fn learn_all(
    st: Learner,
    strings: Seq<Seq<u8>>,
    order: Seq<usize>,
    k: nat,
    threshold: u16,
) -> Learner
    decreases k,
{
    if k == 0 {
        st
    } else {
        learn_string(
            learn_all(st, strings, order, (k - 1) as nat, threshold),
            strings[order[k - 1] as int],
            threshold,
        )
    }
}

/// The ids of the longest matches that follow each other in `s`.
pub open spec fn parse(keys: Map<Seq<u8>, u16>, s: Seq<u8>) -> Seq<u16>
    decreases s.len(),
{
    if s.len() == 0 {
        Seq::empty()
    } else {
        match longest_match(keys, s) {
            None => Seq::empty(),
            Some((id, len)) => {
                if len == 0 || len > s.len() {
                    Seq::empty()
                } else {
                    seq![id] + parse(keys, s.skip(len as int))
                }
            },
        }
    }
}

/// Every string parsed with the keys that training ends with.
pub open spec fn parse_all(keys: Map<Seq<u8>, u16>, strings: Seq<Seq<u8>>) -> Seq<Seq<u16>> {
    Seq::new(strings.len(), |i: int| parse(keys, strings[i]))
}

/// The compressed collection for the given strings, order of training and
/// threshold.
pub open spec fn compressed(strings: Seq<Seq<u8>>, order: Seq<usize>, threshold: u16) -> Compressed {
    let st = learn_all(initial_learner(), strings, order, order.len(), threshold);
    Compressed { tokens: st.tokens, strings: parse_all(st.keys, strings) }
}

/// When the tokens are 65 536, training on further strings changes nothing.
pub proof fn lemma_learn_all_full(
    st: Learner,
    strings: Seq<Seq<u8>>,
    order: Seq<usize>,
    k: nat,
    n: nat,
    threshold: u16,
)
    requires
        k <= n,
        learn_all(st, strings, order, k, threshold).tokens.len() >= MAX_TOKENS,
    ensures
        learn_all(st, strings, order, n, threshold) == learn_all(st, strings, order, k, threshold),
    decreases n - k,
{
    if k < n {
        lemma_learn_all_full(st, strings, order, k, (n - 1) as nat, threshold);
    }
}

/// Keys and tokens as they are after the 256 single bytes were put in are
/// those of the initial learner.
pub proof fn lemma_seeded_is_initial(keys: Map<Seq<u8>, u16>, tokens: Seq<Seq<u8>>)
    requires
        crate::dictionary::seeded(keys, tokens, 256),
    ensures
        keys == initial_keys(),
        tokens == initial_tokens(),
{
    assert(tokens =~= initial_tokens());
    assert forall|s: Seq<u8>| keys.contains_key(s) <==> initial_keys().contains_key(s) by {
        if s.len() == 1 {
            assert(s =~= seq![s[0]]);
            assert(tokens[s[0] as int] == seq![s[0]]);
        }
    }
    assert forall|s: Seq<u8>| #[trigger] keys.contains_key(s) implies keys[s] == initial_keys()[s] by {
        let id = keys[s];
        assert(tokens[id as int] == seq![id as u8]);
        assert(seq![id as u8][0] == s[0]);
    }
    assert(keys =~= initial_keys());
}

/// The first match of a string followed by the parse of the rest is the parse
/// of the string.
pub proof fn lemma_parse_step(keys: Map<Seq<u8>, u16>, s: Seq<u8>, ids: Seq<u16>, pos: nat)
    requires
        pos < s.len(),
        s.len() <= usize::MAX,
        ids + parse(keys, s.skip(pos as int)) == parse(keys, s),
        longest_match(keys, s.skip(pos as int)) is Some,
    ensures
        ({
            let m = longest_match(keys, s.skip(pos as int))->0;
            m.1 >= 1 && pos + m.1 <= s.len() && ids.push(m.0) + parse(
                keys,
                s.skip(pos + m.1),
            ) == parse(keys, s)
        }),
{
    let rest = s.skip(pos as int);
    let m = longest_match(keys, rest)->0;
    lemma_longest_match_len(keys, rest, rest.len());
    assert(rest.skip(m.1 as int) =~= s.skip(pos + m.1));
    assert(ids.push(m.0) + parse(keys, s.skip(pos + m.1)) =~= ids + (seq![m.0] + parse(
        keys,
        rest.skip(m.1 as int),
    )));
}

/// Training and parsing are deterministic: the same strings, walked in the
/// same order with the same threshold, give the same tokens and the same ids.
pub proof fn lemma_deterministic(
    first: Compressed,
    second: Compressed,
    strings: Seq<Seq<u8>>,
    order: Seq<usize>,
    threshold: u16,
)
    requires
        first == compressed(strings, order, threshold),
        second == compressed(strings, order, threshold),
    ensures
        first.tokens == second.tokens,
        first.strings == second.strings,
{
}

/// With the keys that training ends with, parsing never comes to a position
/// without a match: the ids of a string stand for exactly its bytes, each is
/// the id of a token, and there are no more ids than bytes, and at least one
/// where the string is not empty.
pub proof fn lemma_parse_covers(keys: Map<Seq<u8>, u16>, tokens: Seq<Seq<u8>>, s: Seq<u8>)
    requires
        learned(keys, tokens),
        s.len() <= usize::MAX,
    ensures
        string_ok(tokens, parse(keys, s), s),
    decreases s.len(),
{
    if s.len() > 0 {
        lemma_learned_match(keys, tokens, s);
        let m = longest_match(keys, s)->0;
        let rest = s.skip(m.1 as int);
        lemma_parse_covers(keys, tokens, rest);
        let ids = parse(keys, rest);
        let first = Seq::<u16>::empty().push(m.0);
        let all = parse(keys, s);
        assert(seq![m.0] =~= first);
        assert(all == first + ids);
        lemma_expand_push(tokens, Seq::<u16>::empty(), m.0);
        lemma_expand_append(tokens, first, ids);
        assert(expand(tokens, first) =~= tokens[m.0 as int]);
        assert(s.take(m.1 as int) + rest =~= s);
        assert forall|k: int| 0 <= k < all.len() implies (#[trigger] all[k]) < tokens.len() by {
            if k > 0 {
                assert(all[k] == ids[k - 1]);
            }
        }
        assert(expand(tokens, all) == tokens[m.0 as int] + rest);
        assert(tokens[m.0 as int] == s.take(m.1 as int));
        assert(expand(tokens, all) == s);
        assert(all.len() == 1 + ids.len());
        assert(rest.len() == s.len() - m.1);
    } else {
        assert(parse(keys, s) =~= Seq::<u16>::empty());
        assert(s =~= Seq::<u8>::empty());
    }
}

} // verus!
