//! The compressor whose tokens may be of any length.
//!
//! Training fills a matcher with the 256 single bytes and then walks the
//! strings in a shuffled order: where two tokens that follow each other have
//! been seen together often enough, they become a new token. After training
//! every string is cut into the longest tokens that match, and only the ids
//! of the tokens are kept.

use vstd::prelude::*;
use rustc_hash::FxHashMap;
use vstd::slice::slice_subrange;
use crate::dictionary::bounds_ok;
use crate::dictionary::expand;
use crate::dictionary::learned;
use crate::dictionary::lemma_seeded_learned;
use crate::dictionary::lemma_seeded_step;
use crate::dictionary::seeded;
use crate::dictionary::lemma_concat_strings;
use crate::dictionary::lemma_expand_push;
use crate::dictionary::lemma_expand_take;
use crate::dictionary::lemma_learned_insert;
use crate::dictionary::lemma_learned_match;
use crate::dictionary::lemma_pieces_push;
use crate::dictionary::lemma_total_len_pieces;
use crate::dictionary::pieces;
use crate::dictionary::string_ok;
use crate::dictionary::total_len;
use crate::dictionary::Compressed;
use crate::dictionary::MAX_TOKENS;
use crate::fx::hasher_is_valid;
use crate::fx::new_fx_map;
use crate::lpm::LongestPrefixMatcher;
use crate::model::compressed;
use crate::model::initial_learner;
use crate::model::learn_all;
use crate::model::learn_from;
use crate::model::learn_string;
use crate::model::lemma_learn_all_full;
use crate::model::lemma_parse_step;
use crate::model::lemma_seeded_is_initial;
use crate::model::parse;
use crate::model::parse_all;
use crate::model::Learner;
use crate::training::indices;
use crate::training::is_permutation;
use crate::training::merge_threshold;
use crate::training::seeded_order;
use crate::training::bytes_of;
use crate::training::copy_token;
use crate::training::count_pair;
use crate::training::flatten_strings;
use crate::training::forget_pair;
use crate::training::in_range;
use crate::training::ints;
use crate::training::lemma_ints_push;
use crate::training::random_order;
use crate::training::seeded_random_order;
use crate::training::shrink;
use crate::training::spans;
use crate::training::spans_ok;
use crate::training::threshold_for;

verus! {

/// The compressor with tokens of any length.
pub struct OnPair {
    compressed_data: Vec<u16>,
    string_boundaries: Vec<usize>,
    dictionary: Vec<u8>,
    token_boundaries: Vec<usize>,
}

impl View for OnPair {
    type V = Compressed;

    /// The tokens and, for every string, the ids that spell it.
    closed spec fn view(&self) -> Compressed {
        Compressed {
            tokens: pieces(self.dictionary@, ints(self.token_boundaries@)),
            strings: pieces(self.compressed_data@, ints(self.string_boundaries@)),
        }
    }
}

impl OnPair {
    /// The tokens stand end to end in the arena.
    pub closed spec fn store_ok(&self) -> bool {
        &&& bounds_ok(self.dictionary@.len(), ints(self.token_boundaries@))
        &&& self.token_boundaries@.len() - 1 <= MAX_TOKENS
    }

    /// The compressor is as `new` made it, or holds a collection: the ids of
    /// the strings stand end to end, and each is the id of a token.
    pub closed spec fn wf(&self) -> bool {
        &&& if self.token_boundaries@.len() == 0 {
            &&& self.dictionary@.len() == 0
            &&& self.compressed_data@.len() == 0
            &&& self.string_boundaries@.len() == 0
        } else {
            &&& self.store_ok()
            &&& bounds_ok(self.compressed_data@.len(), ints(self.string_boundaries@))
            &&& self@.dictionary_ok()
            &&& forall|k: int|
                0 <= k < self.compressed_data@.len() ==> (#[trigger] self.compressed_data@[k])
                    < self@.tokens.len()
        }
    }

    /// What holds while the tokens are learned: the matcher knows exactly the
    /// tokens, and no string has been parsed yet.
    pub(crate) closed spec fn training(&self, lpm: &LongestPrefixMatcher<u16>) -> bool {
        &&& lpm.wf()
        &&& self.store_ok()
        &&& learned(lpm@, self@.tokens)
        &&& self.compressed_data@.len() == 0
        &&& self.string_boundaries@.len() == 0
    }

    /// A compressor that holds nothing yet.
    pub fn new() -> (r: Self)
        ensures
            r.wf(),
            r@.tokens.len() == 0,
            r@.strings.len() == 0,
    {
        OnPair {
            compressed_data: Vec::new(),
            string_boundaries: Vec::new(),
            dictionary: Vec::new(),
            token_boundaries: Vec::new(),
        }
    }

    /// A compressor that holds nothing yet, with room for `n_strings` strings
    /// of `n_bytes` bytes together.
    pub fn with_capacity(n_strings: usize, n_bytes: usize) -> (r: Self)
        ensures
            r.wf(),
            r@.tokens.len() == 0,
            r@.strings.len() == 0,
    {
        OnPair {
            compressed_data: Vec::with_capacity(n_bytes),
            string_boundaries: Vec::with_capacity(n_strings),
            dictionary: Vec::with_capacity(1024 * 1024),
            token_boundaries: Vec::with_capacity(1 << 16),
        }
    }

    /// Learns tokens from the strings and compresses them. The compressor
    /// then holds exactly these strings, whatever it held before.
    pub fn compress_strings(&mut self, strings: &[&str])
        requires
            old(self).wf(),
        ensures
            final(self).wf(),
            final(self)@.holds(bytes_of(strings@)),
            exists|order: Seq<usize>|
                is_permutation(order, strings@.len()) && final(self)@ == #[trigger] compressed(
                    bytes_of(strings@),
                    order,
                    merge_threshold(total_len(bytes_of(strings@))) as u16,
                ),
    {
        let (data, end_positions) = flatten_strings(strings);
        proof {
            lemma_total_len_pieces(data@, ints(end_positions@));
        }
        self.compress_bytes(data.as_slice(), end_positions.as_slice());
    }

    /// Learns tokens from the strings that `end_positions` cuts `data` into,
    /// walking them in an order left to chance, and compresses them. The
    /// compressor then holds exactly these strings, whatever it held before.
    pub fn compress_bytes(&mut self, data: &[u8], end_positions: &[usize])
        requires
            old(self).wf(),
            spans_ok(data@, end_positions@),
        ensures
            final(self).wf(),
            final(self)@.holds(spans(data@, end_positions@)),
            exists|order: Seq<usize>|
                is_permutation(order, (end_positions@.len() - 1) as nat) && final(self)@
                    == #[trigger] compressed(
                    spans(data@, end_positions@),
                    order,
                    merge_threshold(data@.len()) as u16,
                ),
    {
        let order = random_order(end_positions.len() - 1);
        self.compress_bytes_in_order(data, end_positions, order.as_slice());
    }

    /// As `compress_bytes`, with the order in which training walks the
    /// strings made from `seed`.
    pub fn compress_bytes_seeded(&mut self, data: &[u8], end_positions: &[usize], seed: u64)
        requires
            old(self).wf(),
            spans_ok(data@, end_positions@),
        ensures
            final(self).wf(),
            final(self)@.holds(spans(data@, end_positions@)),
            final(self)@ == compressed(
                spans(data@, end_positions@),
                seeded_order(indices((end_positions@.len() - 1) as nat), seed),
                merge_threshold(data@.len()) as u16,
            ),
    {
        let order = seeded_random_order(end_positions.len() - 1, seed);
        self.compress_bytes_in_order(data, end_positions, order.as_slice());
    }

    /// As `compress_bytes`, with the order in which training walks the
    /// strings given: `order` holds indices of strings.
    pub fn compress_bytes_in_order(
        &mut self,
        data: &[u8],
        end_positions: &[usize],
        order: &[usize],
    )
        requires
            old(self).wf(),
            spans_ok(data@, end_positions@),
            in_range(order@, (end_positions@.len() - 1) as nat),
        ensures
            final(self).wf(),
            final(self)@.holds(spans(data@, end_positions@)),
            final(self)@ == compressed(
                spans(data@, end_positions@),
                order@,
                merge_threshold(data@.len()) as u16,
            ),
    {
        self.compressed_data.clear();
        self.string_boundaries.clear();
        self.dictionary.clear();
        self.token_boundaries.clear();
        let lpm = self.train_dictionary(data, end_positions, order);
        self.parse_data(data, end_positions, &lpm);
    }

    /// Adds the bytes `from..to` of the data to the tokens.
    fn push_token(&mut self, data: &[u8], from: usize, to: usize)
        requires
            old(self).store_ok(),
            old(self)@.tokens.len() < MAX_TOKENS,
            from <= to <= data@.len(),
        ensures
            final(self).store_ok(),
            final(self)@.tokens == old(self)@.tokens.push(data@.subrange(from as int, to as int)),
            final(self).compressed_data == old(self).compressed_data,
            final(self).string_boundaries == old(self).string_boundaries,
    {
        let ghost arena = self.dictionary@;
        let ghost bounds = self.token_boundaries@;
        let ghost piece = data@.subrange(from as int, to as int);
        proof {
            assert(self@.tokens.len() == bounds.len() - 1);
        }
        self.dictionary.extend_from_slice(slice_subrange(data, from, to));
        let end = self.dictionary.len();
        proof {
            assert(self.dictionary@ =~= arena + piece);
            lemma_pieces_push(arena, ints(bounds), piece);
            lemma_ints_push(bounds, end);
        }
        self.token_boundaries.push(end);
    }

    /// Walks one string during training: cuts it into the longest tokens
    /// that match and counts the pairs of tokens that follow each other; a
    /// pair that has been seen often enough becomes a token. Says whether the
    /// tokens are now 65 536.
    fn train_string(
        &mut self,
        lpm: &mut LongestPrefixMatcher<u16>,
        frequency: &mut FxHashMap<u32, u16>,
        threshold: u16,
        data: &[u8],
        start: usize,
        end: usize,
    ) -> (full: bool)
        requires
            old(self).training(&*old(lpm)),
            hasher_is_valid(&*old(frequency)),
            old(self)@.tokens.len() < MAX_TOKENS,
            start < end <= data@.len(),
        ensures
            final(self).training(&*final(lpm)),
            hasher_is_valid(&*final(frequency)),
            full == (final(self)@.tokens.len() == MAX_TOKENS),
            (Learner { keys: final(lpm)@, tokens: final(self)@.tokens, counts: final(frequency)@ })
                == learn_string(
                (Learner { keys: old(lpm)@, tokens: old(self)@.tokens, counts: old(frequency)@ }),
                data@.subrange(start as int, end as int),
                threshold,
            ),
    {
        let ghost s = data@.subrange(start as int, end as int);
        let ghost st0 = Learner { keys: lpm@, tokens: self@.tokens, counts: frequency@ };
        proof {
            lemma_learned_match(lpm@, self@.tokens, s);
        }
        let first = lpm.find_longest_match(slice_subrange(data, start, end)).unwrap();
        let mut previous_token_id: u16 = first.0;
        let mut previous_length: usize = first.1;
        let mut pos: usize = start + previous_length;
        while pos < end
            invariant
                self.training(&*lpm),
                hasher_is_valid(&*frequency),
                self@.tokens.len() < MAX_TOKENS,
                start < end <= data@.len(),
                start <= pos <= end,
                1 <= previous_length <= pos - start,
                s == data@.subrange(start as int, end as int),
                st0 == (Learner {
                    keys: old(lpm)@,
                    tokens: old(self)@.tokens,
                    counts: old(frequency)@,
                }),
                learn_from(
                    (Learner { keys: lpm@, tokens: self@.tokens, counts: frequency@ }),
                    s,
                    (pos - start) as nat,
                    previous_token_id,
                    previous_length as nat,
                    threshold,
                ) == learn_string(st0, s, threshold),
            decreases end - pos,
        {
            let ghost now = Learner { keys: lpm@, tokens: self@.tokens, counts: frequency@ };
            let ghost at = (pos - start) as nat;
            let ghost previous_id = previous_token_id;
            let ghost previous_len = previous_length as nat;
            proof {
                lemma_learned_match(lpm@, self@.tokens, data@.subrange(pos as int, end as int));
                assert(s.skip(at as int) =~= data@.subrange(pos as int, end as int));
            }
            let found = lpm.find_longest_match(slice_subrange(data, pos, end)).unwrap();
            let match_token_id: u16 = found.0;
            let match_length: usize = found.1;
            let mut added_token = false;
            let counted = count_pair(frequency, previous_token_id, match_token_id);
            if counted.1 >= threshold {
                let next_token_id: u16 = (self.token_boundaries.len() - 1) as u16;
                let merged = slice_subrange(data, pos - previous_length, pos + match_length);
                proof {
                    lemma_learned_insert(lpm@, self@.tokens, merged@);
                    assert(merged@ =~= s.subrange(at - previous_len, at + match_length));
                }
                lpm.insert(merged, next_token_id);
                added_token = true;
                self.push_token(data, pos - previous_length, pos + match_length);
                forget_pair(frequency, counted.0);
                previous_token_id = next_token_id;
                previous_length = previous_length + match_length;
                proof {
                    let after = Learner { keys: lpm@, tokens: self@.tokens, counts: frequency@ };
                    assert(learn_from(now, s, at, previous_id, previous_len, threshold)
                        == learn_from(
                        after,
                        s,
                        (at + match_length) as nat,
                        previous_token_id,
                        previous_length as nat,
                        threshold,
                    ));
                }
                if next_token_id == u16::MAX {
                    proof {
                        let after = Learner {
                            keys: lpm@,
                            tokens: self@.tokens,
                            counts: frequency@,
                        };
                        assert(after.tokens.len() == MAX_TOKENS);
                        assert(learn_from(
                            after,
                            s,
                            (at + match_length) as nat,
                            previous_token_id,
                            previous_length as nat,
                            threshold,
                        ) == after);
                    }
                    return true;
                }
            }
            if !added_token {
                previous_token_id = match_token_id;
                previous_length = match_length;
                proof {
                    let after = Learner { keys: lpm@, tokens: self@.tokens, counts: frequency@ };
                    assert(learn_from(now, s, at, previous_id, previous_len, threshold)
                        == learn_from(
                        after,
                        s,
                        (at + match_length) as nat,
                        previous_token_id,
                        previous_length as nat,
                        threshold,
                    ));
                }
            }
            pos += match_length;
        }
        false
    }

    /// Learns the tokens: the 256 single bytes first, then what the strings
    /// give, walked in the given order, until the strings end or the tokens
    /// are 65 536. Gives the matcher that knows the tokens.
    fn train_dictionary(&mut self, data: &[u8], end_positions: &[usize], order: &[usize]) -> (lpm:
        LongestPrefixMatcher<u16>)
        requires
            old(self).compressed_data@.len() == 0,
            old(self).string_boundaries@.len() == 0,
            old(self).dictionary@.len() == 0,
            old(self).token_boundaries@.len() == 0,
            spans_ok(data@, end_positions@),
            in_range(order@, (end_positions@.len() - 1) as nat),
        ensures
            final(self).training(&lpm),
            lpm@ == learn_all(
                initial_learner(),
                spans(data@, end_positions@),
                order@,
                order@.len(),
                merge_threshold(data@.len()) as u16,
            ).keys,
            final(self)@.tokens == learn_all(
                initial_learner(),
                spans(data@, end_positions@),
                order@,
                order@.len(),
                merge_threshold(data@.len()) as u16,
            ).tokens,
    {
        let mut frequency: FxHashMap<u32, u16> = new_fx_map();
        let mut lpm = LongestPrefixMatcher::<u16>::new();
        let threshold = threshold_for(data.len());
        let ghost strings = spans(data@, end_positions@);
        self.token_boundaries.push(0);
        proof {
            assert(self@.tokens =~= Seq::<Seq<u8>>::empty());
        }
        let mut i: usize = 0;
        while i < 256
            invariant
                i <= 256,
                lpm.wf(),
                self.compressed_data@.len() == 0,
                self.string_boundaries@.len() == 0,
                bounds_ok(self.dictionary@.len(), ints(self.token_boundaries@)),
                self.dictionary@.len() == i,
                self.token_boundaries@.len() == i + 1,
                seeded(lpm@, self@.tokens, i as nat),
            decreases 256 - i,
        {
            let byte: u8 = i as u8;
            let mut token: Vec<u8> = Vec::new();
            token.push(byte);
            let ghost keys = lpm@;
            let ghost arena = self.dictionary@;
            let ghost bounds = self.token_boundaries@;
            proof {
                assert(token@ =~= seq![byte]);
                lemma_seeded_step(keys, self@.tokens, i as nat);
            }
            lpm.insert(token.as_slice(), i as u16);
            self.dictionary.push(byte);
            proof {
                assert(self.dictionary@ =~= arena + seq![byte]);
                lemma_pieces_push(arena, ints(bounds), seq![byte]);
                lemma_ints_push(bounds, (i + 1) as usize);
            }
            self.token_boundaries.push(self.dictionary.len());
            i += 1;
        }
        proof {
            lemma_seeded_learned(lpm@, self@.tokens);
            lemma_seeded_is_initial(lpm@, self@.tokens);
        }
        let mut k: usize = 0;
        let mut full = false;
        while k < order.len() && !full
            invariant
                k <= order@.len(),
                self.training(&lpm),
                hasher_is_valid(&frequency),
                full == (self@.tokens.len() == MAX_TOKENS),
                spans_ok(data@, end_positions@),
                strings == spans(data@, end_positions@),
                in_range(order@, (end_positions@.len() - 1) as nat),
                (Learner { keys: lpm@, tokens: self@.tokens, counts: frequency@ }) == learn_all(
                    initial_learner(),
                    strings,
                    order@,
                    k as nat,
                    threshold,
                ),
            decreases order@.len() - k,
        {
            let index = order[k];
            proof {
                let ends = ints(end_positions@);
                assert(ends[index as int] <= ends[index + 1] <= ends[ends.len() - 1]);
                assert(strings[index as int] == data@.subrange(ends[index as int], ends[index + 1]));
            }
            let start = end_positions[index];
            let end = end_positions[index + 1];
            if start < end {
                full = self.train_string(&mut lpm, &mut frequency, threshold, data, start, end);
            }
            k += 1;
        }
        proof {
            if k < order@.len() {
                lemma_learn_all_full(
                    initial_learner(),
                    strings,
                    order@,
                    k as nat,
                    order@.len(),
                    threshold,
                );
            }
        }
        lpm
    }

    /// Cuts one string into the longest tokens that match and adds their ids
    /// to the compressed data.
    fn parse_string(&mut self, data: &[u8], start: usize, end: usize, parser: &LongestPrefixMatcher<u16>)
        requires
            old(self).store_ok(),
            parser.wf(),
            learned(parser@, old(self)@.tokens),
            start <= end <= data@.len(),
            forall|k: int|
                0 <= k < old(self).compressed_data@.len() ==> (#[trigger] old(self).compressed_data@[k]) < old(self)@.tokens.len(),
        ensures
            final(self).dictionary == old(self).dictionary,
            final(self).token_boundaries == old(self).token_boundaries,
            final(self).string_boundaries == old(self).string_boundaries,
            old(self).compressed_data@.len() <= final(self).compressed_data@.len(),
            final(self).compressed_data@.take(old(self).compressed_data@.len() as int) == old(self).compressed_data@,
            string_ok(
                final(self)@.tokens,
                final(self).compressed_data@.skip(old(self).compressed_data@.len() as int),
                data@.subrange(start as int, end as int),
            ),
            final(self).compressed_data@.skip(old(self).compressed_data@.len() as int) == parse(
                parser@,
                data@.subrange(start as int, end as int),
            ),
            forall|k: int|
                0 <= k < final(self).compressed_data@.len() ==> (#[trigger] final(self).compressed_data@[k]) < final(self)@.tokens.len(),
    {
        let ghost base = self.compressed_data@.len() as int;
        let ghost before = self.compressed_data@;
        let ghost tokens = self@.tokens;
        let mut pos: usize = start;
        let ghost s = data@.subrange(start as int, end as int);
        proof {
            assert(self.compressed_data@.skip(base) =~= Seq::<u16>::empty());
            assert(data@.subrange(start as int, start as int) =~= Seq::<u8>::empty());
            assert(s.skip(0) =~= s);
            assert(Seq::<u16>::empty() + parse(parser@, s) =~= parse(parser@, s));
        }
        while pos < end
            invariant
                start <= pos <= end <= data@.len(),
                parser.wf(),
                learned(parser@, tokens),
                self.dictionary == old(self).dictionary,
                self.token_boundaries == old(self).token_boundaries,
                self.string_boundaries == old(self).string_boundaries,
                self@.tokens == tokens,
                base == before.len(),
                base <= self.compressed_data@.len(),
                self.compressed_data@.take(base) == before,
                expand(tokens, self.compressed_data@.skip(base)) == data@.subrange(
                    start as int,
                    pos as int,
                ),
                self.compressed_data@.len() - base <= pos - start,
                pos > start ==> self.compressed_data@.len() - base >= 1,
                s == data@.subrange(start as int, end as int),
                self.compressed_data@.skip(base) + parse(parser@, s.skip(pos - start)) == parse(
                    parser@,
                    s,
                ),
                forall|k: int|
                    0 <= k < self.compressed_data@.len() ==> (#[trigger] self.compressed_data@[k])
                        < tokens.len(),
            decreases end - pos,
        {
            let ghost rest = data@.subrange(pos as int, end as int);
            let ghost ids = self.compressed_data@.skip(base);
            proof {
                lemma_learned_match(parser@, tokens, rest);
                assert(s.skip(pos - start) =~= rest);
                lemma_parse_step(parser@, s, ids, (pos - start) as nat);
            }
            let found = parser.find_longest_match(slice_subrange(data, pos, end)).unwrap();
            let token_id: u16 = found.0;
            let length: usize = found.1;
            self.compressed_data.push(token_id);
            proof {
                assert(self.compressed_data@.skip(base) =~= ids.push(token_id));
                assert(self.compressed_data@.take(base) =~= before);
                lemma_expand_push(tokens, ids, token_id);
                assert(rest.take(length as int) =~= data@.subrange(pos as int, pos + length));
                assert(data@.subrange(start as int, pos as int) + data@.subrange(
                    pos as int,
                    pos + length,
                ) =~= data@.subrange(start as int, pos + length));
            }
            pos += length;
        }
        proof {
            assert(s.skip(end - start) =~= Seq::<u8>::empty());
            assert(self.compressed_data@.skip(base) + Seq::<u16>::empty()
                =~= self.compressed_data@.skip(base));
        }
    }

    /// Cuts every string into the longest tokens that match and keeps the
    /// ids.
    fn parse_data(&mut self, data: &[u8], end_positions: &[usize], parser: &LongestPrefixMatcher<u16>)
        requires
            old(self).store_ok(),
            old(self).compressed_data@.len() == 0,
            old(self).string_boundaries@.len() == 0,
            parser.wf(),
            learned(parser@, old(self)@.tokens),
            spans_ok(data@, end_positions@),
        ensures
            final(self).wf(),
            final(self)@.tokens == old(self)@.tokens,
            final(self)@.holds(spans(data@, end_positions@)),
            final(self)@.strings == parse_all(parser@, spans(data@, end_positions@)),
    {
        let ghost tokens = self@.tokens;
        let ghost inputs = spans(data@, end_positions@);
        self.string_boundaries.push(0);
        proof {
            assert(self@.strings =~= Seq::<Seq<u16>>::empty());
        }
        let mut w: usize = 0;
        let count: usize = end_positions.len();
        while w + 1 < count
            invariant
                count == end_positions@.len(),
                w + 1 <= end_positions@.len(),
                spans_ok(data@, end_positions@),
                inputs == spans(data@, end_positions@),
                parser.wf(),
                learned(parser@, tokens),
                self.dictionary == old(self).dictionary,
                self.token_boundaries == old(self).token_boundaries,
                self.store_ok(),
                self@.tokens == tokens,
                bounds_ok(self.compressed_data@.len(), ints(self.string_boundaries@)),
                self.string_boundaries@.len() == w + 1,
                self@.strings.len() == w,
                forall|i: int|
                    0 <= i < w ==> string_ok(tokens, #[trigger] self@.strings[i], inputs[i])
                        && self@.strings[i] == parse(parser@, inputs[i]),
                forall|k: int|
                    0 <= k < self.compressed_data@.len() ==> (#[trigger] self.compressed_data@[k])
                        < tokens.len(),
            decreases end_positions@.len() - w,
        {
            proof {
                let ends = ints(end_positions@);
                assert(ends[w as int] <= ends[w + 1] <= ends[ends.len() - 1]);
            }
            let start = end_positions[w];
            let end = end_positions[w + 1];
            let ghost before = self.compressed_data@;
            let ghost bounds = self.string_boundaries@;
            let ghost strings = self@.strings;
            self.parse_string(data, start, end, parser);
            let ghost ids = self.compressed_data@.skip(before.len() as int);
            proof {
                assert(self.compressed_data@ =~= before + ids);
                lemma_pieces_push(before, ints(bounds), ids);
                lemma_ints_push(bounds, self.compressed_data@.len() as usize);
                assert(inputs[w as int] == data@.subrange(start as int, end as int));
            }
            self.string_boundaries.push(self.compressed_data.len());
            proof {
                assert(self@.strings == strings.push(ids));
                assert forall|i: int| 0 <= i < w + 1 implies string_ok(
                    tokens,
                    #[trigger] self@.strings[i],
                    inputs[i],
                ) && self@.strings[i] == parse(parser@, inputs[i]) by {
                    if i < w {
                        assert(self@.strings[i] == strings[i]);
                    }
                }
            }
            w += 1;
        }
        proof {
            assert(self@.strings.len() == inputs.len());
            assert(self@.strings =~= parse_all(parser@, inputs));
        }
    }

    /// Writes the bytes that the ids `from..to` of the compressed data stand
    /// for to the beginning of the buffer, and says how many they are.
    fn decode_range(&self, from: usize, to: usize, buffer: &mut [u8]) -> (n: usize)
        requires
            self.wf(),
            from <= to <= self.compressed_data@.len(),
            expand(self@.tokens, self.compressed_data@.subrange(from as int, to as int)).len()
                <= old(buffer)@.len(),
        ensures
            n == expand(self@.tokens, self.compressed_data@.subrange(from as int, to as int)).len(),
            final(buffer)@.len() == old(buffer)@.len(),
            final(buffer)@.take(n as int) == expand(
                self@.tokens,
                self.compressed_data@.subrange(from as int, to as int),
            ),
            final(buffer)@.skip(n as int) == old(buffer)@.skip(n as int),
    {
        let ghost tokens = self@.tokens;
        let ghost ids = self.compressed_data@.subrange(from as int, to as int);
        let ghost before = buffer@;
        let capacity: usize = buffer.len();
        let mut size: usize = 0;
        let mut k: usize = from;
        proof {
            assert(ids.take(0) =~= Seq::<u16>::empty());
            assert(buffer@.take(0) =~= Seq::<u8>::empty());
        }
        while k < to
            invariant
                self.wf(),
                from <= k <= to <= self.compressed_data@.len(),
                tokens == self@.tokens,
                ids == self.compressed_data@.subrange(from as int, to as int),
                expand(tokens, ids).len() <= before.len(),
                before.len() == capacity,
                buffer@.len() == before.len(),
                size == expand(tokens, ids.take(k - from)).len(),
                buffer@.take(size as int) == expand(tokens, ids.take(k - from)),
                buffer@.skip(size as int) == before.skip(size as int),
            decreases to - k,
        {
            let token_id = self.compressed_data[k];
            proof {
                assert(token_id < tokens.len());
                let bounds = ints(self.token_boundaries@);
                assert(0 <= bounds[token_id as int] <= bounds[token_id + 1] <= bounds[bounds.len()
                    - 1]);
                assert(tokens[token_id as int] == self.dictionary@.subrange(
                    bounds[token_id as int],
                    bounds[token_id + 1],
                ));
                lemma_expand_take(tokens, ids, k + 1 - from);
                assert(ids.take(k + 1 - from) =~= ids.take(k - from).push(token_id));
                lemma_expand_push(tokens, ids.take(k - from), token_id);
            }
            let dict_start = self.token_boundaries[token_id as usize] as usize;
            let dict_end = self.token_boundaries[token_id as usize + 1] as usize;
            let length = dict_end - dict_start;
            let ghost prior = buffer@;
            copy_token(&self.dictionary, dict_start, dict_end, buffer, size);
            proof {
                assert(buffer@.take(size + length) =~= prior.take(size as int) + buffer@.subrange(
                    size as int,
                    size + length,
                ));
                assert(before.skip(size + length) =~= before.skip(size as int).skip(length as int));
                assert(prior.skip(size + length) =~= prior.skip(size as int).skip(length as int));
            }
            size += length;
            k += 1;
        }
        proof {
            assert(ids.take(to - from) =~= ids);
        }
        size
    }

    /// Writes the bytes of the string `index` to the beginning of the buffer
    /// and says how many they are. The rest of the buffer stays as it is.
    pub fn decompress_string(&self, index: usize, buffer: &mut [u8]) -> (n: usize)
        requires
            self.wf(),
            index < self@.len(),
            self@.string(index as int).len() <= old(buffer)@.len(),
        ensures
            n == self@.string(index as int).len(),
            final(buffer)@.len() == old(buffer)@.len(),
            final(buffer)@.take(n as int) == self@.string(index as int),
            final(buffer)@.skip(n as int) == old(buffer)@.skip(n as int),
    {
        proof {
            let bounds = ints(self.string_boundaries@);
            assert(0 <= bounds[index as int] <= bounds[index + 1] <= bounds[bounds.len() - 1]);
        }
        proof {
            assert(self.string_boundaries@.len() == self.string_boundaries.len());
        }
        let item_start = self.string_boundaries[index];
        let item_end = self.string_boundaries[index + 1];
        self.decode_range(item_start, item_end, buffer)
    }

    /// Writes all strings, end to end, to the beginning of the buffer and
    /// says how many bytes they are. The rest of the buffer stays as it is.
    pub fn decompress_all(&self, buffer: &mut [u8]) -> (n: usize)
        requires
            self.wf(),
            self@.all().len() <= old(buffer)@.len(),
        ensures
            n == self@.all().len(),
            final(buffer)@.len() == old(buffer)@.len(),
            final(buffer)@.take(n as int) == self@.all(),
            final(buffer)@.skip(n as int) == old(buffer)@.skip(n as int),
    {
        let total = self.compressed_data.len();
        proof {
            let ids = self.compressed_data@;
            assert(ids.subrange(0, total as int) =~= ids);
            if self.string_boundaries@.len() > 0 {
                let bounds = ints(self.string_boundaries@);
                lemma_concat_strings(self@.tokens, ids, bounds, (bounds.len() - 1) as nat);
                assert(ids.take(total as int) =~= ids);
            }
        }
        self.decode_range(0, total, buffer)
    }

    /// The bytes that the collection takes: two for each id, one for each
    /// byte of a token and the size of a `usize` for each boundary of the
    /// tokens; `usize::MAX` where that is more than a `usize` holds.
    pub fn space_used(&self) -> (n: usize)
        requires
            self.wf(),
        ensures
            n == (if self@.space(vstd::layout::size_of::<usize>()) <= usize::MAX {
                self@.space(vstd::layout::size_of::<usize>())
            } else {
                usize::MAX as nat
            }),
            n <= self@.space(vstd::layout::size_of::<usize>()),
    {
        broadcast use vstd::layout::layout_of_primitives;

        proof {
            if self.token_boundaries@.len() > 0 {
                lemma_total_len_pieces(self.dictionary@, ints(self.token_boundaries@));
                lemma_total_len_pieces(self.compressed_data@, ints(self.string_boundaries@));
            } else {
                assert(self@.tokens =~= Seq::<Seq<u8>>::empty());
                assert(self@.strings =~= Seq::<Seq<u16>>::empty());
            }
        }
        let ids = self.compressed_data.len();
        let per: usize = core::mem::size_of::<usize>();
        let count: usize = self.token_boundaries.len();
        proof {
            assert(usize::BITS == 32 || usize::BITS == 64);
            assert(per == 4 || per == 8);
            assert(count <= MAX_TOKENS + 1);
            assert(count * per <= 8 * (MAX_TOKENS + 1)) by (nonlinear_arith)
                requires
                    count <= MAX_TOKENS + 1,
                    per <= 8,
            ;
            assert(count * per == (per as nat) * (count as nat)) by (nonlinear_arith);
            if count > 0 {
                assert(self@.tokens.len() + 1 == count);
            }
        }
        let table: usize = count * per;
        let bytes = self.dictionary.len();
        if bytes > usize::MAX - table {
            return usize::MAX;
        }
        let fixed: usize = bytes + table;
        if ids > (usize::MAX - fixed) / 2 {
            usize::MAX
        } else {
            ids * 2 + fixed
        }
    }

    /// The end positions of the tokens in the arena, after the 0 they begin
    /// with.
    pub closed spec fn token_ends(&self) -> Seq<int> {
        ints(self.token_boundaries@)
    }

    /// The end positions of the strings in the compressed data, after the 0
    /// they begin with.
    pub closed spec fn string_ends(&self) -> Seq<int> {
        ints(self.string_boundaries@)
    }

    /// Once a collection is held, both tables of boundaries begin with 0 and
    /// never decrease; there is one boundary more than tokens, or strings.
    /// Two boundaries that follow each other are as far apart as the token,
    /// or the string, between them is long, so the boundaries of the tokens
    /// increase; the last boundary is the length of all tokens, or of all
    /// ids, together.
    pub proof fn lemma_boundaries(&self)
        requires
            self.wf(),
            self@.tokens.len() > 0,
        ensures
            self.token_ends().len() == self@.tokens.len() + 1,
            257 <= self.token_ends().len() <= 65537,
            self.string_ends().len() == self@.len() + 1,
            self.token_ends()[0] == 0,
            self.string_ends()[0] == 0,
            forall|i: int, j: int|
                0 <= i <= j < self.token_ends().len() ==> self.token_ends()[i]
                    <= self.token_ends()[j],
            forall|i: int, j: int|
                0 <= i <= j < self.string_ends().len() ==> self.string_ends()[i]
                    <= self.string_ends()[j],
            forall|i: int|
                0 <= i < self@.tokens.len() ==> self.token_ends()[i + 1] - self.token_ends()[i] == (
                #[trigger] self@.tokens[i]).len() && self.token_ends()[i] < self.token_ends()[i
                    + 1],
            forall|i: int|
                0 <= i < self@.strings.len() ==> self.string_ends()[i + 1] - self.string_ends()[i]
                    == (#[trigger] self@.strings[i]).len(),
            self.token_ends()[self.token_ends().len() - 1] == total_len(self@.tokens),
            self.string_ends()[self.string_ends().len() - 1] == total_len(self@.strings),
    {
        let token_ends = ints(self.token_boundaries@);
        let string_ends = ints(self.string_boundaries@);
        assert forall|i: int| 0 <= i < self@.tokens.len() implies token_ends[i + 1] - token_ends[i]
            == (#[trigger] self@.tokens[i]).len() && token_ends[i] < token_ends[i + 1] by {
            assert(0 <= token_ends[i] <= token_ends[i + 1] <= token_ends[token_ends.len() - 1]);
            assert(self@.tokens[i].len() >= 1);
        }
        assert forall|i: int| 0 <= i < self@.strings.len() implies string_ends[i + 1]
            - string_ends[i] == (#[trigger] self@.strings[i]).len() by {
            assert(0 <= string_ends[i] <= string_ends[i + 1] <= string_ends[string_ends.len()
                - 1]);
        }
        lemma_total_len_pieces(self.dictionary@, token_ends);
        lemma_total_len_pieces(self.compressed_data@, string_ends);
    }

    /// Once a collection is held, the tokens are as a dictionary should be
    /// and every id of every string is the id of a token.
    pub proof fn lemma_collection(&self)
        requires
            self.wf(),
            self@.tokens.len() > 0,
        ensures
            self@.dictionary_ok(),
            self@.ids_in_range(),
    {
        let bounds = ints(self.string_boundaries@);
        assert forall|i: int, k: int|
            0 <= i < self@.strings.len() && 0 <= k < self@.strings[i].len() implies (
        #[trigger] self@.strings[i][k]) < self@.tokens.len() by {
            assert(0 <= bounds[i] <= bounds[i + 1] <= bounds[bounds.len() - 1]);
            assert(self@.strings[i][k] == self.compressed_data@[bounds[i] + k]);
        }
    }

    /// The number of bytes of the string `index`; `usize::MAX` where that is
    /// more than a `usize` holds.
    pub fn decoded_len(&self, index: usize) -> (n: usize)
        requires
            self.wf(),
            index < self@.len(),
        ensures
            n == (if self@.string(index as int).len() <= usize::MAX {
                self@.string(index as int).len()
            } else {
                usize::MAX as nat
            }),
    {
        proof {
            let bounds = ints(self.string_boundaries@);
            assert(0 <= bounds[index as int] <= bounds[index + 1] <= bounds[bounds.len() - 1]);
        }
        proof {
            assert(self.string_boundaries@.len() == self.string_boundaries.len());
        }
        let from = self.string_boundaries[index];
        let to = self.string_boundaries[index + 1];
        let ghost tokens = self@.tokens;
        let ghost ids = self.compressed_data@.subrange(from as int, to as int);
        let mut n: usize = 0;
        let mut k: usize = from;
        proof {
            assert(ids.take(0) =~= Seq::<u16>::empty());
        }
        while k < to
            invariant
                self.wf(),
                from <= k <= to <= self.compressed_data@.len(),
                tokens == self@.tokens,
                ids == self.compressed_data@.subrange(from as int, to as int),
                self@.string(index as int) == expand(tokens, ids),
                n == expand(tokens, ids.take(k - from)).len(),
            decreases to - k,
        {
            let token_id = self.compressed_data[k];
            proof {
                assert(token_id < tokens.len());
                let bounds = ints(self.token_boundaries@);
                assert(0 <= bounds[token_id as int] <= bounds[token_id + 1] <= bounds[bounds.len()
                    - 1]);
                assert(tokens[token_id as int] == self.dictionary@.subrange(
                    bounds[token_id as int],
                    bounds[token_id + 1],
                ));
                lemma_expand_take(tokens, ids, k + 1 - from);
                assert(ids.take(k + 1 - from) =~= ids.take(k - from).push(token_id));
                lemma_expand_push(tokens, ids.take(k - from), token_id);
            }
            let dict_start = self.token_boundaries[token_id as usize] as usize;
            let dict_end = self.token_boundaries[token_id as usize + 1] as usize;
            let length = dict_end - dict_start;
            if length > usize::MAX - n {
                return usize::MAX;
            }
            n += length;
            k += 1;
        }
        proof {
            assert(ids.take(to - from) =~= ids);
        }
        n
    }

    /// The number of strings that the compressor holds.
    pub fn num_strings(&self) -> (n: usize)
        requires
            self.wf(),
        ensures
            n == self@.len(),
    {
        let count = self.string_boundaries.len();
        if count == 0 {
            0
        } else {
            count - 1
        }
    }

    /// The number of tokens.
    pub fn num_tokens(&self) -> (n: usize)
        requires
            self.wf(),
        ensures
            n == self@.tokens.len(),
    {
        let count = self.token_boundaries.len();
        if count == 0 {
            0
        } else {
            count - 1
        }
    }

    /// The ids of the tokens that spell the string `index`.
    pub fn token_ids(&self, index: usize) -> (ids: Vec<u16>)
        requires
            self.wf(),
            index < self@.len(),
        ensures
            ids@ == self@.strings[index as int],
    {
        proof {
            let bounds = ints(self.string_boundaries@);
            assert(0 <= bounds[index as int] <= bounds[index + 1] <= bounds[bounds.len() - 1]);
        }
        proof {
            assert(self.string_boundaries@.len() == self.string_boundaries.len());
        }
        let from = self.string_boundaries[index];
        let to = self.string_boundaries[index + 1];
        vstd::slice::slice_to_vec(slice_subrange(self.compressed_data.as_slice(), from, to))
    }

    /// The bytes of the token `id`.
    pub fn token(&self, id: u16) -> (bytes: Vec<u8>)
        requires
            self.wf(),
            id < self@.tokens.len(),
        ensures
            bytes@ == self@.tokens[id as int],
    {
        proof {
            let bounds = ints(self.token_boundaries@);
            assert(0 <= bounds[id as int] <= bounds[id + 1] <= bounds[bounds.len() - 1]);
        }
        proof {
            assert(self.token_boundaries@.len() == self.token_boundaries.len());
        }
        let from = self.token_boundaries[id as usize] as usize;
        let to = self.token_boundaries[id as usize + 1] as usize;
        vstd::slice::slice_to_vec(slice_subrange(self.dictionary.as_slice(), from, to))
    }

    /// Gives back the room that the buffers hold beyond their contents.
    pub fn shrink_to_fit(&mut self)
        requires
            old(self).wf(),
        ensures
            final(self).wf(),
            final(self)@ == old(self)@,
    {
        shrink(&mut self.compressed_data);
        shrink(&mut self.string_boundaries);
        shrink(&mut self.dictionary);
        shrink(&mut self.token_boundaries);
    }
}

} // verus!
