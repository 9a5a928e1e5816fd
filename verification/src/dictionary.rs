//! The model of a compressed collection: a list of tokens and, for every
//! string, the ids of the tokens that spell it.
//!
//! Both compressors store their tokens end to end in one byte arena and their
//! strings end to end in one array of ids; a table of boundaries says where
//! each token, or string, ends. The functions here read such arrays as lists.

use vstd::prelude::*;

verus! {

/// The greatest number of tokens.
pub const MAX_TOKENS: usize = 65536;

/// A compressed collection, as its users see it.
pub struct Compressed {
    /// The tokens; the id of a token is its index.
    pub tokens: Seq<Seq<u8>>,
    /// For every string, the ids of the tokens that spell it.
    pub strings: Seq<Seq<u16>>,
}

/// The bytes that a sequence of ids stands for: the tokens, end to end.
pub open spec fn expand(tokens: Seq<Seq<u8>>, ids: Seq<u16>) -> Seq<u8>
    decreases ids.len(),
{
    if ids.len() == 0 {
        Seq::empty()
    } else {
        expand(tokens, ids.drop_last()) + tokens[ids.last() as int]
    }
}

/// The first `n` strings of a collection, end to end.
pub open spec fn concat_strings(tokens: Seq<Seq<u8>>, strings: Seq<Seq<u16>>, n: nat) -> Seq<u8>
    decreases n,
{
    if n == 0 {
        Seq::empty()
    } else {
        concat_strings(tokens, strings, (n - 1) as nat) + expand(tokens, strings[n - 1])
    }
}

/// The first `n` byte strings of a list, end to end.
pub open spec fn join(parts: Seq<Seq<u8>>, n: nat) -> Seq<u8>
    decreases n,
{
    if n == 0 {
        Seq::empty()
    } else {
        join(parts, (n - 1) as nat) + parts[n - 1]
    }
}

/// The ids spell the string: they stand for its bytes, each is the id of a
/// token, and there are no more ids than bytes, and at least one where the
/// string is not empty.
pub open spec fn string_ok(tokens: Seq<Seq<u8>>, ids: Seq<u16>, input: Seq<u8>) -> bool {
    &&& expand(tokens, ids) == input
    &&& forall|k: int| 0 <= k < ids.len() ==> (#[trigger] ids[k]) < tokens.len()
    &&& ids.len() <= input.len()
    &&& input.len() > 0 ==> ids.len() >= 1
}

/// The number of items in all pieces together.
pub open spec fn total_len<T>(parts: Seq<Seq<T>>) -> nat
    decreases parts.len(),
{
    if parts.len() == 0 {
        0
    } else {
        total_len(parts.drop_last()) + parts.last().len()
    }
}

impl Compressed {
    /// The collection holds exactly the strings `inputs`, in their order.
    pub open spec fn holds(self, inputs: Seq<Seq<u8>>) -> bool {
        &&& self.dictionary_ok()
        &&& self.strings.len() == inputs.len()
        &&& forall|i: int|
            0 <= i < self.strings.len() ==> string_ok(
                self.tokens,
                #[trigger] self.strings[i],
                inputs[i],
            )
    }

    /// The bytes that the collection takes: two for each id, one for each
    /// byte of a token, and `boundary_size` for each boundary of the tokens,
    /// of which there is one more than tokens.
    pub open spec fn space(self, boundary_size: nat) -> nat {
        2 * total_len(self.strings) + total_len(self.tokens) + (if self.tokens.len() == 0 {
            0
        } else {
            boundary_size * (self.tokens.len() + 1)
        })
    }

    /// The number of strings.
    pub open spec fn len(self) -> nat {
        self.strings.len()
    }

    /// The bytes of the string `i`.
    pub open spec fn string(self, i: int) -> Seq<u8> {
        expand(self.tokens, self.strings[i])
    }

    /// All strings, end to end.
    pub open spec fn all(self) -> Seq<u8> {
        concat_strings(self.tokens, self.strings, self.strings.len())
    }

    /// Every id of every string is the id of a token.
    pub open spec fn ids_in_range(self) -> bool {
        forall|i: int, k: int|
            0 <= i < self.strings.len() && 0 <= k < self.strings[i].len()
                ==> (#[trigger] self.strings[i][k]) < self.tokens.len()
    }

    /// There are between 256 and 65 536 tokens, none of them empty, and the
    /// token with the id `b` below 256 is the single byte `b`.
    pub open spec fn dictionary_ok(self) -> bool {
        &&& 256 <= self.tokens.len() <= MAX_TOKENS
        &&& forall|b: int| 0 <= b < 256 ==> #[trigger] self.tokens[b] == seq![b as u8]
        &&& forall|i: int| 0 <= i < self.tokens.len() ==> (#[trigger] self.tokens[i]).len() >= 1
    }

    /// No token is longer than `max` bytes.
    pub open spec fn tokens_within(self, max: nat) -> bool {
        forall|i: int| 0 <= i < self.tokens.len() ==> (#[trigger] self.tokens[i]).len() <= max
    }
}

/// A table of boundaries for an array of `total` items: it begins with 0,
/// never decreases, and ends with `total`.
pub open spec fn bounds_ok(total: nat, bounds: Seq<int>) -> bool {
    &&& bounds.len() >= 1
    &&& bounds[0] == 0
    &&& bounds[bounds.len() - 1] == total
    &&& forall|i: int, j: int| 0 <= i <= j < bounds.len() ==> bounds[i] <= bounds[j]
}

/// The pieces into which a table of boundaries cuts an array.
pub open spec fn pieces<T>(items: Seq<T>, bounds: Seq<int>) -> Seq<Seq<T>> {
    if bounds.len() == 0 {
        Seq::empty()
    } else {
        Seq::new((bounds.len() - 1) as nat, |i: int| items.subrange(bounds[i], bounds[i + 1]))
    }
}

/// What ties a matcher to a list of tokens during and after training: all
/// single bytes are keys, and every key is the token of its id.
pub open spec fn learned(keys: Map<Seq<u8>, u16>, tokens: Seq<Seq<u8>>) -> bool {
    &&& 256 <= tokens.len() <= MAX_TOKENS
    &&& forall|b: u8| #![trigger keys.contains_key(seq![b])] keys.contains_key(seq![b])
    &&& forall|b: int| 0 <= b < 256 ==> #[trigger] tokens[b] == seq![b as u8]
    &&& forall|i: int| 0 <= i < tokens.len() ==> (#[trigger] tokens[i]).len() >= 1
    &&& forall|s: Seq<u8>| #[trigger]
        keys.contains_key(s) ==> keys[s] < tokens.len() && tokens[keys[s] as int] == s
}

/// Adding one piece to the end of an array adds it to the list of pieces.
pub proof fn lemma_pieces_push<T>(items: Seq<T>, bounds: Seq<int>, piece: Seq<T>)
    requires
        bounds_ok(items.len(), bounds),
    ensures
        bounds_ok((items + piece).len(), bounds.push((items.len() + piece.len()) as int)),
        pieces(items + piece, bounds.push((items.len() + piece.len()) as int)) == pieces(
            items,
            bounds,
        ).push(piece),
{
    let items2 = items + piece;
    let bounds2 = bounds.push((items.len() + piece.len()) as int);
    assert forall|i: int, j: int| 0 <= i <= j < bounds2.len() implies bounds2[i] <= bounds2[j] by {
        if j < bounds.len() {
        } else if i < bounds.len() {
            assert(bounds[i] <= bounds[bounds.len() - 1]);
        }
    }
    assert forall|i: int| 0 <= i < bounds.len() - 1 implies #[trigger] pieces(items2, bounds2)[i]
        == pieces(items, bounds)[i] by {
        assert(0 <= bounds[i] <= bounds[i + 1] <= bounds[bounds.len() - 1]);
        assert(items2.subrange(bounds2[i], bounds2[i + 1]) =~= items.subrange(
            bounds[i],
            bounds[i + 1],
        ));
    }
    assert(items2.subrange(bounds2[bounds.len() - 1], bounds2[bounds.len() as int]) =~= piece);
    assert(pieces(items2, bounds2) =~= pieces(items, bounds).push(piece));
}

/// The pieces of an array hold all its items.
pub proof fn lemma_total_len_pieces<T>(items: Seq<T>, bounds: Seq<int>)
    requires
        bounds_ok(items.len(), bounds),
    ensures
        total_len(pieces(items, bounds)) == items.len(),
    decreases bounds.len(),
{
    let parts = pieces(items, bounds);
    if bounds.len() > 1 {
        let n = bounds.len() - 1;
        let cut = bounds[n - 1];
        assert(0 <= cut <= bounds[n]);
        let items1 = items.take(cut);
        let bounds1 = bounds.drop_last();
        assert(bounds_ok(items1.len(), bounds1));
        lemma_total_len_pieces(items1, bounds1);
        assert forall|i: int| 0 <= i < n - 1 implies #[trigger] pieces(items1, bounds1)[i]
            == parts[i] by {
            assert(0 <= bounds[i] <= bounds[i + 1] <= bounds[n - 1]);
            assert(items1.subrange(bounds1[i], bounds1[i + 1]) =~= items.subrange(
                bounds[i],
                bounds[i + 1],
            ));
        }
        assert(parts.drop_last() =~= pieces(items1, bounds1));
        assert(parts.last().len() == items.len() - cut);
    } else {
        assert(parts.len() == 0);
    }
}

/// One more id adds its token to the bytes.
pub proof fn lemma_expand_push(tokens: Seq<Seq<u8>>, ids: Seq<u16>, id: u16)
    ensures
        expand(tokens, ids.push(id)) == expand(tokens, ids) + tokens[id as int],
{
    assert(ids.push(id).drop_last() =~= ids);
}

/// The bytes of two sequences of ids, end to end, are the bytes of the
/// sequences end to end.
pub proof fn lemma_expand_append(tokens: Seq<Seq<u8>>, a: Seq<u16>, b: Seq<u16>)
    ensures
        expand(tokens, a + b) == expand(tokens, a) + expand(tokens, b),
    decreases b.len(),
{
    if b.len() == 0 {
        assert(a + b =~= a);
        assert(expand(tokens, a) + expand(tokens, b) =~= expand(tokens, a));
    } else {
        lemma_expand_append(tokens, a, b.drop_last());
        assert((a + b).drop_last() =~= a + b.drop_last());
        assert(expand(tokens, a + b) =~= expand(tokens, a) + expand(tokens, b));
    }
}

/// With no empty token, ids stand for at least as many bytes as there are
/// ids.
pub proof fn lemma_expand_len(tokens: Seq<Seq<u8>>, ids: Seq<u16>)
    requires
        forall|i: int| 0 <= i < tokens.len() ==> (#[trigger] tokens[i]).len() >= 1,
        forall|k: int| 0 <= k < ids.len() ==> (#[trigger] ids[k]) < tokens.len(),
    ensures
        expand(tokens, ids).len() >= ids.len(),
    decreases ids.len(),
{
    if ids.len() > 0 {
        lemma_expand_len(tokens, ids.drop_last());
        assert(ids[ids.len() - 1] < tokens.len());
    }
}

/// The first ids of a sequence stand for the first bytes of what the whole
/// sequence stands for.
pub proof fn lemma_expand_take(tokens: Seq<Seq<u8>>, ids: Seq<u16>, k: int)
    requires
        0 <= k <= ids.len(),
    ensures
        expand(tokens, ids.take(k)).len() <= expand(tokens, ids).len(),
        expand(tokens, ids).take(expand(tokens, ids.take(k)).len() as int) == expand(
            tokens,
            ids.take(k),
        ),
{
    lemma_expand_append(tokens, ids.take(k), ids.skip(k));
    assert(ids.take(k) + ids.skip(k) =~= ids);
    assert((expand(tokens, ids.take(k)) + expand(tokens, ids.skip(k))).take(
        expand(tokens, ids.take(k)).len() as int,
    ) =~= expand(tokens, ids.take(k)));
}

/// Putting a new key in under the id of a new token keeps matcher and tokens
/// tied.
pub proof fn lemma_learned_insert(
    keys: Map<Seq<u8>, u16>,
    tokens: Seq<Seq<u8>>,
    key: Seq<u8>,
)
    requires
        learned(keys, tokens),
        tokens.len() < MAX_TOKENS,
        key.len() >= 1,
    ensures
        learned(keys.insert(key, tokens.len() as u16), tokens.push(key)),
{
    let id = tokens.len() as u16;
    let keys2 = keys.insert(key, id);
    let tokens2 = tokens.push(key);
    assert forall|b: u8| #![trigger keys2.contains_key(seq![b])] keys2.contains_key(seq![b]) by {
        assert(keys.contains_key(seq![b]));
    }
    assert forall|b: int| 0 <= b < 256 implies #[trigger] tokens2[b] == seq![b as u8] by {
        assert(tokens[b] == seq![b as u8]);
    }
    assert forall|i: int| 0 <= i < tokens2.len() implies (#[trigger] tokens2[i]).len() >= 1 by {
        if i < tokens.len() {
            assert(tokens[i].len() >= 1);
        }
    }
    assert forall|s: Seq<u8>| #[trigger] keys2.contains_key(s) implies keys2[s] < tokens2.len()
        && tokens2[keys2[s] as int] == s by {
        if s != key {
            assert(keys.contains_key(s));
        }
    }
}

/// With all single bytes among the keys, every non-empty data has a match,
/// and the match is the token of its id.
pub proof fn lemma_learned_match(keys: Map<Seq<u8>, u16>, tokens: Seq<Seq<u8>>, data: Seq<u8>)
    requires
        learned(keys, tokens),
        data.len() > 0,
        data.len() <= usize::MAX,
    ensures
        match crate::matching::longest_match(keys, data) {
            Some((id, len)) => 1 <= len <= data.len() && id < tokens.len() && tokens[id as int]
                == data.take(len as int),
            None => false,
        },
{
    assert(keys.contains_key(seq![data[0]]));
    crate::matching::lemma_first_byte_matches(keys, data);
    crate::matching::lemma_longest_match_len(keys, data, data.len());
}

/// The strings of a collection, end to end, are what all its ids stand for.
pub proof fn lemma_concat_strings(
    tokens: Seq<Seq<u8>>,
    ids: Seq<u16>,
    bounds: Seq<int>,
    n: nat,
)
    requires
        bounds_ok(ids.len(), bounds),
        n < bounds.len(),
    ensures
        concat_strings(tokens, pieces(ids, bounds), n) == expand(tokens, ids.take(bounds[n as int])),
    decreases n,
{
    if n == 0 {
        assert(ids.take(0) =~= Seq::<u16>::empty());
    } else {
        lemma_concat_strings(tokens, ids, bounds, (n - 1) as nat);
        let a = bounds[n - 1];
        let b = bounds[n as int];
        assert(0 <= a <= b <= bounds[bounds.len() - 1]);
        assert(ids.take(b) =~= ids.take(a) + ids.subrange(a, b));
        lemma_expand_append(tokens, ids.take(a), ids.subrange(a, b));
    }
}

/// The strings of a collection that holds `inputs`, end to end, are the
/// inputs end to end.
pub proof fn lemma_concat_is_join(v: Compressed, inputs: Seq<Seq<u8>>, n: nat)
    requires
        v.holds(inputs),
        n <= inputs.len(),
    ensures
        concat_strings(v.tokens, v.strings, n) == join(inputs, n),
    decreases n,
{
    if n > 0 {
        lemma_concat_is_join(v, inputs, (n - 1) as nat);
        assert(string_ok(v.tokens, v.strings[n - 1], inputs[n - 1]));
    }
}

/// Decoding gives back what was compressed: a collection that holds
/// `inputs` has as many strings, its string `i` is `inputs[i]`, all its
/// strings end to end are the inputs end to end, and every id in it is the
/// id of a token.
pub proof fn lemma_round_trip(v: Compressed, inputs: Seq<Seq<u8>>)
    requires
        v.holds(inputs),
    ensures
        v.len() == inputs.len(),
        forall|i: int| 0 <= i < inputs.len() ==> #[trigger] v.string(i) == inputs[i],
        v.all() == join(inputs, inputs.len()),
        v.ids_in_range(),
{
    assert forall|i: int| 0 <= i < inputs.len() implies #[trigger] v.string(i)
        == inputs[i] by {
        assert(string_ok(v.tokens, v.strings[i], inputs[i]));
    }
    lemma_concat_is_join(v, inputs, inputs.len());
    assert forall|i: int, k: int|
        0 <= i < v.strings.len() && 0 <= k < v.strings[i].len() implies (
    #[trigger] v.strings[i][k]) < v.tokens.len() by {
        assert(string_ok(v.tokens, v.strings[i], inputs[i]));
    }
}

/// A string of `n` bytes takes at least one id, where `n` is not 0, and at
/// most `n` ids.
pub proof fn lemma_token_count(v: Compressed, inputs: Seq<Seq<u8>>, i: int)
    requires
        v.holds(inputs),
        0 <= i < inputs.len(),
    ensures
        v.strings[i].len() <= inputs[i].len(),
        inputs[i].len() > 0 ==> v.strings[i].len() >= 1,
        inputs[i].len() == 0 ==> v.strings[i].len() == 0,
{
    assert(string_ok(v.tokens, v.strings[i], inputs[i]));
}

/// The pieces of an array, end to end, are the array up to the last
/// boundary that was reached.
pub proof fn lemma_join_pieces(data: Seq<u8>, bounds: Seq<int>, n: nat)
    requires
        bounds_ok(data.len(), bounds),
        n < bounds.len(),
    ensures
        join(pieces(data, bounds), n) == data.take(bounds[n as int]),
    decreases n,
{
    if n == 0 {
        assert(data.take(0) =~= Seq::<u8>::empty());
    } else {
        lemma_join_pieces(data, bounds, (n - 1) as nat);
        let a = bounds[n - 1];
        let b = bounds[n as int];
        assert(0 <= a <= b <= bounds[bounds.len() - 1]);
        assert(data.take(b) =~= data.take(a) + data.subrange(a, b));
    }
}

/// The first 256 tokens while they are put in: the token `b` is the single
/// byte `b`, and these are all the keys.
pub open spec fn seeded(keys: Map<Seq<u8>, u16>, tokens: Seq<Seq<u8>>, n: nat) -> bool {
    &&& tokens.len() == n
    &&& n <= 256
    &&& forall|b: int|
        0 <= b < n ==> #[trigger] tokens[b] == seq![b as u8] && keys.contains_key(seq![b as u8])
    &&& forall|s: Seq<u8>| #[trigger]
        keys.contains_key(s) ==> s.len() == 1 && keys[s] < n && tokens[keys[s] as int] == s
}

/// Once all 256 single bytes are in, matcher and tokens are tied.
pub proof fn lemma_seeded_learned(keys: Map<Seq<u8>, u16>, tokens: Seq<Seq<u8>>)
    requires
        seeded(keys, tokens, 256),
    ensures
        learned(keys, tokens),
        forall|i: int| 0 <= i < tokens.len() ==> (#[trigger] tokens[i]).len() <= 16,
{
    assert forall|b: u8| #![trigger keys.contains_key(seq![b])] keys.contains_key(seq![b]) by {
        assert(tokens[b as int] == seq![b]);
    }
    assert forall|i: int| 0 <= i < tokens.len() implies 1 <= (#[trigger] tokens[i]).len() <= 16 by {
        assert(tokens[i] == seq![i as u8]);
    }
}

/// Putting the next single byte in keeps the first tokens as they should be.
pub proof fn lemma_seeded_step(keys: Map<Seq<u8>, u16>, tokens: Seq<Seq<u8>>, n: nat)
    requires
        seeded(keys, tokens, n),
        n < 256,
    ensures
        seeded(keys.insert(seq![n as u8], n as u16), tokens.push(seq![n as u8]), n + 1),
{
    let t = seq![n as u8];
    let keys2 = keys.insert(t, n as u16);
    let tokens2 = tokens.push(t);
    assert forall|b: int| 0 <= b < n + 1 implies #[trigger] tokens2[b] == seq![b as u8]
        && keys2.contains_key(seq![b as u8]) by {
        if b < n {
            assert(tokens[b] == seq![b as u8]);
        }
    }
    assert forall|s: Seq<u8>| #[trigger] keys2.contains_key(s) implies s.len() == 1 && keys2[s] < n
        + 1 && tokens2[keys2[s] as int] == s by {
        if s != t {
            assert(keys.contains_key(s));
        }
    }
}

/// A collection that holds the strings into which boundaries cut a buffer
/// gives the buffer back when all its strings are decoded end to end.
pub proof fn lemma_all_is_data(v: Compressed, data: Seq<u8>, bounds: Seq<int>)
    requires
        bounds_ok(data.len(), bounds),
        v.holds(pieces(data, bounds)),
    ensures
        v.all() == data,
{
    let inputs = pieces(data, bounds);
    lemma_round_trip(v, inputs);
    lemma_join_pieces(data, bounds, (bounds.len() - 1) as nat);
    assert(data.take(data.len() as int) =~= data);
}

/// The space of a collection is at least two bytes for each id and one for
/// each byte of a token, and at most that and the boundaries of the tokens.
pub proof fn lemma_space_bounds(v: Compressed, boundary_size: nat)
    ensures
        v.space(boundary_size) >= 2 * total_len(v.strings) + total_len(v.tokens),
        v.space(boundary_size) <= 2 * total_len(v.strings) + total_len(v.tokens) + boundary_size
            * (v.tokens.len() + 1),
{
    assert(boundary_size * (v.tokens.len() + 1) >= 0) by (nonlinear_arith);
}

} // verus!
