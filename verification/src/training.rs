//! What both compressors share: how the strings are laid out in one buffer,
//! the order in which training visits them, and the counting of token pairs.

use vstd::prelude::*;
use rand::rngs::StdRng;
use rand::seq::SliceRandom;
use rand::SeedableRng;
use rustc_hash::FxHashMap;
use crate::dictionary::bounds_ok;
use crate::dictionary::lemma_pieces_push;
use crate::dictionary::pieces;
use vstd::string::StringSliceAdditionalSpecFns;

verus! {

/// A table of `usize` boundaries, read as integers.
pub open spec fn ints(v: Seq<usize>) -> Seq<int> {
    Seq::new(v.len(), |i: int| v[i] as int)
}

/// A table of `u32` boundaries, read as integers.
pub open spec fn ints32(v: Seq<u32>) -> Seq<int> {
    Seq::new(v.len(), |i: int| v[i] as int)
}

/// The end positions cut the data into strings: they begin with 0, never
/// decrease, and end with the length of the data.
pub open spec fn spans_ok(data: Seq<u8>, end_positions: Seq<usize>) -> bool {
    bounds_ok(data.len(), ints(end_positions))
}

/// The strings that the end positions cut the data into.
pub open spec fn spans(data: Seq<u8>, end_positions: Seq<usize>) -> Seq<Seq<u8>> {
    pieces(data, ints(end_positions))
}

/// The numbers below `n`, in their order.
pub open spec fn indices(n: nat) -> Seq<usize> {
    Seq::new(n, |i: int| i as usize)
}

/// Whether `order` holds each number below `n` exactly once.
pub open spec fn is_permutation(order: Seq<usize>, n: nat) -> bool {
    order.to_multiset() == indices(n).to_multiset()
}

/// Whether `order` holds only numbers below `n`.
pub open spec fn in_range(order: Seq<usize>, n: nat) -> bool {
    forall|i: int| 0 <= i < order.len() ==> (#[trigger] order[i]) < n
}

/// The order into which a seed brings a list of numbers.
pub uninterp spec fn seeded_order(items: Seq<usize>, seed: u64) -> Seq<usize>;

/// `SliceRandom::shuffle` of `rand`, with the generator of the thread: the
/// items change places and nothing else; which places is left to chance.
#[verifier::external_body]
pub(crate) fn shuffle(items: &mut Vec<usize>)
    ensures
        final(items)@.to_multiset() == old(items)@.to_multiset(),
{
    items.shuffle(&mut rand::thread_rng());
}

/// `SliceRandom::shuffle` of `rand`, with a `StdRng` made from `seed` by
/// `SeedableRng::seed_from_u64`: the items change places and nothing else, and
/// the places depend on the items and the seed alone.
#[verifier::external_body]
pub(crate) fn shuffle_seeded(items: &mut Vec<usize>, seed: u64)
    ensures
        final(items)@ == seeded_order(old(items)@, seed),
        final(items)@.to_multiset() == old(items)@.to_multiset(),
{
    items.shuffle(&mut StdRng::seed_from_u64(seed));
}

/// `Vec::shrink_to_fit` of std: the contents stay.
#[verifier::external_body]
pub(crate) fn shrink<T>(v: &mut Vec<T>)
    ensures
        final(v)@ == old(v)@,
{
    v.shrink_to_fit();
}

/// A permutation of the numbers below `n` holds `n` numbers, all below `n`.
pub proof fn lemma_permutation_in_range(order: Seq<usize>, n: nat)
    requires
        is_permutation(order, n),
    ensures
        order.len() == n,
        in_range(order, n),
{
    let id = indices(n);
    order.to_multiset_ensures();
    id.to_multiset_ensures();
    assert forall|i: int| 0 <= i < order.len() implies (#[trigger] order[i]) < n by {
        assert(order.contains(order[i]));
        assert(id.to_multiset().count(order[i]) > 0);
        assert(id.contains(order[i]));
        let j = choose|j: int| 0 <= j < id.len() && id[j] == order[i];
        assert(id[j] == j as usize);
    }
}

/// The numbers below `n`, in their order.
pub fn identity_order(n: usize) -> (order: Vec<usize>)
    ensures
        order@ == indices(n as nat),
{
    let mut order: Vec<usize> = Vec::new();
    let mut i: usize = 0;
    while i < n
        invariant
            i <= n,
            order@ == indices(i as nat),
        decreases n - i,
    {
        order.push(i);
        i += 1;
        proof {
            assert(order@ =~= indices(i as nat));
        }
    }
    order
}

/// The numbers below `n` in an order left to chance.
pub fn random_order(n: usize) -> (order: Vec<usize>)
    ensures
        is_permutation(order@, n as nat),
        order@.len() == n,
        in_range(order@, n as nat),
{
    let mut order = identity_order(n);
    shuffle(&mut order);
    proof {
        lemma_permutation_in_range(order@, n as nat);
    }
    order
}

/// The numbers below `n` in the order that `seed` gives.
pub fn seeded_random_order(n: usize, seed: u64) -> (order: Vec<usize>)
    ensures
        order@ == seeded_order(indices(n as nat), seed),
        is_permutation(order@, n as nat),
        order@.len() == n,
        in_range(order@, n as nat),
{
    let mut order = identity_order(n);
    shuffle_seeded(&mut order, seed);
    proof {
        lemma_permutation_in_range(order@, n as nat);
    }
    order
}

/// The bytes of each string of a list.
pub open spec fn bytes_of(strings: Seq<&str>) -> Seq<Seq<u8>> {
    Seq::new(strings.len(), |i: int| strings[i].spec_bytes())
}

/// Adding a boundary to a table adds it to the table read as integers.
pub proof fn lemma_ints_push(v: Seq<usize>, x: usize)
    ensures
        ints(v.push(x)) == ints(v).push(x as int),
{
    assert(ints(v.push(x)) =~= ints(v).push(x as int));
}

/// Adding a boundary to a table adds it to the table read as integers.
pub proof fn lemma_ints32_push(v: Seq<u32>, x: u32)
    ensures
        ints32(v.push(x)) == ints32(v).push(x as int),
{
    assert(ints32(v.push(x)) =~= ints32(v).push(x as int));
}

/// Lays the strings end to end in one buffer and gives, with the buffer, the
/// table of their end positions, which begins with 0.
pub fn flatten_strings(strings: &[&str]) -> (r: (Vec<u8>, Vec<usize>))
    ensures
        spans_ok(r.0@, r.1@),
        spans(r.0@, r.1@) == bytes_of(strings@),
{
    let mut data: Vec<u8> = Vec::new();
    let mut end_positions: Vec<usize> = Vec::new();
    end_positions.push(0);
    proof {
        assert(spans(data@, end_positions@) =~= bytes_of(strings@.take(0)));
    }
    let mut i: usize = 0;
    while i < strings.len()
        invariant
            i <= strings@.len(),
            spans_ok(data@, end_positions@),
            spans(data@, end_positions@) == bytes_of(strings@.take(i as int)),
        decreases strings@.len() - i,
    {
        let bytes = strings[i].as_bytes();
        let ghost before = data@;
        let ghost ends = end_positions@;
        data.extend_from_slice(bytes);
        end_positions.push(data.len());
        proof {
            assert(data@ =~= before + bytes@);
            lemma_pieces_push(before, ints(ends), bytes@);
            lemma_ints_push(ends, data@.len() as usize);
            assert(bytes_of(strings@.take(i + 1)) =~= bytes_of(strings@.take(i as int)).push(
                bytes@,
            ));
        }
        i += 1;
    }
    proof {
        assert(strings@.take(strings@.len() as int) =~= strings@);
    }
    (data, end_positions)
}

/// The number under which the count of a pair of ids is kept.
pub open spec fn pair_code(previous: u16, current: u16) -> u32 {
    (previous as u32 * 65536 + current as u32) as u32
}

/// What a count becomes when its pair is seen once more: one more, but never
/// more than a `u16` holds.
pub open spec fn bumped(counts: Map<u32, u16>, code: u32) -> u16 {
    if !counts.contains_key(code) {
        1
    } else if counts[code] < u16::MAX {
        (counts[code] + 1) as u16
    } else {
        u16::MAX
    }
}

/// Counts the pair of ids once more and gives the new count.
pub(crate) fn count_pair(frequency: &mut FxHashMap<u32, u16>, previous: u16, current: u16) -> (r:
    (u32, u16))
    requires
        crate::fx::hasher_is_valid(&*old(frequency)),
    ensures
        crate::fx::hasher_is_valid(&*final(frequency)),
        r.0 == pair_code(previous, current),
        r.1 == bumped(old(frequency)@, r.0),
        final(frequency)@ == old(frequency)@.insert(r.0, r.1),
{
    broadcast use vstd::std_specs::hash::group_hash_axioms;

    let code: u32 = (previous as u32) * 65536 + (current as u32);
    let seen: u16 = match frequency.get(&code) {
        Some(count) => *count,
        None => 0,
    };
    let count: u16 = if seen < u16::MAX {
        seen + 1
    } else {
        seen
    };
    frequency.insert(code, count);
    (code, count)
}

/// Forgets the count of a pair.
pub(crate) fn forget_pair(frequency: &mut FxHashMap<u32, u16>, code: u32)
    requires
        crate::fx::hasher_is_valid(&*old(frequency)),
    ensures
        crate::fx::hasher_is_valid(&*final(frequency)),
        final(frequency)@ == old(frequency)@.remove(code),
{
    broadcast use vstd::std_specs::hash::group_hash_axioms;

    frequency.remove(&code);
}

/// The whole part of the binary logarithm of `n`; 0 for `n` below 2.
pub open spec fn floor_log2(n: nat) -> nat
    decreases n,
{
    if n <= 1 {
        0
    } else {
        1 + floor_log2(n / 2)
    }
}

/// The number of times a pair of tokens must be seen before it becomes a
/// token, for data of `data_len` bytes: the whole part of the binary
/// logarithm of the size in MiB, but at least 2.
pub open spec fn merge_threshold(data_len: nat) -> nat {
    let log = floor_log2(data_len / 0x10_0000);
    if log < 2 {
        2
    } else {
        log
    }
}

/// The logarithm of a number below 2 to the `k` is at most `k`.
pub proof fn lemma_floor_log2_bound(n: nat, k: nat)
    requires
        n < vstd::arithmetic::power2::pow2(k),
    ensures
        floor_log2(n) <= k,
    decreases k,
{
    if n > 1 {
        if k == 0 {
            vstd::arithmetic::power2::lemma2_to64();
        } else {
            vstd::arithmetic::power2::lemma_pow2_unfold(k);
            lemma_floor_log2_bound(n / 2, (k - 1) as nat);
        }
    }
}

/// The threshold of merging for data of `data_len` bytes.
pub fn threshold_for(data_len: usize) -> (t: u16)
    ensures
        t == merge_threshold(data_len as nat),
        t >= 2,
{
    let start: usize = data_len / 0x10_0000;
    let mut rest: usize = start;
    let mut log: u16 = 0;
    proof {
        vstd::arithmetic::power2::lemma2_to64();
        lemma_floor_log2_bound(start as nat, 64);
    }
    while rest > 1
        invariant
            log + floor_log2(rest as nat) == floor_log2(start as nat),
            floor_log2(start as nat) <= 64,
        decreases rest,
    {
        rest = rest / 2;
        log = log + 1;
    }
    if log < 2 {
        2
    } else {
        log
    }
}

/// Writes the bytes `from..to` of the arena into the buffer at `out`.
pub(crate) fn copy_token(arena: &Vec<u8>, from: usize, to: usize, buffer: &mut [u8], out: usize)
    requires
        from <= to <= arena@.len(),
        out + (to - from) <= old(buffer)@.len(),
    ensures
        final(buffer)@.len() == old(buffer)@.len(),
        final(buffer)@.take(out as int) == old(buffer)@.take(out as int),
        final(buffer)@.subrange(out as int, out + (to - from)) == arena@.subrange(
            from as int,
            to as int,
        ),
        final(buffer)@.skip(out + (to - from)) == old(buffer)@.skip(out + (to - from)),
{
    let ghost before = buffer@;
    let total = buffer.len();
    let mut k: usize = 0;
    let len = to - from;
    while k < len
        invariant
            k <= len,
            len == to - from,
            from <= to <= arena@.len(),
            out + len <= total,
            buffer@.len() == total,
            before.len() == total,
            buffer@.take(out as int) == before.take(out as int),
            buffer@.subrange(out as int, out + k) == arena@.subrange(from as int, from + k),
            buffer@.skip(out + k) == before.skip(out + k),
        decreases len - k,
    {
        let ghost prior = buffer@;
        buffer[out + k] = arena[from + k];
        proof {
            assert(buffer@ == prior.update(out + k, arena@[from + k]));
            assert(buffer@.take(out as int) =~= before.take(out as int));
            assert(buffer@.subrange(out as int, out + k + 1) =~= prior.subrange(
                out as int,
                out + k,
            ).push(arena@[from + k]));
            assert(arena@.subrange(from as int, from + k + 1) =~= arena@.subrange(
                from as int,
                from + k,
            ).push(arena@[from + k]));
            assert(buffer@.skip(out + k + 1) =~= prior.skip(out + k).skip(1));
            assert(before.skip(out + k + 1) =~= before.skip(out + k).skip(1));
        }
        k += 1;
    }
}

} // verus!
