//! The Eligible Word Table, the letter-frequency ranking and the
//! letter-indexed buckets, built once from the raw dictionary.
//!
//! A length-5 token is accepted iff all its bytes are ASCII lowercase
//! letters (tokens holding any other byte are skipped), its LetterSet has
//! exactly 5 bits set, and no earlier token had the same LetterSet.
use vstd::prelude::*;

use std::collections::HashMap;

use crate::mask::{bit_set, is_lower, popcount, word_mask};
use crate::mask::count_bits;
use crate::mask::{
    lemma_all_low_bits,
    lemma_popcount_bound,
    lemma_popcount_or_disjoint,
    lemma_popcount_single,
};
use crate::mask::lemma_word_mask_has_bit;
use crate::tokens::{split_tokens, views_of};
use crate::tokens::tokenize;

verus! {

broadcast use vstd::std_specs::hash::group_hash_axioms;

/// An eligible word: five ASCII lowercase letters, all distinct.
pub open spec fn eligible(w: Seq<u8>) -> bool {
    &&& w.len() == 5
    &&& forall|k: int| 0 <= k < w.len() ==> is_lower(#[trigger] w[k])
    &&& popcount(word_mask(w)) == 5
}

/// The eligible words among `tokens`, first-seen-wins deduplicated by
/// LetterSet, given the set of LetterSets already `seen`.
pub open spec fn accepted_rec(tokens: Seq<Seq<u8>>, seen: Set<u32>) -> Seq<Seq<u8>>
    decreases tokens.len(),
{
    if tokens.len() == 0 {
        Seq::empty()
    } else {
        let w = tokens[0];
        if eligible(w) && !seen.contains(word_mask(w)) {
            seq![w] + accepted_rec(tokens.drop_first(), seen.insert(word_mask(w)))
        } else {
            accepted_rec(tokens.drop_first(), seen)
        }
    }
}

/// The Eligible Word Table contents for a given token stream.
pub open spec fn accepted_words(tokens: Seq<Seq<u8>>) -> Seq<Seq<u8>> {
    accepted_rec(tokens, Set::empty())
}

/// The LetterSets of a sequence of words.
pub open spec fn masks_of(ws: Seq<Seq<u8>>) -> Seq<u32> {
    Seq::new(ws.len(), |k: int| word_mask(ws[k]))
}

/// How many of the `masks` contain letter `l`. Since eligible words have
/// five distinct letters, this equals the per-letter occurrence count over
/// the accepted words.
pub open spec fn letter_freq(masks: Seq<u32>, l: u32) -> nat
    decreases masks.len(),
{
    if masks.len() == 0 {
        0
    } else {
        letter_freq(masks.drop_last(), l) + if bit_set(masks.last(), l) {
            1nat
        } else {
            0nat
        }
    }
}

/// Letter `a` comes strictly before letter `b` in the frequency ranking:
/// lower occurrence count first, ties broken by letter identity.
pub open spec fn freq_before(masks: Seq<u32>, a: u32, b: u32) -> bool {
    ||| letter_freq(masks, a) < letter_freq(masks, b)
    ||| (letter_freq(masks, a) == letter_freq(masks, b) && a < b)
}

/// The minimum rank among the letters of `m` below letter `n`, or 26 if
/// none of those letters is present.
pub open spec fn min_rank_upto(m: u32, rank: Seq<u8>, n: int) -> int
    decreases n,
{
    if n <= 0 {
        26
    } else {
        let rest = min_rank_upto(m, rank, n - 1);
        if bit_set(m, (n - 1) as u32) && rank[n - 1] < rest {
            rank[n - 1] as int
        } else {
            rest
        }
    }
}

/// The rank of the rarest letter present in `m`.
pub open spec fn min_rank(m: u32, rank: Seq<u8>) -> int {
    min_rank_upto(m, rank, 26)
}

/// `m` has at least one letter bit among the 26 letters.
pub open spec fn has_low_bit(m: u32) -> bool {
    exists|l0: u32| l0 < 26 && bit_set(m, l0)
}

/// The LetterSets among `masks` whose rarest letter has rank `i`, in table
/// order.
pub open spec fn bucket_of(masks: Seq<u32>, rank: Seq<u8>, i: int) -> Seq<u32>
    decreases masks.len(),
{
    if masks.len() == 0 {
        Seq::empty()
    } else {
        let rest = bucket_of(masks.drop_last(), rank, i);
        if min_rank(masks.last(), rank) == i {
            rest.push(masks.last())
        } else {
            rest
        }
    }
}

/// Well-formedness of the Eligible Word Table: `bits` are the LetterSets of
/// the `words`, and `m` maps each LetterSet to its table index.
pub open spec fn table_wf(words: Seq<Vec<u8>>, bits: Seq<u32>, m: Map<u32, usize>) -> bool {
    &&& words.len() == bits.len()
    &&& forall|k: int| 0 <= k < words.len() ==> eligible((#[trigger] words[k])@)
    &&& forall|k: int| 0 <= k < words.len() ==> #[trigger] bits[k] == word_mask(words[k]@)
    &&& forall|k: int|
        0 <= k < bits.len() ==> m.contains_key(#[trigger] bits[k]) && m[bits[k]] == k
    &&& forall|w: u32| #[trigger] m.contains_key(w) ==> bits.contains(w)
}

/// No two distinct entries of a well-formed table share a LetterSet.
pub proof fn lemma_table_dedup(words: Seq<Vec<u8>>, bits: Seq<u32>, m: Map<u32, usize>)
    requires
        table_wf(words, bits, m),
    ensures
        forall|k1: int, k2: int|
            0 <= k1 < bits.len() && 0 <= k2 < bits.len() && k1 != k2 ==> #[trigger] bits[k1]
                != #[trigger] bits[k2],
{
    assert forall|k1: int, k2: int|
        0 <= k1 < bits.len() && 0 <= k2 < bits.len() && k1 != k2 implies #[trigger] bits[k1]
        != #[trigger] bits[k2] by {
        if bits[k1] == bits[k2] {
            assert(m[bits[k1]] == k1);
            assert(m[bits[k2]] == k2);
        }
    }
}

/// Copies a byte vector.
fn copy_bytes(w: &Vec<u8>) -> (r: Vec<u8>)
    ensures
        r@ == w@,
{
    let mut r: Vec<u8> = Vec::new();
    let n = w.len();
    for i in 0..n
        invariant
            n == w@.len(),
            r@ == w@.take(i as int),
        decreases n - i,
    {
        r.push(w[i]);
        proof {
            assert(w@.take(i + 1) =~= w@.take(i as int).push(w@[i as int]));
        }
    }
    proof {
        assert(w@.take(n as int) =~= w@);
    }
    r
}

/// Checks that every byte of `w` is a lowercase letter and, if so, returns
/// the word's LetterSet.
fn lower_mask(w: &Vec<u8>) -> (r: Option<u32>)
    ensures
        r is Some <==> (forall|k: int| 0 <= k < w@.len() ==> is_lower(#[trigger] w@[k])),
        r is Some ==> r->Some_0 == word_mask(w@),
{
    let mut bits: u32 = 0;
    let n = w.len();
    for i in 0..n
        invariant
            n == w@.len(),
            forall|k: int| 0 <= k < i ==> is_lower(#[trigger] w@[k]),
            bits == word_mask(w@.take(i as int)),
        decreases n - i,
    {
        let b = w[i];
        if b < 97 || b > 122 {
            return None;
        }
        proof {
            assert(w@.take(i + 1).drop_last() =~= w@.take(i as int));
            assert(w@.take(i + 1).last() == w@[i as int]);
        }
        bits = bits | (1u32 << ((b - 97) as u32));
    }
    proof {
        assert(w@.take(n as int) =~= w@);
    }
    Some(bits)
}

/// Builds the Eligible Word Table from the token stream: the accepted words
/// in first-occurrence order, their LetterSets, and the LetterSet-to-index
/// map used both for deduplication and for rendering solutions.
fn build_table(toks: &Vec<Vec<u8>>) -> (r: (Vec<Vec<u8>>, Vec<u32>, HashMap<u32, usize>))
    ensures
        views_of(r.0@) == accepted_words(views_of(toks@)),
        r.1@ == masks_of(views_of(r.0@)),
        table_wf(r.0@, r.1@, r.2@),
{
    let ghost gt = views_of(toks@);
    let mut words: Vec<Vec<u8>> = Vec::new();
    let mut bits_v: Vec<u32> = Vec::new();
    let mut map: HashMap<u32, usize> = HashMap::new();
    let n = toks.len();
    proof {
        assert(gt.skip(0) =~= gt);
        assert(map@.dom() =~= Set::<u32>::empty());
        assert(views_of(words@) + accepted_rec(gt, map@.dom()) =~= accepted_rec(
            gt,
            Set::empty(),
        ));
        assert(bits_v@ =~= masks_of(views_of(words@)));
    }
    for j in 0..n
        invariant
            n == toks@.len(),
            gt == views_of(toks@),
            accepted_words(gt) == views_of(words@) + accepted_rec(gt.skip(j as int), map@.dom()),
            bits_v@ == masks_of(views_of(words@)),
            table_wf(words@, bits_v@, map@),
        decreases n - j,
    {
        let w = &toks[j];
        proof {
            assert(gt.skip(j as int)[0] == gt[j as int]);
            assert(gt.skip(j as int).drop_first() =~= gt.skip(j as int + 1));
            assert(gt[j as int] == toks@[j as int]@);
        }
        let mut accepted = false;
        if w.len() == 5 {
            if let Some(bits) = lower_mask(w) {
                let c = count_bits(bits);
                if c == 5 && !map.contains_key(&bits) {
                    accepted = true;
                    let idx = bits_v.len();
                    let ghost old_words = words@;
                    let ghost old_bits = bits_v@;
                    let ghost old_map = map@;
                    map.insert(bits, idx);
                    bits_v.push(bits);
                    let wc = copy_bytes(w);
                    words.push(wc);
                    proof {
                        assert(eligible(gt[j as int]));
                        assert(views_of(words@) =~= views_of(old_words).push(toks@[j as int]@));
                        assert(map@.dom() =~= old_map.dom().insert(word_mask(gt[j as int])));
                        assert(views_of(old_words) + (seq![gt[j as int]] + accepted_rec(
                            gt.skip(j as int + 1),
                            map@.dom(),
                        )) =~= views_of(words@) + accepted_rec(gt.skip(j as int + 1), map@.dom()));
                        assert(bits_v@ =~= masks_of(views_of(words@)));
                        assert forall|k: int| 0 <= k < bits_v@.len() implies map@.contains_key(
                            #[trigger] bits_v@[k],
                        ) && map@[bits_v@[k]] == k by {
                            if k < old_bits.len() {
                                assert(old_map.contains_key(old_bits[k]));
                                assert(bits_v@[k] == old_bits[k]);
                            }
                        }
                        assert forall|m0: u32| #[trigger]
                            map@.contains_key(m0) implies bits_v@.contains(m0) by {
                            if m0 == bits {
                                assert(bits_v@[idx as int] == m0);
                            } else {
                                assert(old_map.contains_key(m0));
                                let k0 = choose|k0: int|
                                    0 <= k0 < old_bits.len() && old_bits[k0] == m0;
                                assert(bits_v@[k0] == m0);
                            }
                        }
                    }
                } else {
                    proof {
                        if c != 5 {
                            assert(!eligible(gt[j as int]));
                        } else {
                            assert(map@.dom().contains(word_mask(gt[j as int])));
                        }
                    }
                }
            } else {
                proof {
                    let k0 = choose|k0: int| 0 <= k0 < w@.len() && !is_lower(w@[k0]);
                    assert(!eligible(gt[j as int]));
                }
            }
        } else {
            proof {
                assert(!eligible(gt[j as int]));
            }
        }
    }
    proof {
        assert(gt.skip(n as int) =~= Seq::<Seq<u8>>::empty());
        assert(views_of(words@) + accepted_rec(gt.skip(n as int), map@.dom()) =~= views_of(
            words@,
        ));
    }
    (words, bits_v, map)
}

/// Letter `a` comes strictly before letter `b` under the frequency vector
/// `freq`: lower count first, ties broken by letter identity.
pub open spec fn key_before(freq: Seq<u64>, a: int, b: int) -> bool {
    ||| freq[a] < freq[b]
    ||| (freq[a] == freq[b] && a < b)
}

/// Counts, for each letter, how many table entries contain it.
fn count_freqs(masks: &Vec<u32>) -> (freq: Vec<u64>)
    ensures
        freq@.len() == 26,
        forall|l: u32| l < 26 ==> freq@[l as int] == letter_freq(masks@, l),
{
    let mut freq: Vec<u64> = Vec::new();
    for z in 0..26usize
        invariant
            freq@.len() == z,
            forall|l: int| 0 <= l < z ==> freq@[l] == 0,
        decreases 26 - z,
    {
        freq.push(0);
    }
    let n = masks.len();
    for k in 0..n
        invariant
            n == masks@.len(),
            freq@.len() == 26,
            forall|l: u32|
                l < 26 ==> freq@[l as int] == letter_freq(masks@.take(k as int), l)
                    && freq@[l as int] <= k,
        decreases n - k,
    {
        let m = masks[k];
        proof {
            assert(masks@.take(k + 1).drop_last() =~= masks@.take(k as int));
            assert(masks@.take(k + 1).last() == masks@[k as int]);
        }
        for l in 0..26usize
            invariant
                n == masks@.len(),
                k < n,
                freq@.len() == 26,
                m == masks@[k as int],
                forall|l2: u32|
                    l2 < l ==> freq@[l2 as int] == letter_freq(masks@.take(k + 1), l2)
                        && freq@[l2 as int] <= k + 1,
                forall|l2: u32|
                    l <= l2 < 26 ==> freq@[l2 as int] == letter_freq(masks@.take(k as int), l2)
                        && freq@[l2 as int] <= k,
            decreases 26 - l,
        {
            proof {
                assert(masks@.take(k + 1).drop_last() =~= masks@.take(k as int));
            }
            if m & (1u32 << (l as u32)) != 0 {
                let cur = freq[l];
                freq[l] = cur + 1;
            }
        }
    }
    proof {
        assert(masks@.take(n as int) =~= masks@);
    }
    freq
}

/// Builds the frequency ordering: `r.0[i]` is the letter with the `i`-th
/// lowest count, and `r.1` is its inverse (the rank of each letter).
fn build_order(freq: &Vec<u64>) -> (r: (Vec<u8>, Vec<u8>))
    requires
        freq@.len() == 26,
    ensures
        r.0@.len() == 26,
        r.1@.len() == 26,
        forall|i: int| 0 <= i < 26 ==> (#[trigger] r.0@[i]) < 26,
        forall|l: int| 0 <= l < 26 ==> (#[trigger] r.1@[l]) < 26,
        forall|i: int| 0 <= i < 26 ==> r.1@[#[trigger] r.0@[i] as int] == i as u8,
        forall|l: int| 0 <= l < 26 ==> r.0@[#[trigger] r.1@[l] as int] == l as u8,
        forall|i1: int, i2: int|
            0 <= i1 < i2 < 26 ==> key_before(freq@, r.0@[i1] as int, r.0@[i2] as int),
{
    let mut ord: Vec<u8> = Vec::new();
    let mut rev: Vec<u8> = Vec::new();
    for z in 0..26usize
        invariant
            rev@.len() == z,
            forall|l: int| 0 <= l < z ==> rev@[l] == 26,
        decreases 26 - z,
    {
        rev.push(26);
    }
    let mut placed: u32 = 0;
    proof {
        crate::mask::lemma_zero_bits();
    }
    for i in 0..26usize
        invariant
            freq@.len() == 26,
            ord@.len() == i,
            rev@.len() == 26,
            popcount(placed) == i,
            placed < 0x4000000,
            forall|l: u32| l < 26 ==> (bit_set(placed, l) <==> rev@[l as int] < 26),
            forall|l: int| 0 <= l < 26 ==> (#[trigger] rev@[l]) <= 26,
            forall|l: int|
                0 <= l < 26 && (#[trigger] rev@[l]) < 26 ==> rev@[l] < i && ord@[rev@[l] as int]
                    == l as u8,
            forall|i0: int|
                0 <= i0 < i ==> (#[trigger] ord@[i0]) < 26 && rev@[ord@[i0] as int] == i0 as u8,
            forall|i1: int, i2: int|
                0 <= i1 < i2 < i ==> key_before(freq@, ord@[i1] as int, ord@[i2] as int),
            forall|i0: int, l: u32|
                0 <= i0 < i && l < 26 && !bit_set(placed, l) ==> key_before(
                    freq@,
                    ord@[i0] as int,
                    l as int,
                ),
        decreases 26 - i,
    {
        let mut best: usize = 26;
        for l in 0..26usize
            invariant
                freq@.len() == 26,
                best == 26 || best < l,
                best == 26 ==> forall|l2: u32| l2 < l ==> bit_set(placed, l2),
                best < 26 ==> !bit_set(placed, best as u32),
                best < 26 ==> forall|l2: u32|
                    l2 < l && l2 != best && !bit_set(placed, l2) ==> key_before(
                        freq@,
                        best as int,
                        l2 as int,
                    ),
            decreases 26 - l,
        {
            if placed & (1u32 << (l as u32)) == 0 {
                if best == 26 || freq[l] < freq[best] {
                    best = l;
                }
            }
        }
        if best == 26 {
            proof {
                lemma_all_low_bits(placed, 26);
                assert(false);
            }
        }
        let ghost old_ord = ord@;
        let ghost old_rev = rev@;
        let ghost old_placed = placed;
        ord.push(best as u8);
        rev[best] = i as u8;
        let b32 = best as u32;
        placed = placed | (1u32 << b32);
        proof {
            assert(old_placed & (1u32 << b32) == 0);
            lemma_popcount_single(b32);
            lemma_popcount_or_disjoint(old_placed, 1u32 << b32);
            assert(placed < 0x4000000) by (bit_vector)
                requires
                    old_placed < 0x4000000,
                    b32 < 26,
                    placed == old_placed | (1u32 << b32),
            ;
            assert(bit_set(placed, b32)) by (bit_vector)
                requires
                    b32 < 26,
                    placed == old_placed | (1u32 << b32),
            ;
            assert forall|l: u32| l < 26 && l != b32 implies (#[trigger] bit_set(placed, l)
                <==> bit_set(old_placed, l)) by {
                assert(placed & (1u32 << l) == old_placed & (1u32 << l)) by (bit_vector)
                    requires
                        l != b32,
                        l < 26,
                        b32 < 26,
                        placed == old_placed | (1u32 << b32),
                ;
            }
            assert(rev@ == old_rev.update(best as int, i as u8));
            assert forall|l: u32| l < 26 implies (#[trigger] bit_set(placed, l)
                <==> rev@[l as int] < 26) by {
                if l == b32 {
                    assert(rev@[l as int] == i as u8);
                } else {
                    assert(rev@[l as int] == old_rev[l as int]);
                }
            }
            assert forall|i0: int, l: u32|
                0 <= i0 < i + 1 && l < 26 && !bit_set(placed, l) implies key_before(
                freq@,
                ord@[i0] as int,
                l as int,
            ) by {
                assert(l != b32);
                assert(!bit_set(old_placed, l));
                if i0 < i {
                    assert(ord@[i0] == old_ord[i0]);
                } else {
                    assert(ord@[i0] == best as u8);
                }
            }
            assert forall|i1: int, i2: int| 0 <= i1 < i2 < i + 1 implies key_before(
                freq@,
                ord@[i1] as int,
                ord@[i2] as int,
            ) by {
                if i2 == i {
                    assert(!bit_set(old_placed, b32));
                    assert(key_before(freq@, old_ord[i1] as int, b32 as int));
                }
            }
        }
    }
    proof {
        assert forall|l: u32| l < 26 implies bit_set(placed, l) by {
            if !bit_set(placed, l) {
                let p2 = placed | (1u32 << l);
                lemma_popcount_single(l);
                lemma_popcount_or_disjoint(placed, 1u32 << l);
                assert(p2 < (1u32 << 26u32)) by (bit_vector)
                    requires
                        placed < 0x4000000,
                        l < 26,
                        p2 == placed | (1u32 << l),
                ;
                lemma_popcount_bound(p2, 26);
                assert(false);
            }
        }
        assert forall|l: int| 0 <= l < 26 implies (#[trigger] rev@[l]) < 26 by {
            assert(bit_set(placed, l as u32));
        }
    }
    (ord, rev)
}

/// The minimum rank always lies between 0 and the sentinel 26.
proof fn lemma_min_rank_bounds(m: u32, rank: Seq<u8>, n: int)
    ensures
        0 <= min_rank_upto(m, rank, n) <= 26,
    decreases n,
{
    if n > 0 {
        lemma_min_rank_bounds(m, rank, n - 1);
    }
}

/// Every entry of a bucket has that bucket's index as its minimum rank.
proof fn lemma_bucket_elems_rank(masks: Seq<u32>, rank: Seq<u8>, i: int)
    ensures
        forall|j: int|
            0 <= j < bucket_of(masks, rank, i).len() ==> min_rank(
                #[trigger] bucket_of(masks, rank, i)[j],
                rank,
            ) == i,
    decreases masks.len(),
{
    if masks.len() > 0 {
        lemma_bucket_elems_rank(masks.drop_last(), rank, i);
        let b = bucket_of(masks, rank, i);
        let b0 = bucket_of(masks.drop_last(), rank, i);
        assert forall|j: int| 0 <= j < b.len() implies min_rank(#[trigger] b[j], rank) == i by {
            if j < b0.len() {
                assert(b[j] == b0[j]);
            } else {
                assert(b[j] == masks.last());
            }
        }
    }
}

/// Every mask is a member of the bucket of its own minimum rank.
proof fn lemma_bucket_member(masks: Seq<u32>, rank: Seq<u8>, k: int)
    requires
        0 <= k < masks.len(),
    ensures
        bucket_of(masks, rank, min_rank(masks[k], rank)).contains(masks[k]),
    decreases masks.len(),
{
    let mr = min_rank(masks[k], rank);
    let b = bucket_of(masks, rank, mr);
    let b0 = bucket_of(masks.drop_last(), rank, mr);
    if k == masks.len() - 1 {
        assert(masks.last() == masks[k]);
        assert(b[b.len() - 1] == masks[k]);
    } else {
        lemma_bucket_member(masks.drop_last(), rank, k);
        assert(masks.drop_last()[k] == masks[k]);
        let j0 = choose|j0: int| 0 <= j0 < b0.len() && b0[j0] == masks[k];
        assert(b[j0] == masks[k]);
    }
}

/// Every table entry lies in exactly one letter-indexed bucket: the one
/// whose index is the minimum rank among the word's letters.
pub proof fn lemma_bucket_partition(ctx: Context, k: int)
    requires
        ctx.wf(),
        0 <= k < ctx.all_word_bits@.len(),
    ensures
        0 <= min_rank(ctx.all_word_bits@[k], ctx.reverse_order@) < 26,
        ctx.letter_index@[min_rank(ctx.all_word_bits@[k], ctx.reverse_order@)]@.contains(
            ctx.all_word_bits@[k],
        ),
        forall|i: int|
            0 <= i < 26 && i != min_rank(ctx.all_word_bits@[k], ctx.reverse_order@)
                ==> !(#[trigger] ctx.letter_index@[i])@.contains(ctx.all_word_bits@[k]),
{
    let w = ctx.all_word_bits@[k];
    let mr = min_rank(w, ctx.reverse_order@);
    lemma_min_rank_bounds(w, ctx.reverse_order@, 26);
    assert(eligible(ctx.all_words@[k]@));
    assert(w == word_mask(ctx.all_words@[k]@));
    lemma_word_mask_has_bit(ctx.all_words@[k]@);
    let l0 = ((ctx.all_words@[k]@.last() - 97) as int);
    lemma_min_rank_le(w, ctx.reverse_order@, l0, 26);
    assert(mr <= ctx.reverse_order@[l0] < 26);
    lemma_bucket_member(ctx.all_word_bits@, ctx.reverse_order@, k);
    assert forall|i: int|
        0 <= i < 26 && i != mr implies !(#[trigger] ctx.letter_index@[i])@.contains(w) by {
        if ctx.letter_index@[i]@.contains(w) {
            let b = bucket_of(ctx.all_word_bits@, ctx.reverse_order@, i);
            assert(b.contains(w));
            let j0 = choose|j0: int| 0 <= j0 < b.len() && b[j0] == w;
            lemma_bucket_elems_rank(ctx.all_word_bits@, ctx.reverse_order@, i);
            assert(min_rank(b[j0], ctx.reverse_order@) == i);
        }
    }
}

/// The frequency ranking is a permutation of the 26 letters: injective,
/// and surjective with `reverse_order[l]` the position at which letter `l`
/// appears.
pub proof fn lemma_ranking_permutation(ctx: Context)
    requires
        ctx.wf(),
    ensures
        ctx.order@.len() == 26,
        ctx.reverse_order@.len() == 26,
        forall|i: int| 0 <= i < 26 ==> (#[trigger] ctx.order@[i]) < 26,
        forall|i: int|
            0 <= i < 26 ==> ctx.reverse_order@[#[trigger] ctx.order@[i] as int] == i as u8,
        forall|i1: int, i2: int|
            0 <= i1 < i2 < 26 ==> ctx.order@[i1] != ctx.order@[i2],
        forall|l: int|
            0 <= l < 26 ==> 0 <= (#[trigger] ctx.reverse_order@[l]) < 26 && ctx.order@[
                ctx.reverse_order@[l] as int] == l as u8,
{
    assert forall|i1: int, i2: int| 0 <= i1 < i2 < 26 implies ctx.order@[i1]
        != ctx.order@[i2] by {
        if ctx.order@[i1] == ctx.order@[i2] {
            assert(ctx.reverse_order@[ctx.order@[i1] as int] == i1 as u8);
            assert(ctx.reverse_order@[ctx.order@[i2] as int] == i2 as u8);
        }
    }
}

/// Every accepted word's LetterSet covers exactly five letters: no word
/// with an internal repeat enters the table.
pub proof fn lemma_accepted_popcount(ctx: Context)
    requires
        ctx.wf(),
    ensures
        forall|k: int|
            0 <= k < ctx.all_word_bits@.len() ==> popcount(#[trigger] ctx.all_word_bits@[k])
                == 5,
{
    assert forall|k: int| 0 <= k < ctx.all_word_bits@.len() implies popcount(
        #[trigger] ctx.all_word_bits@[k],
    ) == 5 by {
        assert(eligible(ctx.all_words@[k]@));
        assert(ctx.all_word_bits@[k] == word_mask(ctx.all_words@[k]@));
    }
}

/// No two distinct table entries share a LetterSet.
pub proof fn lemma_context_dedup(ctx: Context)
    requires
        ctx.wf(),
    ensures
        forall|k1: int, k2: int|
            0 <= k1 < ctx.all_word_bits@.len() && 0 <= k2 < ctx.all_word_bits@.len() && k1 != k2
                ==> #[trigger] ctx.all_word_bits@[k1] != #[trigger] ctx.all_word_bits@[k2],
{
    lemma_table_dedup(ctx.all_words@, ctx.all_word_bits@, ctx.bits_to_indexes@);
}

/// Any present letter's rank bounds the minimum rank from above: every
/// word in bucket `i` has all its letters at rank `i` or higher.
pub proof fn lemma_min_rank_le(m: u32, rank: Seq<u8>, l0: int, n: int)
    requires
        0 <= l0 < n <= 26,
        bit_set(m, l0 as u32),
    ensures
        min_rank_upto(m, rank, n) <= rank[l0],
    decreases n,
{
    if n - 1 > l0 {
        lemma_min_rank_le(m, rank, l0, n - 1);
    }
}

/// Computes the rank of the rarest letter present in `m`.
fn min_rank_of(m: u32, rev: &Vec<u8>) -> (r: usize)
    requires
        rev@.len() == 26,
        forall|l: int| 0 <= l < 26 ==> (#[trigger] rev@[l]) < 26,
        has_low_bit(m),
    ensures
        r == min_rank(m, rev@),
        r < 26,
{
    let mut cur: usize = 26;
    for l in 0..26usize
        invariant
            rev@.len() == 26,
            forall|l2: int| 0 <= l2 < 26 ==> (#[trigger] rev@[l2]) < 26,
            cur == min_rank_upto(m, rev@, l as int),
            cur <= 26,
        decreases 26 - l,
    {
        if m & (1u32 << (l as u32)) != 0 {
            let rl = rev[l] as usize;
            if rl < cur {
                cur = rl;
            }
        }
    }
    proof {
        let l0 = choose|l0: u32| l0 < 26 && bit_set(m, l0);
        lemma_min_rank_le(m, rev@, l0 as int, 26);
    }
    cur
}

/// Groups every table LetterSet into the bucket of its rarest letter.
fn build_buckets(bits_v: &Vec<u32>, rev: &Vec<u8>) -> (li: Vec<Vec<u32>>)
    requires
        rev@.len() == 26,
        forall|l: int| 0 <= l < 26 ==> (#[trigger] rev@[l]) < 26,
        forall|k: int| 0 <= k < bits_v@.len() ==> has_low_bit(#[trigger] bits_v@[k]),
    ensures
        li@.len() == 26,
        forall|i: int| 0 <= i < 26 ==> (#[trigger] li@[i])@ == bucket_of(bits_v@, rev@, i),
{
    let mut li: Vec<Vec<u32>> = Vec::new();
    let n = bits_v.len();
    for i in 0..26usize
        invariant
            n == bits_v@.len(),
            rev@.len() == 26,
            forall|l: int| 0 <= l < 26 ==> (#[trigger] rev@[l]) < 26,
            forall|k: int| 0 <= k < bits_v@.len() ==> has_low_bit(#[trigger] bits_v@[k]),
            li@.len() == i,
            forall|i0: int| 0 <= i0 < i ==> (#[trigger] li@[i0])@ == bucket_of(bits_v@, rev@, i0),
        decreases 26 - i,
    {
        let mut b: Vec<u32> = Vec::new();
        for k in 0..n
            invariant
                n == bits_v@.len(),
                rev@.len() == 26,
                forall|l: int| 0 <= l < 26 ==> (#[trigger] rev@[l]) < 26,
                forall|k2: int| 0 <= k2 < bits_v@.len() ==> has_low_bit(#[trigger] bits_v@[k2]),
                b@ == bucket_of(bits_v@.take(k as int), rev@, i as int),
            decreases n - k,
        {
            proof {
                assert(bits_v@.take(k + 1).drop_last() =~= bits_v@.take(k as int));
                assert(bits_v@.take(k + 1).last() == bits_v@[k as int]);
            }
            let r = min_rank_of(bits_v[k], rev);
            if r == i {
                b.push(bits_v[k]);
            }
        }
        proof {
            assert(bits_v@.take(n as int) =~= bits_v@);
        }
        li.push(b);
    }
    li
}

/// The read-only search context: the Eligible Word Table, the LetterSet
/// index map, the frequency ordering and its inverse, and the
/// letter-indexed buckets.
pub struct Context {
    /// Accepted words, in first-occurrence order.
    pub all_words: Vec<Vec<u8>>,
    /// The words' LetterSets, in the same order.
    pub all_word_bits: Vec<u32>,
    /// Maps each LetterSet back to its table index.
    pub bits_to_indexes: HashMap<u32, usize>,
    /// Bucket `i` holds the LetterSets whose rarest letter has rank `i`.
    pub letter_index: Vec<Vec<u32>>,
    /// `order[i]` is the letter with the `i`-th lowest frequency.
    pub order: Vec<u8>,
    /// `reverse_order[l]` is the rank of letter `l`.
    pub reverse_order: Vec<u8>,
}

impl Context {
    /// Well-formedness: the table is consistent, the ordering is the
    /// frequency-sorted permutation of the letters with its inverse, and
    /// every bucket holds exactly the LetterSets of its rank.
    pub open spec fn wf(self) -> bool {
        &&& table_wf(self.all_words@, self.all_word_bits@, self.bits_to_indexes@)
        &&& self.order@.len() == 26
        &&& self.reverse_order@.len() == 26
        &&& forall|i: int| 0 <= i < 26 ==> (#[trigger] self.order@[i]) < 26
        &&& forall|l: int| 0 <= l < 26 ==> (#[trigger] self.reverse_order@[l]) < 26
        &&& forall|i: int|
            0 <= i < 26 ==> self.reverse_order@[#[trigger] self.order@[i] as int] == i as u8
        &&& forall|l: int|
            0 <= l < 26 ==> self.order@[#[trigger] self.reverse_order@[l] as int] == l as u8
        &&& forall|i1: int, i2: int|
            0 <= i1 < i2 < 26 ==> freq_before(
                self.all_word_bits@,
                #[trigger] self.order@[i1] as u32,
                #[trigger] self.order@[i2] as u32,
            )
        &&& self.letter_index@.len() == 26
        &&& forall|i: int|
            0 <= i < 26 ==> (#[trigger] self.letter_index@[i])@ == bucket_of(
                self.all_word_bits@,
                self.reverse_order@,
                i,
            )
    }

    /// Builds the search context from a raw dictionary buffer: tokenizes
    /// it, keeps the eligible words (first-seen LetterSets of five distinct
    /// lowercase letters), ranks the letters by ascending frequency, and
    /// buckets each word under its rarest letter.
    pub fn from_words(buf: &[u8]) -> (ctx: Context)
        ensures
            ctx.wf(),
            views_of(ctx.all_words@) == accepted_words(split_tokens(buf@)),
            ctx.all_word_bits@ == masks_of(accepted_words(split_tokens(buf@))),
    {
        let toks = tokenize(buf);
        let (all_words, all_word_bits, bits_to_indexes) = build_table(&toks);
        let freq = count_freqs(&all_word_bits);
        let (order_v, reverse_v) = build_order(&freq);
        proof {
            assert forall|k: int| 0 <= k < all_word_bits@.len() implies has_low_bit(
                #[trigger] all_word_bits@[k],
            ) by {
                let w = all_words@[k];
                assert(eligible(w@));
                assert(all_word_bits@[k] == word_mask(w@));
                lemma_word_mask_has_bit(w@);
                let l0 = ((w@.last() - 97) as u32);
                assert(l0 < 26 && bit_set(all_word_bits@[k], l0));
            }
        }
        let letter_index = build_buckets(&all_word_bits, &reverse_v);
        let ghost gfreq = freq@;
        let ctx = Context {
            all_words,
            all_word_bits,
            bits_to_indexes,
            letter_index,
            order: order_v,
            reverse_order: reverse_v,
        };
        proof {
            assert forall|i1: int, i2: int| 0 <= i1 < i2 < 26 implies freq_before(
                ctx.all_word_bits@,
                #[trigger] ctx.order@[i1] as u32,
                #[trigger] ctx.order@[i2] as u32,
            ) by {
                assert(key_before(gfreq, ctx.order@[i1] as int, ctx.order@[i2] as int));
                assert(gfreq[ctx.order@[i1] as int] == letter_freq(
                    ctx.all_word_bits@,
                    ctx.order@[i1] as u32,
                ));
                assert(gfreq[ctx.order@[i2] as int] == letter_freq(
                    ctx.all_word_bits@,
                    ctx.order@[i2] as u32,
                ));
            }
        }
        ctx
    }

    /// Resolves a solution's five LetterSets back to their dictionary
    /// words, via the LetterSet index map.
    pub fn words(&self, sol: &[u32; 5]) -> (r: Vec<Vec<u8>>)
        requires
            self.wf(),
            forall|k: int| 0 <= k < 5 ==> self.all_word_bits@.contains(#[trigger] sol@[k]),
        ensures
            r@.len() == 5,
            forall|k: int|
                0 <= k < 5 ==> self.bits_to_indexes@.contains_key(#[trigger] sol@[k]) && 0
                    <= self.bits_to_indexes@[sol@[k]] < self.all_words@.len() && r@[k]@
                    == self.all_words@[self.bits_to_indexes@[sol@[k]] as int]@,
            forall|k: int| 0 <= k < 5 ==> word_mask((#[trigger] r@[k])@) == sol@[k],
    {
        let mut r: Vec<Vec<u8>> = Vec::new();
        for k in 0..5usize
            invariant
                self.wf(),
                forall|k2: int| 0 <= k2 < 5 ==> self.all_word_bits@.contains(#[trigger] sol@[k2]),
                r@.len() == k,
                forall|k2: int|
                    0 <= k2 < k ==> self.bits_to_indexes@.contains_key(#[trigger] sol@[k2]) && 0
                        <= self.bits_to_indexes@[sol@[k2]] < self.all_words@.len() && r@[k2]@
                        == self.all_words@[self.bits_to_indexes@[sol@[k2]] as int]@,
                forall|k2: int| 0 <= k2 < k ==> word_mask((#[trigger] r@[k2])@) == sol@[k2],
            decreases 5 - k,
        {
            let m = sol[k];
            proof {
                assert(self.all_word_bits@.contains(m));
                let k0 = choose|k0: int|
                    0 <= k0 < self.all_word_bits@.len() && self.all_word_bits@[k0] == m;
                assert(self.bits_to_indexes@.contains_key(self.all_word_bits@[k0]));
            }
            let idx = *self.bits_to_indexes.get(&m).unwrap();
            proof {
                assert(self.bits_to_indexes@[m] == idx);
                let k0 = choose|k0: int|
                    0 <= k0 < self.all_word_bits@.len() && self.all_word_bits@[k0] == m;
                assert(self.bits_to_indexes@[self.all_word_bits@[k0]] == k0);
                assert(idx == k0);
                assert(self.all_word_bits@[idx as int] == word_mask(self.all_words@[idx as int]@));
            }
            let wv = copy_bytes(&self.all_words[idx]);
            r.push(wv);
        }
        r
    }
}

} // verus!
