//! The backtracking search engine: enumerates all sets of five eligible
//! words with pairwise disjoint LetterSets, walking the letter-indexed
//! buckets in ascending rank order.
//!
//! The enumeration at each depth visits candidate ranks from `from_letter`
//! upward. A rank whose letter is already used is skipped outright. After
//! the first rank whose bucket was processed, the level stops — unless a
//! lower rank had already been passed over (`skipped`), in which case every
//! remaining rank is scanned. This canonical ordering visits each solution
//! exactly once.
use vstd::prelude::*;

use crate::context::Context;
use crate::mask::{or_all, popcount, word_mask};
use crate::mask::{lemma_or_all_disjoint, lemma_or_all_push, lemma_popcount_or_disjoint};

verus! {

/// The views of a sequence of solution arrays.
pub open spec fn sols_view(res: Seq<[u32; 5]>) -> Seq<Seq<u32>> {
    Seq::new(res.len(), |k: int| res[k]@)
}

/// The solutions found from candidate ranks `from..26`, given the already
/// chosen LetterSets `acc` whose union is `used`. With `skipped` false the
/// level ends after the first rank whose letter is unused; with `skipped`
/// true every remaining rank is scanned.
pub open spec fn search_from_rank(
    ctx: Context,
    acc: Seq<u32>,
    used: u32,
    from: int,
    skipped: bool,
) -> Seq<Seq<u32>>
    decreases 5 - acc.len(), 26 - from, 1int, 0int,
{
    if acc.len() >= 5 || from < 0 || from >= 26 {
        Seq::empty()
    } else if used & (1u32 << (ctx.order@[from] as u32)) != 0 {
        search_from_rank(ctx, acc, used, from + 1, skipped)
    } else {
        let here = search_bucket(ctx, acc, used, from, 0, skipped);
        if skipped {
            here
        } else {
            here + search_from_rank(ctx, acc, used, from + 1, true)
        }
    }
}

/// The solutions found from entries `j..` of bucket `i`, then (for the
/// non-terminal depths) deeper levels seeded with each disjoint entry.
pub open spec fn search_bucket(
    ctx: Context,
    acc: Seq<u32>,
    used: u32,
    i: int,
    j: int,
    skipped: bool,
) -> Seq<Seq<u32>>
    decreases 5 - acc.len(), 26 - i, 0int, ctx.letter_index@[i]@.len() - j,
{
    if acc.len() >= 5 || i < 0 || i >= 26 || j < 0 || j >= ctx.letter_index@[i]@.len() {
        Seq::empty()
    } else {
        let w = ctx.letter_index@[i]@[j];
        let rest = search_bucket(ctx, acc, used, i, j + 1, skipped);
        if w & used != 0 {
            rest
        } else if acc.len() == 4 {
            seq![acc.push(w)] + rest
        } else {
            search_from_rank(ctx, acc.push(w), used | w, i + 1, skipped) + rest
        }
    }
}

/// A valid Solution: five table LetterSets, pairwise disjoint, whose union
/// covers exactly 25 letters.
pub open spec fn is_solution(ctx: Context, s: Seq<u32>) -> bool {
    &&& s.len() == 5
    &&& forall|k: int| 0 <= k < 5 ==> ctx.all_word_bits@.contains(#[trigger] s[k])
    &&& forall|k1: int, k2: int|
        0 <= k1 < k2 < 5 ==> ((#[trigger] s[k1]) & (#[trigger] s[k2])) == 0
    &&& popcount(or_all(s)) == 25
}

/// Every entry of `ss` is a valid Solution.
pub open spec fn all_solutions(ctx: Context, ss: Seq<Seq<u32>>) -> bool {
    forall|t: int| 0 <= t < ss.len() ==> is_solution(ctx, #[trigger] ss[t])
}

/// A consistent partial search state: the chosen LetterSets come from the
/// table, are pairwise disjoint, and `used` is their union, covering five
/// letters per choice.
pub open spec fn partial_ok(ctx: Context, acc: Seq<u32>, used: u32) -> bool {
    &&& acc.len() <= 5
    &&& used == or_all(acc)
    &&& forall|k: int| 0 <= k < acc.len() ==> ctx.all_word_bits@.contains(#[trigger] acc[k])
    &&& forall|k1: int, k2: int|
        0 <= k1 < k2 < acc.len() ==> ((#[trigger] acc[k1]) & (#[trigger] acc[k2])) == 0
    &&& popcount(used) == 5 * acc.len()
}

/// Bitwise AND commutes.
proof fn lemma_and_comm()
    by (bit_vector)
    ensures
        forall|a: u32, b: u32| #[trigger] (a & b) == b & a,
{
}

/// Every entry of a bucket is drawn from the underlying mask table.
pub proof fn lemma_bucket_sub(masks: Seq<u32>, rank: Seq<u8>, i: int)
    ensures
        forall|j: int|
            0 <= j < crate::context::bucket_of(masks, rank, i).len() ==> masks.contains(
                #[trigger] crate::context::bucket_of(masks, rank, i)[j],
            ),
    decreases masks.len(),
{
    let b = crate::context::bucket_of(masks, rank, i);
    if masks.len() == 0 {
    } else {
        let m0 = masks.drop_last();
        lemma_bucket_sub(m0, rank, i);
        let b0 = crate::context::bucket_of(m0, rank, i);
        assert forall|j: int| 0 <= j < b.len() implies masks.contains(#[trigger] b[j]) by {
            if j < b0.len() {
                assert(b[j] == b0[j]);
                assert(m0.contains(b0[j]));
                let k0 = choose|k0: int| 0 <= k0 < m0.len() && m0[k0] == b0[j];
                assert(masks[k0] == b0[j]);
            } else {
                assert(b[j] == masks.last());
                assert(masks[masks.len() - 1] == masks.last());
            }
        }
    }
}

/// A table LetterSet covers exactly five letters.
pub proof fn lemma_table_mask_popcount(ctx: Context, w: u32)
    requires
        ctx.wf(),
        ctx.all_word_bits@.contains(w),
    ensures
        popcount(w) == 5,
{
    let k0 = choose|k0: int|
        0 <= k0 < ctx.all_word_bits@.len() && ctx.all_word_bits@[k0] == w;
    assert(ctx.all_word_bits@[k0] == word_mask(ctx.all_words@[k0]@));
    assert(crate::context::eligible(ctx.all_words@[k0]@));
}

/// Soundness of the rank-level enumeration: from a consistent partial
/// state, every emitted Solution is valid.
pub proof fn lemma_search_from_rank_sound(
    ctx: Context,
    acc: Seq<u32>,
    used: u32,
    from: int,
    skipped: bool,
)
    requires
        ctx.wf(),
        partial_ok(ctx, acc, used),
    ensures
        all_solutions(ctx, search_from_rank(ctx, acc, used, from, skipped)),
    decreases 5 - acc.len(), 26 - from, 1int, 0int,
{
    if acc.len() >= 5 || from < 0 || from >= 26 {
    } else if used & (1u32 << (ctx.order@[from] as u32)) != 0 {
        lemma_search_from_rank_sound(ctx, acc, used, from + 1, skipped);
    } else {
        lemma_search_bucket_sound(ctx, acc, used, from, 0, skipped);
        let here = search_bucket(ctx, acc, used, from, 0, skipped);
        if !skipped {
            lemma_search_from_rank_sound(ctx, acc, used, from + 1, true);
            let rest = search_from_rank(ctx, acc, used, from + 1, true);
            let s = search_from_rank(ctx, acc, used, from, skipped);
            assert forall|t: int| 0 <= t < s.len() implies is_solution(ctx, #[trigger] s[t]) by {
                if t < here.len() {
                    assert(s[t] == here[t]);
                } else {
                    assert(s[t] == rest[t - here.len()]);
                }
            }
            assert(all_solutions(ctx, s));
        }
    }
}

/// Soundness of the bucket-level enumeration: from a consistent partial
/// state, every emitted Solution is valid.
pub proof fn lemma_search_bucket_sound(
    ctx: Context,
    acc: Seq<u32>,
    used: u32,
    i: int,
    j: int,
    skipped: bool,
)
    requires
        ctx.wf(),
        partial_ok(ctx, acc, used),
    ensures
        all_solutions(ctx, search_bucket(ctx, acc, used, i, j, skipped)),
    decreases 5 - acc.len(), 26 - i, 0int, ctx.letter_index@[i]@.len() - j,
{
    if acc.len() >= 5 || i < 0 || i >= 26 || j < 0 || j >= ctx.letter_index@[i]@.len() {
    } else {
        let w = ctx.letter_index@[i]@[j];
        lemma_search_bucket_sound(ctx, acc, used, i, j + 1, skipped);
        if w & used == 0 {
            lemma_bucket_sub(ctx.all_word_bits@, ctx.reverse_order@, i);
            assert(ctx.letter_index@[i]@ == crate::context::bucket_of(
                ctx.all_word_bits@,
                ctx.reverse_order@,
                i,
            ));
            assert(ctx.all_word_bits@.contains(w));
            lemma_table_mask_popcount(ctx, w);
            let acc2 = acc.push(w);
            lemma_or_all_push(acc, w);
            lemma_and_comm();
            assert(w & or_all(acc) == 0);
            lemma_or_all_disjoint(acc, w);
            lemma_popcount_or_disjoint(used, w);
            assert(partial_ok(ctx, acc2, used | w));
            let s = search_bucket(ctx, acc, used, i, j, skipped);
            let rest = search_bucket(ctx, acc, used, i, j + 1, skipped);
            if acc.len() == 4 {
                assert(is_solution(ctx, acc2));
                assert forall|t: int| 0 <= t < s.len() implies is_solution(
                    ctx,
                    #[trigger] s[t],
                ) by {
                    if t == 0 {
                        assert(s[t] == acc2);
                    } else {
                        assert(s[t] == rest[t - 1]);
                    }
                }
                assert(all_solutions(ctx, s));
            } else {
                lemma_search_from_rank_sound(ctx, acc2, used | w, i + 1, skipped);
                let deeper = search_from_rank(ctx, acc2, used | w, i + 1, skipped);
                assert forall|t: int| 0 <= t < s.len() implies is_solution(
                    ctx,
                    #[trigger] s[t],
                ) by {
                    if t < deeper.len() {
                        assert(s[t] == deeper[t]);
                    } else {
                        assert(s[t] == rest[t - deeper.len()]);
                    }
                }
                assert(all_solutions(ctx, s));
            }
        }
    }
}

/// A search run over a shared read-only context, accumulating Solutions.
pub struct Finder<'a> {
    pub ctx: &'a Context,
    pub res: Vec<[u32; 5]>,
}

impl<'a> Finder<'a> {
    /// A fresh run with an empty result list.
    pub fn new(ctx: &'a Context) -> (f: Finder<'a>)
        ensures
            f.ctx == ctx,
            f.res@.len() == 0,
    {
        Finder { ctx, res: Vec::new() }
    }

    /// One recursion level of the backtracking search: explores ranks
    /// `from_letter..26` with `word_index` slots already filled, and
    /// appends exactly the solutions of the corresponding search subtree.
    pub fn find(
        &mut self,
        words: &mut [u32; 5],
        word_index: usize,
        used_letters: u32,
        from_letter: usize,
        skipped: bool,
    )
        requires
            old(self).ctx.wf(),
            word_index <= 4,
        ensures
            final(self).ctx == old(self).ctx,
            final(words)@.take(word_index as int) == old(words)@.take(word_index as int),
            sols_view(final(self).res@) == sols_view(old(self).res@) + search_from_rank(
                *old(self).ctx,
                old(words)@.take(word_index as int),
                used_letters,
                from_letter as int,
                skipped,
            ),
        decreases 5 - word_index,
    {
        let ghost gctx = *self.ctx;
        let ghost acc = words@.take(word_index as int);
        let ghost res0 = self.res@;
        if from_letter >= 26 {
            proof {
                assert(sols_view(res0) + search_from_rank(
                    gctx,
                    acc,
                    used_letters,
                    from_letter as int,
                    skipped,
                ) =~= sols_view(res0));
            }
            return ;
        }
        let mut i = from_letter;
        let mut sk = skipped;
        while i < 26
            invariant_except_break
                self.ctx == old(self).ctx,
                gctx == *self.ctx,
                gctx.wf(),
                word_index <= 4,
                from_letter <= i <= 26,
                acc == words@.take(word_index as int),
                words@.take(word_index as int) == old(words)@.take(word_index as int),
                sols_view(res0) + search_from_rank(
                    gctx,
                    acc,
                    used_letters,
                    from_letter as int,
                    skipped,
                ) == sols_view(self.res@) + search_from_rank(
                    gctx,
                    acc,
                    used_letters,
                    i as int,
                    sk,
                ),
            ensures
                self.ctx == old(self).ctx,
                words@.take(word_index as int) == old(words)@.take(word_index as int),
                sols_view(self.res@) == sols_view(res0) + search_from_rank(
                    gctx,
                    acc,
                    used_letters,
                    from_letter as int,
                    skipped,
                ),
            decreases 26 - i,
        {
            let letter = self.ctx.order[i];
            if used_letters & (1u32 << (letter as u32)) != 0 {
                proof {
                    assert(search_from_rank(gctx, acc, used_letters, i as int, sk)
                        == search_from_rank(gctx, acc, used_letters, i as int + 1, sk));
                }
                i = i + 1;
                continue ;
            }
            let bucket_len = self.ctx.letter_index[i].len();
            let ghost res1 = self.res@;
            let mut j: usize = 0;
            while j < bucket_len
                invariant
                    self.ctx == old(self).ctx,
                    gctx == *self.ctx,
                    gctx.wf(),
                    word_index <= 4,
                    i < 26,
                    j <= bucket_len,
                    bucket_len == gctx.letter_index@[i as int]@.len(),
                    acc == words@.take(word_index as int),
                    words@.take(word_index as int) == old(words)@.take(word_index as int),
                    sols_view(res1) + search_bucket(gctx, acc, used_letters, i as int, 0, sk)
                        == sols_view(self.res@) + search_bucket(
                        gctx,
                        acc,
                        used_letters,
                        i as int,
                        j as int,
                        sk,
                    ),
                decreases bucket_len - j,
            {
                let w = self.ctx.letter_index[i][j];
                if w & used_letters != 0 {
                    proof {
                        assert(search_bucket(gctx, acc, used_letters, i as int, j as int, sk)
                            == search_bucket(gctx, acc, used_letters, i as int, j as int + 1, sk));
                    }
                } else {
                    words[word_index] = w;
                    proof {
                        assert(words@.take(word_index as int) =~= acc);
                        assert(words@.take(word_index as int + 1) =~= acc.push(w));
                    }
                    if word_index == 4 {
                        let ghost resb = self.res@;
                        self.res.push(*words);
                        proof {
                            assert(words@ =~= acc.push(w));
                            assert(sols_view(self.res@) =~= sols_view(resb).push(words@));
                            assert(search_bucket(gctx, acc, used_letters, i as int, j as int, sk)
                                == seq![acc.push(w)] + search_bucket(
                                gctx,
                                acc,
                                used_letters,
                                i as int,
                                j as int + 1,
                                sk,
                            ));
                            assert(sols_view(res1) + search_bucket(
                                gctx,
                                acc,
                                used_letters,
                                i as int,
                                0,
                                sk,
                            ) =~= sols_view(self.res@) + search_bucket(
                                gctx,
                                acc,
                                used_letters,
                                i as int,
                                j as int + 1,
                                sk,
                            ));
                        }
                    } else {
                        let ghost resb = self.res@;
                        self.find(words, word_index + 1, used_letters | w, i + 1, sk);
                        proof {
                            assert(words@.take(word_index as int + 1) =~= acc.push(w));
                            assert(words@.take(word_index as int) =~= acc);
                            assert(sols_view(self.res@) == sols_view(resb) + search_from_rank(
                                gctx,
                                acc.push(w),
                                used_letters | w,
                                i as int + 1,
                                sk,
                            ));
                            assert(search_bucket(gctx, acc, used_letters, i as int, j as int, sk)
                                == search_from_rank(gctx, acc.push(w), used_letters | w, i as int
                                + 1, sk) + search_bucket(
                                gctx,
                                acc,
                                used_letters,
                                i as int,
                                j as int + 1,
                                sk,
                            ));
                            assert(sols_view(res1) + search_bucket(
                                gctx,
                                acc,
                                used_letters,
                                i as int,
                                0,
                                sk,
                            ) =~= sols_view(self.res@) + search_bucket(
                                gctx,
                                acc,
                                used_letters,
                                i as int,
                                j as int + 1,
                                sk,
                            ));
                        }
                    }
                }
                j = j + 1;
            }
            proof {
                assert(search_bucket(gctx, acc, used_letters, i as int, bucket_len as int, sk)
                    =~= Seq::<Seq<u32>>::empty());
                assert(sols_view(self.res@) =~= sols_view(res1) + search_bucket(
                    gctx,
                    acc,
                    used_letters,
                    i as int,
                    0,
                    sk,
                ));
            }
            if sk {
                proof {
                    assert(search_from_rank(gctx, acc, used_letters, i as int, sk)
                        == search_bucket(gctx, acc, used_letters, i as int, 0, sk));
                }
                break ;
            }
            proof {
                assert(search_from_rank(gctx, acc, used_letters, i as int, false)
                    == search_bucket(gctx, acc, used_letters, i as int, 0, false)
                    + search_from_rank(gctx, acc, used_letters, i as int + 1, true));
                assert(sols_view(res0) + search_from_rank(
                    gctx,
                    acc,
                    used_letters,
                    from_letter as int,
                    skipped,
                ) =~= sols_view(self.res@) + search_from_rank(
                    gctx,
                    acc,
                    used_letters,
                    i as int + 1,
                    true,
                ));
            }
            sk = true;
            i = i + 1;
        }
    }

    /// Runs the whole search and returns the accumulated Solutions: the
    /// prior contents extended by exactly the enumeration from an empty
    /// accumulator, every newly found entry a valid Solution.
    pub fn find_all(&mut self) -> (r: &Vec<[u32; 5]>)
        requires
            old(self).ctx.wf(),
        ensures
            final(self).ctx == old(self).ctx,
            sols_view(final(self).res@) == sols_view(old(self).res@) + search_from_rank(
                *old(self).ctx,
                Seq::empty(),
                0u32,
                0,
                false,
            ),
            forall|t: int|
                old(self).res@.len() <= t < final(self).res@.len() ==> is_solution(
                    *old(self).ctx,
                    (#[trigger] final(self).res@[t])@,
                ),
            r == final(self).res,
    {
        let ghost res0 = self.res@;
        let mut words: [u32; 5] = [0;5];
        let ghost w0 = words@;
        self.find(&mut words, 0, 0, 0, false);
        proof {
            let gctx = *old(self).ctx;
            let found = search_from_rank(gctx, Seq::empty(), 0u32, 0, false);
            assert(w0.take(0) =~= Seq::<u32>::empty());
            assert(sols_view(self.res@) == sols_view(res0) + found);
            assert(or_all(Seq::<u32>::empty()) == 0);
            assert(partial_ok(gctx, Seq::empty(), 0u32));
            lemma_search_from_rank_sound(gctx, Seq::empty(), 0u32, 0, false);
            assert(all_solutions(gctx, found));
            assert(sols_view(res0).len() == res0.len());
            assert(sols_view(self.res@).len() == self.res@.len());
            assert forall|t: int| res0.len() <= t < self.res@.len() implies is_solution(
                gctx,
                (#[trigger] self.res@[t])@,
            ) by {
                assert(sols_view(self.res@)[t] == self.res@[t]@);
                assert(sols_view(self.res@)[t] == found[t - res0.len()]);
                assert(is_solution(gctx, found[t - res0.len()]));
            }
        }
        &self.res
    }
}

} // verus!
