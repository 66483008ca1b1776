//! The parallel decomposition of the search: the top recursion level is
//! flattened into independent jobs, one per candidate first word. A worker
//! runs a job's depth-1 subtree with `run_job`; the jobs' results,
//! concatenated in job order, are exactly the sequential enumeration.
//!
//! Thread plumbing (queues, channels, the worker pool) lives outside the
//! library; this module holds every decision the dispatcher makes.
use vstd::prelude::*;

use crate::context::Context;
use crate::finder::{all_solutions, is_solution, search_bucket, search_from_rank, sols_view};
use crate::finder::{lemma_search_from_rank_sound, partial_ok, Finder};
use crate::mask::or_all;

verus! {

/// A unit of top-level search work: a fixed first word, the rank of its
/// bucket, and the prune-state flag at that position.
#[derive(Clone, Copy, PartialEq, Eq, Structural, Debug)]
pub struct Job {
    /// The LetterSet of the first word of the subtree.
    pub word: u32,
    /// The rank of the bucket the word came from.
    pub rank: usize,
    /// Whether a lower rank was already passed over at the top level.
    pub skipped: bool,
}

/// The jobs generated from entries `j..` of bucket `i`.
pub open spec fn bucket_jobs(ctx: Context, i: int, j: int, skipped: bool) -> Seq<Job>
    decreases ctx.letter_index@[i]@.len() - j,
{
    if i < 0 || i >= 26 || j < 0 || j >= ctx.letter_index@[i]@.len() {
        Seq::empty()
    } else {
        seq![Job { word: ctx.letter_index@[i]@[j], rank: i as usize, skipped }] + bucket_jobs(
            ctx,
            i,
            j + 1,
            skipped,
        )
    }
}

/// The jobs generated from ranks `i..26`, replaying the top-level prune
/// rule: after the first bucket, stop unless `skipped` was already set.
pub open spec fn jobs_from_rank(ctx: Context, i: int, skipped: bool) -> Seq<Job>
    decreases 26 - i,
{
    if i < 0 || i >= 26 {
        Seq::empty()
    } else {
        let here = bucket_jobs(ctx, i, 0, skipped);
        if skipped {
            here
        } else {
            here + jobs_from_rank(ctx, i + 1, true)
        }
    }
}

/// The full deterministic job list for a context.
pub open spec fn all_jobs(ctx: Context) -> Seq<Job> {
    jobs_from_rank(ctx, 0, false)
}

/// The solutions of one job's subtree: depth 1 onward, seeded with the
/// job's word.
pub open spec fn job_sols(ctx: Context, job: Job) -> Seq<Seq<u32>> {
    search_from_rank(ctx, seq![job.word], job.word, job.rank + 1, job.skipped)
}

/// The concatenation of the jobs' solutions, in job order.
pub open spec fn concat_job_sols(ctx: Context, jobs: Seq<Job>) -> Seq<Seq<u32>>
    decreases jobs.len(),
{
    if jobs.len() == 0 {
        Seq::empty()
    } else {
        concat_job_sols(ctx, jobs.drop_last()) + job_sols(ctx, jobs.last())
    }
}

/// A job consistent with its context: its rank is a bucket index and its
/// word came from that bucket.
pub open spec fn job_wf(ctx: Context, job: Job) -> bool {
    &&& job.rank < 26
    &&& ctx.letter_index@[job.rank as int]@.contains(job.word)
}

/// The zero mask is the identity of `|` and absorbs `&`.
proof fn lemma_zero_mask()
    by (bit_vector)
    ensures
        forall|w: u32| #[trigger] (0u32 | w) == w,
        forall|w: u32| #[trigger] (w & 0u32) == 0,
{
}

/// Appending one job extends the concatenated solutions by that job's.
proof fn lemma_concat_push(ctx: Context, jobs: Seq<Job>, job: Job)
    ensures
        concat_job_sols(ctx, jobs.push(job)) == concat_job_sols(ctx, jobs) + job_sols(ctx, job),
{
    assert(jobs.push(job).drop_last() =~= jobs);
    assert(jobs.push(job).last() == job);
}

/// Every generated job is consistent with its context.
proof fn lemma_bucket_jobs_wf(ctx: Context, i: int, j: int, skipped: bool)
    ensures
        forall|t: int|
            0 <= t < bucket_jobs(ctx, i, j, skipped).len() ==> job_wf(
                ctx,
                #[trigger] bucket_jobs(ctx, i, j, skipped)[t],
            ),
    decreases ctx.letter_index@[i]@.len() - j,
{
    if i < 0 || i >= 26 || j < 0 || j >= ctx.letter_index@[i]@.len() {
    } else {
        lemma_bucket_jobs_wf(ctx, i, j + 1, skipped);
        let b = bucket_jobs(ctx, i, j, skipped);
        let rest = bucket_jobs(ctx, i, j + 1, skipped);
        assert forall|t: int| 0 <= t < b.len() implies job_wf(ctx, #[trigger] b[t]) by {
            if t == 0 {
                assert(b[t].word == ctx.letter_index@[i]@[j]);
            } else {
                assert(b[t] == rest[t - 1]);
            }
        }
    }
}

/// Every job of the full job list is consistent with its context.
proof fn lemma_jobs_wf(ctx: Context, i: int, skipped: bool)
    ensures
        forall|t: int|
            0 <= t < jobs_from_rank(ctx, i, skipped).len() ==> job_wf(
                ctx,
                #[trigger] jobs_from_rank(ctx, i, skipped)[t],
            ),
    decreases 26 - i,
{
    if i < 0 || i >= 26 {
    } else {
        lemma_bucket_jobs_wf(ctx, i, 0, skipped);
        let here = bucket_jobs(ctx, i, 0, skipped);
        let s = jobs_from_rank(ctx, i, skipped);
        if !skipped {
            lemma_jobs_wf(ctx, i + 1, true);
            let rest = jobs_from_rank(ctx, i + 1, true);
            assert forall|t: int| 0 <= t < s.len() implies job_wf(ctx, #[trigger] s[t]) by {
                if t < here.len() {
                    assert(s[t] == here[t]);
                } else {
                    assert(s[t] == rest[t - here.len()]);
                }
            }
        }
    }
}

/// Concatenating job solutions distributes over list concatenation.
proof fn lemma_concat_split(ctx: Context, a: Seq<Job>, b: Seq<Job>)
    ensures
        concat_job_sols(ctx, a + b) == concat_job_sols(ctx, a) + concat_job_sols(ctx, b),
    decreases b.len(),
{
    if b.len() == 0 {
        assert(a + b =~= a);
        assert(concat_job_sols(ctx, a + b) =~= concat_job_sols(ctx, a) + concat_job_sols(ctx, b));
    } else {
        lemma_concat_split(ctx, a, b.drop_last());
        assert((a + b).drop_last() =~= a + b.drop_last());
        assert((a + b).last() == b.last());
        assert(b.drop_last().push(b.last()) =~= b);
        assert(concat_job_sols(ctx, a + b) =~= concat_job_sols(ctx, a) + concat_job_sols(ctx, b));
    }
}

/// Bucket-level decomposition: the jobs of bucket `i` cover exactly the
/// depth-0 bucket enumeration.
proof fn lemma_cover_bucket(ctx: Context, i: int, j: int, skipped: bool)
    ensures
        concat_job_sols(ctx, bucket_jobs(ctx, i, j, skipped)) == search_bucket(
            ctx,
            Seq::empty(),
            0u32,
            i,
            j,
            skipped,
        ),
    decreases ctx.letter_index@[i]@.len() - j,
{
    lemma_zero_mask();
    if i < 0 || i >= 26 || j < 0 || j >= ctx.letter_index@[i]@.len() {
        assert(concat_job_sols(ctx, bucket_jobs(ctx, i, j, skipped)) =~= search_bucket(
            ctx,
            Seq::empty(),
            0u32,
            i,
            j,
            skipped,
        ));
    } else {
        lemma_cover_bucket(ctx, i, j + 1, skipped);
        let w = ctx.letter_index@[i]@[j];
        let jb = Job { word: w, rank: i as usize, skipped };
        let jobs = bucket_jobs(ctx, i, j, skipped);
        lemma_concat_split(ctx, seq![jb], bucket_jobs(ctx, i, j + 1, skipped));
        assert(seq![jb].drop_last() =~= Seq::<Job>::empty());
        assert(concat_job_sols(ctx, Seq::<Job>::empty()) + job_sols(ctx, jb) =~= job_sols(
            ctx,
            jb,
        ));
        assert(concat_job_sols(ctx, seq![jb]) == job_sols(ctx, jb));
        assert(Seq::<u32>::empty().push(w) =~= seq![w]);
        assert(job_sols(ctx, jb) == search_from_rank(ctx, seq![w], w, i + 1, skipped));
        assert(search_bucket(ctx, Seq::empty(), 0u32, i, j, skipped) == search_from_rank(
            ctx,
            seq![w],
            w,
            i + 1,
            skipped,
        ) + search_bucket(ctx, Seq::empty(), 0u32, i, j + 1, skipped));
    }
}

/// Rank-level decomposition: the jobs from rank `i` cover exactly the
/// depth-0 rank enumeration.
proof fn lemma_cover_rank(ctx: Context, i: int, skipped: bool)
    ensures
        concat_job_sols(ctx, jobs_from_rank(ctx, i, skipped)) == search_from_rank(
            ctx,
            Seq::empty(),
            0u32,
            i,
            skipped,
        ),
    decreases 26 - i,
{
    lemma_zero_mask();
    if i < 0 || i >= 26 {
        assert(concat_job_sols(ctx, jobs_from_rank(ctx, i, skipped)) =~= search_from_rank(
            ctx,
            Seq::empty(),
            0u32,
            i,
            skipped,
        ));
    } else {
        assert(0u32 & (1u32 << (ctx.order@[i] as u32)) == 0) by (bit_vector);
        lemma_cover_bucket(ctx, i, 0, skipped);
        if !skipped {
            lemma_cover_rank(ctx, i + 1, true);
            lemma_concat_split(ctx, bucket_jobs(ctx, i, 0, skipped), jobs_from_rank(ctx, i + 1, true));
        }
    }
}

/// The decomposition law: the jobs' solutions, concatenated in job order,
/// are exactly the sequential enumeration. Each job's result is a pure
/// function of the context and the job, so any worker pool that runs every
/// job exactly once finds the same set of Solutions as the sequential
/// search, whatever the worker count.
pub proof fn lemma_jobs_cover(ctx: Context)
    ensures
        concat_job_sols(ctx, all_jobs(ctx)) == search_from_rank(
            ctx,
            Seq::empty(),
            0u32,
            0,
            false,
        ),
{
    lemma_cover_rank(ctx, 0, false);
}

/// Merging two workers' result blocks in either order yields the same
/// multiset of Solutions: the final list's order depends on worker
/// completion order, its contents do not.
pub proof fn lemma_merge_order_irrelevant(a: Seq<Seq<u32>>, b: Seq<Seq<u32>>)
    ensures
        (a + b).to_multiset() == (b + a).to_multiset(),
{
    vstd::seq_lib::lemma_seq_union_to_multiset_commutative(a, b);
    assert((a + b).to_multiset() =~= (b + a).to_multiset());
}

/// Flattens the top search level into the deterministic job list, in rank
/// order then bucket order.
pub fn generate_jobs(ctx: &Context) -> (jobs: Vec<Job>)
    requires
        ctx.wf(),
    ensures
        jobs@ == all_jobs(*ctx),
        forall|t: int| 0 <= t < jobs@.len() ==> job_wf(*ctx, #[trigger] jobs@[t]),
{
    let ghost gctx = *ctx;
    let mut jobs: Vec<Job> = Vec::new();
    let mut i: usize = 0;
    let mut sk = false;
    proof {
        assert(jobs@ + jobs_from_rank(gctx, 0, false) =~= all_jobs(gctx));
    }
    while i < 26
        invariant_except_break
            gctx == *ctx,
            ctx.wf(),
            i <= 26,
            all_jobs(gctx) == jobs@ + jobs_from_rank(gctx, i as int, sk),
        ensures
            jobs@ == all_jobs(gctx),
        decreases 26 - i,
    {
        let bucket_len = ctx.letter_index[i].len();
        let ghost jobs1 = jobs@;
        let mut j: usize = 0;
        while j < bucket_len
            invariant
                gctx == *ctx,
                ctx.wf(),
                i < 26,
                j <= bucket_len,
                bucket_len == gctx.letter_index@[i as int]@.len(),
                jobs1 + bucket_jobs(gctx, i as int, 0, sk) == jobs@ + bucket_jobs(
                    gctx,
                    i as int,
                    j as int,
                    sk,
                ),
            decreases bucket_len - j,
        {
            let jb = Job { word: ctx.letter_index[i][j], rank: i, skipped: sk };
            jobs.push(jb);
            proof {
                assert(bucket_jobs(gctx, i as int, j as int, sk) == seq![jb] + bucket_jobs(
                    gctx,
                    i as int,
                    j as int + 1,
                    sk,
                ));
                assert(jobs1 + bucket_jobs(gctx, i as int, 0, sk) =~= jobs@ + bucket_jobs(
                    gctx,
                    i as int,
                    j as int + 1,
                    sk,
                ));
            }
            j = j + 1;
        }
        proof {
            assert(bucket_jobs(gctx, i as int, bucket_len as int, sk) =~= Seq::<Job>::empty());
            assert(jobs@ =~= jobs1 + bucket_jobs(gctx, i as int, 0, sk));
        }
        if sk {
            proof {
                assert(jobs_from_rank(gctx, i as int, sk) == bucket_jobs(gctx, i as int, 0, sk));
            }
            break ;
        }
        proof {
            assert(jobs_from_rank(gctx, i as int, false) == bucket_jobs(gctx, i as int, 0, false)
                + jobs_from_rank(gctx, i as int + 1, true));
            assert(all_jobs(gctx) =~= jobs@ + jobs_from_rank(gctx, i as int + 1, true));
        }
        sk = true;
        i = i + 1;
    }
    proof {
        lemma_jobs_wf(gctx, 0, false);
    }
    jobs
}

/// Runs one job's subtree and returns its Solutions: exactly the job's
/// share of the enumeration, each a valid Solution.
pub fn run_job(ctx: &Context, job: Job) -> (r: Vec<[u32; 5]>)
    requires
        ctx.wf(),
        job_wf(*ctx, job),
    ensures
        sols_view(r@) == job_sols(*ctx, job),
        forall|t: int| 0 <= t < r@.len() ==> is_solution(*ctx, (#[trigger] r@[t])@),
{
    let mut f = Finder::new(ctx);
    let mut words: [u32; 5] = [0;5];
    words[0] = job.word;
    proof {
        assert(words@.take(1) =~= seq![job.word]);
        assert(sols_view(f.res@) =~= Seq::<Seq<u32>>::empty());
    }
    f.find(&mut words, 1, job.word, job.rank + 1, job.skipped);
    proof {
        assert(sols_view(f.res@) =~= Seq::<Seq<u32>>::empty() + job_sols(*ctx, job));
        lemma_zero_mask();
        crate::finder::lemma_bucket_sub(ctx.all_word_bits@, ctx.reverse_order@, job.rank as int);
        assert(ctx.all_word_bits@.contains(job.word));
        assert(seq![job.word].drop_last() =~= Seq::<u32>::empty());
        assert(or_all(Seq::<u32>::empty()) == 0u32);
        assert(or_all(seq![job.word]) == 0u32 | job.word);
        assert(or_all(seq![job.word]) == job.word);
        crate::finder::lemma_table_mask_popcount(*ctx, job.word);
        assert(partial_ok(*ctx, seq![job.word], job.word));
        lemma_search_from_rank_sound(*ctx, seq![job.word], job.word, job.rank + 1, job.skipped);
        assert(all_solutions(*ctx, job_sols(*ctx, job)));
        assert forall|t: int| 0 <= t < f.res@.len() implies is_solution(
            *ctx,
            (#[trigger] f.res@[t])@,
        ) by {
            assert(sols_view(f.res@)[t] == f.res@[t]@);
        }
    }
    f.res
}

/// Generates the job list and runs every job in order, concatenating the
/// results: exactly the sequential enumeration, each entry a valid
/// Solution. A worker pool computes the same multiset of results.
pub fn find_all_words(ctx: &Context) -> (r: Vec<[u32; 5]>)
    requires
        ctx.wf(),
    ensures
        sols_view(r@) == search_from_rank(*ctx, Seq::empty(), 0u32, 0, false),
        forall|t: int| 0 <= t < r@.len() ==> is_solution(*ctx, (#[trigger] r@[t])@),
{
    let ghost gctx = *ctx;
    let jobs = generate_jobs(ctx);
    let mut res: Vec<[u32; 5]> = Vec::new();
    let n = jobs.len();
    proof {
        assert(jobs@.take(0) =~= Seq::<Job>::empty());
        assert(sols_view(res@) =~= concat_job_sols(gctx, jobs@.take(0)));
    }
    for k in 0..n
        invariant
            gctx == *ctx,
            ctx.wf(),
            n == jobs@.len(),
            jobs@ == all_jobs(gctx),
            forall|t: int| 0 <= t < jobs@.len() ==> job_wf(gctx, #[trigger] jobs@[t]),
            sols_view(res@) == concat_job_sols(gctx, jobs@.take(k as int)),
            forall|t: int| 0 <= t < res@.len() ==> is_solution(gctx, (#[trigger] res@[t])@),
        decreases n - k,
    {
        let jb = jobs[k];
        let ghost res0 = res@;
        let mut part = run_job(ctx, jb);
        let ghost gpart = part@;
        res.append(&mut part);
        proof {
            lemma_concat_push(gctx, jobs@.take(k as int), jb);
            assert(jobs@.take(k as int).push(jb) =~= jobs@.take(k as int + 1));
            assert(sols_view(res@) =~= sols_view(res0) + sols_view(gpart));
            assert(sols_view(res@) =~= concat_job_sols(gctx, jobs@.take(k as int + 1)));
            assert forall|t: int| 0 <= t < res@.len() implies is_solution(
                gctx,
                (#[trigger] res@[t])@,
            ) by {
                if t < res0.len() {
                    assert(res@[t] == res0[t]);
                } else {
                    assert(res@[t] == gpart[t - res0.len()]);
                }
            }
        }
    }
    proof {
        assert(jobs@.take(n as int) =~= jobs@);
        lemma_jobs_cover(gctx);
    }
    res
}

} // verus!
