//! Splitting the raw dictionary buffer into whitespace-delimited tokens.
use vstd::prelude::*;

verus! {

/// True iff `b` is an ASCII whitespace byte (space, tab, newline, form feed,
/// carriage return).
pub open spec fn is_ws(b: u8) -> bool {
    b == 32 || b == 9 || b == 10 || b == 12 || b == 13
}

/// The maximal runs of non-whitespace bytes of `s`, in order.
pub open spec fn split_tokens(s: Seq<u8>) -> Seq<Seq<u8>>
    decreases s.len(),
{
    if s.len() == 0 {
        Seq::empty()
    } else if is_ws(s[0]) {
        split_tokens(s.drop_first())
    } else {
        let rest = split_tokens(s.drop_first());
        if s.len() > 1 && !is_ws(s[1]) {
            seq![seq![s[0]] + rest[0]] + rest.drop_first()
        } else {
            seq![seq![s[0]]] + rest
        }
    }
}

/// The views of a sequence of byte vectors.
pub open spec fn views_of(toks: Seq<Vec<u8>>) -> Seq<Seq<u8>> {
    Seq::new(toks.len(), |k: int| toks[k]@)
}

/// A maximal non-whitespace run `s[i..j]` is the first token of `s[i..]`.
proof fn lemma_token_run(s: Seq<u8>, i: int, j: int)
    requires
        0 <= i < j <= s.len(),
        forall|k: int| i <= k < j ==> !is_ws(s[k]),
        j == s.len() || is_ws(s[j]),
    ensures
        split_tokens(s.skip(i)) == seq![s.subrange(i, j)] + split_tokens(s.skip(j)),
    decreases j - i,
{
    let t = s.skip(i);
    assert(t[0] == s[i]);
    if j == i + 1 {
        if t.len() > 1 && !is_ws(t[1]) {
            assert(t[1] == s[i + 1]);
            assert(false);
        }
        assert(t.drop_first() =~= s.skip(j));
        assert(s.subrange(i, j) =~= seq![s[i]]);
        assert(split_tokens(s.skip(i)) =~= seq![s.subrange(i, j)] + split_tokens(s.skip(j)));
    } else {
        assert(t.len() > 1 && t[1] == s[i + 1] && !is_ws(s[i + 1]));
        lemma_token_run(s, i + 1, j);
        assert(t.drop_first() =~= s.skip(i + 1));
        let rest = split_tokens(s.skip(i + 1));
        assert(rest[0] == s.subrange(i + 1, j));
        assert(seq![s[i]] + s.subrange(i + 1, j) =~= s.subrange(i, j));
        assert(rest.drop_first() =~= split_tokens(s.skip(j)));
        assert(seq![seq![t[0]] + rest[0]] + rest.drop_first() =~= seq![s.subrange(i, j)]
            + split_tokens(s.skip(j)));
    }
}

fn ws(b: u8) -> (r: bool)
    ensures
        r == is_ws(b),
{
    b == 32 || b == 9 || b == 10 || b == 12 || b == 13
}

/// Splits `buf` into its whitespace-delimited tokens, in order.
pub fn tokenize(buf: &[u8]) -> (toks: Vec<Vec<u8>>)
    ensures
        views_of(toks@) == split_tokens(buf@),
{
    let n = buf.len();
    let mut toks: Vec<Vec<u8>> = Vec::new();
    let mut i: usize = 0;
    proof {
        assert(buf@.skip(0) =~= buf@);
        assert(views_of(toks@) + split_tokens(buf@) =~= split_tokens(buf@));
    }
    while i < n
        invariant
            i <= n == buf@.len(),
            split_tokens(buf@) == views_of(toks@) + split_tokens(buf@.skip(i as int)),
        decreases n - i,
    {
        if ws(buf[i]) {
            proof {
                assert(buf@.skip(i as int).drop_first() =~= buf@.skip(i + 1));
            }
            i = i + 1;
        } else {
            let start = i;
            let mut j = i + 1;
            while j < n && !ws(buf[j])
                invariant
                    start < j <= n == buf@.len(),
                    forall|k: int| start <= k < j ==> !is_ws(buf@[k]),
                decreases n - j,
            {
                j = j + 1;
            }
            let mut t: Vec<u8> = Vec::new();
            let mut k = start;
            while k < j
                invariant
                    start <= k <= j <= buf@.len(),
                    t@ == buf@.subrange(start as int, k as int),
                decreases j - k,
            {
                t.push(buf[k]);
                proof {
                    assert(buf@.subrange(start as int, k + 1) =~= buf@.subrange(
                        start as int,
                        k as int,
                    ).push(buf@[k as int]));
                }
                k = k + 1;
            }
            proof {
                lemma_token_run(buf@, start as int, j as int);
            }
            toks.push(t);
            proof {
                assert(views_of(toks@) =~= views_of(toks@.drop_last()).push(t@));
                assert(views_of(toks@.drop_last()) + (seq![t@] + split_tokens(buf@.skip(j as int)))
                    =~= views_of(toks@) + split_tokens(buf@.skip(j as int)));
            }
            i = j;
        }
    }
    proof {
        assert(buf@.skip(n as int) =~= Seq::<u8>::empty());
        assert(views_of(toks@) + split_tokens(buf@.skip(n as int)) =~= views_of(toks@));
    }
    toks
}

} // verus!
