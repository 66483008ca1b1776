//! LetterSet bitmasks: each eligible word is encoded as a 26-bit mask where
//! bit `k` is set iff letter `k` (0 = 'a' .. 25 = 'z') occurs in the word.
use vstd::prelude::*;

verus! {

/// True iff bit `l` of mask `m` is set.
pub open spec fn bit_set(m: u32, l: u32) -> bool {
    m & (1u32 << l) != 0
}

/// True iff byte `b` is an ASCII lowercase letter.
pub open spec fn is_lower(b: u8) -> bool {
    97 <= b <= 122
}

/// The single-bit mask of the letter that byte `b` stands for.
pub open spec fn letter_bit(b: u8) -> u32
    recommends
        is_lower(b),
{
    1u32 << ((b - 97) as u32)
}

/// The LetterSet of a word: the union of its letters' bits.
pub open spec fn word_mask(w: Seq<u8>) -> u32
    decreases w.len(),
{
    if w.len() == 0 {
        0u32
    } else {
        word_mask(w.drop_last()) | letter_bit(w.last())
    }
}

/// Number of set bits in `m`.
pub open spec fn popcount(m: u32) -> nat
    decreases m,
{
    if m == 0 {
        0
    } else {
        ((m % 2) + popcount(m / 2)) as nat
    }
}

/// The union of a sequence of masks.
pub open spec fn or_all(s: Seq<u32>) -> u32
    decreases s.len(),
{
    if s.len() == 0 {
        0u32
    } else {
        or_all(s.drop_last()) | s.last()
    }
}

/// `popcount` never exceeds the value itself.
proof fn lemma_popcount_le(m: u32)
    ensures
        popcount(m) <= m,
    decreases m,
{
    if m != 0 {
        lemma_popcount_le(m / 2);
    }
}

/// Disjoint masks contribute independent bits: popcount distributes over `|`.
pub proof fn lemma_popcount_or_disjoint(a: u32, b: u32)
    requires
        a & b == 0,
    ensures
        popcount(a | b) == popcount(a) + popcount(b),
    decreases a + b,
{
    if a == 0 && b == 0 {
        assert(0u32 | 0u32 == 0) by (bit_vector);
    } else {
        assert((a | b) % 2 == a % 2 + b % 2) by (bit_vector)
            requires
                a & b == 0,
        ;
        assert((a | b) / 2 == (a / 2) | (b / 2)) by (bit_vector);
        assert((a / 2) & (b / 2) == 0) by (bit_vector)
            requires
                a & b == 0,
        ;
        assert(a / 2 + b / 2 < a + b);
        lemma_popcount_or_disjoint(a / 2, b / 2);
        assert(a | b != 0) by (bit_vector)
            requires
                !(a == 0 && b == 0),
        ;
    }
}

/// A single letter bit has exactly one set bit.
pub proof fn lemma_popcount_single(l: u32)
    requires
        l < 32,
    ensures
        popcount(1u32 << l) == 1,
    decreases l,
{
    if l == 0 {
        reveal_with_fuel(popcount, 2);
        assert(1u32 << 0 == 1) by (bit_vector);
    } else {
        let lp = (l - 1) as u32;
        lemma_popcount_single(lp);
        assert((1u32 << l) % 2 == 0 && (1u32 << l) / 2 == 1u32 << lp && 1u32 << l != 0)
            by (bit_vector)
            requires
                0 < l < 32 && lp == l - 1,
        ;
    }
}

/// The zero mask has no bit set.
pub proof fn lemma_zero_bits()
    ensures
        forall|l: u32| !bit_set(0u32, l),
{
    assert forall|l: u32| !(#[trigger] bit_set(0u32, l)) by {
        assert(0u32 & (1u32 << l) == 0) by (bit_vector);
    }
}

/// A mask below `1 << n` has at most `n` set bits.
pub proof fn lemma_popcount_bound(m: u32, n: u32)
    requires
        n <= 31,
        m < (1u32 << n),
    ensures
        popcount(m) <= n,
    decreases n,
{
    if n == 0 {
        assert(m < (1u32 << 0u32) ==> m == 0) by (bit_vector);
    } else {
        let n1 = (n - 1) as u32;
        assert(m / 2 < (1u32 << n1)) by (bit_vector)
            requires
                m < (1u32 << n),
                n1 == n - 1,
                1 <= n <= 31,
        ;
        lemma_popcount_bound(m / 2, n1);
    }
}

/// A mask whose bits `0..n` are all set has at least `n` set bits.
pub proof fn lemma_all_low_bits(m: u32, n: u32)
    requires
        n <= 31,
        forall|l: u32| l < n ==> bit_set(m, l),
    ensures
        popcount(m) >= n,
    decreases n,
{
    if n > 0 {
        assert(bit_set(m, 0));
        assert(m & (1u32 << 0u32) != 0 ==> (m % 2 == 1 && m != 0)) by (bit_vector);
        assert forall|l: u32| l < n - 1 implies #[trigger] bit_set(m / 2, l) by {
            let l1 = (l + 1) as u32;
            assert(bit_set(m, l1));
            assert(m & (1u32 << l1) != 0 ==> (m / 2) & (1u32 << l) != 0) by (bit_vector)
                requires
                    l1 == l + 1,
                    l < 31u32,
            ;
        }
        lemma_all_low_bits(m / 2, (n - 1) as u32);
    }
}

/// A mask disjoint from a union is disjoint from every member of the union.
pub proof fn lemma_or_all_disjoint(s: Seq<u32>, w: u32)
    requires
        w & or_all(s) == 0,
    ensures
        forall|k: int| 0 <= k < s.len() ==> w & s[k] == 0,
    decreases s.len(),
{
    if s.len() > 0 {
        let a = or_all(s.drop_last());
        let b = s.last();
        assert(w & (a | b) == 0 ==> w & a == 0 && w & b == 0) by (bit_vector);
        lemma_or_all_disjoint(s.drop_last(), w);
        assert(forall|k: int| 0 <= k < s.len() - 1 ==> s.drop_last()[k] == s[k]);
    }
}

/// Appending a mask to a sequence extends the union by that mask.
pub proof fn lemma_or_all_push(s: Seq<u32>, w: u32)
    ensures
        or_all(s.push(w)) == or_all(s) | w,
{
    assert(s.push(w).drop_last() =~= s);
}

/// LetterSets of lowercase words only use the low 26 bits.
pub proof fn lemma_word_mask_bound(w: Seq<u8>)
    requires
        forall|k: int| 0 <= k < w.len() ==> is_lower(#[trigger] w[k]),
    ensures
        word_mask(w) < 0x4000000,
    decreases w.len(),
{
    if w.len() == 0 {
    } else {
        lemma_word_mask_bound(w.drop_last());
        let a = word_mask(w.drop_last());
        let x = ((w.last() - 97) as u32);
        assert((a | (1u32 << x)) < 0x4000000) by (bit_vector)
            requires
                a < 0x4000000,
                x < 26,
        ;
    }
}

/// The bit of a word's last letter is set in its LetterSet.
pub proof fn lemma_word_mask_has_bit(w: Seq<u8>)
    requires
        w.len() > 0,
        is_lower(w.last()),
    ensures
        bit_set(word_mask(w), (w.last() - 97) as u32),
{
    let a = word_mask(w.drop_last());
    let x = ((w.last() - 97) as u32);
    assert((a | (1u32 << x)) & (1u32 << x) != 0) by (bit_vector)
        requires
            x < 26,
    ;
}

/// Exec bit count, proved equal to the `popcount` spec.
pub fn count_bits(m: u32) -> (r: u64)
    ensures
        r == popcount(m),
{
    let mut cur: u32 = m;
    let mut r: u64 = 0;
    proof {
        lemma_popcount_le(m);
    }
    while cur != 0
        invariant
            r + popcount(cur) == popcount(m),
            popcount(m) <= u32::MAX,
        decreases cur,
    {
        r = r + (cur % 2) as u64;
        cur = cur / 2;
    }
    r
}

/// Encodes a five-letter word as its LetterSet mask.
pub fn word_bits(w: &[u8; 5]) -> (bits: u32)
    requires
        forall|k: int| 0 <= k < 5 ==> is_lower(w@[k]),
    ensures
        bits == word_mask(w@),
{
    let mut bits: u32 = 0;
    for i in 0..5
        invariant
            forall|k: int| 0 <= k < 5 ==> is_lower(w@[k]),
            bits == word_mask(w@.take(i as int)),
    {
        proof {
            assert(w@.take(i + 1).drop_last() =~= w@.take(i as int));
            assert(w@.take(i + 1).last() == w@[i as int]);
        }
        bits = bits | (1u32 << ((w[i] - 97) as u32));
    }
    proof {
        assert(w@.take(5) =~= w@);
    }
    bits
}

} // verus!
