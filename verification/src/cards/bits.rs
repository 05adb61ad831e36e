//! The arithmetic of a 64-bit word read as a set of positions.

use vstd::prelude::*;

verus! {

/// Whether bit `i` of `b` is set.
pub open spec fn bit(b: u64, i: nat) -> bool {
    i < 64 && (b >> (i as u64)) & 1 == 1
}

/// How many of the bits of `b` below position `n` are set.
pub open spec fn count_low(b: u64, n: nat) -> nat
    decreases n,
{
    if n == 0 {
        0
    } else {
        count_low(b, (n - 1) as nat) + if bit(b, (n - 1) as nat) {
            1nat
        } else {
            0nat
        }
    }
}

/// The lowest `w` bits set, for `w` from one to sixty-four.
pub open spec fn low_mask(w: u64) -> u64 {
    u64::MAX >> ((64 - w) as u64)
}

/// Masking keeps the bits below the mask's width and clears the rest.
pub proof fn lemma_mask_bit(x: u64, w: u64, i: u64)
    requires
        1 <= w <= 64,
        i < 64,
    ensures
        ((x & low_mask(w)) >> i) & 1 == if i < w {
            (x >> i) & 1
        } else {
            0
        },
{
    assert(((x & (u64::MAX >> ((64 - w) as u64))) >> i) & 1 == if i < w {
        (x >> i) & 1
    } else {
        0
    }) by (bit_vector)
        requires
            1 <= w <= 64,
            i < 64,
    ;
}

/// Shifting down by `a` moves bit `a + i` to bit `i`.
pub proof fn lemma_shr_bit(x: u64, a: u64, i: u64)
    requires
        a < 64,
        i < 64,
    ensures
        ((x >> a) >> i) & 1 == if a + i < 64 {
            (x >> ((a + i) as u64)) & 1
        } else {
            0
        },
{
    assert(((x >> a) >> i) & 1 == if a + i < 64 {
        (x >> ((a + i) as u64)) & 1
    } else {
        0
    }) by (bit_vector)
        requires
            a < 64,
            i < 64,
    ;
}

/// Two words that agree below `n` have as many bits set there.
pub proof fn lemma_count_agree(x: u64, y: u64, n: nat)
    requires
        forall|i: nat| i < n ==> bit(x, i) == bit(y, i),
    ensures
        count_low(x, n) == count_low(y, n),
    decreases n,
{
    if n > 0 {
        lemma_count_agree(x, y, (n - 1) as nat);
        assert(bit(x, (n - 1) as nat) == bit(y, (n - 1) as nat));
    }
}

/// No bits set in `[m, n)` adds nothing to the count.
pub proof fn lemma_count_flat(x: u64, m: nat, n: nat)
    requires
        m <= n,
        forall|i: nat| m <= i < n ==> !bit(x, i),
    ensures
        count_low(x, n) == count_low(x, m),
    decreases n,
{
    if n > m {
        lemma_count_flat(x, m, (n - 1) as nat);
        assert(!bit(x, (n - 1) as nat));
    }
}

/// A count of nothing below `n` means no bit below `n` is set.
pub proof fn lemma_count_zero(x: u64, n: nat)
    requires
        count_low(x, n) == 0,
    ensures
        forall|i: nat| i < n ==> !bit(x, i),
    decreases n,
{
    if n > 0 {
        lemma_count_zero(x, (n - 1) as nat);
    }
}

/// The count only grows.
pub proof fn lemma_count_mono(x: u64, m: nat, n: nat)
    requires
        m <= n,
    ensures
        count_low(x, m) <= count_low(x, n),
    decreases n,
{
    if n > m {
        lemma_count_mono(x, m, (n - 1) as nat);
    }
}

/// A count never exceeds the positions counted.
pub proof fn lemma_count_bound(x: u64, n: nat)
    ensures
        count_low(x, n) <= n,
    decreases n,
{
    if n > 0 {
        lemma_count_bound(x, (n - 1) as nat);
    }
}

/// Counting up to `a + b` is counting up to `a`, then counting the next `b`
/// positions of the word shifted down by `a`.
pub proof fn lemma_count_split(x: u64, a: u64, b: nat)
    requires
        a < 64,
        a + b <= 64,
    ensures
        count_low(x, (a + b) as nat) == count_low(x, a as nat) + count_low(x >> a, b),
    decreases b,
{
    if b > 0 {
        lemma_count_split(x, a, (b - 1) as nat);
        lemma_shr_bit(x, a, (b - 1) as u64);
        assert(bit(x >> a, (b - 1) as nat) == bit(x, (a + b - 1) as nat));
    }
}

/// The masked word has the bits below `w`, and none above.
pub proof fn lemma_count_mask(x: u64, w: u64)
    requires
        1 <= w <= 64,
    ensures
        count_low(x & low_mask(w), 64) == count_low(x, w as nat),
{
    assert forall|i: nat| i < w implies bit(x & low_mask(w), i) == bit(x, i) by {
        lemma_mask_bit(x, w, i as u64);
    }
    lemma_count_agree(x & low_mask(w), x, w as nat);
    assert forall|i: nat| w <= i < 64 implies !bit(x & low_mask(w), i) by {
        lemma_mask_bit(x, w, i as u64);
    }
    lemma_count_flat(x & low_mask(w), w as nat, 64);
}

/// Every card bit: the fifty-two lowest.
pub const FULL_BITS: u64 = 0xF_FFFF_FFFF_FFFF;

/// The operations a set is built from, bit by bit.
pub proof fn lemma_bit_ops(b: u64, o: u64, j: u64)
    requires
        j < 64,
    ensures
        bit(b | o, j as nat) == (bit(b, j as nat) || bit(o, j as nat)),
        bit(b & o, j as nat) == (bit(b, j as nat) && bit(o, j as nat)),
        bit(b & !o, j as nat) == (bit(b, j as nat) && !bit(o, j as nat)),
{
    assert(((b | o) >> j) & 1 == 1 <==> (((b >> j) & 1 == 1) || ((o >> j) & 1 == 1)))
        by (bit_vector)
        requires
            j < 64,
    ;
    assert(((b & o) >> j) & 1 == 1 <==> (((b >> j) & 1 == 1) && ((o >> j) & 1 == 1)))
        by (bit_vector)
        requires
            j < 64,
    ;
    assert(((b & !o) >> j) & 1 == 1 <==> (((b >> j) & 1 == 1) && !((o >> j) & 1 == 1)))
        by (bit_vector)
        requires
            j < 64,
    ;
}

/// The single bit at `i`.
pub proof fn lemma_single_bit(i: u64, j: u64)
    requires
        i < 64,
        j < 64,
    ensures
        bit(1u64 << i, j as nat) == (i == j),
{
    assert(((1u64 << i) >> j) & 1 == 1 <==> i == j) by (bit_vector)
        requires
            i < 64,
            j < 64,
    ;
}

/// Testing one bit by masking.
pub proof fn lemma_test_bit(b: u64, i: u64)
    requires
        i < 64,
    ensures
        (b & (1u64 << i) != 0) == bit(b, i as nat),
{
    assert((b & (1u64 << i) != 0) == ((b >> i) & 1 == 1)) by (bit_vector)
        requires
            i < 64,
    ;
}

/// A word within the card bits has nothing at fifty-two or above.
pub proof fn lemma_high_clear(b: u64, j: u64)
    requires
        b <= FULL_BITS,
        52 <= j < 64,
    ensures
        !bit(b, j as nat),
{
    assert((b >> j) & 1 == 0) by (bit_vector)
        requires
            b <= 0xF_FFFF_FFFF_FFFFu64,
            52 <= j < 64,
    ;
}

/// The operations keep a word within the card bits.
pub proof fn lemma_bounded(b: u64, o: u64, i: u64)
    requires
        b <= FULL_BITS,
    ensures
        o <= FULL_BITS ==> b | o <= FULL_BITS,
        b & o <= FULL_BITS,
        b & !o <= FULL_BITS,
        i < 52 ==> b | (1u64 << i) <= FULL_BITS,
        o & FULL_BITS <= FULL_BITS,
{
    if o <= FULL_BITS {
        assert(b | o <= 0xF_FFFF_FFFF_FFFFu64) by (bit_vector)
            requires
                b <= 0xF_FFFF_FFFF_FFFFu64,
                o <= 0xF_FFFF_FFFF_FFFFu64,
        ;
    }
    assert(b & o <= b) by (bit_vector);
    assert(b & !o <= b) by (bit_vector);
    if i < 52 {
        assert(b | (1u64 << i) <= 0xF_FFFF_FFFF_FFFFu64) by (bit_vector)
            requires
                b <= 0xF_FFFF_FFFF_FFFFu64,
                i < 52,
        ;
    }
    assert(o & 0xF_FFFF_FFFF_FFFFu64 <= 0xF_FFFF_FFFF_FFFFu64) by (bit_vector);
}

/// A word with no bit set at or above `n` shifts down to nothing there.
pub proof fn lemma_zero_above(x: u64, n: nat)
    requires
        n <= 64,
        forall|j: nat| n <= j < 64 ==> !bit(x, j),
    ensures
        n < 64 ==> x >> (n as u64) == 0,
        n == 0 ==> x == 0,
    decreases 64 - n,
{
    if n < 64 {
        let k = n as u64;
        assert(!bit(x, n));
        assert((x >> k) & 1 != 1);
        if n + 1 < 64 {
            lemma_zero_above(x, n + 1);
            assert(x >> ((k + 1) as u64) == 0);
            assert((x >> ((k + 1) as u64)) == 0 && (x >> k) & 1 != 1 ==> x >> k == 0)
                by (bit_vector)
                requires
                    k + 1 < 64,
            ;
        } else {
            assert(k == 63);
            assert((x >> 63u64) & 1 != 1 ==> x >> 63u64 == 0) by (bit_vector);
        }
        assert(x >> k == 0);
        if n == 0 {
            assert(x >> 0u64 == x) by (bit_vector);
        }
    }
}

/// Two words with the same bits are the same word.
pub proof fn lemma_bits_equal(a: u64, b: u64)
    requires
        forall|j: nat| j < 64 ==> bit(a, j) == bit(b, j),
    ensures
        a == b,
{
    assert forall|j: nat| j < 64 implies !bit(a ^ b, j) by {
        let k = j as u64;
        assert(((a ^ b) >> k) & 1 == 1 <==> (((a >> k) & 1 == 1) != ((b >> k) & 1 == 1)))
            by (bit_vector)
            requires
                k < 64,
        ;
        assert(bit(a, j) == bit(b, j));
    }
    lemma_zero_iff(a ^ b);
    assert(a ^ b == 0 ==> a == b) by (bit_vector);
}

/// A word with no bit set anywhere is zero, and zero has no bit set.
pub proof fn lemma_zero_iff(x: u64)
    ensures
        (x == 0) == (forall|j: nat| j < 64 ==> !bit(x, j)),
{
    if forall|j: nat| j < 64 ==> !bit(x, j) {
        lemma_zero_above(x, 0);
    }
    if x == 0 {
        assert forall|j: nat| j < 64 implies !bit(x, j) by {
            let k = j as u64;
            assert((0u64 >> k) & 1 == 0) by (bit_vector);
        }
    }
}

} // verus!
