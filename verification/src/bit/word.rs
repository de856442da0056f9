//! Single machine words as rows of bits: masks, the three ways to change one
//! bit, and the jump to the lowest set bit.
use vstd::prelude::*;

verus! {

/// The number of bits in a machine word.
pub const WORD_BITS: usize = usize::BITS as usize;

/// Bit `k` of `word`, counted from the least significant.
pub open spec fn bit_at(word: usize, k: usize) -> bool {
    (word >> k) & 1 == 1
}

/// The position of the lowest set bit of a word that is not zero.
pub open spec fn lowest_set_bit(word: usize) -> usize {
    vstd::std_specs::bits::u64_trailing_zeros(word as u64) as usize
}

/// The complement of zero is the largest word.
pub proof fn lemma_all_ones()
    ensures
        !0usize == usize::MAX,
{
    let largest = usize::MAX;
    assert(largest <= !0usize) by (bit_vector);
}

/// A word is zero exactly when none of its bits is set.
pub proof fn lemma_zero_word(word: usize)
    ensures
        word == 0 <==> forall|k: usize| k < WORD_BITS ==> !bit_at(word, k),
{
    if word != 0 {
        lemma_lowest_set_bit(word);
        assert(bit_at(word, lowest_set_bit(word)));
    } else {
        assert forall|k: usize| k < WORD_BITS implies !bit_at(word, k) by {
            assert((0usize >> k) & 1 == 0) by (bit_vector);
        }
    }
}

/// Below the lowest set bit of a word every bit is clear; the bit itself is
/// set and lies within the word.
pub proof fn lemma_lowest_set_bit(word: usize)
    requires
        word != 0,
    ensures
        lowest_set_bit(word) < WORD_BITS,
        bit_at(word, lowest_set_bit(word)),
        forall|k: usize| k < lowest_set_bit(word) ==> !bit_at(word, k),
{
    let wide = word as u64;
    let zeros = vstd::std_specs::bits::u64_trailing_zeros(wide);
    vstd::std_specs::bits::axiom_u64_trailing_zeros(wide);
    assert(wide != 0) by (bit_vector)
        requires
            wide == word as u64,
            word != 0,
    ;
    let t = zeros as u64;
    assert((wide >> t) & 1 == 1);
    assert(t < usize::BITS && (word >> (t as usize)) & 1 == 1) by (bit_vector)
        requires
            wide == word as u64,
            t < 64,
            (wide >> t) & 1 == 1,
    ;
    assert forall|k: usize| k < lowest_set_bit(word) implies !bit_at(word, k) by {
        let j = k as u64;
        assert((wide >> j) & 1 == 0);
        assert((word >> k) & 1 != 1) by (bit_vector)
            requires
                wide == word as u64,
                j == k as u64,
                k < usize::BITS,
                (wide >> j) & 1 == 0,
        ;
    }
}

/// Or-ing a word with the mask of bit `k` sets that bit and no other; and-ing
/// with the mask tells whether the bit is set.
pub proof fn lemma_single_bit(n: usize, k: usize)
    requires
        k < WORD_BITS,
    ensures
        forall|j: usize|
            j < WORD_BITS ==> #[trigger] bit_at(n | (1usize << k), j) == (j == k || bit_at(n, j)),
        (n & (1usize << k) != 0) == bit_at(n, k),
{
    assert forall|j: usize| j < WORD_BITS implies #[trigger] bit_at(n | (1usize << k), j) == (j == k
        || bit_at(n, j)) by {
        assert((((n | (1usize << k)) >> j) & 1 == 1) == (j == k || (n >> j) & 1 == 1))
            by (bit_vector)
            requires
                j < usize::BITS,
                k < usize::BITS,
        ;
    }
    assert((n & (1usize << k) != 0) == ((n >> k) & 1 == 1)) by (bit_vector)
        requires
            k < usize::BITS,
    ;
}

/// And, or and complement work on every bit by itself.
pub proof fn lemma_bit_logic(x: usize, y: usize, k: usize)
    requires
        k < WORD_BITS,
    ensures
        bit_at(x & y, k) == (bit_at(x, k) && bit_at(y, k)),
        bit_at(x | y, k) == (bit_at(x, k) || bit_at(y, k)),
        bit_at(!x, k) == !bit_at(x, k),
{
    assert((((x & y) >> k) & 1 == 1) == ((x >> k) & 1 == 1 && (y >> k) & 1 == 1)) by (bit_vector)
        requires
            k < usize::BITS,
    ;
    assert((((x | y) >> k) & 1 == 1) == ((x >> k) & 1 == 1 || (y >> k) & 1 == 1)) by (bit_vector)
        requires
            k < usize::BITS,
    ;
    assert((((!x) >> k) & 1 == 1) == !((x >> k) & 1 == 1)) by (bit_vector)
        requires
            k < usize::BITS,
    ;
}

/// An index splits into the word that holds its bit and the bit's offset in
/// that word.
pub proof fn lemma_word_position(index: usize)
    ensures
        index == WORD_BITS * (index / WORD_BITS) + index % WORD_BITS,
        index % WORD_BITS < WORD_BITS,
        0 <= index / WORD_BITS <= index,
{
    vstd::arithmetic::div_mod::lemma_fundamental_div_mod(index as int, WORD_BITS as int);
    vstd::arithmetic::div_mod::lemma_mod_pos_bound(index as int, WORD_BITS as int);
    vstd::arithmetic::div_mod::lemma_div_pos_is_pos(index as int, WORD_BITS as int);
    vstd::arithmetic::div_mod::lemma_div_is_ordered_by_denominator(index as int, 1, WORD_BITS as int);
    assert(index as int / 1 == index);
}

/// The word and the offset determine the index.
pub proof fn lemma_position_unique(word: int, offset: int)
    requires
        0 <= word,
        0 <= offset < WORD_BITS,
    ensures
        (WORD_BITS * word + offset) / (WORD_BITS as int) == word,
        (WORD_BITS * word + offset) % (WORD_BITS as int) == offset,
{
    vstd::arithmetic::mul::lemma_mul_is_commutative(WORD_BITS as int, word);
    vstd::arithmetic::div_mod::lemma_fundamental_div_mod_converse(
        WORD_BITS * word + offset,
        WORD_BITS as int,
        word,
        offset,
    );
}

/// A word with only bit `offset` set.
pub fn single_bit_mask(offset: usize) -> (mask: usize)
    requires
        offset < WORD_BITS,
    ensures
        mask == 1usize << offset,
        forall|k: usize| k < WORD_BITS ==> bit_at(mask, k) == (k == offset),
{
    proof {
        assert forall|k: usize| k < WORD_BITS implies bit_at(1usize << offset, k) == (k
            == offset) by {
            assert((((1usize << offset) >> k) & 1 == 1) == (k == offset)) by (bit_vector)
                requires
                    k < usize::BITS,
                    offset < usize::BITS,
            ;
        }
    }
    1 << offset
}

/// Whether bit `k` of `n` is set.
#[inline(always)]
pub fn get_bit(n: usize, k: usize) -> (set: bool)
    requires
        k < WORD_BITS,
    ensures
        set == bit_at(n, k),
{
    proof {
        assert(((n >> k) & 1 == 0) == !((n >> k) & 1 == 1)) by (bit_vector);
    }
    if (n >> k) & 1 == 0 {
        false
    } else {
        true
    }
}

/// `n` with bit `k` set.
#[inline(always)]
pub fn set_bit(n: usize, k: usize) -> (word: usize)
    requires
        k < WORD_BITS,
    ensures
        word == n | (1usize << k),
        forall|j: usize| j < WORD_BITS ==> #[trigger] bit_at(word, j) == (j == k || bit_at(n, j)),
{
    proof {
        lemma_single_bit(n, k);
    }
    n | (1 << k)
}

/// `n` with bit `k` cleared.
#[inline(always)]
pub fn unset_bit(n: usize, k: usize) -> (word: usize)
    requires
        k < WORD_BITS,
    ensures
        word == n & !(1usize << k),
        forall|j: usize| j < WORD_BITS ==> #[trigger] bit_at(word, j) == (j != k && bit_at(n, j)),
{
    proof {
        assert forall|j: usize| j < WORD_BITS implies #[trigger] bit_at(n & !(1usize << k), j) == (
        j != k && bit_at(n, j)) by {
            assert((((n & !(1usize << k)) >> j) & 1 == 1) == (j != k && (n >> j) & 1 == 1))
                by (bit_vector)
                requires
                    j < usize::BITS,
                    k < usize::BITS,
            ;
        }
    }
    n & !(1 << k)
}

/// `n` with bit `k` inverted.
#[inline(always)]
pub fn toggle_bit(n: usize, k: usize) -> (word: usize)
    requires
        k < WORD_BITS,
    ensures
        word == n ^ (1usize << k),
        forall|j: usize| j < WORD_BITS ==> #[trigger] bit_at(word, j) == (bit_at(n, j) != (j == k)),
{
    proof {
        assert forall|j: usize| j < WORD_BITS implies #[trigger] bit_at(n ^ (1usize << k), j) == (
        bit_at(n, j) != (j == k)) by {
            assert((((n ^ (1usize << k)) >> j) & 1 == 1) == (((n >> j) & 1 == 1) != (j == k)))
                by (bit_vector)
                requires
                    j < usize::BITS,
                    k < usize::BITS,
            ;
        }
    }
    n ^ (1 << k)
}

/// A word whose bits from position `n` upwards are set and whose bits below
/// `n` are clear.
#[inline(always)]
pub fn mask_n_bits(n: usize) -> (mask: usize)
    requires
        n < WORD_BITS,
    ensures
        mask == usize::MAX << n,
        forall|j: usize| j < WORD_BITS ==> bit_at(mask, j) == (j >= n),
{
    proof {
        lemma_all_ones();
        assert forall|j: usize| j < WORD_BITS implies bit_at(usize::MAX << n, j) == (j >= n) by {
            assert((((!0usize << n) >> j) & 1 == 1) == (j >= n)) by (bit_vector)
                requires
                    j < usize::BITS,
                    n < usize::BITS,
            ;
        }
    }
    usize::MAX << n
}

/// All bits set for `true`, none for `false`.
#[inline(always)]
pub fn bool_to_mask(b: bool) -> (mask: usize)
    ensures
        mask == (if b {
            usize::MAX
        } else {
            0
        }),
        forall|j: usize| j < WORD_BITS ==> bit_at(mask, j) == b,
{
    proof {
        lemma_all_ones();
        assert forall|j: usize| j < WORD_BITS implies bit_at(usize::MAX, j) by {
            assert((!0usize >> j) & 1 == 1) by (bit_vector)
                requires
                    j < usize::BITS,
            ;
        }
        lemma_zero_word(0);
    }
    if b {
        usize::MAX
    } else {
        0
    }
}

/// `w` with its lowest set bit cleared; zero stays zero.
#[inline(always)]
pub fn clear_lowest_set_bit(w: usize) -> (word: usize)
    ensures
        w == 0 ==> word == 0,
        w != 0 ==> word == w & ((w - 1) as usize),
        w != 0 ==> forall|j: usize|
            j < WORD_BITS ==> bit_at(word, j) == (bit_at(w, j) && j != lowest_set_bit(w)),
{
    let below = w.wrapping_sub(1);
    proof {
        if w != 0 {
            lemma_lowest_set_bit(w);
            let t = lowest_set_bit(w);
            assert(below == (w - 1) as usize);
            assert(w & ((1usize << t) - 1) as usize == 0) by {
                lemma_low_bits_clear(w, t);
            }
            assert forall|j: usize| j < WORD_BITS implies bit_at(w & below, j) == (bit_at(w, j)
                && j != t) by {
                assert((((w & below) >> j) & 1 == 1) == ((w >> j) & 1 == 1 && j != t))
                    by (bit_vector)
                    requires
                        j < usize::BITS,
                        t < usize::BITS,
                        w != 0,
                        below == (w - 1) as usize,
                        (w >> t) & 1 == 1,
                        w & ((1usize << t) - 1) as usize == 0,
                ;
            }
        } else {
            assert(0usize & below == 0) by (bit_vector);
        }
    }
    w & below
}

/// Where every bit below `t` is clear, the word has nothing in common with the
/// mask of the `t` lowest bits.
proof fn lemma_low_bits_clear(w: usize, t: usize)
    requires
        t < WORD_BITS,
        forall|k: usize| k < t ==> !bit_at(w, k),
    ensures
        w & ((1usize << t) - 1) as usize == 0,
    decreases t,
{
    if t == 0 {
        assert(w & ((1usize << 0usize) - 1) as usize == 0) by (bit_vector);
    } else {
        let s = (t - 1) as usize;
        lemma_low_bits_clear(w, s);
        assert(!bit_at(w, s));
        assert(w & ((1usize << t) - 1) as usize == 0) by (bit_vector)
            requires
                t < usize::BITS,
                t > 0,
                s == (t - 1) as usize,
                w & ((1usize << s) - 1) as usize == 0,
                (w >> s) & 1 != 1,
        ;
    }
}

} // verus!
