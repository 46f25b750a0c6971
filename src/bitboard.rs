//! Fixed-width bit sets over `NW` words of 64 bits.
use vstd::prelude::*;
use crate::bits::{
    lemma_bit_and, lemma_bit_not, lemma_bit_or, lemma_bit_shl, lemma_bit_shr, lemma_bit_single,
    lemma_bit_zero, lemma_lowest_bit, lemma_word_ext, lemma_word_zero, word_bit,
};

verus! {

/// The indices `0 <= i < n`.
pub open spec fn below(n: int) -> Set<int> {
    Set::new(|i: int| 0 <= i < n)
}

/// `s` moved `n` places toward higher indices, cut off at `cap`.
pub open spec fn shifted_up(s: Set<int>, n: int, cap: int) -> Set<int> {
    Set::new(|i: int| n <= i < cap && s.contains(i - n))
}

/// `s` moved `n` places toward lower indices; what falls below zero is lost.
pub open spec fn shifted_down(s: Set<int>, n: int) -> Set<int> {
    Set::new(|i: int| 0 <= i && s.contains(i + n))
}

/// The number of 64-bit words needed for `area` bits.
pub open spec fn words_for(area: int) -> int {
    (area + 63) / 64
}

/// Number of `u64` words needed for a `width × height` board.
pub fn nw_for_board(width: u8, height: u8) -> (r: usize)
    ensures
        r as int == words_for(width as int * height as int),
{
    proof {
        assert(width as int * height as int <= 255 * 255) by (nonlinear_arith)
            requires
                width <= 255,
                height <= 255,
        ;
    }
    let area: usize = (width as u16 * height as u16) as usize;
    (area + 63) / 64
}

/// A fixed-size bit set of `NW * 64` bits.
#[derive(Clone, Copy, Debug, PartialEq, Eq, Hash)]
pub struct Bitboard<const NW: usize> {
    words: [u64; NW],
}

impl<const NW: usize> View for Bitboard<NW> {
    type V = Set<int>;

    /// The indices of the set bits.
    closed spec fn view(&self) -> Set<int> {
        Set::new(|i: int| 0 <= i < NW * 64 && word_bit(self.words[i / 64], i % 64))
    }
}

/// Every index of a bit set lies below its capacity.
pub broadcast proof fn lemma_view_in_range<const NW: usize>(b: Bitboard<NW>, i: int)
    ensures
        #[trigger] b@.contains(i) ==> 0 <= i < NW * 64,
{
}

/// A bit set holds finitely many indices.
pub broadcast proof fn lemma_view_finite<const NW: usize>(b: Bitboard<NW>)
    ensures
        #[trigger] b@.finite(),
{
    vstd::set_lib::lemma_int_range(0, NW * 64);
    assert(b@.subset_of(vstd::set_lib::set_int_range(0, NW * 64)));
    vstd::set_lib::lemma_set_subset_finite(vstd::set_lib::set_int_range(0, NW * 64), b@);
}

impl<const NW: usize> Bitboard<NW> {
    proof fn lemma_view_word(&self, k: int, j: int)
        requires
            0 <= k < NW,
            0 <= j < 64,
        ensures
            self@.contains(k * 64 + j) <==> word_bit(self.words[k], j),
    {
        assert((k * 64 + j) / 64 == k);
        assert((k * 64 + j) % 64 == j);
    }

    /// All bits zero.
    pub fn empty() -> (r: Self)
        ensures
            r@ == Set::<int>::empty(),
    {
        let r = Bitboard { words: [0u64; NW] };
        assert forall|i: int| !r@.contains(i) by {
            lemma_bit_zero(i % 64);
        }
        assert(r@ =~= Set::<int>::empty());
        r
    }

    /// Construct from raw words: bit `j` of word `k` is index `64 * k + j`.
    pub fn from_words(words: [u64; NW]) -> (r: Self)
        ensures
            forall|k: int, j: int|
                0 <= k < NW && 0 <= j < 64 ==> (r@.contains(k * 64 + j) <==> #[trigger] word_bit(
                    words[k],
                    j,
                )),
            forall|i: int| #[trigger] r@.contains(i) ==> 0 <= i < NW * 64,
    {
        let r = Bitboard { words };
        assert forall|k: int, j: int| 0 <= k < NW && 0 <= j < 64 implies (r@.contains(k * 64 + j)
            <==> #[trigger] word_bit(words[k], j)) by {
            r.lemma_view_word(k, j);
        }
        r
    }

    /// Whether bit `index` is set.
    pub fn get(&self, index: usize) -> (r: bool)
        requires
            index < NW * 64,
        ensures
            r == self@.contains(index as int),
    {
        ((self.words[index / 64] >> ((index % 64) as u64)) & 1u64) == 1u64
    }

    /// A set with the single bit `index`.
    pub fn single(index: usize) -> (r: Self)
        requires
            index < NW * 64,
        ensures
            r@ == set![index as int],
    {
        let mut bb = Self::empty();
        bb.set(index);
        assert(bb@ =~= set![index as int]);
        bb
    }

    /// Set bit `index`.
    pub fn set(&mut self, index: usize)
        requires
            index < NW * 64,
        ensures
            final(self)@ == old(self)@.insert(index as int),
    {
        let k = index / 64;
        let b = (index % 64) as u64;
        let w = self.words[k] | (1u64 << b);
        self.words[k] = w;
        proof {
            assert forall|i: int| #[trigger]
                self@.contains(i) == old(self)@.insert(index as int).contains(i) by {
                if 0 <= i < NW * 64 && i / 64 == k {
                    lemma_bit_or(old(self).words[k as int], 1u64 << b, i % 64);
                    lemma_bit_single(b, i % 64);
                }
            }
            assert(self@ =~= old(self)@.insert(index as int));
        }
    }

    /// Clear bit `index`.
    pub fn clear(&mut self, index: usize)
        requires
            index < NW * 64,
        ensures
            final(self)@ == old(self)@.remove(index as int),
    {
        let k = index / 64;
        let b = (index % 64) as u64;
        let w = self.words[k] & !(1u64 << b);
        self.words[k] = w;
        proof {
            assert forall|i: int| #[trigger]
                self@.contains(i) == old(self)@.remove(index as int).contains(i) by {
                if 0 <= i < NW * 64 && i / 64 == k {
                    lemma_bit_and(old(self).words[k as int], !(1u64 << b), i % 64);
                    lemma_bit_not(1u64 << b, i % 64);
                    lemma_bit_single(b, i % 64);
                }
            }
            assert(self@ =~= old(self)@.remove(index as int));
        }
    }

    /// Whether no bit is set.
    pub fn is_empty(&self) -> (r: bool)
        ensures
            r == (self@ == Set::<int>::empty()),
    {
        !self.is_nonzero()
    }

    /// Whether some bit is set.
    pub fn is_nonzero(&self) -> (r: bool)
        ensures
            r == (self@ != Set::<int>::empty()),
    {
        let mut i: usize = 0;
        while i < NW
            invariant
                i <= NW,
                forall|k: int| 0 <= k < i ==> self.words[k] == 0u64,
            decreases NW - i,
        {
            if self.words[i] != 0 {
                proof {
                    lemma_word_zero(self.words[i as int]);
                    let j = choose|j: int| word_bit(self.words[i as int], j);
                    self.lemma_view_word(i as int, j);
                    assert(self@.contains(i * 64 + j));
                }
                return true;
            }
            i += 1;
        }
        proof {
            assert forall|g: int| !self@.contains(g) by {
                if 0 <= g < NW * 64 {
                    lemma_bit_zero(g % 64);
                }
            }
            assert(self@ =~= Set::<int>::empty());
        }
        false
    }

    /// Index of the lowest set bit, or `None` if no bit is set.
    pub fn lowest_bit_index(&self) -> (r: Option<usize>)
        requires
            NW * 64 <= usize::MAX,
        ensures
            r is None <==> self@ == Set::<int>::empty(),
            r matches Some(i) ==> self@.contains(i as int) && forall|j: int|
                #[trigger] self@.contains(j) ==> i <= j,
    {
        let mut i: usize = 0;
        while i < NW
            invariant
                i <= NW,
                NW * 64 <= usize::MAX,
                forall|k: int| 0 <= k < i ==> self.words[k] == 0u64,
            decreases NW - i,
        {
            let w = self.words[i];
            if w != 0 {
                let t = w.trailing_zeros();
                proof {
                    lemma_lowest_bit(w);
                    self.lemma_view_word(i as int, t as int);
                    assert forall|j: int| #[trigger] self@.contains(j) implies i * 64 + t <= j by {
                        if j < i * 64 {
                            lemma_bit_zero(j % 64);
                        } else if j < i * 64 + t {
                            self.lemma_view_word(i as int, j - i * 64);
                        }
                    }
                }
                return Some(i * 64 + t as usize);
            }
            i += 1;
        }
        proof {
            assert forall|g: int| !self@.contains(g) by {
                if 0 <= g < NW * 64 {
                    lemma_bit_zero(g % 64);
                }
            }
            assert(self@ =~= Set::<int>::empty());
        }
        None
    }
}


impl<const NW: usize> Bitboard<NW> {
    /// Bits set in both `self` and `rhs`.
    pub fn intersect(self, rhs: Self) -> (r: Self)
        ensures
            r@ == self@.intersect(rhs@),
    {
        let mut out = [0u64; NW];
        let mut i: usize = 0;
        while i < NW
            invariant
                i <= NW,
                forall|k: int| 0 <= k < i ==> out[k] == self.words[k] & rhs.words[k],
            decreases NW - i,
        {
            out[i] = self.words[i] & rhs.words[i];
            i += 1;
        }
        let r = Bitboard { words: out };
        proof {
            assert forall|g: int| #[trigger] r@.contains(g) == self@.intersect(rhs@).contains(g) by {
                if 0 <= g < NW * 64 {
                    lemma_bit_and(self.words[g / 64], rhs.words[g / 64], g % 64);
                }
            }
            assert(r@ =~= self@.intersect(rhs@));
        }
        r
    }

    /// Bits set in `self` or in `rhs`.
    pub fn union(self, rhs: Self) -> (r: Self)
        ensures
            r@ == self@.union(rhs@),
    {
        let mut out = [0u64; NW];
        let mut i: usize = 0;
        while i < NW
            invariant
                i <= NW,
                forall|k: int| 0 <= k < i ==> out[k] == self.words[k] | rhs.words[k],
            decreases NW - i,
        {
            out[i] = self.words[i] | rhs.words[i];
            i += 1;
        }
        let r = Bitboard { words: out };
        proof {
            assert forall|g: int| #[trigger] r@.contains(g) == self@.union(rhs@).contains(g) by {
                if 0 <= g < NW * 64 {
                    lemma_bit_or(self.words[g / 64], rhs.words[g / 64], g % 64);
                }
            }
            assert(r@ =~= self@.union(rhs@));
        }
        r
    }

    /// Every bit flipped, over the whole capacity.
    pub fn complement(self) -> (r: Self)
        ensures
            r@ == below(NW * 64).difference(self@),
    {
        let mut out = [0u64; NW];
        let mut i: usize = 0;
        while i < NW
            invariant
                i <= NW,
                forall|k: int| 0 <= k < i ==> out[k] == !self.words[k],
            decreases NW - i,
        {
            out[i] = !self.words[i];
            i += 1;
        }
        let r = Bitboard { words: out };
        proof {
            assert forall|g: int| #[trigger]
                r@.contains(g) == below(NW * 64).difference(self@).contains(g) by {
                if 0 <= g < NW * 64 {
                    lemma_bit_not(self.words[g / 64], g % 64);
                }
            }
            assert(r@ =~= below(NW * 64).difference(self@));
        }
        r
    }

    /// `self & !rhs`: the bits of `self` that are not in `rhs`.
    pub fn andnot(self, rhs: Bitboard<NW>) -> (r: Bitboard<NW>)
        ensures
            r@ == self@.difference(rhs@),
    {
        let mut out = [0u64; NW];
        let mut i: usize = 0;
        while i < NW
            invariant
                i <= NW,
                forall|k: int| 0 <= k < i ==> out[k] == self.words[k] & !rhs.words[k],
            decreases NW - i,
        {
            out[i] = self.words[i] & !rhs.words[i];
            i += 1;
        }
        let r = Bitboard { words: out };
        proof {
            assert forall|g: int| #[trigger] r@.contains(g) == self@.difference(rhs@).contains(g) by {
                if 0 <= g < NW * 64 {
                    lemma_bit_and(self.words[g / 64], !rhs.words[g / 64], g % 64);
                    lemma_bit_not(rhs.words[g / 64], g % 64);
                }
            }
            assert(r@ =~= self@.difference(rhs@));
        }
        r
    }

    /// Shift every bit toward higher indices by `n`; bits moved past the
    /// capacity are lost.
    pub fn shift_left(&self, n: usize) -> (r: Self)
        ensures
            r@ == shifted_up(self@, n as int, NW * 64),
    {
        if n == 0 {
            assert(self@ =~= shifted_up(self@, n as int, NW * 64));
            return *self;
        }
        if n / 64 >= NW {
            let r = Self::empty();
            assert(r@ =~= shifted_up(self@, n as int, NW * 64));
            return r;
        }
        let word_shift = n / 64;
        let bit_shift = n % 64;
        let mut out = [0u64; NW];
        let mut i: usize = word_shift;
        while i < NW
            invariant
                word_shift <= i <= NW,
                word_shift == n / 64,
                bit_shift == n % 64,
                forall|k: int| 0 <= k < word_shift ==> out[k] == 0u64,
                forall|k: int, j: int|
                    word_shift <= k < i && 0 <= j < 64 ==> (#[trigger] word_bit(out[k], j)
                        <==> self@.contains(k * 64 + j - n)),
            decreases NW - i,
        {
            let lo = self.words[i - word_shift];
            let mut w: u64;
            if bit_shift == 0 {
                w = lo;
            } else {
                w = lo << (bit_shift as u64);
                if i > word_shift {
                    let hi = self.words[i - word_shift - 1];
                    w = w | (hi >> ((64 - bit_shift) as u64));
                }
            }
            proof {
                assert forall|j: int| 0 <= j < 64 implies #[trigger] word_bit(w, j)
                    <==> self@.contains(i * 64 + j - n) by {
                    let bs = bit_shift as u64;
                    if bit_shift == 0 {
                        self.lemma_view_word(i - word_shift, j);
                    } else {
                        lemma_bit_shl(lo, bs, j);
                        if i > word_shift {
                            let hi = self.words[i - word_shift - 1];
                            lemma_bit_or(lo << bs, hi >> ((64 - bit_shift) as u64), j);
                            lemma_bit_shr(hi, (64 - bit_shift) as u64, j);
                        }
                        if j >= bit_shift {
                            self.lemma_view_word(i - word_shift, j - bit_shift);
                        } else if i > word_shift {
                            self.lemma_view_word(i - word_shift - 1, j + 64 - bit_shift);
                        }
                    }
                }
            }
            out[i] = w;
            i += 1;
        }
        let r = Bitboard { words: out };
        proof {
            assert forall|g: int| #[trigger]
                r@.contains(g) == shifted_up(self@, n as int, NW * 64).contains(g) by {
                if 0 <= g < NW * 64 {
                    r.lemma_view_word(g / 64, g % 64);
                    if g / 64 < word_shift {
                        lemma_bit_zero(g % 64);
                    }
                }
            }
            assert(r@ =~= shifted_up(self@, n as int, NW * 64));
        }
        r
    }

    /// Shift every bit toward lower indices by `n`; bits moved below zero are
    /// lost.
    pub fn shift_right(&self, n: usize) -> (r: Self)
        ensures
            r@ == shifted_down(self@, n as int),
    {
        if n == 0 {
            assert(self@ =~= shifted_down(self@, n as int));
            return *self;
        }
        if n / 64 >= NW {
            let r = Self::empty();
            assert(r@ =~= shifted_down(self@, n as int));
            return r;
        }
        let word_shift = n / 64;
        let bit_shift = n % 64;
        let mut out = [0u64; NW];
        let mut i: usize = 0;
        while i < NW - word_shift
            invariant
                i <= NW - word_shift,
                word_shift == n / 64,
                word_shift < NW,
                bit_shift == n % 64,
                forall|k: int| i <= k < NW ==> out[k] == 0u64,
                forall|k: int, j: int|
                    0 <= k < i && 0 <= j < 64 ==> (#[trigger] word_bit(out[k], j)
                        <==> self@.contains(k * 64 + j + n)),
            decreases NW - word_shift - i,
        {
            let lo = self.words[i + word_shift];
            let mut w: u64;
            if bit_shift == 0 {
                w = lo;
            } else {
                w = lo >> (bit_shift as u64);
                if i + word_shift + 1 < NW {
                    let hi = self.words[i + word_shift + 1];
                    w = w | (hi << ((64 - bit_shift) as u64));
                }
            }
            proof {
                assert forall|j: int| 0 <= j < 64 implies #[trigger] word_bit(w, j)
                    <==> self@.contains(i * 64 + j + n) by {
                    let bs = bit_shift as u64;
                    if bit_shift == 0 {
                        self.lemma_view_word(i + word_shift, j);
                    } else {
                        lemma_bit_shr(lo, bs, j);
                        if i + word_shift + 1 < NW {
                            let hi = self.words[i + word_shift + 1];
                            lemma_bit_or(lo >> bs, hi << ((64 - bit_shift) as u64), j);
                            lemma_bit_shl(hi, (64 - bit_shift) as u64, j);
                        }
                        if j + bit_shift < 64 {
                            self.lemma_view_word(i + word_shift, j + bit_shift);
                        } else if i + word_shift + 1 < NW {
                            self.lemma_view_word(i + word_shift + 1, j + bit_shift - 64);
                        }
                    }
                }
            }
            out[i] = w;
            i += 1;
        }
        let r = Bitboard { words: out };
        proof {
            assert forall|g: int| #[trigger]
                r@.contains(g) == shifted_down(self@, n as int).contains(g) by {
                if 0 <= g < NW * 64 {
                    r.lemma_view_word(g / 64, g % 64);
                    if g / 64 >= NW - word_shift {
                        lemma_bit_zero(g % 64);
                    }
                }
            }
            assert(r@ =~= shifted_down(self@, n as int));
        }
        r
    }

    /// The bits of word `k` taken from `w`, with the words above `k` as in `self`.
    spec fn rest_from(&self, w: u64, k: int) -> Set<int> {
        Set::new(
            |g: int|
                (k * 64 <= g < k * 64 + 64 && word_bit(w, g - k * 64)) || (self@.contains(g) && g
                    >= k * 64 + 64),
        )
    }

    proof fn lemma_rest_from_bounds(&self, w: u64, k: int)
        requires
            0 <= k < NW,
        ensures
            self.rest_from(w, k).finite(),
            self.rest_from(w, k).len() <= NW * 64,
            self@.len() <= NW * 64,
    {
        let range = vstd::set_lib::set_int_range(0, NW * 64);
        vstd::set_lib::lemma_int_range(0, NW * 64);
        assert(self.rest_from(w, k).subset_of(range));
        assert(self@.subset_of(range));
        vstd::set_lib::lemma_len_subset(self.rest_from(w, k), range);
        vstd::set_lib::lemma_len_subset(self@, range);
    }

    /// Population count: the number of set bits.
    pub fn count(&self) -> (r: u32)
        requires
            NW * 64 <= u32::MAX,
        ensures
            r == self@.len(),
    {
        let mut total: u32 = 0;
        let mut i: usize = 0;
        proof {
            lemma_view_finite(*self);
            if NW > 0 {
                assert(self.rest_from(self.words[0], 0) =~= self@) by {
                    assert forall|g: int| 0 <= g < 64 implies self@.contains(g) == word_bit(
                        self.words[0],
                        g,
                    ) by {
                        self.lemma_view_word(0, g);
                    }
                }
            } else {
                assert(self@ =~= Set::<int>::empty());
            }
        }
        while i < NW
            invariant
                i <= NW,
                NW * 64 <= u32::MAX,
                self@.finite(),
                i < NW ==> total + self.rest_from(self.words[i as int], i as int).len()
                    == self@.len(),
                i == NW ==> total == self@.len(),
            decreases NW - i,
        {
            let mut w = self.words[i];
            while w != 0
                invariant
                    i < NW,
                    NW * 64 <= u32::MAX,
                    self@.finite(),
                    total + self.rest_from(w, i as int).len() == self@.len(),
                decreases self@.len() - total,
            {
                proof {
                    lemma_lowest_bit(w);
                    self.lemma_rest_from_bounds(w, i as int);
                    let t = w.trailing_zeros() as int;
                    let next = w & ((w - 1) as u64);
                    assert(self.rest_from(next, i as int) =~= self.rest_from(w, i as int).remove(
                        i * 64 + t,
                    ));
                    assert(self.rest_from(w, i as int).contains(i * 64 + t));
                }
                w = w & (w - 1);
                total = total + 1;
            }
            proof {
                self.lemma_rest_from_bounds(w, i as int);
                if i + 1 < NW {
                    assert(self.rest_from(self.words[i + 1], i + 1) =~= self.rest_from(w, i as int))
                        by {
                        assert forall|g: int| (i + 1) * 64 <= g < (i + 1) * 64 + 64 implies self@.contains(g)
                            == word_bit(self.words[i + 1], g - (i + 1) * 64) by {
                            self.lemma_view_word(i + 1, g - (i + 1) * 64);
                        }
                        assert forall|g: int| !word_bit(w, g) by {
                            lemma_bit_zero(g);
                        }
                    }
                } else {
                    assert(self.rest_from(w, i as int) =~= Set::<int>::empty()) by {
                        assert forall|g: int| !word_bit(w, g) by {
                            lemma_bit_zero(g);
                        }
                    }
                }
            }
            i += 1;
        }
        total
    }

    /// The indices of the set bits, visited in increasing order.
    pub fn iter_ones(&self) -> (r: BitIterator<NW>)
        ensures
            r.wf(),
            r@ == self@,
    {
        let r = BitIterator { words: self.words, word_index: 0 };
        assert(r@ =~= self@);
        r
    }

    /// Whether `self` and `other` hold the same bits.
    pub fn same_bits(&self, other: &Self) -> (r: bool)
        ensures
            r == (self@ == other@),
    {
        let mut i: usize = 0;
        while i < NW
            invariant
                i <= NW,
                forall|k: int| 0 <= k < i ==> self.words[k] == other.words[k],
            decreases NW - i,
        {
            if self.words[i] != other.words[i] {
                proof {
                    let a = self.words[i as int];
                    let c = other.words[i as int];
                    if forall|j: int| 0 <= j < 64 ==> #[trigger] word_bit(a, j) == word_bit(c, j) {
                        lemma_word_ext(a, c);
                    }
                    let j = choose|j: int| 0 <= j < 64 && #[trigger] word_bit(a, j) != word_bit(c, j);
                    self.lemma_view_word(i as int, j);
                    other.lemma_view_word(i as int, j);
                    assert(self@.contains(i * 64 + j) != other@.contains(i * 64 + j));
                }
                return false;
            }
            i += 1;
        }
        proof {
            assert(self@ =~= other@);
        }
        true
    }
}

/// A bit set is determined by the indices it holds.
pub proof fn lemma_view_injective<const NW: usize>(a: Bitboard<NW>, b: Bitboard<NW>)
    requires
        a@ == b@,
    ensures
        a == b,
{
    assert forall|k: int| 0 <= k < NW implies a.words[k] == b.words[k] by {
        assert forall|j: int| 0 <= j < 64 implies #[trigger] word_bit(a.words[k], j) == word_bit(
            b.words[k],
            j,
        ) by {
            a.lemma_view_word(k, j);
            b.lemma_view_word(k, j);
        }
        lemma_word_ext(a.words[k], b.words[k]);
    }
    assert(a.words =~= b.words);
}

impl<const NW: usize> vstd::std_specs::ops::BitAndSpecImpl for Bitboard<NW> {
    open spec fn obeys_bitand_spec() -> bool {
        true
    }

    open spec fn bitand_req(self, rhs: Bitboard<NW>) -> bool {
        true
    }

    open spec fn bitand_spec(self, rhs: Bitboard<NW>) -> Bitboard<NW> {
        choose|r: Bitboard<NW>| r@ == self@.intersect(rhs@)
    }
}

impl<'a, const NW: usize> vstd::std_specs::ops::BitAndSpecImpl for &'a Bitboard<NW> {
    open spec fn obeys_bitand_spec() -> bool {
        true
    }

    open spec fn bitand_req(self, rhs: &'a Bitboard<NW>) -> bool {
        true
    }

    open spec fn bitand_spec(self, rhs: &'a Bitboard<NW>) -> Bitboard<NW> {
        choose|r: Bitboard<NW>| r@ == self@.intersect(rhs@)
    }
}

impl<const NW: usize> vstd::std_specs::ops::BitOrSpecImpl for Bitboard<NW> {
    open spec fn obeys_bitor_spec() -> bool {
        true
    }

    open spec fn bitor_req(self, rhs: Bitboard<NW>) -> bool {
        true
    }

    open spec fn bitor_spec(self, rhs: Bitboard<NW>) -> Bitboard<NW> {
        choose|r: Bitboard<NW>| r@ == self@.union(rhs@)
    }
}

impl<const NW: usize> vstd::std_specs::ops::NotSpecImpl for Bitboard<NW> {
    open spec fn obeys_not_spec() -> bool {
        true
    }

    open spec fn not_req(self) -> bool {
        true
    }

    open spec fn not_spec(self) -> Bitboard<NW> {
        choose|r: Bitboard<NW>| r@ == below(NW * 64).difference(self@)
    }
}

impl<const NW: usize> core::ops::BitAnd for Bitboard<NW> {
    type Output = Bitboard<NW>;

    fn bitand(self, rhs: Bitboard<NW>) -> Bitboard<NW> {
        let r = self.intersect(rhs);
        proof {
            let c = choose|c: Bitboard<NW>| c@ == self@.intersect(rhs@);
            lemma_view_injective(r, c);
        }
        r
    }
}

impl<'a, const NW: usize> core::ops::BitAnd for &'a Bitboard<NW> {
    type Output = Bitboard<NW>;

    fn bitand(self, rhs: &'a Bitboard<NW>) -> Bitboard<NW> {
        let r = self.intersect(*rhs);
        proof {
            let c = choose|c: Bitboard<NW>| c@ == self@.intersect(rhs@);
            lemma_view_injective(r, c);
        }
        r
    }
}

impl<const NW: usize> core::ops::BitAndAssign for Bitboard<NW> {
    fn bitand_assign(&mut self, rhs: Bitboard<NW>) {
        *self = self.intersect(rhs);
    }
}

impl<const NW: usize> core::ops::BitOr for Bitboard<NW> {
    type Output = Bitboard<NW>;

    fn bitor(self, rhs: Bitboard<NW>) -> Bitboard<NW> {
        let r = self.union(rhs);
        proof {
            let c = choose|c: Bitboard<NW>| c@ == self@.union(rhs@);
            lemma_view_injective(r, c);
        }
        r
    }
}

impl<const NW: usize> core::ops::BitOrAssign for Bitboard<NW> {
    fn bitor_assign(&mut self, rhs: Bitboard<NW>) {
        *self = self.union(rhs);
    }
}

impl<const NW: usize> core::ops::Not for Bitboard<NW> {
    type Output = Bitboard<NW>;

    fn not(self) -> Bitboard<NW> {
        let r = self.complement();
        proof {
            let c = choose|c: Bitboard<NW>| c@ == below(NW * 64).difference(self@);
            lemma_view_injective(r, c);
        }
        r
    }
}

/// Walks the set bits of a bit set from the lowest index up.
pub struct BitIterator<const NW: usize> {
    words: [u64; NW],
    word_index: usize,
}

impl<const NW: usize> View for BitIterator<NW> {
    type V = Set<int>;

    /// The indices not yet visited.
    closed spec fn view(&self) -> Set<int> {
        Set::new(|i: int| 0 <= i < NW * 64 && word_bit(self.words[i / 64], i % 64))
    }
}

impl<const NW: usize> BitIterator<NW> {
    /// The words below the current one are spent.
    pub closed spec fn wf(&self) -> bool {
        &&& self.word_index <= NW
        &&& forall|k: int| 0 <= k < self.word_index ==> self.words[k] == 0u64
    }

    proof fn lemma_finite(&self)
        ensures
            self@.finite(),
    {
        vstd::set_lib::lemma_int_range(0, NW * 64);
        assert(self@.subset_of(vstd::set_lib::set_int_range(0, NW * 64)));
        vstd::set_lib::lemma_set_subset_finite(vstd::set_lib::set_int_range(0, NW * 64), self@);
    }

    /// The lowest index not yet visited, or `None` once all are visited.
    pub fn next(&mut self) -> (r: Option<usize>)
        requires
            old(self).wf(),
            NW * 64 <= usize::MAX,
        ensures
            final(self).wf(),
            r is None <==> old(self)@ == Set::<int>::empty(),
            r is None ==> final(self)@ == old(self)@,
            r matches Some(i) ==> old(self)@.contains(i as int) && final(self)@ == old(self)@.remove(
                i as int,
            ) && forall|j: int| #[trigger] old(self)@.contains(j) ==> i <= j,
    {
        while self.word_index < NW
            invariant
                self.wf(),
                self.words == old(self).words,
                NW * 64 <= usize::MAX,
            decreases NW - self.word_index,
        {
            let wi = self.word_index;
            let w = self.words[wi];
            if w != 0 {
                let bit = w.trailing_zeros();
                self.words[wi] = w & (w - 1);
                proof {
                    lemma_lowest_bit(w);
                    let b = bit as int;
                    let idx = wi * 64 + b;
                    assert((wi * 64 + b) / 64 == wi && (wi * 64 + b) % 64 == b);
                    assert(old(self)@.contains(idx));
                    assert forall|g: int| #[trigger]
                        self@.contains(g) == old(self)@.remove(idx).contains(g) by {
                        if 0 <= g < NW * 64 && g / 64 != wi {
                            assert(self.words[g / 64] == old(self).words[g / 64]);
                        }
                    }
                    assert(self@ =~= old(self)@.remove(idx));
                    assert forall|j: int| #[trigger] old(self)@.contains(j) implies idx <= j by {
                        if j < wi * 64 {
                            lemma_bit_zero(j % 64);
                        }
                    }
                }
                return Some(wi * 64 + bit as usize);
            }
            self.word_index = wi + 1;
        }
        proof {
            assert forall|g: int| !old(self)@.contains(g) by {
                if 0 <= g < NW * 64 {
                    lemma_bit_zero(g % 64);
                }
            }
            assert(old(self)@ =~= Set::<int>::empty());
        }
        None
    }

    /// The indices not yet visited, in increasing order.
    pub fn collect(self) -> (r: Vec<usize>)
        requires
            self.wf(),
            NW * 64 <= usize::MAX,
        ensures
            forall|g: int| self@.contains(g) <==> exists|k: int| 0 <= k < r.len() && r[k] == g,
            forall|a: int, b: int| 0 <= a < b < r.len() ==> r[a] < r[b],
    {
        let mut it = self;
        let mut out: Vec<usize> = Vec::new();
        proof {
            it.lemma_finite();
        }
        loop
            invariant
                it.wf(),
                NW * 64 <= usize::MAX,
                it@.finite(),
                forall|g: int|
                    self@.contains(g) <==> (it@.contains(g) || exists|k: int|
                        0 <= k < out.len() && out[k] == g),
                forall|k: int, g: int|
                    0 <= k < out.len() && #[trigger] it@.contains(g) ==> #[trigger] out[k] < g,
                forall|a: int, b: int| 0 <= a < b < out.len() ==> out[a] < out[b],
            ensures
                it@ == Set::<int>::empty(),
                forall|g: int|
                    self@.contains(g) <==> exists|k: int| 0 <= k < out.len() && out[k] == g,
                forall|a: int, b: int| 0 <= a < b < out.len() ==> out[a] < out[b],
            decreases it@.len(),
        {
            let ghost before = it@;
            let ghost out_before = out@;
            match it.next() {
                Some(i) => {
                    out.push(i);
                    proof {
                        it.lemma_finite();
                        assert(before.len() == it@.len() + 1);
                        assert forall|g: int|
                            self@.contains(g) <==> (it@.contains(g) || exists|k: int|
                                0 <= k < out.len() && out[k] == g) by {
                            if before.contains(g) && !it@.contains(g) {
                                assert(out[out.len() - 1] == g);
                            }
                            if exists|k: int| 0 <= k < out_before.len() && out_before[k] == g {
                                let k = choose|k: int| 0 <= k < out_before.len() && out_before[k] == g;
                                assert(out[k] == g);
                            }
                            if exists|k: int| 0 <= k < out.len() && out[k] == g {
                                let k = choose|k: int| 0 <= k < out.len() && out[k] == g;
                                if k < out_before.len() {
                                    assert(out_before[k] == g);
                                }
                            }
                        }
                    }
                },
                None => {
                    break;
                },
            }
        }
        out
    }
}

} // verus!
