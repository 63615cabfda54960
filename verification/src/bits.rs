//! Bit-level helpers: the 256-bit digit bitmap and the sorted-digit search
//! used by linear branch headers.

use vstd::prelude::*;

verus! {

/// Bit `b` (0 = least significant) of `w` is set.
pub open spec fn bit_of(w: u64, b: u64) -> bool {
    (w >> b) & 1 == 1
}

/// Setting bit `b` sets exactly that bit.
pub proof fn lemma_bit_or(w: u64, b: u64, c: u64)
    requires
        b < 64,
        c < 64,
    ensures
        bit_of(w | (1u64 << b), c) == (c == b || bit_of(w, c)),
        (w & (1u64 << b) != 0) == bit_of(w, b),
{
    assert(((w | (1u64 << b)) >> c) & 1 == 1 <==> (c == b || (w >> c) & 1 == 1)) by (bit_vector)
        requires
            b < 64,
            c < 64,
    ;
    assert((w & (1u64 << b) != 0) == ((w >> b) & 1 == 1)) by (bit_vector)
        requires
            b < 64,
    ;
}

/// Clearing bit `b` clears exactly that bit.
pub proof fn lemma_bit_clear(w: u64, b: u64, c: u64)
    requires
        b < 64,
        c < 64,
    ensures
        bit_of(w & !(1u64 << b), c) == (c != b && bit_of(w, c)),
{
    assert(((w & !(1u64 << b)) >> c) & 1 == 1 <==> (c != b && (w >> c) & 1 == 1)) by (bit_vector)
        requires
            b < 64,
            c < 64,
    ;
}

/// The zero word has no bit set.
pub proof fn lemma_zero_no_bits(c: u64)
    ensures
        !bit_of(0u64, c),
{
    assert((0u64 >> c) & 1 != 1) by (bit_vector);
}

proof fn lemma_nonzero_bit_aux(a: u64, hi: u64) -> (i: u64)
    requires
        a != 0,
        hi <= 64,
        a >> hi == 0,
    ensures
        i < hi,
        bit_of(a, i),
    decreases hi,
{
    assert(hi != 0) by (bit_vector)
        requires
            a != 0,
            hi <= 64,
            a >> hi == 0,
    ;
    if a & 1 == 1 {
        assert((a >> 0u64) & 1 == 1) by (bit_vector)
            requires
                a & 1 == 1,
        ;
        0
    } else {
        let h1 = (hi - 1) as u64;
        assert((a >> 1u64) != 0 && (a >> 1u64) >> h1 == 0) by (bit_vector)
            requires
                a & 1 != 1,
                a != 0,
                a >> hi == 0,
                hi != 0,
                hi <= 64,
                h1 == hi - 1,
        ;
        let j = lemma_nonzero_bit_aux(a >> 1u64, h1);
        let j1 = (j + 1) as u64;
        assert((a >> j1) & 1 == 1) by (bit_vector)
            requires
                ((a >> 1u64) >> j) & 1 == 1,
                j < 63,
                j1 == j + 1,
        ;
        j1
    }
}

/// A nonzero word has some bit set.
pub proof fn lemma_nonzero_has_bit(a: u64) -> (i: u64)
    requires
        a != 0,
    ensures
        i < 64,
        bit_of(a, i),
{
    assert(a >> 64u64 == 0) by (bit_vector);
    lemma_nonzero_bit_aux(a, 64)
}

/// A 256-bit membership bitmap over the digits of one key byte.
#[derive(Clone, Copy, Debug)]
pub struct Bitmap256 {
    /// Four 64-bit words; digit `d` lives in word `d / 64`, bit `d % 64`.
    pub words: [u64; 4],
}

impl Bitmap256 {
    /// Digit `d` is a member.
    pub open spec fn has(self, d: u8) -> bool {
        bit_of(self.words[d as int / 64], (d % 64) as u64)
    }

    /// No digit is a member.
    pub open spec fn is_empty_spec(self) -> bool {
        forall|d: u8| !#[trigger] self.has(d)
    }

    /// The empty bitmap.
    pub fn new() -> (b: Bitmap256)
        ensures
            b.is_empty_spec(),
            b.words@ == seq![0u64, 0u64, 0u64, 0u64],
    {
        let b = Bitmap256 { words: [0u64, 0u64, 0u64, 0u64] };
        proof {
            assert forall|d: u8| !#[trigger] b.has(d) by {
                lemma_zero_no_bits((d % 64) as u64);
            }
        }
        b
    }

    /// True when no digit is a member.
    pub fn is_empty(&self) -> (r: bool)
        ensures
            r == self.is_empty_spec(),
    {
        let r = self.words[0] == 0 && self.words[1] == 0 && self.words[2] == 0 && self.words[3]
            == 0;
        proof {
            if r {
                assert forall|d: u8| !#[trigger] self.has(d) by {
                    lemma_zero_no_bits((d % 64) as u64);
                }
            } else {
                let w: int = if self.words[0] != 0 {
                    0
                } else if self.words[1] != 0 {
                    1
                } else if self.words[2] != 0 {
                    2
                } else {
                    3
                };
                let b = lemma_nonzero_has_bit(self.words[w]);
                let d = (w * 64 + b) as u8;
                assert(d as int / 64 == w && d % 64 == b);
                assert(self.has(d));
            }
        }
        r
    }

    /// Membership of digit `d`.
    pub fn test(&self, d: u8) -> (r: bool)
        ensures
            r == self.has(d),
    {
        let w = self.words[(d / 64) as usize];
        let b = (d % 64) as u64;
        proof {
            lemma_bit_or(w, b, b);
        }
        w & (1u64 << b) != 0
    }

    /// Adds digit `d`; returns `true` if it was not already a member.
    pub fn set(&mut self, d: u8) -> (newly: bool)
        ensures
            newly == !old(self).has(d),
            final(self).has(d),
            forall|e: u8| e != d ==> final(self).has(e) == old(self).has(e),
    {
        let i = (d / 64) as usize;
        let b = (d % 64) as u64;
        let w = self.words[i];
        let was = w & (1u64 << b) != 0;
        self.words[i] = w | (1u64 << b);
        proof {
            lemma_bit_or(w, b, b);
            assert forall|e: u8| e != d implies self.has(e) == old(self).has(e) by {
                if e as int / 64 == i as int {
                    lemma_bit_or(w, b, (e % 64) as u64);
                }
            }
        }
        !was
    }

    /// The smallest member at or above `d`, if any.
    pub fn next_set(&self, d: u8) -> (r: Option<u8>)
        ensures
            match r {
                Some(e) => d <= e && self.has(e) && forall|x: u8| d <= x < e ==> !#[trigger] self.has(x),
                None => forall|x: u8| d <= x ==> !#[trigger] self.has(x),
            },
    {
        let mut x: u16 = d as u16;
        while x < 256
            invariant
                d <= x <= 256,
                forall|y: u8| d <= y < x ==> !#[trigger] self.has(y),
            decreases 256 - x,
        {
            if self.test(x as u8) {
                return Some(x as u8);
            }
            x = x + 1;
        }
        None
    }

    /// The largest member at or below `d`, if any.
    pub fn prev_set(&self, d: u8) -> (r: Option<u8>)
        ensures
            match r {
                Some(e) => e <= d && self.has(e) && forall|x: u8| e < x <= d ==> !#[trigger] self.has(x),
                None => forall|x: u8| x <= d ==> !#[trigger] self.has(x),
            },
    {
        let mut x: u16 = d as u16 + 1;
        while x > 0
            invariant
                x <= d + 1,
                forall|y: u8| x <= y <= d ==> !#[trigger] self.has(y),
            decreases x,
        {
            if self.test((x - 1) as u8) {
                return Some((x - 1) as u8);
            }
            x = x - 1;
        }
        None
    }

    /// The number of members below `d`.
    pub fn rank(&self, d: u8) -> (r: u32)
        ensures
            r == crate::branch_forms::count_set(*self, 0, d as int),
    {
        let mut x: u16 = 0;
        let mut r: u32 = 0;
        while x < d as u16
            invariant
                x <= d,
                r == crate::branch_forms::count_set(*self, 0, x as int),
                r <= x,
            decreases d - x,
        {
            if self.test(x as u8) {
                r = r + 1;
            }
            x = x + 1;
        }
        r
    }

    /// The member with `n` members below it; `None` when there are no more
    /// than `n` members.
    pub fn select(&self, n: u32) -> (r: Option<u8>)
        ensures
            match r {
                Some(d) => self.has(d) && crate::branch_forms::count_set(*self, 0, d as int) == n,
                None => crate::branch_forms::count_set(*self, 0, 256) <= n,
            },
    {
        let mut x: u16 = 0;
        let mut c: u32 = 0;
        while x < 256
            invariant
                x <= 256,
                c == crate::branch_forms::count_set(*self, 0, x as int),
                c <= n,
            decreases 256 - x,
        {
            if self.test(x as u8) {
                if c == n {
                    return Some(x as u8);
                }
                c = c + 1;
            }
            x = x + 1;
        }
        None
    }

    /// Removes digit `d`; returns `true` if it was a member.
    pub fn clear(&mut self, d: u8) -> (was: bool)
        ensures
            was == old(self).has(d),
            !final(self).has(d),
            forall|e: u8| e != d ==> final(self).has(e) == old(self).has(e),
    {
        let i = (d / 64) as usize;
        let b = (d % 64) as u64;
        let w = self.words[i];
        let was = w & (1u64 << b) != 0;
        self.words[i] = w & !(1u64 << b);
        proof {
            lemma_bit_or(w, b, b);
            lemma_bit_clear(w, b, b);
            assert forall|e: u8| e != d implies self.has(e) == old(self).has(e) by {
                if e as int / 64 == i as int {
                    lemma_bit_clear(w, b, (e % 64) as u64);
                }
            }
        }
        was
    }
}

/// The first slot among the first `n` (at most 8) digits holding `d`.
pub open spec fn first_slot_of(digits: Seq<u8>, n: int, d: u8, i: int) -> bool {
    0 <= i < n && i < 8 && digits[i] == d && forall|j: int| 0 <= j < i ==> digits[j] != d
}

/// Searches the first `n` of eight sorted digit slots for `d`.
pub fn find_byte_8(digits: &[u8; 8], n: usize, d: u8) -> (r: Option<usize>)
    ensures
        match r {
            Some(i) => first_slot_of(digits@, n as int, d, i as int),
            None => forall|j: int| 0 <= j < n && j < 8 ==> digits@[j] != d,
        },
{
    let lim = if n < 8 {
        n
    } else {
        8
    };
    let mut i: usize = 0;
    while i < lim
        invariant
            i <= lim <= 8,
            lim <= n,
            lim == n || lim == 8,
            forall|j: int| 0 <= j < i ==> digits@[j] != d,
        decreases lim - i,
    {
        if digits[i] == d {
            return Some(i);
        }
        i = i + 1;
    }
    None
}

} // verus!
