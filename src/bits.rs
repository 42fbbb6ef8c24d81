use vstd::prelude::*;
use crate::arith::{exp2, lemma_exp2_monotone, lemma_exp2_values};

verus! {

/// Bit `i` of a stream as 0 or 1; positions past the end read as 0.
pub open spec fn bit_at(s: Seq<bool>, i: int) -> nat {
    if 0 <= i < s.len() && s[i] {
        1
    } else {
        0
    }
}

/// The `n` bits of `s` that start at `start`, read most significant first.
pub open spec fn bits_value(s: Seq<bool>, start: int, n: nat) -> nat
    decreases n,
{
    if n == 0 {
        0
    } else {
        2 * bits_value(s, start, (n - 1) as nat) + bit_at(s, start + n - 1)
    }
}

/// A growable bit stream with a read cursor: bits are appended at the end
/// and read from the cursor on.
pub struct Bits {
    buf: Vec<bool>,
    pos: usize,
}

impl Bits {
    /// The bits written so far.
    pub closed spec fn stream(&self) -> Seq<bool> {
        self.buf@
    }

    /// The read position, in bits from the start of the stream.
    pub closed spec fn cursor(&self) -> nat {
        self.pos as nat
    }

    /// An empty stream, read from its start.
    pub fn new() -> (r: Bits)
        ensures
            r.stream() == Seq::<bool>::empty(),
            r.cursor() == 0,
    {
        Bits { buf: Vec::new(), pos: 0 }
    }

    /// The number of bits written.
    pub fn len(&self) -> (r: usize)
        ensures
            r == self.stream().len(),
    {
        self.buf.len()
    }

    /// The read position.
    pub fn position(&self) -> (r: usize)
        ensures
            r == self.cursor(),
    {
        self.pos
    }

    /// Appends the low `len` bits of `value`, most significant first.
    pub fn put(&mut self, len: u8, value: u64)
        requires
            len <= 32,
            value < exp2(len as nat),
            old(self).stream().len() + len <= usize::MAX,
        ensures
            final(self).stream().len() == old(self).stream().len() + len,
            final(self).stream().subrange(0, old(self).stream().len() as int) == old(self).stream(),
            bits_value(final(self).stream(), old(self).stream().len() as int, len as nat) == value,
            final(self).cursor() == old(self).cursor(),
    {
        let ghost start = self.buf.len() as int;
        let ghost s0 = self.buf@;
        // `unit` is two to the power of the number of bits still to write.
        let mut unit: u64 = 1;
        let mut k: u8 = 0;
        while k < len
            invariant
                k <= len <= 32,
                unit == exp2(k as nat),
            decreases len - k,
        {
            proof {
                lemma_exp2_monotone(k as nat + 1, 32);
                lemma_exp2_values();
            }
            unit = unit * 2;
            k = k + 1;
        }
        let mut rest: u64 = value;
        let mut i: u8 = 0;
        assert(bits_value(self.buf@, start, 0) == 0);
        assert(bits_value(self.buf@, start, 0) * unit == 0) by (nonlinear_arith)
            requires
                bits_value(self.buf@, start, 0) == 0,
        ;
        while i < len
            invariant
                i <= len <= 32,
                start == s0.len(),
                start + len <= usize::MAX,
                self.buf@.len() == start + i,
                self.buf@.subrange(0, start) == s0,
                self.pos == old(self).pos,
                unit == exp2((len - i) as nat),
                rest < unit,
                bits_value(self.buf@, start, i as nat) * unit + rest == value,
            decreases len - i,
        {
            proof {
                assert(exp2((len - i) as nat) == 2 * exp2((len - i - 1) as nat));
            }
            let half = unit / 2;
            let bit = rest >= half;
            let ghost before = self.buf@;
            self.buf.push(bit);
            proof {
                assert(self.buf@.subrange(0, start) =~= s0) by {
                    assert(before.subrange(0, start) == s0);
                }
                lemma_bits_value_prefix(before, self.buf@, start, i as nat);
                assert(bit_at(self.buf@, start + i) == if bit { 1nat } else { 0nat });
                assert(bits_value(self.buf@, start, (i + 1) as nat) == 2 * bits_value(
                    self.buf@,
                    start,
                    i as nat,
                ) + bit_at(self.buf@, start + i));
            }
            let ghost rest0 = rest;
            if bit {
                rest = rest - half;
            }
            assert(rest0 == rest_before_bit(rest as int, half as int, bit));
            proof {
                let bv = bits_value(before, start, i as nat);
                let bt: int = if bit { 1 } else { 0 };
                assert((2 * bv + bt) * half + rest == bv * unit + (rest_before_bit(
                    rest as int,
                    half as int,
                    bit,
                ))) by (nonlinear_arith)
                    requires
                        unit == 2 * half,
                        bt == (if bit { 1int } else { 0int }),
                ;
            }
            unit = half;
            i = i + 1;
        }
        proof {
            assert(self.buf@.subrange(0, start) == s0);
            assert(exp2(0) == 1);
            assert(unit == 1);
            assert(rest == 0);
            assert(bits_value(self.buf@, start, len as nat) * 1 == bits_value(
                self.buf@,
                start,
                len as nat,
            ));
        }
    }

    /// The next `len` bits from the cursor, most significant first, without
    /// moving the cursor; bits past the end of the stream read as 0.
    pub fn peek(&self, len: u8) -> (r: u64)
        requires
            len <= 32,
        ensures
            r == bits_value(self.stream(), self.cursor() as int, len as nat),
    {
        let mut v: u64 = 0;
        let mut i: u8 = 0;
        while i < len
            invariant
                i <= len <= 32,
                v == bits_value(self.buf@, self.pos as int, i as nat),
                v < exp2(i as nat),
            decreases len - i,
        {
            let avail = self.pos < self.buf.len() && (i as usize) < self.buf.len() - self.pos;
            let b: u64 = if avail && self.buf[self.pos + i as usize] {
                1
            } else {
                0
            };
            proof {
                assert(b == bit_at(self.buf@, self.pos + i));
                lemma_exp2_monotone(i as nat + 1, 32);
                lemma_exp2_values();
            }
            v = 2 * v + b;
            i = i + 1;
        }
        v
    }

    /// Moves the cursor forward by `len` bits.
    pub fn skip(&mut self, len: u8)
        requires
            old(self).cursor() + len <= usize::MAX,
        ensures
            final(self).cursor() == old(self).cursor() + len,
            final(self).stream() == old(self).stream(),
    {
        self.pos = self.pos + len as usize;
    }
}

spec fn rest_before_bit(rest: int, half: int, bit: bool) -> int {
    if bit {
        rest + half
    } else {
        rest
    }
}

/// Reading only bits that two streams share gives the same value.
pub proof fn lemma_bits_value_prefix(a: Seq<bool>, b: Seq<bool>, start: int, n: nat)
    requires
        0 <= start,
        start + n <= a.len(),
        start + n <= b.len(),
        forall|i: int| start <= i < start + n ==> a[i] == b[i],
    ensures
        bits_value(a, start, n) == bits_value(b, start, n),
    decreases n,
{
    if n > 0 {
        lemma_bits_value_prefix(a, b, start, (n - 1) as nat);
    }
}

} // verus!
