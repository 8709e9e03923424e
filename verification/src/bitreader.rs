//! A reader that takes bits off a byte string, from any bit on.
use vstd::arithmetic::power2::*;
use vstd::bits::*;
use vstd::prelude::*;

use crate::bits;

verus! {

/// A position in the bits of a byte string.
pub struct BitReader<'a> {
    data: &'a [u8],
    pos: usize,
}

impl<'a> BitReader<'a> {
    #[verifier::type_invariant]
    closed spec fn inv(self) -> bool {
        &&& 8 * self.data@.len() <= usize::MAX
        &&& self.pos <= 8 * self.data@.len()
    }

    /// The bits that are read.
    pub closed spec fn bits(self) -> Seq<bool> {
        bits::bits_of(self.data@)
    }

    /// The number of bits in front of the next one.
    pub closed spec fn pos(self) -> nat {
        self.pos as nat
    }

    /// A reader at the first bit of `data`.
    pub fn new(data: &'a [u8]) -> (r: Self)
        requires
            8 * data@.len() <= usize::MAX,
        ensures
            r.bits() == bits::bits_of(data@),
            r.pos() == 0,
    {
        BitReader { data, pos: 0 }
    }

    /// A reader behind the first `offset` bits of `data`, or at its end where it
    /// has fewer.
    pub fn from_bit_offset(data: &'a [u8], offset: usize) -> (r: Self)
        requires
            8 * data@.len() <= usize::MAX,
        ensures
            r.bits() == bits::bits_of(data@),
            r.pos() == if offset <= 8 * data@.len() {
                offset as nat
            } else {
                8 * data@.len()
            },
    {
        let total: usize = data.len() * 8;
        let pos: usize = if offset <= total {
            offset
        } else {
            total
        };
        BitReader { data, pos }
    }

    /// The number of bits in front of the next one.
    pub fn position(&self) -> (p: usize)
        ensures
            p == self.pos(),
            p <= self.bits().len(),
    {
        proof {
            use_type_invariant(self);
        }
        self.pos
    }

    /// The number of bits that are left.
    fn remaining(&self) -> (n: usize)
        ensures
            n == self.bits().len() - self.pos(),
    {
        proof {
            use_type_invariant(self);
        }
        self.data.len() * 8 - self.pos
    }

    /// The next `n` bits as a number.
    fn value_ahead(&self, n: u8) -> (v: u64)
        requires
            n <= 64,
            self.pos() + n <= self.bits().len(),
        ensures
            v == bits::bits_value(self.bits(), self.pos() as int, n as nat),
    {
        proof {
            use_type_invariant(self);
        }
        let ghost all = self.bits();
        let ghost start = self.pos() as int;
        let mut v: u64 = 0;
        let mut done: u8 = 0;
        while done < n
            invariant
                done <= n <= 64,
                all == bits::bits_of(self.data@),
                start == self.pos,
                start + n <= all.len(),
                8 * self.data@.len() <= usize::MAX,
                v == bits::bits_value(all, start, done as nat),
            decreases n - done,
        {
            let p: usize = self.pos + done as usize;
            let off: u8 = (p % 8) as u8;
            let room: u8 = 8 - off;
            let left: u8 = n - done;
            let take: u8 = if left < room {
                left
            } else {
                room
            };
            let byte: u8 = self.data[p / 8];
            let field: u8 = (byte >> (8 - off - take)) & (0xffu8 >> (8 - take));
            proof {
                bits::lemma_byte_field(self.data@, p as int, off, take);
                bits::lemma_bits_value_split(all, start, done as nat, take as nat);
                bits::lemma_bits_value_bound(all, start, done as nat);
                bits::lemma_bits_value_bound(all, start, (done + take) as nat);
                lemma_pow2_adds(done as nat, take as nat);
                lemma_pow2_no_more_than_u64((done + take) as nat);
                lemma_pow2_pos(take as nat);
                let a = v as nat;
                let t = pow2(take as nat);
                assert(a * t + field == bits::bits_value(all, start, (done + take) as nat));
                assert(a * t >= 0) by (nonlinear_arith)
                    requires
                        a >= 0,
                        t >= 0,
                ;
                lemma_u64_shl_is_mul(v, take as u64);
            }
            v = (v << (take as u64)) + field as u64;
            done = done + take;
        }
        v
    }

    /// Reads one bit; `None` at the end.
    pub fn read_bit(&mut self) -> (r: Option<bool>)
        ensures
            final(self).bits() == old(self).bits(),
            old(self).pos() <= old(self).bits().len(),
            r == if old(self).pos() < old(self).bits().len() {
                Some(old(self).bits()[old(self).pos() as int])
            } else {
                None
            },
            final(self).pos() == old(self).pos() + if r is Some {
                1int
            } else {
                0
            },
    {
        proof {
            use_type_invariant(&*self);
        }
        if self.pos >= self.data.len() * 8 {
            return None;
        }
        let byte: u8 = self.data[self.pos / 8];
        let off: u8 = (self.pos % 8) as u8;
        let bit: bool = (byte >> (7 - off)) & 1u8 == 1u8;
        self.pos = self.pos + 1;
        Some(bit)
    }

    /// Looks at the next `n` bits as a number without passing them; `None` if
    /// fewer are left.
    pub fn peek(&self, n: u8) -> (r: Option<u32>)
        requires
            n <= 32,
        ensures
            self.pos() <= self.bits().len(),
            self.pos() + n > self.bits().len() <==> r is None,
            r matches Some(v) ==> v == bits::bits_value(self.bits(), self.pos() as int, n as nat),
    {
        if self.remaining() < n as usize {
            return None;
        }
        let v: u64 = self.value_ahead(n);
        proof {
            bits::lemma_bits_value_bound(self.bits(), self.pos() as int, n as nat);
            lemma_pow2_at_most(n as nat, 32);
        }
        Some(v as u32)
    }

    /// Passes `n` bits that are there.
    pub fn consume(&mut self, n: u8)
        requires
            old(self).pos() + n <= old(self).bits().len(),
        ensures
            final(self).bits() == old(self).bits(),
            final(self).pos() == old(self).pos() + n,
    {
        proof {
            use_type_invariant(&*self);
        }
        self.pos = self.pos + n as usize;
    }

    /// Passes `n` bits, or all that are left where these are fewer.
    pub fn skip(&mut self, n: usize)
        ensures
            final(self).bits() == old(self).bits(),
            final(self).pos() == if old(self).pos() + n <= old(self).bits().len() {
                old(self).pos() + n
            } else {
                old(self).bits().len() as int
            },
    {
        proof {
            use_type_invariant(&*self);
        }
        let left: usize = self.remaining();
        if n <= left {
            self.pos = self.pos + n;
        } else {
            self.pos = self.data.len() * 8;
        }
    }

    /// Reads the next `n` bits as a number; `None`, and nothing is read, if fewer
    /// are left.
    pub fn read_u64(&mut self, n: u8) -> (r: Option<u64>)
        requires
            n <= 64,
        ensures
            final(self).bits() == old(self).bits(),
            old(self).pos() <= old(self).bits().len(),
            old(self).pos() + n > old(self).bits().len() <==> r is None,
            r matches Some(v) ==> v == bits::bits_value(
                old(self).bits(),
                old(self).pos() as int,
                n as nat,
            ),
            final(self).pos() == old(self).pos() + if r is Some {
                n as int
            } else {
                0
            },
    {
        if self.remaining() < n as usize {
            return None;
        }
        let v: u64 = self.value_ahead(n);
        self.consume(n);
        Some(v)
    }

    /// Reads the next `n` bits as a number of at most 32 bits.
    pub fn read_u32(&mut self, n: u8) -> (r: Option<u32>)
        requires
            n <= 32,
        ensures
            final(self).bits() == old(self).bits(),
            old(self).pos() <= old(self).bits().len(),
            old(self).pos() + n > old(self).bits().len() <==> r is None,
            r matches Some(v) ==> v == bits::bits_value(
                old(self).bits(),
                old(self).pos() as int,
                n as nat,
            ),
            final(self).pos() == old(self).pos() + if r is Some {
                n as int
            } else {
                0
            },
    {
        proof {
            bits::lemma_bits_value_bound(self.bits(), self.pos() as int, n as nat);
            lemma_pow2_at_most(n as nat, 32);
        }
        match self.read_u64(n) {
            Some(v) => Some(v as u32),
            None => None,
        }
    }

    /// Reads the next `n` bits as a number of at most 16 bits.
    pub fn read_u16(&mut self, n: u8) -> (r: Option<u16>)
        requires
            n <= 16,
        ensures
            final(self).bits() == old(self).bits(),
            old(self).pos() <= old(self).bits().len(),
            old(self).pos() + n > old(self).bits().len() <==> r is None,
            r matches Some(v) ==> v == bits::bits_value(
                old(self).bits(),
                old(self).pos() as int,
                n as nat,
            ),
            final(self).pos() == old(self).pos() + if r is Some {
                n as int
            } else {
                0
            },
    {
        proof {
            bits::lemma_bits_value_bound(self.bits(), self.pos() as int, n as nat);
            lemma_pow2_at_most(n as nat, 16);
        }
        match self.read_u64(n) {
            Some(v) => Some(v as u16),
            None => None,
        }
    }

    /// Reads the next `n` bits as a number of at most 8 bits.
    pub fn read_u8(&mut self, n: u8) -> (r: Option<u8>)
        requires
            n <= 8,
        ensures
            final(self).bits() == old(self).bits(),
            old(self).pos() <= old(self).bits().len(),
            old(self).pos() + n > old(self).bits().len() <==> r is None,
            r matches Some(v) ==> v == bits::bits_value(
                old(self).bits(),
                old(self).pos() as int,
                n as nat,
            ),
            final(self).pos() == old(self).pos() + if r is Some {
                n as int
            } else {
                0
            },
    {
        proof {
            bits::lemma_bits_value_bound(self.bits(), self.pos() as int, n as nat);
            lemma_pow2_at_most(n as nat, 8);
        }
        match self.read_u64(n) {
            Some(v) => Some(v as u8),
            None => None,
        }
    }
}

/// A power of two that an integer type of `m` bits just does not hold bounds
/// those below it.
proof fn lemma_pow2_at_most(n: nat, m: nat)
    requires
        n <= m,
        m == 8 || m == 16 || m == 32,
    ensures
        m == 8 ==> pow2(n) <= 0x100,
        m == 16 ==> pow2(n) <= 0x1_0000,
        m == 32 ==> pow2(n) <= 0x1_0000_0000,
{
    lemma2_to64();
    if n < m {
        lemma_pow2_strictly_increases(n, m);
    }
}

proof fn lemma_pow2_no_more_than_u64(n: nat)
    requires
        n <= 64,
    ensures
        pow2(n) <= 0x1_0000_0000_0000_0000,
{
    lemma2_to64();
    lemma2_to64_rest();
    if n < 64 {
        lemma_pow2_strictly_increases(n, 64);
    }
}

} // verus!
