//! Reading a sequence of bytes a few bits at a time.

use crate::common::bits::{bits_value, lemma_bits_value_bound, lemma_bits_value_push};
use crate::exceptions::Exceptions;
use vstd::prelude::*;

verus! {

/// The `n` low binary digits of `v`, most significant first.
pub open spec fn bits_of(v: nat, n: nat) -> Seq<bool>
    decreases n,
{
    if n == 0 {
        Seq::empty()
    } else {
        bits_of(v / 2, (n - 1) as nat).push(v % 2 == 1)
    }
}

/// The bits of a sequence of bytes: the first byte first, and within each
/// byte the most significant bit first.
pub open spec fn bit_stream(bytes: Seq<u8>) -> Seq<bool> {
    Seq::new(8 * bytes.len(), |j: int| bits_of(bytes[j / 8] as nat, 8)[j % 8])
}

pub proof fn lemma_bits_of_len(v: nat, n: nat)
    ensures
        bits_of(v, n).len() == n,
    decreases n,
{
    if n > 0 {
        lemma_bits_of_len(v / 2, (n - 1) as nat);
    }
}

/// The stream of a byte sequence extended by one byte.
pub proof fn lemma_bit_stream_push(bytes: Seq<u8>, b: u8)
    ensures
        bit_stream(bytes.push(b)) == bit_stream(bytes) + bits_of(b as nat, 8),
{
    lemma_bits_of_len(b as nat, 8);
    assert(bit_stream(bytes.push(b)) =~= bit_stream(bytes) + bits_of(b as nat, 8));
}

/// Bit `k` of a byte, counted from the most significant bit.
pub fn bit_of_byte(b: u8, k: usize) -> (r: bool)
    requires
        k < 8,
    ensures
        r == bits_of(b as nat, 8)[k as int],
{
    proof {
        reveal_with_fuel(bits_of, 9);
    }
    if k == 0 {
        (b / 128) % 2 == 1
    } else if k == 1 {
        (b / 64) % 2 == 1
    } else if k == 2 {
        (b / 32) % 2 == 1
    } else if k == 3 {
        (b / 16) % 2 == 1
    } else if k == 4 {
        (b / 8) % 2 == 1
    } else if k == 5 {
        (b / 4) % 2 == 1
    } else if k == 6 {
        (b / 2) % 2 == 1
    } else {
        b % 2 == 1
    }
}

/// Reads bits from a sequence of bytes, where the number of bits read is
/// not often a multiple of 8.  Bits are read from the first byte first, and
/// within a byte from the most significant bit to the least significant.
pub struct BitSource {
    bytes: Vec<u8>,
    byte_offset: usize,
    bit_offset: usize,
}

impl BitSource {
    pub closed spec fn bytes(&self) -> Seq<u8> {
        self.bytes@
    }

    /// Index of the byte that holds the next bit.
    pub closed spec fn byte_offset(&self) -> nat {
        self.byte_offset as nat
    }

    /// Index of the next bit within its byte.
    pub closed spec fn bit_offset(&self) -> nat {
        self.bit_offset as nat
    }

    /// All bits of the source, read or not.
    pub open spec fn stream(&self) -> Seq<bool> {
        bit_stream(self.bytes())
    }

    /// The number of bits read so far.
    pub open spec fn position(&self) -> nat {
        8 * self.byte_offset() + self.bit_offset()
    }

    pub open spec fn wf(&self) -> bool {
        &&& 8 * self.bytes().len() <= usize::MAX
        &&& self.bit_offset() < 8
        &&& self.position() <= 8 * self.bytes().len()
    }

    /// A source that reads `bytes` from the first bit on.
    pub fn new(bytes: Vec<u8>) -> (r: Self)
        requires
            8 * bytes.len() <= usize::MAX,
        ensures
            r.wf(),
            r.bytes() == bytes@,
            r.position() == 0,
    {
        Self { bytes, byte_offset: 0, bit_offset: 0 }
    }

    /// Index of the next bit in the current byte.
    pub fn getBitOffset(&self) -> (r: usize)
        ensures
            r == self.bit_offset(),
    {
        self.bit_offset
    }

    /// Index of the byte that the next read starts in.
    pub fn getByteOffset(&self) -> (r: usize)
        ensures
            r == self.byte_offset(),
    {
        self.byte_offset
    }

    /// Reads `num_bits` bits; they come out as the least significant bits
    /// of the result, the bit read first most significant.
    pub fn readBits(&mut self, num_bits: usize) -> (r: Result<u32, Exceptions>)
        requires
            old(self).wf(),
        ensures
            r is Err <==> (num_bits < 1 || num_bits > 32 || old(self).position() + num_bits > old(
                self,
            ).stream().len()),
            r is Err ==> r->Err_0 == Exceptions::IllegalArgumentException && *final(self) == *old(
                self,
            ),
            r matches Ok(v) ==> {
                &&& final(self).wf()
                &&& final(self).bytes() == old(self).bytes()
                &&& final(self).position() == old(self).position() + num_bits
                &&& v == bits_value(
                    old(self).stream().subrange(
                        old(self).position() as int,
                        old(self).position() + num_bits,
                    ),
                )
            },
    {
        if num_bits < 1 || num_bits > 32 || num_bits > self.available() {
            return Err(Exceptions::IllegalArgumentException);
        }
        let ghost stream = self.stream();
        let ghost start = self.position() as int;
        let mut result: u64 = 0;
        let mut k: usize = 0;
        proof {
            assert(stream.subrange(start, start) =~= Seq::<bool>::empty());
            vstd::arithmetic::power2::lemma2_to64();
        }
        while k < num_bits
            invariant
                k <= num_bits <= 32,
                self.wf(),
                self.bytes() == old(self).bytes(),
                stream == self.stream(),
                stream.len() == 8 * self.bytes().len(),
                0 <= start,
                start + num_bits <= stream.len(),
                self.position() == start + k,
                result == bits_value(stream.subrange(start, start + k)),
                result < vstd::arithmetic::power2::pow2(k as nat),
            decreases num_bits - k,
        {
            let bit = bit_of_byte(self.bytes[self.byte_offset], self.bit_offset);
            proof {
                let p = start + k;
                assert(p / 8 == self.byte_offset as int && p % 8 == self.bit_offset as int);
                assert(stream[p] == bit);
                lemma_bits_value_push(stream.subrange(start, p), bit);
                assert(stream.subrange(start, p).push(bit) =~= stream.subrange(start, p + 1));
                lemma_bits_value_bound(stream.subrange(start, p + 1));
                vstd::arithmetic::power2::lemma2_to64();
                if k + 1 < 32 {
                    vstd::arithmetic::power2::lemma_pow2_strictly_increases((k + 1) as nat, 32);
                }
                vstd::arithmetic::power2::lemma_pow2_strictly_increases(k as nat, 32);
            }
            result = result * 2 + if bit {
                1
            } else {
                0
            };
            self.bit_offset += 1;
            if self.bit_offset == 8 {
                self.bit_offset = 0;
                self.byte_offset += 1;
            }
            k += 1;
        }
        proof {
            vstd::arithmetic::power2::lemma2_to64();
            if num_bits < 32 {
                vstd::arithmetic::power2::lemma_pow2_strictly_increases(num_bits as nat, 32);
            }
        }
        Ok(result as u32)
    }

    /// The number of bits that can still be read.
    pub fn available(&self) -> (r: usize)
        requires
            self.wf(),
        ensures
            r == self.stream().len() - self.position(),
    {
        8 * (self.bytes.len() - self.byte_offset) - self.bit_offset
    }
}

} // verus!
