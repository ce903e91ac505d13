//! Building an array of bytes by appending a few bits at a time.

use crate::common::bit_array::low_bits_msb_first;
use crate::common::bit_source::{bit_stream, bits_of, lemma_bit_stream_push, lemma_bits_of_len};
use crate::common::bits::word_bit;
use vstd::prelude::*;

verus! {

/// Builds an array of bytes from bits; the bits of each byte are filled
/// from the most significant one down.
pub struct BitSourceBuilder {
    output: Vec<u8>,
    nextByte: u32,
    bitsLeftInNextByte: u32,
}

/// A run of `n` cleared bits.
pub open spec fn zero_bits(n: nat) -> Seq<bool> {
    Seq::new(n, |j: int| false)
}

/// The number of bits that fill a stream of `len` bits up to a whole byte.
pub open spec fn padding_to_byte(len: nat) -> nat {
    ((8 - len % 8) % 8) as nat
}

proof fn lemma_bits_of_zero(n: nat)
    ensures
        bits_of(0, n) == zero_bits(n),
    decreases n,
{
    lemma_bits_of_len(0, n);
    if n > 0 {
        lemma_bits_of_zero((n - 1) as nat);
        assert(bits_of(0, n) =~= zero_bits(n));
    } else {
        assert(bits_of(0, n) =~= zero_bits(n));
    }
}

impl BitSourceBuilder {
    /// The whole bytes written so far.
    pub closed spec fn output(&self) -> Seq<u8> {
        self.output@
    }

    /// The bits of the byte under construction.
    pub closed spec fn pending(&self) -> Seq<bool> {
        bits_of(self.nextByte as nat, (8 - self.bitsLeftInNextByte) as nat)
    }

    /// All bits written so far.
    pub open spec fn stream(&self) -> Seq<bool> {
        bit_stream(self.output()) + self.pending()
    }

    pub closed spec fn wf(&self) -> bool {
        &&& 1 <= self.bitsLeftInNextByte <= 8
        &&& self.nextByte < vstd::arithmetic::power2::pow2((8 - self.bitsLeftInNextByte) as nat)
        &&& self.nextByte < 256
        &&& self.pending().len() == 8 - self.bitsLeftInNextByte
    }

    pub proof fn lemma_pending_is_short(&self)
        requires
            self.wf(),
        ensures
            self.pending().len() < 8,
            self.stream().len() == 8 * self.output().len() + self.pending().len(),
    {
    }

    /// A builder that holds no bit.
    pub fn new() -> (r: Self)
        ensures
            r.wf(),
            r.output() == Seq::<u8>::empty(),
            r.stream() == Seq::<bool>::empty(),
    {
        let r = Self { output: Vec::new(), nextByte: 0, bitsLeftInNextByte: 8 };
        proof {
            lemma_bits_of_len(0, 0);
            vstd::arithmetic::power2::lemma2_to64();
            assert(r.stream() =~= Seq::<bool>::empty());
        }
        r
    }

    /// Appends one bit.
    fn write_bit(&mut self, bit: bool)
        requires
            old(self).wf(),
        ensures
            final(self).wf(),
            final(self).stream() == old(self).stream().push(bit),
    {
        let ghost n = (8 - self.bitsLeftInNextByte) as nat;
        proof {
            lemma_bits_of_len(self.nextByte as nat, n);
            lemma_bits_of_len(self.nextByte as nat * 2 + if bit { 1nat } else { 0nat }, n + 1);
            vstd::arithmetic::power2::lemma_pow2_unfold(n + 1);
            vstd::arithmetic::power2::lemma2_to64();
            if n + 1 < 8 {
                vstd::arithmetic::power2::lemma_pow2_strictly_increases(n + 1, 8);
            }
        }
        let ghost before = self.pending();
        self.nextByte = self.nextByte * 2 + if bit {
            1
        } else {
            0
        };
        self.bitsLeftInNextByte -= 1;
        proof {
            assert(self.pending() =~= before.push(bit));
        }
        if self.bitsLeftInNextByte == 0 {
            let ghost full = self.pending();
            let ghost bytes = self.output@;
            let ghost whole = self.nextByte;
            proof {
                vstd::arithmetic::power2::lemma2_to64();
                assert(whole < 256);
                assert(full == bits_of(whole as nat, 8));
            }
            self.output.push(self.nextByte as u8);
            proof {
                lemma_bit_stream_push(bytes, self.nextByte as u8);
                lemma_bits_of_len(0, 0);
            }
            self.nextByte = 0;
            self.bitsLeftInNextByte = 8;
            proof {
                vstd::arithmetic::power2::lemma2_to64();
                assert(self.pending() =~= Seq::<bool>::empty());
                assert(bit_stream(self.output@) == bit_stream(bytes) + full);
                assert(self.stream() =~= old(self).stream().push(bit));
            }
        } else {
            proof {
                assert(self.stream() =~= old(self).stream().push(bit));
            }
        }
    }

    /// Appends the `num_bits` low bits of `value`, most significant first.
    /// Positions beyond the 32 bits of `value` count as cleared.
    pub fn write(&mut self, value: u32, num_bits: u32)
        requires
            old(self).wf(),
        ensures
            final(self).wf(),
            final(self).stream() == old(self).stream() + low_bits_msb_first(value, num_bits as int),
    {
        let ghost tail = low_bits_msb_first(value, num_bits as int);
        let mut k: u32 = 0;
        proof {
            assert(self.stream() =~= old(self).stream() + tail.take(0));
        }
        while k < num_bits
            invariant
                k <= num_bits,
                self.wf(),
                tail == low_bits_msb_first(value, num_bits as int),
                self.stream() == old(self).stream() + tail.take(k as int),
            decreases num_bits - k,
        {
            let shift = num_bits - 1 - k;
            let bit = shift < 32 && (value >> shift) & 1u32 == 1u32;
            proof {
                assert(bit == word_bit(value, shift as int));
                assert(tail[k as int] == bit);
                assert(tail.take(k as int).push(bit) =~= tail.take(k + 1));
            }
            self.write_bit(bit);
            k += 1;
            proof {
                assert(self.stream() =~= old(self).stream() + tail.take(k as int));
            }
        }
        proof {
            assert(tail.take(num_bits as int) =~= tail);
        }
    }

    /// Fills the byte under construction with cleared bits and gives out
    /// all bytes written.
    pub fn toByteArray(&mut self) -> (r: &Vec<u8>)
        requires
            old(self).wf(),
        ensures
            final(self).wf(),
            final(self).output() == r@,
            final(self).stream() == bit_stream(r@),
            bit_stream(r@) == old(self).stream() + zero_bits(
                padding_to_byte(old(self).stream().len()),
            ),
    {
        proof {
            self.lemma_pending_is_short();
            lemma_bits_of_len(0, 0);
        }
        if self.bitsLeftInNextByte < 8 {
            let pad = self.bitsLeftInNextByte;
            self.write(0, pad);
            proof {
                lemma_zero_low_bits(pad as int);
                self.lemma_pending_is_short();
                assert(self.pending().len() == 0);
                assert(self.stream() =~= bit_stream(self.output()));
            }
        } else {
            proof {
                assert(self.pending() =~= Seq::<bool>::empty());
                assert(self.stream() =~= bit_stream(self.output()));
                assert(self.stream() =~= old(self).stream() + zero_bits(0));
            }
        }
        &self.output
    }
}

proof fn lemma_zero_low_bits(n: int)
    requires
        0 <= n,
    ensures
        low_bits_msb_first(0u32, n) == zero_bits(n as nat),
{
    crate::common::bits::lemma_zero_word(0u32);
    assert(low_bits_msb_first(0u32, n) =~= zero_bits(n as nat));
}

} // verus!
