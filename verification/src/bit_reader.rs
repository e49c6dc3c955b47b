use vstd::prelude::*;
use vstd::arithmetic::power2::*;
use crate::bit_math::{
    bit_of, bits_of, bits_value, code_of, lemma_add_shifted_mod, lemma_bits_value_bound,
    lemma_bits_value_concat, lemma_bits_of_concat, lemma_bits_of_skip, lemma_chunk_value,
    lemma_masked_bits, lemma_shl_u16_mod, law_bytes_read_back,
};

verus! {

/// Error of a bit read: `len` bits were asked for; `rbits` is how many of
/// them were read before the bytes ran out, or `None` where `len` exceeds the
/// widest code (12 bits) that the reader can be asked about.
#[derive(Debug, Clone, PartialEq, Eq)]
pub struct ByteSizeError {
    pub len: usize,
    pub rbits: Option<usize>,
}

/// A reader of bits, least significant bit of each byte first.
///
/// Its view is the sequence of bits that are still to be read.
pub struct BitReader {
    bytes: Vec<u8>,
    byte_offset: usize,
    bit_offset: usize,
}

impl View for BitReader {
    type V = Seq<bool>;

    closed spec fn view(&self) -> Seq<bool> {
        bits_of(self.bytes@).skip(self.position())
    }
}

impl BitReader {
    /// The reader's position, in bits, within its bytes.
    closed spec fn position(&self) -> int {
        self.byte_offset * 8 + self.bit_offset
    }

    /// The reader's invariant: the position lies within the bytes, and the
    /// bytes are few enough that their bits can be counted in a `usize`.
    pub closed spec fn wf(&self) -> bool {
        &&& self.bit_offset < 8
        &&& self.byte_offset <= self.bytes@.len()
        &&& self.byte_offset == self.bytes@.len() ==> self.bit_offset == 0
        &&& self.bytes@.len() * 8 <= usize::MAX
    }

    /// The bytes the reader holds: the unread ones, behind any that are
    /// already read.
    pub closed spec fn held_bytes(&self) -> Seq<u8> {
        self.bytes@
    }

    /// How many bytes the reader holds (read or not).
    pub closed spec fn byte_len(&self) -> nat {
        self.bytes@.len()
    }

    proof fn lemma_view_len(&self)
        requires
            self.wf(),
        ensures
            self@.len() == self.bytes@.len() * 8 - self.position(),
            self@.len() == 0 <==> self.byte_offset == self.bytes@.len(),
            forall|i: int|
                0 <= i < self@.len() ==> #[trigger] self@[i] == bits_of(self.bytes@)[self.position() + i],
    {
    }

    /// A reader with nothing to read.
    pub fn new() -> (r: Self)
        ensures
            r.wf(),
            r@ == Seq::<bool>::empty(),
            r.byte_len() == 0,
    {
        let r = Self { bytes: Vec::new(), byte_offset: 0, bit_offset: 0 };
        assert(r@ =~= Seq::<bool>::empty());
        r
    }

    /// `val << shift` where `shift` is below 16, `def` otherwise.
    pub fn shl_or(&mut self, val: u16, shift: usize, def: u16) -> (r: u16)
        ensures
            *final(self) == *old(self),
            r == if shift < 16 { val << (shift as u16) } else { def },
    {
        assert((shift & !15usize) != 0usize <==> shift >= 16) by (bit_vector);
        assert(shift < 16 ==> shift & 15usize == shift) by (bit_vector);
        if (shift & !15usize) != 0 {
            def
        } else {
            val << (shift & 15)
        }
    }

    /// `val >> shift` where `shift` is below 16, `def` otherwise.
    pub fn shr_or(&mut self, val: u16, shift: usize, def: u16) -> (r: u16)
        ensures
            *final(self) == *old(self),
            r == if shift < 16 { val >> (shift as u16) } else { def },
    {
        assert((shift & !15usize) != 0usize <==> shift >= 16) by (bit_vector);
        assert(shift < 16 ==> shift & 15usize == shift) by (bit_vector);
        if (shift & !15usize) != 0 {
            def
        } else {
            val >> (shift & 15)
        }
    }

    /// Reads the next `len` bits, the first as the least significant, and
    /// returns their value cut to 16 bits. Where fewer than `len` bits are
    /// left, every one of them is consumed and the error says how many there
    /// were.
    pub fn read_bits(&mut self, len: usize) -> (r: Result<u16, ByteSizeError>)
        requires
            old(self).wf(),
        ensures
            final(self).wf(),
            final(self).byte_len() == old(self).byte_len(),
            final(self).held_bytes() == old(self).held_bytes(),
            len <= old(self)@.len() ==> r == Ok::<u16, ByteSizeError>(
                code_of(old(self)@.take(len as int)),
            ) && final(self)@ == old(self)@.skip(len as int),
            len > old(self)@.len() ==> r == Err::<u16, ByteSizeError>(
                ByteSizeError { len, rbits: Some(old(self)@.len() as usize) },
            ) && final(self)@.len() == 0,
    {
        let ghost v0 = self@;
        proof {
            self.lemma_view_len();
            lemma2_to64();
            assert(v0.take(0) =~= Seq::<bool>::empty());
        }
        let mut result: u16 = 0;
        let mut rbits: usize = 0;
        while rbits < len
            invariant
                self.wf(),
                self.bytes@ == old(self).bytes@,
                v0 == old(self)@,
                rbits <= len,
                rbits <= v0.len(),
                self@ == v0.skip(rbits as int),
                self.position() == old(self).position() + rbits,
                result as nat == bits_value(v0.take(rbits as int)) % 65536,
            decreases len - rbits,
        {
            proof {
                self.lemma_view_len();
            }
            if self.byte_offset >= self.bytes.len() {
                assert(rbits == v0.len());
                return Err(ByteSizeError { len, rbits: Some(rbits) });
            }
            let bbits = if 8 - self.bit_offset < len - rbits {
                8 - self.bit_offset
            } else {
                len - rbits
            };
            let temp = self.shr_or(0xFF, 8 - bbits, 0);
            let mask = self.shl_or(temp, self.bit_offset, 0);
            let byte = self.bytes[self.byte_offset];
            let temp = self.shr_or(byte as u16 & mask, self.bit_offset, 0);
            let ghost pos = self.position();
            let ghost o = self.bit_offset as nat;
            let ghost k = bbits as nat;
            proof {
                lemma_masked_bits(byte as u16, self.bit_offset as u16, bbits as u16);
                lemma_chunk_value(byte as nat, o, k);
                let chunk = Seq::new(k, |j: int| bit_of(byte as nat, o + j as nat));
                assert forall|j: int| 0 <= j < k implies v0[rbits + j] == #[trigger] chunk[j] by {
                    assert(v0[rbits + j] == self@[j]);
                    assert(self@[j] == bits_of(self.bytes@)[pos + j]);
                    assert((pos + j) / 8 == self.byte_offset) by (nonlinear_arith)
                        requires
                            pos == self.byte_offset * 8 + o,
                            0 <= j,
                            o + j < 8,
                    ;
                    assert((pos + j) % 8 == o + j) by (nonlinear_arith)
                        requires
                            pos == self.byte_offset * 8 + o,
                            0 <= j,
                            o + j < 8,
                    ;
                }
                assert(v0.take(rbits + bbits) =~= v0.take(rbits as int) + chunk);
                lemma_bits_value_concat(v0.take(rbits as int), chunk);
                lemma_bits_value_bound(v0.take(rbits as int));
                lemma_add_shifted_mod(bits_value(v0.take(rbits as int)), rbits as nat, temp as nat);
                lemma_bits_value_bound(chunk);
                lemma2_to64();
                if k < 8 {
                    lemma_pow2_strictly_increases(k, 8);
                }
                assert(temp < 256);
                lemma_pow2_pos(rbits as nat);
                if rbits < 16 {
                    lemma_shl_u16_mod(temp, rbits as u16);
                    vstd::arithmetic::mul::lemma_mul_is_commutative(temp as int, pow2(rbits as nat) as int);
                }
            }
            let add = self.shl_or(temp, rbits, 0);
            result = result + add;
            rbits = rbits + bbits;
            if self.bit_offset + bbits == 8 {
                self.bit_offset = 0;
                self.byte_offset = self.byte_offset + 1;
            } else {
                self.bit_offset = self.bit_offset + bbits;
            }
            assert(self@ =~= v0.skip(rbits as int));
        }
        Ok(result)
    }

    /// Appends `bytes` to what is left to read. The unread bits of the bytes
    /// held so far stay in front; bytes already read in full are let go, and
    /// a byte read in part is kept with its unread bits.
    pub fn push_bytes(&mut self, bytes: &[u8]) -> (r: Option<ByteSizeError>)
        requires
            old(self).wf(),
            (old(self).byte_len() + bytes@.len()) * 8 <= usize::MAX,
        ensures
            final(self).wf(),
            r.is_none(),
            final(self)@ == old(self)@ + bits_of(bytes@),
            final(self).byte_len() <= old(self).byte_len() + bytes@.len(),
            final(self).byte_len() == (old(self)@.len() + 7) / 8 + bytes@.len(),
            final(self).byte_len() == final(self).held_bytes().len(),
            final(self).held_bytes() == old(self).held_bytes().skip(
                old(self).held_bytes().len() - (old(self)@.len() + 7) / 8,
            ) + bytes@,
    {
        proof {
            self.lemma_view_len();
            let k = self.bytes@.len() - self.byte_offset;
            assert((8 * k - self.bit_offset + 7) / 8 == k) by (nonlinear_arith)
                requires
                    k >= 0,
                    0 <= self.bit_offset < 8,
                    k == 0 ==> self.bit_offset == 0,
            ;
        }
        match self.has_bits(1) {
            Ok(has_bits) => {
                if has_bits {
                    let ghost old_bytes = self.bytes@;
                    let rest = vstd::slice::slice_subrange(
                        self.bytes.as_slice(),
                        self.byte_offset,
                        self.bytes.len(),
                    );
                    let mut new_bytes: Vec<u8> = vstd::slice::slice_to_vec(rest);
                    new_bytes.extend_from_slice(bytes);
                    proof {
                        assert(new_bytes@ =~= old_bytes.skip(self.byte_offset as int) + bytes@);
                        lemma_bits_of_concat(old_bytes.skip(self.byte_offset as int), bytes@);
                        lemma_bits_of_skip(old_bytes, self.byte_offset as int);
                    }
                    self.bytes = new_bytes;
                    self.byte_offset = 0;
                } else {
                    assert(old(self).bytes@.skip(old(self).bytes@.len() as int) + bytes@ =~= bytes@);
                    self.bytes = vstd::slice::slice_to_vec(bytes);
                    self.byte_offset = 0;
                    self.bit_offset = 0;
                }
                assert(self@ =~= old(self)@ + bits_of(bytes@));
                None
            },
            Err(err) => Some(err),
        }
    }

    /// Whether `len` more bits can be read; an error where `len` exceeds 12.
    /// With no bits left it answers `false`, also for `len == 0`.
    pub fn has_bits(&mut self, len: usize) -> (r: Result<bool, ByteSizeError>)
        requires
            old(self).wf(),
        ensures
            *final(self) == *old(self),
            r == if len > 12 {
                Err::<bool, ByteSizeError>(ByteSizeError { len, rbits: None })
            } else {
                Ok::<bool, ByteSizeError>(old(self)@.len() > 0 && len <= old(self)@.len())
            },
    {
        proof {
            self.lemma_view_len();
        }
        if len > 12 {
            return Err(ByteSizeError { len, rbits: None });
        }
        if self.byte_offset >= self.bytes.len() {
            return Ok(false);
        }
        let bits_remain = 8 - self.bit_offset;
        if len <= bits_remain {
            return Ok(true);
        }
        let bytes_remain = self.bytes.len() - self.byte_offset - 1;
        if bytes_remain < 1 {
            return Ok(false);
        }
        if len > bits_remain + 8 * bytes_remain {
            return Ok(false);
        }
        return Ok(true);
    }
}

} // verus!

verus! {

/// Bytes read in turn: once a reader's view is the bits of `bytes` (as
/// `push_bytes` leaves an empty reader), reading eight bits at a time gives
/// the bytes back in order. Before the `k`-th read the view is
/// `bits_of(bytes).skip(8 * k)`: it holds at least eight bits, so the read
/// succeeds, it returns `bytes[k]`, and it leaves the view of the next read.
/// After the last byte the view is empty, so a further read of any bits
/// fails having read none.
pub proof fn law_successive_byte_reads(bytes: Seq<u8>)
    ensures
        forall|k: int|
            0 <= k < bytes.len() ==> {
                let v = #[trigger] bits_of(bytes).skip(8 * k);
                &&& 8 <= v.len()
                &&& code_of(v.take(8)) == bytes[k]
                &&& v.skip(8) == bits_of(bytes).skip(8 * (k + 1))
            },
        bits_of(bytes).skip(8 * bytes.len() as int).len() == 0,
{
    law_bytes_read_back(bytes);
    assert forall|k: int| 0 <= k < bytes.len() implies {
        let v = #[trigger] bits_of(bytes).skip(8 * k);
        &&& 8 <= v.len()
        &&& code_of(v.take(8)) == bytes[k]
        &&& v.skip(8) == bits_of(bytes).skip(8 * (k + 1))
    } by {
        let v = bits_of(bytes).skip(8 * k);
        assert(v.skip(8) =~= bits_of(bytes).skip(8 * (k + 1)));
    }
}

} // verus!
