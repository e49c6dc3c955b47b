use vstd::prelude::*;
use vstd::arithmetic::power2::*;
use std::collections::HashMap;
use crate::bit_math::{bits_of, code_of, lemma_bits_of_concat};
use crate::bit_reader::{BitReader, ByteSizeError};
use crate::error::DecodeError;

verus! {

broadcast use vstd::std_specs::hash::group_hash_axioms;

/// The state of the LZW decompressor of one image, as a value.
pub struct LzwModel {
    /// The code table: the indices that each code stands for.
    pub table: Map<usize, Seq<u8>>,
    /// The codes read since the last clear code (that one included).
    pub code_stream: Seq<u16>,
    /// The colour indices decoded so far.
    pub index_stream: Seq<u8>,
    pub clear_code: u16,
    pub eoi_code: u16,
    /// The last code that has an entry made from the data.
    pub last_code: u16,
    /// The current code width in bits.
    pub size: usize,
    /// The code whose assignment widens the codes by one bit.
    pub grow_code: u16,
    /// Whether the first code after a clear code has been seen.
    pub initialized: bool,
    pub min_code_size: u8,
}

/// The table that a clear code sets up: one entry of one index for each code
/// below the clear code, an empty entry for the clear code itself.
pub open spec fn initial_table(clear_code: u16, eoi_code: u16) -> Map<usize, Seq<u8>> {
    Map::new(
        |k: usize| k < eoi_code,
        |k: usize|
            if k < clear_code {
                seq![k as u8]
            } else {
                Seq::<u8>::empty()
            },
    )
}

/// The state before the first code of an image with the given minimum code
/// size: no table yet, codes one bit wider than the minimum size.
pub open spec fn lzw_start(min_code_size: u8) -> LzwModel {
    let clear = pow2(min_code_size as nat) as u16;
    LzwModel {
        table: Map::empty(),
        code_stream: Seq::empty(),
        index_stream: Seq::empty(),
        clear_code: clear,
        eoi_code: (clear + 1) as u16,
        last_code: (clear + 1) as u16,
        size: (min_code_size + 1) as usize,
        grow_code: (clear - 1) as u16,
        initialized: false,
        min_code_size,
    }
}

/// What one code (other than the end-of-information code) does to the state,
/// or the exit status of the table miss that stops the decoding.
pub open spec fn lzw_step(m: LzwModel, code: u16) -> Result<LzwModel, u8> {
    if code == m.clear_code {
        let size = (m.min_code_size + 1) as usize;
        Ok(
            LzwModel {
                table: initial_table(m.clear_code, m.eoi_code),
                code_stream: seq![code],
                last_code: m.eoi_code,
                size,
                grow_code: (pow2(size as nat) - 1) as u16,
                initialized: false,
                ..m
            },
        )
    } else if !m.initialized {
        if m.table.contains_key(code as usize) {
            Ok(
                LzwModel {
                    index_stream: m.index_stream + m.table[code as usize],
                    code_stream: m.code_stream.push(code),
                    initialized: true,
                    ..m
                },
            )
        } else {
            Err(1)
        }
    } else {
        let prev = m.code_stream.last();
        let emitted: Result<(Seq<u8>, u8), u8> = if code <= m.last_code {
            if m.table.contains_key(code as usize) {
                Ok((m.table[code as usize], m.table[code as usize][0]))
            } else {
                Err(2)
            }
        } else {
            if m.table.contains_key(prev as usize) {
                let c = m.table[prev as usize];
                Ok((c.push(c[0]), c[0]))
            } else {
                Err(3)
            }
        };
        match emitted {
            Err(e) => Err(e),
            Ok((out, k)) => {
                let m2 = LzwModel {
                    index_stream: m.index_stream + out,
                    code_stream: m.code_stream.push(code),
                    ..m
                };
                if m.last_code < 0xFFF {
                    if m.table.contains_key(prev as usize) {
                        let last = (m.last_code + 1) as u16;
                        let grows = last == m.grow_code && last < 0xFFF;
                        let size = if grows { (m.size + 1) as usize } else { m.size };
                        Ok(
                            LzwModel {
                                table: m.table.insert(last as usize, m.table[prev as usize].push(k)),
                                last_code: last,
                                size,
                                grow_code: if grows {
                                    (pow2(size as nat) - 1) as u16
                                } else {
                                    m.grow_code
                                },
                                ..m2
                            },
                        )
                    } else {
                        Err(4)
                    }
                } else {
                    Ok(m2)
                }
            },
        }
    }
}

/// Reads and decodes codes from `bits` until the end-of-information code, or
/// until fewer bits are left than the current code width: the state after
/// them and the bits left, or the error that stops the decoding.
pub open spec fn decode_codes(m: LzwModel, bits: Seq<bool>) -> Result<
    (LzwModel, Seq<bool>),
    DecodeError,
>
    decreases bits.len(),
    when m.size > 0
{
    if bits.len() < m.size {
        Err(DecodeError::BitRead(ByteSizeError { len: m.size, rbits: Some(bits.len() as usize) }))
    } else {
        let code = code_of(bits.take(m.size as int));
        let rest = bits.skip(m.size as int);
        if code == m.eoi_code {
            Ok((LzwModel { code_stream: m.code_stream.push(code), ..m }, rest))
        } else {
            match lzw_step(m, code) {
                Err(e) => Err(DecodeError::InvalidCode(e)),
                Ok(m2) => {
                    if m2.size > 12 {
                        Err(DecodeError::BitRead(ByteSizeError { len: m2.size, rbits: None }))
                    } else if rest.len() > 0 && m2.size <= rest.len() {
                        decode_codes(m2, rest)
                    } else {
                        Ok((m2, rest))
                    }
                },
            }
        }
    }
}

/// Decodes the image data sub-blocks from `off`, where the first has `count`
/// bytes: the bytes of each block are appended to the bits left over from
/// the one before, codes are decoded from them, and the size of the next
/// block follows; a size of zero ends the data. The state after the last
/// block and the offset after the zero size.
pub open spec fn decode_sub_blocks(
    c: Seq<u8>,
    off: int,
    count: nat,
    m: LzwModel,
    bits: Seq<bool>,
) -> Result<(LzwModel, int), DecodeError>
    decreases c.len() - off,
{
    let end = off + count;
    if end > c.len() {
        Err(DecodeError::UnexpectedEnd)
    } else {
        match decode_codes(m, bits + bits_of(c.subrange(off, end))) {
            Err(e) => Err(e),
            Ok((m2, rest)) => {
                if end >= c.len() {
                    Err(DecodeError::UnexpectedEnd)
                } else if c[end] == 0 {
                    Ok((m2, end + 1))
                } else {
                    decode_sub_blocks(c, end + 1, c[end] as nat, m2, rest)
                }
            },
        }
    }
}

/// Decoding sub-blocks ends after where it starts and within the bytes.
pub proof fn lemma_decode_sub_blocks_advances(
    c: Seq<u8>,
    off: int,
    count: nat,
    m: LzwModel,
    bits: Seq<bool>,
)
    ensures
        decode_sub_blocks(c, off, count, m, bits) matches Ok((_, next)) ==> off < next <= c.len(),
    decreases c.len() - off,
{
    let end = off + count;
    if end <= c.len() {
        if let Ok((m2, rest)) = decode_codes(m, bits + bits_of(c.subrange(off, end))) {
            if end < c.len() && c[end] != 0 {
                lemma_decode_sub_blocks_advances(c, end + 1, c[end] as nat, m2, rest);
            }
        }
    }
}

/// The invariant of every state that the decompressor reaches.
pub open spec fn lzw_wf(m: LzwModel) -> bool {
    &&& 1 <= m.min_code_size <= 8
    &&& m.clear_code == pow2(m.min_code_size as nat)
    &&& m.eoi_code == m.clear_code + 1
    &&& m.min_code_size + 1 <= m.size <= 12
    &&& m.eoi_code <= m.last_code <= 0xFFF
    &&& (m.grow_code == pow2(m.size as nat) - 1 || m.grow_code < m.last_code)
    &&& !m.table.contains_key(m.eoi_code as usize)
    &&& forall|k: usize| #[trigger] m.table.contains_key(k) ==> k <= m.last_code
    &&& forall|k: usize|
        #[trigger] m.table.contains_key(k) && k != m.clear_code ==> m.table[k].len() > 0
    &&& m.initialized ==> m.code_stream.len() > 0 && m.code_stream.last() != m.clear_code
}

/// Every state reached from a valid start keeps the invariant: a step from
/// a state that holds it leads to one that holds it.
pub proof fn lemma_step_keeps_wf(m: LzwModel, code: u16)
    requires
        lzw_wf(m),
        code != m.eoi_code,
    ensures
        lzw_step(m, code) matches Ok(m2) ==> lzw_wf(m2),
{
    lemma2_to64();
    if code == m.clear_code {
        lemma_pow2_strictly_increases(m.min_code_size as nat, 12);
    } else if let Ok(m2) = lzw_step(m, code) {
        if m.initialized && m.last_code < 0xFFF {
            let last = (m.last_code + 1) as u16;
            if last == m.grow_code && last < 0xFFF {
                if m.size >= 12 {
                    lemma_pow2_strictly_increases(11, m.size as nat);
                }
            }
        }
        assert forall|k: usize| #[trigger] m2.table.contains_key(k) && k != m2.clear_code implies m2.table[k].len() > 0 by {
            if m.table.contains_key(k) {
            }
        }
    }
}

/// The table is built entry by entry: every entry past the
/// end-of-information code is an earlier entry followed by one more index.
pub open spec fn table_prefix_closed(m: LzwModel) -> bool {
    forall|k: usize|
        #[trigger] m.table.contains_key(k) && k > m.eoi_code ==> m.table[k].len() >= 2 && exists|
            j: usize,
        |
            j < k && m.table.contains_key(j) && #[trigger] m.table[j] == m.table[k].drop_last()
}

/// Every table the decompressor builds is made entry by entry from earlier
/// entries: a step keeps that property.
pub proof fn law_table_prefix_closed(m: LzwModel, code: u16)
    requires
        lzw_wf(m),
        table_prefix_closed(m),
        code != m.eoi_code,
    ensures
        lzw_step(m, code) matches Ok(m2) ==> table_prefix_closed(m2),
{
    if let Ok(m2) = lzw_step(m, code) {
        if code != m.clear_code && m.initialized && m.last_code < 0xFFF {
            let prev = m.code_stream.last();
            let last = (m.last_code + 1) as usize;
            assert forall|k: usize|
                #[trigger] m2.table.contains_key(k) && k > m2.eoi_code implies m2.table[k].len() >= 2
                && exists|j: usize|
                    j < k && m2.table.contains_key(j) && #[trigger] m2.table[j] == m2.table[k].drop_last() by {
                if k == last {
                    assert(m2.table[k].drop_last() =~= m.table[prev as usize]);
                    assert(m2.table[prev as usize] == m.table[prev as usize]);
                } else {
                    let j = choose|j: usize|
                        j < k && m.table.contains_key(j) && #[trigger] m.table[j] == m.table[k].drop_last();
                    assert(m2.table[j] == m.table[j]);
                }
            }
        }
    }
}

/// Decoding only appends: the indices decoded before a step stay in front
/// of those after it.
pub proof fn law_step_appends(m: LzwModel, code: u16)
    ensures
        lzw_step(m, code) matches Ok(m2) ==> m2.index_stream.len() >= m.index_stream.len()
            && m2.index_stream.take(m.index_stream.len() as int) == m.index_stream,
{
    if let Ok(m2) = lzw_step(m, code) {
        assert(m2.index_stream.take(m.index_stream.len() as int) =~= m.index_stream);
    }
}

/// Decoding a run of codes only appends: the indices decoded before stay in
/// front of those decoded after.
pub proof fn law_decode_codes_appends(m: LzwModel, bits: Seq<bool>)
    requires
        lzw_wf(m),
    ensures
        decode_codes(m, bits) matches Ok((m2, _)) ==> m2.index_stream.len() >= m.index_stream.len()
            && m2.index_stream.take(m.index_stream.len() as int) == m.index_stream,
    decreases bits.len(),
{
    if bits.len() >= m.size {
        let code = code_of(bits.take(m.size as int));
        let rest = bits.skip(m.size as int);
        if code != m.eoi_code {
            law_step_appends(m, code);
            lemma_step_keeps_wf(m, code);
            if let Ok(m2) = lzw_step(m, code) {
                if m2.size <= 12 && rest.len() > 0 && m2.size <= rest.len() {
                    law_decode_codes_appends(m2, rest);
                    if let Ok((m3, _)) = decode_codes(m2, rest) {
                        assert(m3.index_stream.take(m.index_stream.len() as int) =~= m.index_stream) by {
                            assert(m3.index_stream.take(m2.index_stream.len() as int).take(
                                m.index_stream.len() as int,
                            ) =~= m3.index_stream.take(m.index_stream.len() as int));
                        }
                    }
                }
            }
        } else {
            assert(decode_codes(m, bits)->Ok_0.0.index_stream =~= m.index_stream);
        }
    }
}

/// After a clear code, a code below the clear code decodes to itself: the
/// single index it names.
pub proof fn law_literal_after_clear(m: LzwModel, literal: u16)
    requires
        lzw_wf(m),
        literal < m.clear_code,
    ensures
        lzw_step(m, m.clear_code) matches Ok(m1) && lzw_step(m1, literal) matches Ok(m2)
            && m2.index_stream == m.index_stream.push(literal as u8),
{
    let m1 = lzw_step(m, m.clear_code)->Ok_0;
    assert(m1.table.contains_key(literal as usize));
    assert(m1.table[literal as usize] == seq![literal as u8]);
    assert(lzw_step(m1, literal)->Ok_0.index_stream =~= m.index_stream.push(literal as u8));
}

/// The start state holds the invariant for every minimum code size in `1..=8`.
pub proof fn lemma_start_wf(min_code_size: u8)
    requires
        1 <= min_code_size <= 8,
    ensures
        lzw_wf(lzw_start(min_code_size)),
        table_prefix_closed(lzw_start(min_code_size)),
{
    lemma2_to64();
    lemma_pow2_strictly_increases(min_code_size as nat, 9);
    lemma_pow2_pos(min_code_size as nat);
}

} // verus!

verus! {

/// The LZW decompressor of one image.
pub struct LzwDecoder {
    code_table: HashMap<usize, Vec<u8>>,
    code_stream: Vec<u16>,
    index_stream: Vec<u8>,
    clear_code: u16,
    eoi_code: u16,
    last_code: u16,
    size: usize,
    grow_code: u16,
    is_initalized: bool,
    lzw_minimum_code_size: u8,
}

impl View for LzwDecoder {
    type V = LzwModel;

    closed spec fn view(&self) -> LzwModel {
        LzwModel {
            table: self.code_table@.map_values(|v: Vec<u8>| v@),
            code_stream: self.code_stream@,
            index_stream: self.index_stream@,
            clear_code: self.clear_code,
            eoi_code: self.eoi_code,
            last_code: self.last_code,
            size: self.size,
            grow_code: self.grow_code,
            initialized: self.is_initalized,
            min_code_size: self.lzw_minimum_code_size,
        }
    }
}

impl LzwDecoder {
    /// The decompressor before the first code of an image.
    pub fn new(lzw_minimum_code_size: u8, clear_code: u16) -> (r: Self)
        requires
            1 <= lzw_minimum_code_size <= 8,
            clear_code == pow2(lzw_minimum_code_size as nat),
        ensures
            r@ == lzw_start(lzw_minimum_code_size),
            lzw_wf(r@),
    {
        proof {
            lemma_start_wf(lzw_minimum_code_size);
            lemma2_to64();
        }
        let eoi_code = clear_code + 1;
        let r = LzwDecoder {
            code_table: HashMap::new(),
            code_stream: Vec::new(),
            index_stream: Vec::new(),
            clear_code,
            eoi_code,
            last_code: eoi_code,
            size: (lzw_minimum_code_size + 1) as usize,
            grow_code: clear_code - 1,
            is_initalized: false,
            lzw_minimum_code_size,
        };
        assert(r@.table =~= Map::<usize, Seq<u8>>::empty());
        r
    }

    pub fn clear_code(&self) -> (r: u16)
        ensures
            r == self@.clear_code,
    {
        self.clear_code
    }

    pub fn eoi_code(&self) -> (r: u16)
        ensures
            r == self@.eoi_code,
    {
        self.eoi_code
    }

    /// The current code width.
    pub fn size(&self) -> (r: usize)
        ensures
            r == self@.size,
    {
        self.size
    }

    /// The colour indices decoded so far.
    pub fn index_stream(&self) -> (r: &Vec<u8>)
        ensures
            r@ == self@.index_stream,
    {
        &self.index_stream
    }

    /// The colour indices decoded, taken out of the decompressor.
    pub fn into_index_stream(self) -> (r: Vec<u8>)
        ensures
            r@ == self@.index_stream,
    {
        self.index_stream
    }

    /// Notes the end-of-information code in the code stream.
    pub fn push_eoi(&mut self)
        ensures
            final(self)@ == (LzwModel { code_stream: old(self)@.code_stream.push(old(self)@.eoi_code), ..old(self)@ }),
    {
        let eoi = self.eoi_code;
        self.code_stream.push(eoi);
    }

    /// The table that a clear code sets up.
    fn reset_table(&mut self)
        requires
            old(self)@.clear_code < old(self)@.eoi_code,
            old(self)@.eoi_code <= 257,
        ensures
            final(self)@ == (LzwModel { table: initial_table(old(self)@.clear_code, old(self)@.eoi_code), ..old(self)@ }),
    {
        self.code_table = HashMap::new();
        let mut n: u16 = 0;
        while n < self.eoi_code
            invariant
                n <= self.eoi_code,
                self.clear_code == old(self).clear_code,
                self.eoi_code == old(self).eoi_code,
                self.eoi_code <= 257,
                self.code_stream == old(self).code_stream,
                self.index_stream == old(self).index_stream,
                self.last_code == old(self).last_code,
                self.size == old(self).size,
                self.grow_code == old(self).grow_code,
                self.is_initalized == old(self).is_initalized,
                self.lzw_minimum_code_size == old(self).lzw_minimum_code_size,
                self.code_table@.map_values(|v: Vec<u8>| v@) =~= initial_table(self.clear_code, n),
            decreases self.eoi_code - n,
        {
            let ghost before = self.code_table@;
            let entry: Vec<u8> = if n < self.clear_code {
                vec![n as u8]
            } else {
                Vec::new()
            };
            assert(entry@ =~= initial_table(self.clear_code, (n + 1) as u16)[n as usize]);
            self.code_table.insert(n as usize, entry);
            assert(self.code_table@ == before.insert(n as usize, entry));
            proof {
                let old_n = n;
                let mv = self.code_table@.map_values(|v: Vec<u8>| v@);
                let bv = before.map_values(|v: Vec<u8>| v@);
                assert(bv =~= initial_table(self.clear_code, old_n));
                let goal = initial_table(self.clear_code, (old_n + 1) as u16);
                assert forall|k: usize| #[trigger] mv.contains_key(k) <==> goal.contains_key(k) by {
                    if k != old_n as usize {
                        assert(bv.contains_key(k) <==> before.contains_key(k));
                    }
                }
                assert forall|k: usize| #[trigger] goal.contains_key(k) implies mv[k] == goal[k] by {
                    if k != old_n as usize {
                        assert(bv.contains_key(k));
                        assert(bv[k] == before[k]@);
                    }
                }
                assert(mv =~= goal);
            }
            n = n + 1;
        }
    }

    /// Decodes one code other than the end-of-information code: a clear code
    /// resets the table; the first code after it emits its entry; every
    /// later code emits its entry (or, for a code not yet assigned, the
    /// previous code's entry followed by that entry's first index) and adds
    /// the next table entry while the table has room, widening the codes when
    /// the growth code is assigned. A table miss stops the decoding with the
    /// exit status of the place where it happened.
    pub fn step(&mut self, code: u16) -> (r: Result<(), u8>)
        requires
            lzw_wf(old(self)@),
            code != old(self)@.eoi_code,
        ensures
            match lzw_step(old(self)@, code) {
                Ok(m) => r is Ok && final(self)@ == m && lzw_wf(m),
                Err(e) => r == Err::<(), u8>(e),
            },
    {
        proof {
            lemma_step_keeps_wf(self@, code);
            lemma2_to64();
        }
        let ghost m = self@;
        if code == self.clear_code {
            self.code_stream = Vec::new();
            self.reset_table();
            self.last_code = self.eoi_code;
            self.size = (self.lzw_minimum_code_size + 1) as usize;
            proof {
                vstd::bits::lemma_u16_shl_is_mul(2, (self.size - 1) as u16);
                lemma_pow2_unfold(self.size as nat);
            }
            self.grow_code = (2u16 << (self.size - 1)) - 1;
            self.is_initalized = false;
        } else if !self.is_initalized {
            match self.code_table.get(&(code as usize)) {
                Some(codes) => {
                    self.index_stream.extend_from_slice(codes.as_slice());
                },
                None => {
                    return Err(1);
                },
            }
            self.is_initalized = true;
        } else {
            let mut k: u8 = 0;
            let prev_code = self.code_stream[self.code_stream.len() - 1];
            if code <= self.last_code {
                match self.code_table.get(&(code as usize)) {
                    Some(codes) => {
                        self.index_stream.extend_from_slice(codes.as_slice());
                        k = codes[0];
                    },
                    None => {
                        return Err(2);
                    },
                }
            } else {
                match self.code_table.get(&(prev_code as usize)) {
                    Some(codes) => {
                        k = codes[0];
                        self.index_stream.extend_from_slice(codes.as_slice());
                        self.index_stream.push(k);
                    },
                    None => {
                        return Err(3);
                    },
                }
            }
            if self.last_code < 0xFFF {
                match self.code_table.get(&(prev_code as usize)) {
                    Some(codes) => {
                        self.last_code = self.last_code + 1;
                        let mut last_code_table = vstd::slice::slice_to_vec(codes.as_slice());
                        last_code_table.push(k);
                        self.code_table.insert(self.last_code as usize, last_code_table);
                        if self.last_code == self.grow_code && self.last_code < 0xFFF {
                            self.size = self.size + 1;
                            proof {
                                vstd::bits::lemma_u16_shl_is_mul(2, (self.size - 1) as u16);
                                lemma_pow2_unfold(self.size as nat);
                            }
                            self.grow_code = (2u16 << (self.size - 1)) - 1;
                        }
                    },
                    None => {
                        return Err(4);
                    },
                }
            }
        }
        self.code_stream.push(code);
        assert(self@.index_stream =~= lzw_step(m, code)->Ok_0.index_stream);
        assert(self@.code_stream =~= lzw_step(m, code)->Ok_0.code_stream);
        assert(self@.table =~= lzw_step(m, code)->Ok_0.table);
        Ok(())
    }

    /// Decodes codes read from `br` until the end-of-information code or
    /// until `br` holds fewer bits than the code width.
    pub fn decode_codes(&mut self, br: &mut BitReader) -> (r: Result<(), DecodeError>)
        requires
            lzw_wf(old(self)@),
            old(br).wf(),
        ensures
            final(br).wf(),
            final(br).byte_len() == old(br).byte_len(),
            final(br).held_bytes() == old(br).held_bytes(),
            match decode_codes(old(self)@, old(br)@) {
                Ok((m, bits)) => r is Ok && final(self)@ == m && final(br)@ == bits && lzw_wf(m),
                Err(e) => r == Err::<(), DecodeError>(e),
            },
    {
        let ghost goal = decode_codes(self@, br@);
        loop
            invariant
                lzw_wf(self@),
                br.wf(),
                br.byte_len() == old(br).byte_len(),
                br.held_bytes() == old(br).held_bytes(),
                goal == decode_codes(old(self)@, old(br)@),
                decode_codes(self@, br@) == goal,
            decreases br@.len(),
        {
            let ghost bits = br@;
            let code = match br.read_bits(self.size) {
                Ok(bits) => bits,
                Err(err) => {
                    return Err(DecodeError::BitRead(err));
                },
            };
            if code == self.eoi_code {
                self.push_eoi();
                return Ok(());
            }
            match self.step(code) {
                Ok(()) => {},
                Err(e) => {
                    return Err(DecodeError::InvalidCode(e));
                },
            }
            let has_bits = match br.has_bits(self.size) {
                Ok(has_bits) => has_bits,
                Err(err) => {
                    return Err(DecodeError::BitRead(err));
                },
            };
            if !has_bits {
                return Ok(());
            }
        }
    }
}

} // verus!

verus! {

/// A clear code restarts the decompressor whatever state it is in: the
/// next code to be assigned is the one after the end-of-information code,
/// and codes are `min_code_size + 1` bits wide again. So from any valid
/// state the codes clear, `a`, `b`, `eoi + 1` (with `a` and `b` below the
/// clear code) append `a, b, a, b`: the third code is the entry that `a`
/// and `b` made.
pub proof fn law_clear_restarts_assignment(m: LzwModel, a: u16, b: u16)
    requires
        lzw_wf(m),
        a < m.clear_code,
        b < m.clear_code,
    ensures
        lzw_step(m, m.clear_code) matches Ok(m1) && m1.last_code == m.eoi_code && m1.size == m.min_code_size + 1,
        ({
            let m1 = lzw_step(m, m.clear_code)->Ok_0;
            &&& lzw_step(m1, a) matches Ok(m2)
            &&& lzw_step(m2, b) matches Ok(m3)
            &&& lzw_step(m3, (m.eoi_code + 1) as u16) matches Ok(m4)
            &&& m4.index_stream == m.index_stream + seq![a as u8, b as u8, a as u8, b as u8]
        }),
{
    lemma2_to64();
    let m1 = lzw_step(m, m.clear_code)->Ok_0;
    lemma_step_keeps_wf(m, m.clear_code);
    assert(m1.table.contains_key(a as usize));
    assert(m1.table[a as usize] == seq![a as u8]);
    let m2 = lzw_step(m1, a)->Ok_0;
    lemma_step_keeps_wf(m1, a);
    assert(m2.table.contains_key(b as usize));
    assert(m2.table[b as usize] == seq![b as u8]);
    assert(m2.code_stream.last() == a);
    assert(m2.table.contains_key(a as usize));
    let m3 = lzw_step(m2, b)->Ok_0;
    lemma_step_keeps_wf(m2, b);
    let e1 = (m.eoi_code + 1) as u16;
    assert(m3.last_code == e1);
    assert(m3.table.contains_key(e1 as usize));
    assert(m3.table[e1 as usize] =~= seq![a as u8, b as u8]);
    let m4 = lzw_step(m3, e1)->Ok_0;
    assert(m4.index_stream =~= m.index_stream + seq![a as u8, b as u8, a as u8, b as u8]);
}

} // verus!

verus! {

/// Decoding stopped because too few bits were left, not at the
/// end-of-information code.
pub open spec fn stopped_short(m: LzwModel) -> bool {
    m.code_stream.len() > 0 && m.code_stream.last() != m.eoi_code
}

/// Codes are read across the end of the bits given: where decoding `x` stops
/// for want of bits (not at the end code), leaving `r`, and `r + y` holds a
/// whole code, decoding `x + y` is decoding `x` and then `r + y`.
pub proof fn law_decode_codes_continues(m: LzwModel, x: Seq<bool>, y: Seq<bool>)
    requires
        lzw_wf(m),
        decode_codes(m, x) matches Ok((m1, r)) && stopped_short(m1) && (r + y).len() >= m1.size,
    ensures
        decode_codes(m, x + y) == decode_codes(decode_codes(m, x)->Ok_0.0, decode_codes(m, x)->Ok_0.1 + y),
    decreases x.len(),
{
    let size = m.size as int;
    assert((x + y).take(size) =~= x.take(size));
    assert((x + y).skip(size) =~= x.skip(size) + y);
    let code = code_of(x.take(size));
    let rest = x.skip(size);
    lemma_step_keeps_wf(m, code);
    if code != m.eoi_code {
        let m2 = lzw_step(m, code)->Ok_0;
        if rest.len() > 0 && m2.size <= rest.len() {
            law_decode_codes_continues(m2, rest, y);
        }
    }
}

/// How image data are cut into sub-blocks does not change what they decode
/// to. Take data `d1` followed by `d2`, once as two sub-blocks (`c1`: `d1`,
/// the size of `d2`, `d2`, a zero size) and once as one (`c2`: `d1 + d2`, a
/// zero size), both from `off`. Where the codes of the first part end short of
/// a whole code, without the end code, and the leftover bits with `d2` hold a
/// whole code, both decode to the same state, or stop with the same error;
/// the two-block form ends one byte later.
pub proof fn law_sub_block_split_is_invisible(
    c1: Seq<u8>,
    c2: Seq<u8>,
    off: int,
    d1: Seq<u8>,
    d2: Seq<u8>,
    m: LzwModel,
    bits: Seq<bool>,
)
    requires
        lzw_wf(m),
        0 <= off,
        1 <= d2.len() <= 255,
        off + d1.len() + d2.len() + 2 <= c1.len(),
        c1.subrange(off, off + d1.len()) == d1,
        c1[off + d1.len()] == d2.len(),
        c1.subrange(off + d1.len() + 1, off + d1.len() + 1 + d2.len()) == d2,
        c1[off + d1.len() + 1 + d2.len()] == 0,
        off + d1.len() + d2.len() + 1 <= c2.len(),
        c2.subrange(off, off + d1.len() + d2.len()) == d1 + d2,
        c2[off + d1.len() + d2.len()] == 0,
        decode_codes(m, bits + bits_of(d1)) matches Ok((m1, r)) && stopped_short(m1) && (r
            + bits_of(d2)).len() >= m1.size,
    ensures
        decode_sub_blocks(c1, off, d1.len(), m, bits) matches Ok((ma, enda)) ==> decode_sub_blocks(
            c2,
            off,
            (d1.len() + d2.len()) as nat,
            m,
            bits,
        ) matches Ok((mb, endb)) && ma == mb && enda == endb + 1,
        decode_sub_blocks(c1, off, d1.len(), m, bits) is Ok <==> decode_sub_blocks(
            c2,
            off,
            (d1.len() + d2.len()) as nat,
            m,
            bits,
        ) is Ok,
        decode_sub_blocks(c1, off, d1.len(), m, bits) matches Err(e) ==> decode_sub_blocks(
            c2,
            off,
            (d1.len() + d2.len()) as nat,
            m,
            bits,
        ) == Err::<(LzwModel, int), DecodeError>(e),
{
    let x = bits + bits_of(d1);
    let y = bits_of(d2);
    law_decode_codes_continues(m, x, y);
    lemma_bits_of_concat(d1, d2);
    assert(bits + bits_of(d1 + d2) =~= x + y);
    let (m1, r) = decode_codes(m, x)->Ok_0;
    let e1 = off + d1.len();
    assert(c1.subrange(off, e1) == d1);
    let o2 = e1 + 1;
    let e2 = o2 + d2.len();
    assert(c1.subrange(o2, e2) == d2);
    // the second block of `c1` ends with a zero size
    assert(decode_sub_blocks(c1, o2, d2.len(), m1, r) == match decode_codes(m1, r + y) {
        Err(e) => Err(e),
        Ok((m3, _)) => Ok((m3, e2 + 1)),
    });
}

} // verus!

verus! {

/// A code not yet assigned stands for the previous code's string followed by
/// that string's first index: from any valid state, the codes clear, `a`,
/// `eoi + 1` (with `a` below the clear code) append `a, a, a`, and the code
/// `eoi + 1` is then assigned `a, a`.
pub proof fn law_unassigned_code_repeats_first(m: LzwModel, a: u16)
    requires
        lzw_wf(m),
        a < m.clear_code,
    ensures
        ({
            let m1 = lzw_step(m, m.clear_code)->Ok_0;
            let e1 = (m.eoi_code + 1) as u16;
            &&& lzw_step(m1, a) matches Ok(m2)
            &&& lzw_step(m2, e1) matches Ok(m3)
            &&& m3.index_stream == m.index_stream + seq![a as u8, a as u8, a as u8]
            &&& m3.table.contains_key(e1 as usize)
            &&& m3.table[e1 as usize] == seq![a as u8, a as u8]
        }),
{
    lemma2_to64();
    let m1 = lzw_step(m, m.clear_code)->Ok_0;
    assert(m1.table.contains_key(a as usize));
    assert(m1.table[a as usize] == seq![a as u8]);
    let m2 = lzw_step(m1, a)->Ok_0;
    assert(m2.code_stream.last() == a);
    let e1 = (m.eoi_code + 1) as u16;
    let m3 = lzw_step(m2, e1)->Ok_0;
    assert(m3.index_stream =~= m.index_stream + seq![a as u8, a as u8, a as u8]);
    assert(m3.table[e1 as usize] =~= seq![a as u8, a as u8]);
}

} // verus!

verus! {

/// The code width is the width of the next code to be assigned, up to 12
/// bits: `2^(size - 1) <= last_code + 1 < 2^size`, or the table is full at
/// 12 bits; and the width grows when code `2^size - 1` is assigned.
pub open spec fn width_tracks_next_code(m: LzwModel) -> bool {
    &&& m.grow_code == pow2(m.size as nat) - 1
    &&& (pow2((m.size - 1) as nat) <= m.last_code + 1 < pow2(m.size as nat) || (m.size == 12
        && m.last_code == 0xFFF))
}

/// After a clear code the codes are exactly as wide as the next code to be
/// assigned needs (at most 12 bits), and every later step keeps that: the
/// width grows by one bit exactly when the code `2^size - 1` is assigned.
/// (With a minimum code size of 1 the first code after a clear code is
/// already `2^size`, so this holds from a minimum code size of 2 on.)
pub proof fn law_code_width_tracks_next_code(m: LzwModel, code: u16)
    requires
        lzw_wf(m),
        m.min_code_size >= 2,
        width_tracks_next_code(m) || code == m.clear_code,
        code != m.eoi_code,
    ensures
        lzw_step(m, code) matches Ok(m2) ==> width_tracks_next_code(m2),
{
    lemma2_to64();
    lemma_step_keeps_wf(m, code);
    if code == m.clear_code {
        let min = m.min_code_size as nat;
        lemma_pow2_unfold((min + 1) as nat);
        lemma_pow2_strictly_increases(1, min);
    } else if let Ok(m2) = lzw_step(m, code) {
        if m.initialized && m.last_code < 0xFFF && m2.size != m.size {
            lemma_pow2_unfold(m2.size as nat);
        }
    }
}

} // verus!
