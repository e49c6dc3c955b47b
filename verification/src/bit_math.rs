use vstd::prelude::*;
use vstd::arithmetic::power2::*;
use vstd::arithmetic::div_mod::*;
use vstd::arithmetic::mul::*;
use vstd::bits::*;

verus! {

/// Bit `i` of the number `x`, bit 0 being the least significant.
pub open spec fn bit_of(x: nat, i: nat) -> bool {
    (x / pow2(i)) % 2 == 1
}

/// The bits of `bytes` in reading order: byte by byte, and within each byte
/// from the least significant bit to the most significant.
pub open spec fn bits_of(bytes: Seq<u8>) -> Seq<bool> {
    Seq::new(bytes.len() * 8, |p: int| bit_of(bytes[p / 8] as nat, (p % 8) as nat))
}

/// The number that `bits` stand for, the first bit being the least significant.
pub open spec fn bits_value(bits: Seq<bool>) -> nat
    decreases bits.len(),
{
    if bits.len() == 0 {
        0
    } else {
        bits_value(bits.drop_last()) + if bits.last() {
            pow2((bits.len() - 1) as nat)
        } else {
            0
        }
    }
}

/// The 16-bit number that `bits` stand for: their value, cut to its low 16 bits.
pub open spec fn code_of(bits: Seq<bool>) -> u16 {
    (bits_value(bits) % 65536) as u16
}

/// The bits of two byte sequences, one after the other.
pub proof fn lemma_bits_of_concat(x: Seq<u8>, y: Seq<u8>)
    ensures
        bits_of(x + y) == bits_of(x) + bits_of(y),
{
    let l = bits_of(x + y);
    let r = bits_of(x) + bits_of(y);
    assert(l.len() == r.len());
    assert forall|p: int| 0 <= p < l.len() implies l[p] == r[p] by {
        if p >= x.len() * 8 {
            let q = p - x.len() * 8;
            assert(p / 8 == q / 8 + x.len() && p % 8 == q % 8) by (nonlinear_arith)
                requires
                    q == p - x.len() * 8,
                    q >= 0,
            ;
        } else {
            assert(p / 8 < x.len()) by (nonlinear_arith)
                requires
                    0 <= p < x.len() * 8,
            ;
        }
    }
    assert(l =~= r);
}

/// Dropping `m` bytes drops their `8 * m` bits.
pub proof fn lemma_bits_of_skip(x: Seq<u8>, m: int)
    requires
        0 <= m <= x.len(),
    ensures
        bits_of(x.skip(m)) == bits_of(x).skip(8 * m),
{
    let l = bits_of(x.skip(m));
    let r = bits_of(x).skip(8 * m);
    assert(l.len() == r.len());
    assert forall|p: int| 0 <= p < l.len() implies l[p] == r[p] by {
        assert((p + 8 * m) / 8 == p / 8 + m && (p + 8 * m) % 8 == p % 8) by (nonlinear_arith)
            requires
                p >= 0,
        ;
        assert(p / 8 < x.len() - m) by (nonlinear_arith)
            requires
                0 <= p < (x.len() - m) * 8,
        ;
    }
    assert(l =~= r);
}

/// `n` bits stand for a number below `2^n`.
pub proof fn lemma_bits_value_bound(s: Seq<bool>)
    ensures
        bits_value(s) < pow2(s.len()),
    decreases s.len(),
{
    if s.len() == 0 {
        lemma2_to64();
    } else {
        lemma_bits_value_bound(s.drop_last());
        lemma_pow2_unfold(s.len());
    }
}

/// The bits of `s` followed by those of `t` stand for `value(s) + 2^|s| * value(t)`.
pub proof fn lemma_bits_value_concat(s: Seq<bool>, t: Seq<bool>)
    ensures
        bits_value(s + t) == bits_value(s) + pow2(s.len()) * bits_value(t),
    decreases t.len(),
{
    if t.len() == 0 {
        assert(s + t =~= s);
        lemma_mul_by_zero_is_zero(pow2(s.len()) as int);
    } else {
        let t1 = t.drop_last();
        lemma_bits_value_concat(s, t1);
        assert((s + t).drop_last() =~= s + t1);
        assert((s + t).last() == t.last());
        lemma_pow2_adds(s.len(), (t.len() - 1) as nat);
        let b: nat = if t.last() { pow2((t.len() - 1) as nat) } else { 0 };
        lemma_mul_is_distributive_add(pow2(s.len()) as int, bits_value(t1) as int, b as int);
        lemma_mul_by_zero_is_zero(pow2(s.len()) as int);
        assert((s + t).len() - 1 == s.len() + (t.len() - 1));
        let c: nat = if (s + t).last() { pow2(((s + t).len() - 1) as nat) } else { 0 };
        assert(c == pow2(s.len()) * b);
        assert(bits_value(s + t) == bits_value(s + t1) + c);
    }
}

/// The `k` bits of `x` from bit `o` on stand for `(x / 2^o) % 2^k`.
pub proof fn lemma_chunk_value(x: nat, o: nat, k: nat)
    ensures
        bits_value(Seq::new(k, |j: int| bit_of(x, o + j as nat))) == (x / pow2(o)) % pow2(k),
    decreases k,
{
    let s = Seq::new(k, |j: int| bit_of(x, o + j as nat));
    lemma_pow2_pos(o);
    let y = x / pow2(o);
    if k == 0 {
        lemma2_to64();
        lemma_small_mod(0, 1);
        lemma_mod_self_0(1);
        assert(y % 1 == 0) by (nonlinear_arith);
    } else {
        let k1 = (k - 1) as nat;
        lemma_chunk_value(x, o, k1);
        assert(s.drop_last() =~= Seq::new(k1, |j: int| bit_of(x, o + j as nat)));
        lemma_pow2_pos(k1);
        lemma_pow2_adds(o, k1);
        lemma_div_denominator(x as int, pow2(o) as int, pow2(k1) as int);
        lemma_pow2_unfold(k);
        lemma_mod_breakdown(y as int, pow2(k1) as int, 2);
        lemma_mul_is_commutative(pow2(k1) as int, 2);
        assert(s.last() == bit_of(x, o + k1));
        assert(x / pow2(o + k1) == y / pow2(k1));
        assert(y % pow2(k) == pow2(k1) * ((y / pow2(k1)) % 2) + y % pow2(k1));
        let b: nat = if s.last() { pow2(k1) } else { 0 };
        assert(b == pow2(k1) * ((y / pow2(k1)) % 2)) by {
            lemma_mod_pos_bound((y / pow2(k1)) as int, 2);
            lemma_mul_basics(pow2(k1) as int);
        }
        assert(bits_value(s) == bits_value(s.drop_last()) + b);
    }
}

/// Adding `2^r * t` to a number below `2^r`, modulo `2^16`.
pub proof fn lemma_add_shifted_mod(a: nat, r: nat, t: nat)
    requires
        a < pow2(r),
    ensures
        r < 16 ==> (a + pow2(r) * t) % 65536 == a + (pow2(r) * t) % 65536,
        r < 16 ==> a + (pow2(r) * t) % 65536 < 65536,
        r >= 16 ==> (a + pow2(r) * t) % 65536 == a % 65536,
{
    lemma2_to64();
    lemma_pow2_pos(r);
    if r < 16 {
        let p = pow2(r) as int;
        let q = pow2((16 - r) as nat) as int;
        lemma_pow2_pos((16 - r) as nat);
        lemma_pow2_adds(r, (16 - r) as nat);
        assert(p * q == 65536);
        let x = a + p * t;
        lemma_mul_is_commutative(p, t as int);
        lemma_fundamental_div_mod_converse(x, p, t as int, a as int);
        lemma_mod_breakdown(x, p, q);
        let y = p * t;
        lemma_fundamental_div_mod_converse(y, p, t as int, 0);
        lemma_mod_breakdown(y, p, q);
        let m = (t as int) % q;
        lemma_mod_pos_bound(t as int, q);
        lemma_mul_inequality(m, q - 1, p);
        lemma_mul_is_distributive_sub(p, q, 1);
        lemma_mul_is_commutative(q - 1, p);
        lemma_mul_is_commutative(m, p);
    } else {
        let e = (r - 16) as nat;
        lemma_pow2_adds(e, 16);
        lemma_mul_is_associative(pow2(e) as int, 65536, t as int);
        lemma_mul_is_commutative(pow2(e) as int, 65536);
        lemma_mul_is_associative(65536, pow2(e) as int, t as int);
        lemma_mod_multiples_vanish((pow2(e) * t) as int, a as int, 65536);
    }
}

/// The bits that a read takes from one byte: shifting the byte's masked bits
/// down by `o` gives `(b / 2^o) % 2^k`.
pub proof fn lemma_masked_bits(b: u16, o: u16, k: u16)
    requires
        b < 256,
        o < 8,
        1 <= k,
        o + k <= 8,
    ensures
        ((b & ((0xFFu16 >> (8 - k) as u16) << o)) >> o) as nat == (b as nat / pow2(o as nat))
            % pow2(k as nat),
{
    assert(((b & ((0xFFu16 >> (8 - k) as u16) << o)) >> o) == (b >> o) & (((1u16 << k) - 1) as u16))
        by (bit_vector)
        requires
            b < 256,
            o < 8,
            1 <= k,
            o + k <= 8,
    ;
    lemma_u16_shr_is_div(b, o);
    lemma_u16_pow2_no_overflow(k as nat);
    lemma_u16_shl_is_mul(1, k);
    lemma_pow2_pos(k as nat);
    lemma_u16_low_bits_mask_is_mod(b >> o, k as nat);
}

/// A left shift of a 16-bit number below 256 keeps the low 16 bits of
/// the product with the power of two.
pub proof fn lemma_shl_u16_mod(t: u16, s: u16)
    requires
        t < 256,
        s < 16,
    ensures
        (t << s) as nat == (t as nat * pow2(s as nat)) % 65536,
{
    assert((t << s) == (((t as u32) << (s as u32)) as u16)) by (bit_vector)
        requires
            s < 16,
    ;
    lemma_pow2_pos(s as nat);
    lemma_u32_pow2_no_overflow(s as nat);
    lemma2_to64();
    lemma_pow2_strictly_increases(s as nat, 16);
    lemma_mul_strict_inequality(t as int, 256, pow2(s as nat) as int);
    lemma_mul_inequality(pow2(s as nat) as int, 65536, 256);
    lemma_u32_shl_is_mul(t as u32, s as u32);
    let x = (t as u32) << (s as u32);
    assert((x as u16) as u32 == x % 65536) by (bit_vector);
}

} // verus!

verus! {

/// Reading back a byte: the first eight bits of a byte sequence, read least
/// significant first, are its first byte.
pub proof fn law_first_byte_read_back(bytes: Seq<u8>)
    requires
        bytes.len() >= 1,
    ensures
        code_of(bits_of(bytes).take(8)) == bytes[0],
{
    let b = bytes[0] as nat;
    lemma_chunk_value(b, 0, 8);
    let chunk = Seq::new(8, |j: int| bit_of(b, 0 + j as nat));
    assert forall|j: int| 0 <= j < 8 implies #[trigger] bits_of(bytes).take(8)[j] == chunk[j] by {
        assert(j / 8 == 0 && j % 8 == j);
    }
    assert(bits_of(bytes).take(8) =~= chunk);
    lemma2_to64();
    assert(b / 1 == b);
    lemma_small_mod(b, 256);
    lemma_small_mod(b, 65536);
}

/// Reading back every byte: after the bits of `bytes`, read eight at a time
/// from the start, the `k`-th read gives `bytes[k]`, and after the last byte
/// no bit is left.
pub proof fn law_bytes_read_back(bytes: Seq<u8>)
    ensures
        forall|k: int|
            0 <= k < bytes.len() ==> code_of(#[trigger] bits_of(bytes).skip(8 * k).take(8)) == bytes[k],
        bits_of(bytes).skip(8 * bytes.len() as int).len() == 0,
{
    assert forall|k: int| 0 <= k < bytes.len() implies code_of(
        #[trigger] bits_of(bytes).skip(8 * k).take(8),
    ) == bytes[k] by {
        lemma_bits_of_skip(bytes, k);
        law_first_byte_read_back(bytes.skip(k));
    }
}

/// Reading back two bytes: the first sixteen bits of a byte sequence are its
/// first two bytes as a little-endian number.
pub proof fn law_first_u16_read_back(bytes: Seq<u8>)
    requires
        bytes.len() >= 2,
    ensures
        code_of(bits_of(bytes).take(16)) == bytes[0] + 256 * bytes[1],
{
    let s = bits_of(bytes);
    let lo = s.take(8);
    let hi = s.skip(8).take(8);
    assert(s.take(16) =~= lo + hi);
    lemma_bits_value_concat(lo, hi);
    lemma_bits_of_skip(bytes, 1);
    law_first_byte_read_back(bytes);
    law_first_byte_read_back(bytes.skip(1));
    lemma_bits_value_bound(lo);
    lemma_bits_value_bound(hi);
    lemma2_to64();
    lemma_small_mod(bits_value(lo), 65536);
    lemma_small_mod(bits_value(hi), 65536);
    lemma_small_mod(bits_value(lo + hi), 65536);
}

/// Two reads in a row return the same bits as one read of their total
/// width: for widths adding up to at most 16, the value of `a + b` bits is
/// the first `a` bits' value plus `2^a` times the next `b` bits' value.
pub proof fn law_reads_compose(v: Seq<bool>, a: nat, b: nat)
    requires
        a + b <= v.len(),
        a + b <= 16,
    ensures
        code_of(v.take((a + b) as int)) == code_of(v.take(a as int)) + pow2(a) * code_of(
            v.skip(a as int).take(b as int),
        ),
{
    let x = v.take(a as int);
    let y = v.skip(a as int).take(b as int);
    assert(v.take((a + b) as int) =~= x + y);
    lemma_bits_value_concat(x, y);
    lemma_bits_value_bound(x);
    lemma_bits_value_bound(y);
    lemma_bits_value_bound(x + y);
    lemma2_to64();
    lemma_pow2_adds(a, b);
    if a + b < 16 {
        lemma_pow2_strictly_increases(a + b, 16);
    }
    lemma_small_mod(bits_value(x), 65536);
    lemma_small_mod(bits_value(y), 65536);
    lemma_small_mod(bits_value(x + y), 65536);
}

} // verus!
