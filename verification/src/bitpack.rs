//! Dense packing of small codes into bytes, least significant bits first.

use vstd::prelude::*;
use vstd::arithmetic::power2::{lemma_pow2_adds, lemma_pow2_pos, lemma2_to64, pow2};
use vstd::arithmetic::div_mod::{
    lemma_div_denominator, lemma_div_multiples_vanish_fancy, lemma_fundamental_div_mod, lemma_mod_multiples_vanish,
    lemma_small_mod,
};
use crate::error::StorageError;

verus! {

/// The number whose digits to base `2^bits` are `digits`, the least significant
/// digit first.
pub open spec fn digits_value(digits: Seq<u8>, bits: nat) -> nat
    decreases digits.len(),
{
    if digits.len() == 0 {
        0
    } else {
        digits[0] as nat + pow2(bits) * digits_value(digits.drop_first(), bits)
    }
}

/// Whether every digit is one to base `2^bits`.
pub open spec fn digits_fit(digits: Seq<u8>, bits: nat) -> bool {
    forall|i: int| 0 <= i < digits.len() ==> (#[trigger] digits[i] as nat) < pow2(bits)
}

/// The digit at `place` of a number written to base `2^bits`.
pub open spec fn digit(value: nat, bits: nat, place: nat) -> nat {
    (value / pow2(bits * place)) % pow2(bits)
}

/// The bytes that `count` codes of `bits` bits take.
pub open spec fn packed_len(count: nat, bits: nat) -> nat {
    (count * bits + 7) / 8
}

/// The codes of `bits` bits each, laid end to end from the least significant bit
/// of the first byte on; what is left of the last byte is zero.
pub open spec fn packed(codes: Seq<u8>, bits: nat) -> Seq<u8> {
    Seq::new(
        packed_len(codes.len(), bits),
        |k: int| digit(digits_value(codes, bits), 8, k as nat) as u8,
    )
}

/// The first `count` codes of `bits` bits that the bytes hold.
pub open spec fn unpacked(bytes: Seq<u8>, bits: nat, count: nat) -> Seq<u8> {
    Seq::new(count, |i: int| digit(digits_value(bytes, 8), bits, i as nat) as u8)
}

proof fn lemma_value_push(digits: Seq<u8>, next: u8, bits: nat)
    ensures
        digits_value(digits.push(next), bits) == digits_value(digits, bits) + next as nat * pow2(
            bits * digits.len(),
        ),
    decreases digits.len(),
{
    if digits.len() == 0 {
        assert(digits.push(next).drop_first() =~= Seq::<u8>::empty());
        assert(bits * digits.len() == 0) by (nonlinear_arith)
            requires
                digits.len() == 0,
        ;
        lemma2_to64();
        assert(digits_value(digits.push(next), bits) == next as nat + pow2(bits) * 0);
    } else {
        let rest = digits.drop_first();
        assert(digits.push(next).drop_first() =~= rest.push(next));
        lemma_value_push(rest, next, bits);
        let low = bits * rest.len();
        lemma_pow2_adds(bits, low);
        assert(bits + low == bits * digits.len()) by (nonlinear_arith)
            requires
                low == bits * rest.len(),
                rest.len() + 1 == digits.len(),
        ;
        let p = pow2(bits);
        let q = pow2(low);
        let v = digits_value(rest, bits);
        let n = next as nat;
        assert(p * (v + n * q) == p * v + n * (p * q)) by (nonlinear_arith);
    }
}

proof fn lemma_value_bound(digits: Seq<u8>, bits: nat)
    requires
        digits_fit(digits, bits),
    ensures
        digits_value(digits, bits) < pow2(bits * digits.len()),
    decreases digits.len(),
{
    if digits.len() == 0 {
        lemma_pow2_pos(bits * digits.len());
    } else {
        let last = digits.last();
        let front = digits.drop_last();
        assert(front.push(last) =~= digits);
        lemma_value_push(front, last, bits);
        assert(digits_fit(front, bits)) by {
            assert forall|i: int| 0 <= i < front.len() implies (#[trigger] front[i] as nat) < pow2(bits) by {
                assert(front[i] == digits[i]);
            }
        }
        lemma_value_bound(front, bits);
        let low = bits * front.len();
        lemma_pow2_adds(bits, low);
        assert(bits + low == bits * digits.len()) by (nonlinear_arith)
            requires
                low == bits * front.len(),
                front.len() + 1 == digits.len(),
        ;
        let v = digits_value(front, bits);
        let p = pow2(bits);
        let q = pow2(low);
        let n = last as nat;
        assert(n < p);
        assert(v + n * q < p * q) by (nonlinear_arith)
            requires
                v < q,
                n < p,
        ;
    }
}

/// A digit of a number is what its numeral holds in that place, whatever stands
/// above the numeral.
pub(crate) proof fn lemma_digit(digits: Seq<u8>, above: nat, bits: nat, place: nat)
    requires
        digits_fit(digits, bits),
        place < digits.len(),
    ensures
        digit(digits_value(digits, bits) + above * pow2(bits * digits.len()), bits, place) == digits[place as int],
    decreases digits.len(),
{
    let p = pow2(bits);
    lemma_pow2_pos(bits);
    let rest = digits.drop_first();
    let low = bits * rest.len();
    lemma_pow2_adds(bits, low);
    assert(bits + low == bits * digits.len()) by (nonlinear_arith)
        requires
            low == bits * rest.len(),
            rest.len() + 1 == digits.len(),
    ;
    let v = digits_value(rest, bits);
    let q = pow2(low);
    let upper = v + above * q;
    let total = digits_value(digits, bits) + above * pow2(bits * digits.len());
    assert(p * v + above * (p * q) == p * (v + above * q)) by (nonlinear_arith);
    assert(total == p * upper + digits[0] as nat);
    assert((digits[0] as nat) < p);
    lemma_div_multiples_vanish_fancy(upper as int, digits[0] as int, p as int);
    assert(total / p == upper);
    if place == 0 {
        assert(bits * place == 0) by (nonlinear_arith)
            requires
                place == 0,
        ;
        lemma2_to64();
        assert(total / 1 == total);
        lemma_mod_multiples_vanish(upper as int, digits[0] as int, p as int);
        lemma_small_mod(digits[0] as nat, p);
    } else {
        let before = (place - 1) as nat;
        assert(digits_fit(rest, bits)) by {
            assert forall|i: int| 0 <= i < rest.len() implies (#[trigger] rest[i] as nat) < pow2(bits) by {
                assert(rest[i] == digits[i + 1]);
            }
        }
        lemma_digit(rest, above, bits, before);
        let shift = bits * before;
        lemma_pow2_adds(bits, shift);
        assert(bits + shift == bits * place) by (nonlinear_arith)
            requires
                shift == bits * before,
                before + 1 == place,
        ;
        lemma_pow2_pos(shift);
        lemma_div_denominator(total as int, p as int, pow2(shift) as int);
        assert(total / pow2(bits * place) == upper / pow2(shift));
    }
}

/// Codes that are packed and then unpacked are the codes that were packed.
pub proof fn law_unpack_of_pack(codes: Seq<u8>, bits: nat)
    requires
        1 <= bits <= 8,
        digits_fit(codes, bits),
    ensures
        unpacked(packed(codes, bits), bits, codes.len()) == codes,
{
    let bytes = packed(codes, bits);
    let value = digits_value(codes, bits);
    lemma_packed_value(codes, bits);
    assert forall|i: int| 0 <= i < codes.len() implies unpacked(bytes, bits, codes.len())[i] == codes[i] by {
        lemma_digit(codes, 0, bits, i as nat);
        assert(value + 0 * pow2(bits * codes.len()) == value) by (nonlinear_arith);
    }
    assert(unpacked(bytes, bits, codes.len()) =~= codes);
}

/// The number that `len` base-256 digits of `value` make, when `value` has no
/// more digits than that.
proof fn lemma_bytes_of_value(value: nat, len: nat)
    requires
        value < pow2(8 * len),
    ensures
        digits_value(Seq::new(len, |k: int| digit(value, 8, k as nat) as u8), 8) == value,
    decreases len,
{
    let bytes = Seq::new(len, |k: int| digit(value, 8, k as nat) as u8);
    lemma2_to64();
    if len == 0 {
        assert(value == 0);
    } else {
        let up = value / 256;
        lemma_pow2_adds(8, (8 * (len - 1)) as nat);
        assert(up < pow2((8 * (len - 1)) as nat)) by (nonlinear_arith)
            requires
                up == value / 256,
                value < 256 * pow2((8 * (len - 1)) as nat),
        ;
        lemma_bytes_of_value(up, (len - 1) as nat);
        let rest = Seq::new((len - 1) as nat, |k: int| digit(up, 8, k as nat) as u8);
        assert forall|k: int| 0 <= k < len - 1 implies digit(value, 8, (k + 1) as nat) == #[trigger] digit(up, 8, k as nat) by {
            let shift = (8 * k) as nat;
            lemma_pow2_adds(8, shift);
            lemma_pow2_pos(shift);
            lemma_div_denominator(value as int, 256, pow2(shift) as int);
            assert(8 * (k + 1) == 8 + shift);
        }
        assert(bytes.drop_first() =~= rest);
        assert(bytes[0] == value % 256) by {
            assert(digit(value, 8, 0) == (value / pow2(0)) % 256);
            assert(value / 1 == value);
        }
        lemma_fundamental_div_mod(value as int, 256);
    }
}

proof fn lemma_packed_value(codes: Seq<u8>, bits: nat)
    requires
        1 <= bits <= 8,
        digits_fit(codes, bits),
    ensures
        digits_value(packed(codes, bits), 8) == digits_value(codes, bits),
{
    lemma_value_bound(codes, bits);
    let len = packed_len(codes.len(), bits);
    assert(bits * codes.len() <= 8 * len) by (nonlinear_arith)
        requires
            len == (codes.len() * bits + 7) / 8,
    ;
    if bits * codes.len() < 8 * len {
        vstd::arithmetic::power2::lemma_pow2_strictly_increases(bits * codes.len(), 8 * len);
    }
    lemma_bytes_of_value(digits_value(codes, bits), len);
}

proof fn lemma_bytes_fit(bytes: Seq<u8>)
    ensures
        digits_fit(bytes, 8),
{
    lemma2_to64();
}

fn power_of_two(exponent: u8) -> (r: u64)
    requires
        exponent < 64,
    ensures
        r == pow2(exponent as nat),
{
    proof {
        vstd::bits::lemma_u64_pow2_no_overflow(exponent as nat);
        vstd::bits::lemma_u64_shl_is_mul(1, exponent as u64);
    }
    1u64 << exponent
}

/// Packs codes of `bits` bits each.
pub fn pack(values: &[u8], bits: u8) -> (r: Vec<u8>)
    requires
        1 <= bits <= 8,
        digits_fit(values@, bits as nat),
    ensures
        r@ == packed(values@, bits as nat),
{
    let mut out: Vec<u8> = Vec::new();
    let mut acc: u64 = 0;
    let mut used: u8 = 0;
    let mut i: usize = 0;
    proof {
        lemma2_to64();
        assert(acc * pow2(8 * out@.len()) == 0) by (nonlinear_arith)
            requires
                acc == 0,
        ;
        assert(values@.take(0) =~= Seq::<u8>::empty());
        assert(bits * 0 == 0);
    }
    while i < values.len()
        invariant
            1 <= bits <= 8,
            digits_fit(values@, bits as nat),
            i <= values@.len(),
            used < 8,
            acc < pow2(used as nat),
            8 * out@.len() + used == bits * i,
            digits_value(out@, 8) + acc * pow2(8 * out@.len()) == digits_value(values@.take(i as int), bits as nat),
        decreases values@.len() - i,
    {
        let value: u8 = values[i];
        let scale: u64 = power_of_two(used);
        let ghost whole = out@;
        let ghost place = pow2(8 * whole.len());
        let ghost before = acc;
        proof {
            lemma2_to64();
            lemma_pow2_adds(used as nat, bits as nat);
            lemma_value_push(values@.take(i as int), value, bits as nat);
            assert(values@.take(i as int).push(value) =~= values@.take(i + 1));
            lemma_pow2_adds(used as nat, 8 * whole.len());
            assert(bits as nat * i as nat == used as nat + 8 * whole.len());
            let p = pow2(bits as nat);
            let v = value as nat;
            assert(v < p);
            assert(before + v * scale < scale * p) by (nonlinear_arith)
                requires
                    before < scale,
                    v < p,
            ;
            assert(pow2(used as nat) <= 128) by {
                if used < 7 {
                    vstd::arithmetic::power2::lemma_pow2_strictly_increases(used as nat, 7);
                }
            }
            assert(v * scale <= 255 * 128) by (nonlinear_arith)
                requires
                    v <= 255,
                    scale <= 128,
            ;
            assert((before + v * scale) * place == before * place + v * (scale * place)) by (nonlinear_arith);
        }
        acc = acc + value as u64 * scale;
        used = used + bits;
        assert(digits_value(out@, 8) + acc * place == digits_value(values@.take(i + 1), bits as nat));
        if used >= 8 {
            let byte: u8 = (acc % 256) as u8;
            proof {
                lemma_value_push(whole, byte, 8);
                lemma_pow2_adds(8, 8 * whole.len());
                lemma_pow2_adds(8, (used - 8) as nat);
                lemma_fundamental_div_mod(acc as int, 256);
                let low = acc as nat % 256;
                let high = acc as nat / 256;
                assert((256 * high + low) * place == low * place + high * (256 * place)) by (nonlinear_arith);
                let q = pow2((used - 8) as nat);
                assert(high < q) by (nonlinear_arith)
                    requires
                        256 * high + low < 256 * q,
                        low >= 0,
                ;
            }
            out.push(byte);
            acc = acc / 256;
            used = used - 8;
            assert(8 * out@.len() == 8 * whole.len() + 8);
        }
        proof {
            assert(bits * (i + 1) == bits * i + bits) by (nonlinear_arith);
        }
        i += 1;
    }
    assert(values@.take(i as int) =~= values@);
    proof {
        lemma2_to64();
        if used > 0 {
            if used < 8 {
                vstd::arithmetic::power2::lemma_pow2_strictly_increases(used as nat, 8);
            }
            lemma_value_push(out@, acc as u8, 8);
        } else {
            assert(acc * pow2(8 * out@.len()) == 0) by (nonlinear_arith)
                requires
                    acc == 0,
            ;
        }
    }
    if used > 0 {
        out.push(acc as u8);
    }
    proof {
        let value = digits_value(values@, bits as nat);
        assert(digits_value(out@, 8) == value);
        lemma_bytes_fit(out@);
        assert(values@.len() * bits == bits * i) by (nonlinear_arith)
            requires
                i == values@.len(),
        ;
        assert(out@.len() == packed_len(values@.len(), bits as nat));
        assert forall|k: int| 0 <= k < out@.len() implies out@[k] == packed(values@, bits as nat)[k] by {
            lemma_digit(out@, 0, 8, k as nat);
            assert(value + 0 * pow2(8 * out@.len()) == value) by (nonlinear_arith);
        }
        assert(out@ =~= packed(values@, bits as nat));
    }
    out
}

/// What unpacking reports of a byte string.
pub open spec fn unpack_error(len: nat, bits: nat, count: nat) -> Option<StorageError> {
    if count * bits + 7 > usize::MAX {
        Some(StorageError::ResidualCountOverflow)
    } else if len != packed_len(count, bits) {
        Some(StorageError::TruncatedResiduals)
    } else {
        None
    }
}

/// Unpacks `count` codes of `bits` bits each.
pub fn unpack(bytes: &[u8], bits: u8, count: usize) -> (r: Result<Vec<u8>, StorageError>)
    requires
        1 <= bits <= 8,
    ensures
        match unpack_error(bytes@.len(), bits as nat, count as nat) {
            Some(e) => r == Err::<Vec<u8>, StorageError>(e),
            None => r is Ok && r->Ok_0@ == unpacked(bytes@, bits as nat, count as nat),
        },
{
    let total: usize = match count.checked_mul(bits as usize) {
        Some(n) => n,
        None => {
            return Err(StorageError::ResidualCountOverflow);
        },
    };
    let rounded: usize = match total.checked_add(7) {
        Some(n) => n,
        None => {
            return Err(StorageError::ResidualCountOverflow);
        },
    };
    if bytes.len() != rounded / 8 {
        return Err(StorageError::TruncatedResiduals);
    }
    if bits == 2 {
        return Ok(unpack_pairs(bytes, count));
    }
    Ok(unpack_any(bytes, bits, count))
}

proof fn lemma_unpacked(bytes: Seq<u8>, out: Seq<u8>, bits: nat, above: nat)
    requires
        1 <= bits <= 8,
        digits_fit(out, bits),
        digits_value(bytes, 8) == digits_value(out, bits) + above * pow2(bits * out.len()),
    ensures
        out == unpacked(bytes, bits, out.len()),
{
    assert forall|i: int| 0 <= i < out.len() implies out[i] == unpacked(bytes, bits, out.len())[i] by {
        lemma_digit(out, above, bits, i as nat);
    }
    assert(out =~= unpacked(bytes, bits, out.len()));
}

/// Splits `acc` into its lowest digit and the rest, behind the digits already
/// taken.
proof fn lemma_take_digit(out: Seq<u8>, acc: nat, code: u8, bits: nat)
    requires
        code == acc % pow2(bits),
    ensures
        digits_value(out.push(code), bits) + (acc / pow2(bits)) * pow2(bits * out.push(code).len())
            == digits_value(out, bits) + acc * pow2(bits * out.len()),
{
    lemma_pow2_pos(bits);
    lemma_value_push(out, code, bits);
    let place = pow2(bits * out.len());
    lemma_pow2_adds(bits, bits * out.len());
    assert(bits + bits * out.len() == bits * out.push(code).len()) by (nonlinear_arith)
        requires
            out.push(code).len() == out.len() + 1,
    ;
    let p = pow2(bits);
    lemma_fundamental_div_mod(acc as int, p as int);
    let high = acc / p;
    let low = acc % p;
    assert((p * high + low) * place == low * place + high * (p * place)) by (nonlinear_arith);
}

fn unpack_any(bytes: &[u8], bits: u8, count: usize) -> (r: Vec<u8>)
    requires
        1 <= bits <= 8,
        bytes@.len() == packed_len(count as nat, bits as nat),
    ensures
        r@ == unpacked(bytes@, bits as nat, count as nat),
{
    let scale: u64 = power_of_two(bits);
    let mut out: Vec<u8> = Vec::with_capacity(count);
    let mut acc: u64 = 0;
    let mut used: u8 = 0;
    let mut pos: usize = 0;
    proof {
        lemma2_to64();
        assert(bytes@.take(0) =~= Seq::<u8>::empty());
        assert(acc * pow2(bits as nat * out@.len()) == 0) by (nonlinear_arith)
            requires
                acc == 0,
        ;
        assert(bits as nat * out@.len() == 0) by (nonlinear_arith)
            requires
                out@.len() == 0,
        ;
    }
    while out.len() < count
        invariant
            1 <= bits <= 8,
            scale == pow2(bits as nat),
            bytes@.len() == packed_len(count as nat, bits as nat),
            out@.len() <= count,
            pos <= bytes@.len(),
            used < 8,
            acc < pow2(used as nat),
            bits as nat * out@.len() + used == 8 * pos,
            digits_fit(out@, bits as nat),
            digits_value(bytes@.take(pos as int), 8) == digits_value(out@, bits as nat) + acc * pow2(
                bits as nat * out@.len(),
            ),
        decreases count - out@.len(),
    {
        let ghost taken = out@;
        let ghost place = pow2(bits as nat * taken.len());
        proof {
            lemma2_to64();
            assert(bits as nat * (taken.len() + 1) == bits as nat * taken.len() + bits) by (nonlinear_arith);
            assert(bits as nat * (taken.len() + 1) <= bits as nat * count) by (nonlinear_arith)
                requires
                    taken.len() + 1 <= count,
            ;
            assert(bits as nat * count <= 8 * bytes@.len()) by (nonlinear_arith)
                requires
                    bytes@.len() == (count as nat * bits as nat + 7) / 8,
            ;
            assert(pow2(used as nat) <= 128) by {
                if used < 7 {
                    vstd::arithmetic::power2::lemma_pow2_strictly_increases(used as nat, 7);
                }
            }
        }
        if used < bits {
            let byte: u8 = bytes[pos];
            let shift: u64 = power_of_two(used);
            proof {
                let b = byte as nat;
                lemma_value_push(bytes@.take(pos as int), byte, 8);
                assert(bytes@.take(pos as int).push(byte) =~= bytes@.take(pos + 1));
                lemma_pow2_adds(used as nat, bits as nat * taken.len());
                lemma_pow2_adds(used as nat, 8);
                assert((acc + b * shift) * place == acc * place + b * (shift * place)) by (nonlinear_arith);
                assert(acc + b * shift < shift * 256) by (nonlinear_arith)
                    requires
                        acc < shift,
                        b < 256,
                ;
                assert(b * shift <= 255 * 128) by (nonlinear_arith)
                    requires
                        b <= 255,
                        shift <= 128,
                ;
            }
            acc = acc + byte as u64 * shift;
            used = used + 8;
            pos += 1;
        }
        let code: u8 = {
            proof {
                vstd::arithmetic::div_mod::lemma_mod_bound(acc as int, scale as int);
                if bits < 8 {
                    vstd::arithmetic::power2::lemma_pow2_strictly_increases(bits as nat, 8);
                }
                lemma_pow2_pos(bits as nat);
            }
            (acc % scale) as u8
        };
        proof {
            lemma_take_digit(taken, acc as nat, code, bits as nat);
            lemma_pow2_adds(bits as nat, (used - bits) as nat);
            let rest = pow2((used - bits) as nat);
            assert((acc as nat / scale as nat) < rest) by (nonlinear_arith)
                requires
                    acc < scale * rest,
                    scale > 0,
            ;
        }
        out.push(code);
        acc = acc / scale;
        used = used - bits;
        assert(digits_fit(out@, bits as nat));
    }
    proof {
        assert(pos == bytes@.len()) by (nonlinear_arith)
            requires
                bits as nat * out@.len() + used == 8 * pos,
                out@.len() == count,
                used < 8,
                bytes@.len() == (count as nat * bits as nat + 7) / 8,
        ;
        assert(bytes@.take(pos as int) =~= bytes@);
        lemma_unpacked(bytes@, out@, bits as nat, acc as nat);
    }
    out
}

/// The lowest two bits of `acc`, behind the codes already taken.
proof fn lemma_take_pair(out: Seq<u8>, acc: nat)
    ensures
        digits_value(out.push((acc % 4) as u8), 2) + (acc / 4) * pow2(2 * out.push((acc % 4) as u8).len())
            == digits_value(out, 2) + acc * pow2(2 * out.len()),
{
    lemma2_to64();
    lemma_take_digit(out, acc, (acc % 4) as u8, 2);
}

/// Four codes to the byte, for codes of two bits.
fn unpack_pairs(bytes: &[u8], count: usize) -> (r: Vec<u8>)
    requires
        bytes@.len() == packed_len(count as nat, 2),
    ensures
        r@ == unpacked(bytes@, 2, count as nat),
{
    let full: usize = count / 4;
    let tail: usize = count % 4;
    let mut out: Vec<u8> = Vec::with_capacity(count);
    let mut k: usize = 0;
    proof {
        lemma2_to64();
        assert(bytes@.take(0) =~= Seq::<u8>::empty());
    }
    while k < full
        invariant
            full == count as nat / 4,
            bytes@.len() == packed_len(count as nat, 2),
            k <= full,
            out@.len() == 4 * k,
            digits_fit(out@, 2),
            digits_value(bytes@.take(k as int), 8) == digits_value(out@, 2),
        decreases full - k,
    {
        let byte: u8 = bytes[k];
        let ghost taken = out@;
        proof {
            lemma2_to64();
            let b = byte as nat;
            lemma_value_push(bytes@.take(k as int), byte, 8);
            assert(bytes@.take(k as int).push(byte) =~= bytes@.take(k + 1));
            lemma_take_pair(taken, b);
            let s1 = taken.push((b % 4) as u8);
            lemma_take_pair(s1, b / 4);
            let s2 = s1.push((b / 4 % 4) as u8);
            lemma_take_pair(s2, b / 4 / 4);
            let s3 = s2.push((b / 4 / 4 % 4) as u8);
            lemma_take_pair(s3, b / 4 / 4 / 4);
            let s4 = s3.push((b / 4 / 4 / 4 % 4) as u8);
            assert(b / 4 / 4 / 4 / 4 == 0);
            assert((b / 4 / 4 / 4 / 4) * pow2(2 * s4.len()) == 0) by (nonlinear_arith)
                requires
                    b / 4 / 4 / 4 / 4 == 0,
            ;
            assert(digits_value(s4, 2) == digits_value(taken, 2) + b * pow2(2 * taken.len()));
        }
        out.push(byte % 4);
        out.push(byte / 4 % 4);
        out.push(byte / 16 % 4);
        out.push(byte / 64);
        proof {
            let b = byte as nat;
            assert(b / 4 / 4 == b / 16 && b / 4 / 4 / 4 == b / 64 && b / 64 % 4 == b / 64);
            assert(out@ =~= taken.push((b % 4) as u8).push((b / 4 % 4) as u8).push((b / 4 / 4 % 4) as u8).push(
                (b / 4 / 4 / 4 % 4) as u8,
            ));
        }
        k += 1;
    }
    let ghost mut above: nat = 0;
    proof {
        lemma2_to64();
    }
    if tail > 0 {
        let byte: u8 = bytes[full];
        let mut acc: u8 = byte;
        let mut i: usize = 0;
        proof {
            lemma_value_push(bytes@.take(full as int), byte, 8);
            assert(bytes@.take(full as int).push(byte) =~= bytes@);
        }
        while i < tail
            invariant
                tail < 4,
                i <= tail,
                out@.len() == 4 * full + i,
                digits_fit(out@, 2),
                digits_value(bytes@, 8) == digits_value(out@, 2) + acc as nat * pow2(2 * out@.len()),
            decreases tail - i,
        {
            proof {
                lemma2_to64();
                lemma_take_pair(out@, acc as nat);
            }
            out.push(acc % 4);
            acc = acc / 4;
            i += 1;
        }
        proof {
            above = acc as nat;
        }
    } else {
        proof {
            assert(bytes@.take(full as int) =~= bytes@);
            assert(0 * pow2(2 * out@.len()) == 0) by (nonlinear_arith);
        }
    }
    proof {
        lemma_unpacked(bytes@, out@, 2, above);
    }
    out
}

} // verus!
