//! How values stand in bytes and lists, and how they are ordered and drawn.

use vstd::arithmetic::div_mod::{lemma_add_mod_noop, lemma_div_denominator, lemma_mod_breakdown, lemma_mod_mod};
use vstd::arithmetic::power2::{lemma2_to64, lemma_pow2_adds, lemma_pow2_pos, pow2};
use vstd::prelude::*;
use crate::arith;
use crate::bitpack;
use crate::hnsw::frame;
use crate::hnsw::lid;
use crate::ids;
use crate::laws::neighbours;
use crate::muvera;
use crate::muvera::FdeEncoder;
use crate::order;
use crate::score;
use crate::score::Score;
use crate::sparse;
use crate::storage;

verus! {

/// The features of pairs.
pub open spec fn features_of(pairs: Seq<(u32, Score)>) -> Seq<int> {
    pairs.map_values(|pair: (u32, Score)| pair.0 as int)
}

/// A sparse vector has every pair that it is made of, in the order of their features;
/// pairs of one feature as they were.
pub proof fn law_pairs_are_sorted_by_feature(pairs: Seq<(u32, Score)>)
    requires
        pairs.len() <= u64::MAX,
    ensures
        exists|positions: Seq<int>| #[trigger]
            neighbours::is_stable_order(features_of(pairs), positions) && sparse::sorted_features(pairs)
                == positions.map_values(|i: int| pairs[i]),
{
    let keys = sparse::pair_keys(pairs);
    let plain = features_of(pairs);
    let found = order::stable_order(keys);
    order::law_stable_order(keys);
    let positions = found.map_values(|i: u64| i as int);
    assert forall|i: int, j: int| 0 <= i < j < positions.len() implies {
        let a = #[trigger] positions[i];
        let b = #[trigger] positions[j];
        plain[a] < plain[b] || (plain[a] == plain[b] && a < b)
    } by {
        let a = found[i];
        let b = found[j];
        assert(keys[a as int] < keys[b as int] || (keys[a as int] == keys[b as int] && a < b));
        assert(keys[a as int] == plain[a as int] && keys[b as int] == plain[b as int]);
    }
    assert(neighbours::is_stable_order(plain, positions));
    assert(sparse::sorted_features(pairs) =~= positions.map_values(|i: int| pairs[i]));
}

/// The sum of numbers.
pub open spec fn total(values: Seq<int>) -> int {
    values.fold_left(0, |sum: int, value: int| sum + value)
}

/// One more than the sum of bytes.
pub open spec fn one_and_all(bytes: Seq<u8>) -> int {
    1 + total(bytes.map_values(|b: u8| b as int))
}

/// The checksum of bytes is that of their sum and of the sum of all sums before, both
/// modulo the largest prime below 2^16.
pub proof fn law_checksums_sum_twice(bytes: Seq<u8>)
    ensures
        frame::adler_sums(bytes).0 == one_and_all(bytes) % 65521,
        frame::adler_sums(bytes).1 == total(Seq::new(bytes.len(), |k: int| one_and_all(bytes.take(k + 1)))) % 65521,
        frame::adler(bytes) == frame::adler_sums(bytes).1 * 65536 + frame::adler_sums(bytes).0,
    decreases bytes.len(),
{
    let sums = Seq::new(bytes.len(), |k: int| one_and_all(bytes.take(k + 1)));
    if bytes.len() > 0 {
        let rest = bytes.drop_last();
        law_checksums_sum_twice(rest);
        let before = Seq::new(rest.len(), |k: int| one_and_all(rest.take(k + 1)));
        let values = bytes.map_values(|b: u8| b as int);
        assert(values.drop_last() =~= rest.map_values(|b: u8| b as int));
        assert(one_and_all(bytes) == one_and_all(rest) + bytes.last());
        lemma_add_mod_noop(one_and_all(rest), bytes.last() as int, 65521);
        assert(sums.drop_last() =~= before) by {
            assert forall|k: int| 0 <= k < before.len() implies sums[k] == before[k] by {
                assert(rest.take(k + 1) =~= bytes.take(k + 1));
            }
        }
        assert(bytes.take(bytes.len() as int) =~= bytes);
        assert(total(sums) == total(before) + one_and_all(bytes));
        lemma_add_mod_noop(total(before), one_and_all(bytes), 65521);
        assert(bytes.last() as int % 65521 == bytes.last());
        assert((one_and_all(rest) % 65521 + bytes.last()) % 65521 == one_and_all(bytes) % 65521);
        let a = frame::adler_sums(bytes).0;
        assert(a % 65521 == a);
    } else {
        assert(bytes.map_values(|b: u8| b as int) =~= Seq::<int>::empty());
        assert(sums =~= Seq::<int>::empty());
        assert(1int % 65521 == 1);
    }
}

/// A bit of a number.
pub open spec fn bit(value: nat, place: nat) -> nat {
    (value / pow2(place)) % 2
}

proof fn lemma_bit_of_digit(value: nat, bits: nat, place: nat, j: nat)
    requires
        j < bits,
    ensures
        bit(bitpack::digit(value, bits, place), j) == bit(value, bits * place + j),
{
    let low = pow2(bits * place) as int;
    let x = value as int / low;
    let y = pow2(j) as int;
    let z = pow2((bits - j) as nat) as int;
    lemma_pow2_pos(bits * place);
    lemma_pow2_pos(j);
    lemma_pow2_pos((bits - j) as nat);
    lemma_pow2_adds(j, (bits - j) as nat);
    vstd::arithmetic::div_mod::lemma_div_pos_is_pos(value as int, low);
    lemma_mod_breakdown(x, y, z);
    let q = (x / y) % z;
    let r = x % y;
    assert(0 <= r < y) by {
        vstd::arithmetic::div_mod::lemma_mod_bound(x, y);
    }
    vstd::arithmetic::div_mod::lemma_div_multiples_vanish_fancy(q, r, y);
    assert((x % (y * z)) / y == q);
    lemma_pow2_adds(1, (bits - j - 1) as nat);
    lemma_pow2_pos((bits - j - 1) as nat);
    lemma2_to64();
    lemma_mod_mod(x / y, 2, pow2((bits - j - 1) as nat) as int);
    assert(q % 2 == (x / y) % 2);
    lemma_div_denominator(value as int, low, y);
    lemma_pow2_adds(bits * place, j);
}

/// Packed codes lie end to end: each bit of a code stands where the codes before it and
/// its own place put it, from the least significant bit of the first byte on.
pub proof fn law_packed_codes_lie_end_to_end(codes: Seq<u8>, bits: nat, i: int, b: nat)
    requires
        1 <= bits <= 8,
        bitpack::digits_fit(codes, bits),
        0 <= i < codes.len(),
        b < bits,
    ensures
        ({
            let at = i * bits + b;
            let bytes = bitpack::packed(codes, bits);
            &&& bytes.len() == (codes.len() * bits + 7) / 8
            &&& 0 <= at / 8 < bytes.len()
            &&& bit(bytes[at / 8] as nat, (at % 8) as nat) == bit(codes[i] as nat, b)
        }),
{
    let value = bitpack::digits_value(codes, bits);
    let at = i * bits + b;
    assert(0 <= at < codes.len() * bits) by (nonlinear_arith)
        requires
            at == i * bits + b,
            0 <= i < codes.len(),
            0 <= b < bits,
    ;
    let k = (at / 8) as nat;
    let j = (at % 8) as nat;
    assert(8 * k + j == at);
    bitpack::lemma_digit(codes, 0, bits, i as nat);
    assert(value + 0 * pow2(bits * codes.len()) == value) by (nonlinear_arith);
    lemma_bit_of_digit(value, bits, i as nat, b);
    lemma_bit_of_digit(value, 8, k, j);
    assert(bits * i as nat + b == at) by (nonlinear_arith)
        requires
            at == i * bits + b,
            0 <= i,
    ;
    lemma2_to64();
    assert(pow2(8) == 256);
    assert(bitpack::digit(value, 8, k) < 256);
    assert(bitpack::packed(codes, bits)[k as int] == bitpack::digit(value, 8, k));
}

/// Ids are ordered by the first byte in which they differ; one that is the beginning of
/// another stands before it.
pub proof fn law_order_is_by_the_first_difference(a: Seq<u8>, b: Seq<u8>)
    ensures
        ids::bytes_less(a, b) <==> exists|k: int|
            0 <= k <= a.len() && k < b.len() && #[trigger] a.take(k) == b.take(k) && (k == a.len() || a[k] < b[k]),
    decreases a.len(),
{
    if b.len() == 0 {
    } else if a.len() == 0 {
        assert(a.take(0) =~= b.take(0));
    } else if a[0] != b[0] {
        if a[0] < b[0] {
            assert(a.take(0) =~= b.take(0));
        }
        assert forall|k: int|
            0 <= k <= a.len() && k < b.len() && #[trigger] a.take(k) == b.take(k) && (k == a.len() || a[k]
                < b[k]) implies a[0] < b[0] by {
            if k > 0 {
                assert(a.take(k)[0] == b.take(k)[0]);
            }
        }
    } else {
        let x = a.drop_first();
        let y = b.drop_first();
        law_order_is_by_the_first_difference(x, y);
        if ids::bytes_less(x, y) {
            let k = choose|k: int|
                0 <= k <= x.len() && k < y.len() && #[trigger] x.take(k) == y.take(k) && (k == x.len() || x[k] < y[k]);
            let n = k + 1;
            assert(a.take(n) =~= b.take(n)) by {
                assert forall|i: int| 0 <= i < n implies #[trigger] a[i] == b[i] by {
                    if i > 0 {
                        assert(x.take(k)[i - 1] == y.take(k)[i - 1]);
                    }
                }
            }
        }
        assert forall|k: int|
            0 <= k <= a.len() && k < b.len() && #[trigger] a.take(k) == b.take(k) && (k == a.len() || a[k]
                < b[k]) implies ids::bytes_less(x, y) by {
            assert(k > 0);
            let n = k - 1;
            assert(x.take(n) =~= y.take(n)) by {
                assert forall|i: int| 0 <= i < n implies #[trigger] x[i] == y[i] by {
                    assert(a.take(k)[i + 1] == b.take(k)[i + 1]);
                }
            }
        }
    }
}

/// The bytes before a record bring it to a multiple of four, and are as few as can be.
pub proof fn law_records_are_aligned(length: nat)
    ensures
        (length + storage::padding(length)) % 4 == 0,
        storage::padding(length) < 4,
{
}

/// The vectors that a vector is compared with are spread evenly: the first is the one
/// behind it, and each next lies as far on, around the end where need be; there are 32,
/// or all others where there are fewer.
pub proof fn law_samples_are_spread(i: int, n: int, s: int)
    requires
        0 <= i < n,
        n >= 4,
        0 <= s < lid::samples(i, n).len() - 1,
    ensures
        lid::samples(i, n).len() == if n > 33 {
            32
        } else {
            n - 1
        },
        lid::samples(i, n)[0] == (i + 1) % n,
        lid::samples(i, n)[s + 1] == (lid::samples(i, n)[s] + n / (lid::samples(i, n).len() as int) + 1) % n,
{
    let size = lid::sample_size(n);
    let stride = n / size + 1;
    let x = i + 1 + s * stride;
    assert((s + 1) * stride == s * stride + stride) by (nonlinear_arith);
    assert(0 * stride == 0) by (nonlinear_arith);
    vstd::arithmetic::div_mod::lemma_add_mod_noop_right(stride, x, n);
}

/// The generator steps on by the same odd number each time.
pub proof fn law_states_are_evenly_spaced(state: u64, n: nat)
    ensures
        muvera::state_after(state, n) == (state + n * 0x9E3779B97F4A7C15) % 0x1_0000_0000_0000_0000,
    decreases n,
{
    if n > 0 {
        law_states_are_evenly_spaced(state, (n - 1) as nat);
        let x = state + (n - 1) * 0x9E3779B97F4A7C15;
        lemma_add_mod_noop(x, 0x9E3779B97F4A7C15, 0x1_0000_0000_0000_0000);
        assert(x + 0x9E3779B97F4A7C15 == state + n * 0x9E3779B97F4A7C15);
    }
}

/// The sign of the draw with a number, from a seed.
pub open spec fn draw(seed: u64, number: int, scale: Score) -> Score {
    let state = ((seed + (number + 1) * 0x9E3779B97F4A7C15) % 0x1_0000_0000_0000_0000) as u64;
    if muvera::mixed(state) % 2 == 1 {
        scale
    } else {
        score::negated(scale)
    }
}

proof fn lemma_drawn(seed: u64, before: nat, n: nat, scale: Score)
    ensures
        muvera::scaled_sign_at(muvera::state_after(seed, before), n, scale) == draw(seed, (before + n) as int, scale),
{
    let a = muvera::state_after(seed, before);
    law_states_are_evenly_spaced(seed, before);
    law_states_are_evenly_spaced(a, n + 1);
    let g = 0x9E3779B97F4A7C15int;
    let m = 0x1_0000_0000_0000_0000int;
    lemma_add_mod_noop(seed + before * g, (n + 1) * g, m);
    lemma_add_mod_noop(a as int, (n + 1) * g, m);
    assert(a as int % m == a);
    assert(seed + before * g + (n + 1) * g == seed + (before + n + 1) * g) by (nonlinear_arith);
    assert(muvera::state_after(a, n + 1) == (seed + (before + n + 1) * g) % m);
}

/// An encoder's planes are drawn one number after the other from its seed: for each
/// repetition first the planes that give the bucket, then the projections.
pub proof fn law_planes_are_drawn_in_turn(
    encoder: FdeEncoder,
    dimension: nat,
    ksim: nat,
    projected: nat,
    repetitions: nat,
    seed: u64,
    scale: Score,
    r: int,
    k: int,
    d: int,
)
    requires
        encoder.drawn_from(dimension, ksim, projected, repetitions, seed, scale),
        0 <= r < repetitions,
        0 <= k,
        0 <= d < dimension,
    ensures
        k < ksim ==> arith::rows(encoder.repetitions@[r].hash_planes@)[k][d] == draw(
            seed,
            (r * (ksim + projected) + k) * dimension + d,
            score::ONE,
        ),
        k < projected ==> arith::rows(encoder.repetitions@[r].projection@)[k][d] == draw(
            seed,
            (r * (ksim + projected) + ksim + k) * dimension + d,
            scale,
        ),
{
    let first = r as nat * ((ksim + projected) * dimension);
    let start = muvera::repetition_state(seed, r as nat, ksim, projected, dimension);
    let row = k as nat * dimension;
    let own = ksim * dimension;
    let rep = encoder.repetitions@[r];
    if k < ksim {
        assert(arith::rows(rep.hash_planes@)[k][d] == muvera::scaled_sign_at(
            muvera::state_after(start, row),
            d as nat,
            score::ONE,
        ));
        lemma_states_add(seed, first, row);
        lemma_drawn(seed, first + row, d as nat, score::ONE);
        assert(first + row + d == (r * (ksim + projected) + k) * dimension + d) by (nonlinear_arith)
            requires
                first == r * ((ksim + projected) * dimension),
                row == k * dimension,
        ;
    }
    if k < projected {
        assert(arith::rows(rep.projection@)[k][d] == muvera::scaled_sign_at(
            muvera::state_after(muvera::state_after(start, own), row),
            d as nat,
            scale,
        ));
        lemma_states_add(seed, first, own);
        lemma_states_add(seed, first + own, row);
        lemma_drawn(seed, first + own + row, d as nat, scale);
        assert(first + own + row + d == (r * (ksim + projected) + ksim + k) * dimension + d) by (nonlinear_arith)
            requires
                first == r * ((ksim + projected) * dimension),
                own == ksim * dimension,
                row == k * dimension,
        ;
    }
}

proof fn lemma_states_add(seed: u64, a: nat, b: nat)
    ensures
        muvera::state_after(muvera::state_after(seed, a), b) == muvera::state_after(seed, a + b),
    decreases b,
{
    if b > 0 {
        lemma_states_add(seed, a, (b - 1) as nat);
    }
}

} // verus!
