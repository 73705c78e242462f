//! What scores, codes, means and rounded numbers are.

use vstd::prelude::*;
use vstd::arithmetic::power::*;
use vstd::arithmetic::power2::*;

use crate::distance;
use crate::distance::DistanceKernel;
use crate::distance::Kernel;
use crate::distance::Metric;
use crate::index::deleted;
use crate::ordered;
use crate::ordered::OrderedF32;
use crate::ordered::OrderedF64;
use crate::quantization;

verus! {

/// The dot product of byte vectors is additive: one more component adds the product of its
/// two values, and vectors without components have none.
pub proof fn law_dot_adds_products(a: Seq<u8>, b: Seq<u8>, x: u8, y: u8)
    ensures
        distance::inner_u8(Seq::empty(), Seq::empty()) == 0,
        distance::inner_u8(a.push(x), b.push(y)) == distance::inner_u8(a, b) + x * y,
{
    assert(a.push(x).drop_last() =~= a);
    assert(b.push(y).drop_last() =~= b);
}

/// The squared distance of byte vectors is additive: one more component adds the square of
/// the difference of its two values.
pub proof fn law_squared_distance_adds_squares(a: Seq<u8>, b: Seq<u8>, x: u8, y: u8)
    ensures
        distance::squared_u8(Seq::empty(), Seq::empty()) == 0,
        distance::squared_u8(a.push(x), b.push(y)) == distance::squared_u8(a, b) + (x - y) * (x
            - y),
{
    assert(a.push(x).drop_last() =~= a);
    assert(b.push(y).drop_last() =~= b);
}

/// A vector is at distance zero from itself and from no other, and both metrics are
/// symmetric.
pub proof fn law_distances_are_symmetric(a: Seq<u8>, b: Seq<u8>)
    requires
        a.len() == b.len(),
    ensures
        distance::squared_u8(a, b) == distance::squared_u8(b, a),
        distance::inner_u8(a, b) == distance::inner_u8(b, a),
        distance::squared_u8(a, b) >= 0,
        distance::squared_u8(a, b) == 0 <==> a == b,
    decreases a.len(),
{
    if a.len() == 0 {
        assert(a =~= b);
    } else {
        law_distances_are_symmetric(a.drop_last(), b.drop_last());
        let x = a.last() as int;
        let y = b.last() as int;
        assert((x - y) * (x - y) == (y - x) * (y - x)) by (nonlinear_arith);
        assert(x * y == y * x) by (nonlinear_arith);
        assert((x - y) * (x - y) >= 0) by (nonlinear_arith);
        if (x - y) * (x - y) == 0 {
            assert(x == y) by (nonlinear_arith)
                requires
                    (x - y) * (x - y) == 0,
            ;
        }
        if a == b {
            assert(a.drop_last() == b.drop_last());
        }
        if a.drop_last() == b.drop_last() && x == y {
            assert(a =~= a.drop_last().push(a.last()));
            assert(b =~= b.drop_last().push(b.last()));
        }
    }
}

/// The dot product and the squared distance of code vectors are additive too.
pub proof fn law_code_metrics_are_additive(a: Seq<i8>, b: Seq<i8>, x: i8, y: i8)
    ensures
        quantization::inner_i8(Seq::empty(), Seq::empty()) == 0,
        quantization::squared_i8(Seq::empty(), Seq::empty()) == 0,
        quantization::inner_i8(a.push(x), b.push(y)) == quantization::inner_i8(a, b) + x * y,
        quantization::squared_i8(a.push(x), b.push(y)) == quantization::squared_i8(a, b) + (x - y)
            * (x - y),
{
    assert(a.push(x).drop_last() =~= a);
    assert(b.push(y).drop_last() =~= b);
}

/// Accumulating in 32 bits gives the sum itself where it fits, and else what it is modulo
/// `2^32`.
pub proof fn law_wrapping_keeps_what_fits(n: int)
    ensures
        i32::MIN <= distance::wrap_i32(n) <= i32::MAX,
        i32::MIN <= n <= i32::MAX ==> distance::wrap_i32(n) == n,
        (distance::wrap_i32(n) - n) % 0x1_0000_0000 == 0,
{
    let q = n / 0x1_0000_0000;
    let r = n % 0x1_0000_0000;
    assert(n == q * 0x1_0000_0000 + r);
}

/// Cosine and dot products score by the dot product, Euclidean distance by the squared
/// distance.
pub proof fn law_metrics_score_by_their_formula(kernel: DistanceKernel, a: Seq<u8>, b: Seq<u8>)
    ensures
        kernel.integer_score(a, b) == match kernel.metric {
            Metric::Cosine => distance::inner_u8(a, b),
            Metric::Dot => distance::inner_u8(a, b),
            Metric::Euclidean => distance::squared_u8(a, b),
        },
{
}

/// Larger integers have larger keys, as far as single precision tells them apart: it tells
/// all integers up to `2^24` apart.
pub proof fn law_integer_keys_are_monotone(a: int, b: int)
    requires
        a < b,
    ensures
        ordered::key_of_integer(a) <= ordered::key_of_integer(b),
        -0x100_0000 <= a && b <= 0x100_0000 ==> ordered::key_of_integer(a)
            < ordered::key_of_integer(b),
        ordered::wide_key_of_integer(a) <= ordered::wide_key_of_integer(b),
        -0x20_0000_0000_0000 <= a && b <= 0x20_0000_0000_0000 ==> ordered::wide_key_of_integer(a)
            < ordered::wide_key_of_integer(b),
{
    lemma2_to64();
    lemma2_to64_rest();
    if a > 0 {
        lemma_monotone(a as nat, b as nat, 23, 126);
        lemma_monotone(a as nat, b as nat, 52, 1022);
    } else if b < 0 {
        lemma_monotone((-b) as nat, (-a) as nat, 23, 126);
        lemma_monotone((-b) as nat, (-a) as nat, 52, 1022);
    }
    if b > 0 {
        ordered::lemma_significand_bounds(b as nat, 23);
        ordered::lemma_significand_bounds(b as nat, 52);
    }
    if a < 0 {
        ordered::lemma_significand_bounds((-a) as nat, 23);
        ordered::lemma_significand_bounds((-a) as nat, 52);
    }
}

/// Exponents do not fall.
proof fn lemma_exponent_monotone(a: nat, b: nat)
    requires
        0 < a <= b,
    ensures
        ordered::exponent_of(a) <= ordered::exponent_of(b),
{
    ordered::lemma_exponent_bounds(a);
    ordered::lemma_exponent_bounds(b);
    let ea = ordered::exponent_of(a);
    let eb = ordered::exponent_of(b);
    if ea > eb {
        if ea > eb + 1 {
            lemma_pow2_strictly_increases(eb + 1, ea);
        }
    }
}

/// Keys of positive integers do not fall, and rise where no rounding takes place.
proof fn lemma_monotone(a: nat, b: nat, fraction: nat, bias: nat)
    requires
        0 < a < b,
    ensures
        ({
            let unit = pow2(fraction);
            let ka = (ordered::exponent_of(a) + bias) * unit + ordered::significand_in(a, fraction);
            let kb = (ordered::exponent_of(b) + bias) * unit + ordered::significand_in(b, fraction);
            ka <= kb && (b <= 2 * unit ==> ka < kb)
        }),
{
    let unit = pow2(fraction);
    let ea = ordered::exponent_of(a);
    let eb = ordered::exponent_of(b);
    let sa = ordered::significand_in(a, fraction);
    let sb = ordered::significand_in(b, fraction);
    lemma_exponent_monotone(a, b);
    ordered::lemma_significand_bounds(a, fraction);
    ordered::lemma_significand_bounds(b, fraction);
    ordered::lemma_exponent_bounds(a);
    ordered::lemma_exponent_bounds(b);
    lemma_pow2_unfold(fraction + 1);
    if b <= 2 * unit {
        // The exponent is at most one above the fraction, and that only for `2 * unit`.
        if ea > fraction {
            if ea > fraction + 1 {
                lemma_pow2_strictly_increases(fraction + 1, ea);
            }
            assert(false);
        }
    }
    if ea == eb {
        if ea <= fraction {
            let f = pow2((fraction - ea) as nat);
            lemma_pow2_pos((fraction - ea) as nat);
            assert(a * f < b * f) by (nonlinear_arith)
                requires
                    a < b,
                    f > 0,
            ;
        } else {
            let u = pow2((ea - fraction) as nat);
            lemma_pow2_pos((ea - fraction) as nat);
            lemma_half_even_monotone(a, b, u);
        }
    } else {
        assert((eb + bias) * unit >= (ea + bias) * unit + unit) by (nonlinear_arith)
            requires
                eb >= ea + 1,
        ;
        if b <= 2 * unit {
            // Below the carry the significand of `a` is exact.
            let f = pow2((fraction - ea) as nat);
            lemma_pow2_pos((fraction - ea) as nat);
            lemma_pow2_adds(ea + 1, (fraction - ea) as nat);
            assert(a * f < pow2(ea + 1) * f) by (nonlinear_arith)
                requires
                    a < pow2(ea + 1),
                    f > 0,
            ;
            assert(sa < 2 * unit);
        }
    }
}

/// Rounding to even keeps the order.
proof fn lemma_half_even_monotone(a: nat, b: nat, unit: nat)
    requires
        a <= b,
        unit > 0,
    ensures
        ordered::divide_half_even(a, unit) <= ordered::divide_half_even(b, unit),
{
    let qa = a / unit;
    let qb = b / unit;
    let ra = a % unit;
    let rb = b % unit;
    vstd::arithmetic::div_mod::lemma_fundamental_div_mod(a as int, unit as int);
    vstd::arithmetic::div_mod::lemma_fundamental_div_mod(b as int, unit as int);
    vstd::arithmetic::div_mod::lemma_mod_bound(a as int, unit as int);
    vstd::arithmetic::div_mod::lemma_mod_bound(b as int, unit as int);
    vstd::arithmetic::div_mod::lemma_div_is_ordered(a as int, b as int, unit as int);
    if qa == qb {
        assert(ra <= rb);
    }
}

/// An integer of up to 24 bits is its own float: the biased exponent says where its leading
/// bit is, and the fraction holds the bits that follow.
pub proof fn law_small_integers_are_exact(v: nat, e: nat)
    requires
        pow2(e) <= v < pow2(e + 1),
    ensures
        e <= 23 ==> ordered::key_of_integer(v as int) == (e + 127) * 0x80_0000 + (v - pow2(e))
            * pow2((23 - e) as nat),
        e <= 52 ==> ordered::wide_key_of_integer(v as int) == (e + 1023) * 0x10_0000_0000_0000 + (v
            - pow2(e)) * pow2((52 - e) as nat),
        ordered::key_of_integer(0) == 0,
        ordered::wide_key_of_integer(0) == 0,
{
    lemma2_to64();
    lemma2_to64_rest();
    lemma_pow2_pos(e);
    ordered::lemma_exponent_bounds(v);
    let x = ordered::exponent_of(v);
    if x < e {
        if x + 1 < e {
            lemma_pow2_strictly_increases(x + 1, e);
        }
        assert(false);
    }
    if e < x {
        if e + 1 < x {
            lemma_pow2_strictly_increases(e + 1, x);
        }
        assert(false);
    }
    if e <= 23 {
        let f = pow2((23 - e) as nat);
        lemma_pow2_adds(e, (23 - e) as nat);
        assert((v - pow2(e)) * f == v * f - pow2(e) * f) by (nonlinear_arith);
    }
    if e <= 52 {
        let f = pow2((52 - e) as nat);
        lemma_pow2_adds(e, (52 - e) as nat);
        assert((v - pow2(e)) * f == v * f - pow2(e) * f) by (nonlinear_arith);
    }
}

/// A negative integer has the key of its magnitude with the sign flipped.
pub proof fn law_negative_integers_mirror(v: int)
    requires
        v > 0,
    ensures
        ordered::key_of_integer(-v) == -1 - ordered::key_of_integer(v),
        ordered::wide_key_of_integer(-v) == -1 - ordered::wide_key_of_integer(v),
{
}

/// The magnitude of a double, signed: its bits without the sign bit, negated for a negative
/// one. Among doubles that are numbers, it orders as they do.
pub open spec fn signed_magnitude(bits: u64) -> int {
    if bits >= 0x8000_0000_0000_0000 {
        0x8000_0000_0000_0000 - bits
    } else {
        bits as int
    }
}

/// Doubles compare as numbers: by their signed magnitude, in which the two zeroes are one;
/// a `NaN` is neither below, nor above, nor equal to anything.
pub proof fn law_doubles_compare_as_numbers(a: u64, b: u64, x: OrderedF64, y: OrderedF64)
    requires
        x.key == ordered::key_of_bits_64(a),
        y.key == ordered::key_of_bits_64(b),
    ensures
        ({
            let infinity = 0x7ff0_0000_0000_0000int;
            let p = signed_magnitude(a);
            let q = signed_magnitude(b);
            let numbers = -infinity <= p <= infinity && -infinity <= q <= infinity;
            &&& x.numerically_below(y) <==> numbers && p < q
            &&& x.numerically_equal(y) <==> numbers && p == q
        }),
{
}

/// The sum of a component over vectors is additive, and the mean is the sum over their
/// number, rounded down: zero where there are none.
pub proof fn law_means_are_sums_over_counts(vectors: Seq<Seq<u8>>, v: Seq<u8>, component: int)
    ensures
        distance::component_mean(Seq::empty(), component) == 0,
        distance::component_sum(Seq::empty(), component, 0) == 0,
        distance::component_sum(vectors.push(v), component, vectors.len() + 1)
            == distance::component_sum(vectors, component, vectors.len()) + v[component],
        vectors.len() > 0 ==> distance::component_mean(vectors, component)
            == distance::component_sum(vectors, component, vectors.len()) / vectors.len(),
{
    lemma_sum_of_prefix(vectors, v, component, vectors.len());
}

proof fn lemma_sum_of_prefix(vectors: Seq<Seq<u8>>, v: Seq<u8>, component: int, n: nat)
    requires
        n <= vectors.len(),
    ensures
        distance::component_sum(vectors.push(v), component, n) == distance::component_sum(
            vectors,
            component,
            n,
        ),
    decreases n,
{
    if n > 0 {
        lemma_sum_of_prefix(vectors, v, component, (n - 1) as nat);
        assert(vectors.push(v)[n - 1] == vectors[n - 1]);
    }
}

/// The blend of byte examples is, component by component, the mean of the positive ones less
/// the mean of the negative ones, and zero where that would be negative.
pub proof fn law_blend_subtracts_means(
    kernel: DistanceKernel,
    positive: Seq<Seq<u8>>,
    negative: Seq<Seq<u8>>,
    component: int,
)
    requires
        0 <= component < kernel.dim,
        forall|i: int| 0 <= i < positive.len() ==> component < (#[trigger] positive[i]).len(),
    ensures
        kernel.spec_blend(positive, negative).len() == kernel.dim,
        ({
            let p = distance::component_mean(positive, component) as int;
            let n = distance::component_mean(negative, component) as int;
            kernel.spec_blend(positive, negative)[component] == if p >= n {
                p - n
            } else {
                0
            }
        }),
{
    lemma_mean_is_a_byte(positive, component);
}

proof fn lemma_mean_is_a_byte(vectors: Seq<Seq<u8>>, component: int)
    ensures
        distance::component_mean(vectors, component) <= 255,
{
    let n = vectors.len();
    if n > 0 {
        lemma_sum_bound(vectors, component, n);
        let s = distance::component_sum(vectors, component, n);
        assert(s / n <= 255) by (nonlinear_arith)
            requires
                s <= 255 * n,
                n > 0,
        ;
    }
}

proof fn lemma_sum_bound(vectors: Seq<Seq<u8>>, component: int, n: nat)
    ensures
        distance::component_sum(vectors, component, n) <= 255 * n,
    decreases n,
{
    if n > 0 {
        lemma_sum_bound(vectors, component, (n - 1) as nat);
    }
}

/// The layer drawn for a uniform value is the largest power of the out-degree that keeps it
/// within its range: a smaller value is drawn no lower.
pub proof fn law_level_counts_powers(uniform: nat, m: nat, budget: nat)
    ensures
        ({
            let level = distance::integer_level(uniform, m, budget);
            &&& level <= budget
            &&& level > 0 ==> uniform * pow(m as int, level) <= 0x20_0000_0000_0000
            &&& level < budget ==> uniform * pow(m as int, level + 1) > 0x20_0000_0000_0000
        }),
    decreases budget,
{
    let level = distance::integer_level(uniform, m, budget);
    reveal(pow);
    assert(pow(m as int, 0) == 1);
    assert(pow(m as int, 1) == m) by {
        lemma_pow1(m as int);
    }
    if budget > 0 && uniform * m <= 0x20_0000_0000_0000 {
        law_level_counts_powers(uniform * m, m, (budget - 1) as nat);
        let rest = distance::integer_level(uniform * m, m, (budget - 1) as nat);
        lemma_scaled_power(uniform, m, rest);
        lemma_scaled_power(uniform, m, rest + 1);
    }
}

proof fn lemma_scaled_power(uniform: nat, m: nat, e: nat)
    ensures
        (uniform * m) * pow(m as int, e) == uniform * pow(m as int, e + 1),
{
    reveal(pow);
    let p = pow(m as int, e);
    assert((uniform * m) * p == uniform * (m * p)) by (nonlinear_arith);
}

/// A segment is due for a rebuild exactly from three tombstones in ten rows on, as far as
/// single precision tells the counts apart.
pub proof fn law_rebuild_is_due_at_three_tenths(dead: nat, total: nat)
    requires
        0 < total < 0x100_0000,
        dead < 0x100_0000,
    ensures
        deleted::ratio_reaches_threshold(dead, total) <==> 10 * dead >= 3 * total,
{
    if dead > 0 {
        deleted::law_rebuild_threshold_is_exact_below_2_24(dead, total);
    }
}

/// By their codes, rows rank as the integer metric says, where it is small enough to be told
/// apart: the larger dot product first, the smaller squared distance first.
pub proof fn law_codes_rank_by_the_integer_metric(
    metric: Metric,
    q: Seq<i8>,
    a: Seq<i8>,
    b: Seq<i8>,
)
    ensures
        ({
            let nearer = quantization::code_badness(metric, q, a).key < quantization::code_badness(
                metric,
                q,
                b,
            ).key;
            let limit = 0x100_0000int;
            match metric {
                Metric::Euclidean => {
                    let x = quantization::squared_i8(q, a);
                    let y = quantization::squared_i8(q, b);
                    0 <= x <= limit && 0 <= y <= limit ==> (nearer <==> x < y)
                },
                _ => {
                    let x = quantization::inner_i8(q, a);
                    let y = quantization::inner_i8(q, b);
                    -limit <= x <= limit && -limit <= y <= limit ==> (nearer <==> x > y)
                },
            }
        }),
{
    let x = match metric {
        Metric::Euclidean => quantization::squared_i8(q, a),
        _ => quantization::inner_i8(q, a),
    };
    let y = match metric {
        Metric::Euclidean => quantization::squared_i8(q, b),
        _ => quantization::inner_i8(q, b),
    };
    if -0x100_0000 <= x <= 0x100_0000 && -0x100_0000 <= y <= 0x100_0000 {
        law_wrapping_keeps_what_fits(x);
        law_wrapping_keeps_what_fits(y);
        lemma_key_fits(x);
        lemma_key_fits(y);
        if x < y {
            law_integer_keys_are_monotone(x, y);
        }
        if y < x {
            law_integer_keys_are_monotone(y, x);
        }
    }
}

/// The key of a 32-bit integer is one.
proof fn lemma_key_fits(v: int)
    requires
        -0x100_0000 <= v <= 0x100_0000,
    ensures
        -0x7f80_0000 < ordered::key_of_integer(v) < 0x7f80_0000,
{
    lemma2_to64();
    if v != 0 {
        let m = (if v > 0 {
            v
        } else {
            -v
        }) as nat;
        ordered::lemma_exponent_bounds(m);
        ordered::lemma_significand_bounds(m, 23);
        let e = ordered::exponent_of(m);
        if e > 24 {
            lemma_pow2_strictly_increases(24, e);
        }
    }
}

/// Singles compare as numbers too, and their order by key, in which every bit pattern has a
/// place, reverses under negation of the sign.
pub proof fn law_singles_compare_as_numbers(a: u32, b: u32, x: OrderedF32, y: OrderedF32)
    requires
        x.key == ordered::key_of_bits_32(a),
        y.key == ordered::key_of_bits_32(b),
    ensures
        ({
            let infinity = 0x7f80_0000int;
            let p = if a >= 0x8000_0000 {
                0x8000_0000 - a
            } else {
                a as int
            };
            let q = if b >= 0x8000_0000 {
                0x8000_0000 - b
            } else {
                b as int
            };
            let numbers = -infinity <= p <= infinity && -infinity <= q <= infinity;
            &&& x.numerically_below(y) <==> numbers && p < q
            &&& p < q ==> x.key < y.key
            &&& a < 0x8000_0000 ==> x.negated().key == ordered::key_of_bits_32(
                (a + 0x8000_0000) as u32,
            )
            &&& a >= 0x8000_0000 ==> x.negated().key == ordered::key_of_bits_32(
                (a - 0x8000_0000) as u32,
            )
        }),
{
}

/// Dividing rounds to the nearest whole number, and to the even one of two that are equally
/// near.
pub proof fn law_division_rounds_to_nearest_even(v: nat, unit: nat)
    requires
        unit > 0,
    ensures
        ({
            let q = ordered::divide_half_even(v, unit);
            &&& 2 * v <= 2 * q * unit + unit
            &&& 2 * q * unit <= 2 * v + unit
            &&& 2 * v == 2 * q * unit + unit || 2 * q * unit == 2 * v + unit ==> q % 2 == 0
        }),
{
    let q = ordered::divide_half_even(v, unit);
    let floor = (v / unit) as int;
    let r = (v % unit) as int;
    vstd::arithmetic::div_mod::lemma_fundamental_div_mod(v as int, unit as int);
    assert(unit * floor == floor * unit) by (nonlinear_arith);
    assert(0 <= r < unit);
    assert(2 * q * unit == 2 * (q * unit)) by (nonlinear_arith);
    if q == floor + 1 {
        assert(q * unit == floor * unit + unit) by (nonlinear_arith)
            requires
                q == floor + 1,
        ;
    }
}

/// An integer too long for the fraction keeps as many leading bits as fit, rounded to the
/// nearest: what it stands for is off by at most half of the last bit kept.
pub proof fn law_long_integers_round_to_the_nearest(v: nat, fraction: nat, e: nat)
    requires
        pow2(e) <= v < pow2(e + 1),
        e > fraction,
    ensures
        ({
            let unit = pow2((e - fraction) as nat);
            let kept = ordered::significand_in(v, fraction);
            &&& 2 * v <= 2 * kept * unit + unit
            &&& 2 * kept * unit <= 2 * v + unit
            &&& 2 * v == 2 * kept * unit + unit || 2 * kept * unit == 2 * v + unit ==> kept % 2 == 0
        }),
{
    lemma_pow2_pos(e);
    ordered::lemma_exponent_bounds(v);
    let f = ordered::exponent_of(v);
    if f < e {
        if f + 1 < e {
            lemma_pow2_strictly_increases(f + 1, e);
        }
        assert(false);
    }
    if e < f {
        if e + 1 < f {
            lemma_pow2_strictly_increases(e + 1, f);
        }
        assert(false);
    }
    let unit = pow2((e - fraction) as nat);
    lemma_pow2_pos((e - fraction) as nat);
    law_division_rounds_to_nearest_even(v, unit);
}

/// Byte vectors are stored as they are and need no scale; a code is the byte itself, as far
/// as it goes.
pub proof fn law_bytes_are_their_own_codes(kernel: DistanceKernel, v: Seq<u8>, scale: u32, x: u8)
    ensures
        kernel.spec_normalized(v) == v,
        kernel.spec_scale(v) == 0x3f80_0000,
        x <= 127 ==> kernel.spec_code(scale, x) == x,
        x > 127 ==> kernel.spec_code(scale, x) == 127,
{
}

} // verus!
