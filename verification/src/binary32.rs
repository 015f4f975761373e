//! Single-precision numbers by their encoding.
//!
//! Percentages and counters are carried as the 32 bits of their IEEE 754
//! encoding. Comparing two numbers and clamping one take no rounding, so both
//! are done here on the encodings. Arithmetic is left to the caller.

use vstd::arithmetic::power2::*;
use vstd::prelude::*;

verus! {

/// The encoding of 0.
pub const ZERO: u32 = 0x0000_0000;

/// The encoding of 0.5.
pub const HALF: u32 = 0x3f00_0000;

/// The encoding of 33.
pub const THIRTY_THREE: u32 = 0x4204_0000;

/// The encoding of 66.
pub const SIXTY_SIX: u32 = 0x4284_0000;

/// The encoding of 100.
pub const HUNDRED: u32 = 0x42c8_0000;

/// The encoding without its sign bit.
pub open spec fn magnitude(bits: u32) -> int {
    bits as int % 0x8000_0000
}

/// The encoding has its sign bit set.
pub open spec fn is_negative(bits: u32) -> bool {
    bits >= 0x8000_0000
}

/// The encoding is that of no number.
pub open spec fn is_nan(bits: u32) -> bool {
    magnitude(bits) > 0x7f80_0000
}

/// Exponent and fraction of a magnitude: the absolute value that it encodes,
/// in units of the smallest positive number (2 to the power of -149). Infinity
/// counts as the first power of two beyond the finite numbers.
pub open spec fn absolute_units(magnitude: int) -> int {
    let exponent = magnitude / 0x80_0000;
    let fraction = magnitude % 0x80_0000;
    if exponent == 0 {
        fraction
    } else {
        (0x80_0000 + fraction) * pow2((exponent - 1) as nat)
    }
}

/// The value that `bits` encode, in units of the smallest positive number.
pub open spec fn units(bits: u32) -> int {
    if is_negative(bits) {
        -absolute_units(magnitude(bits))
    } else {
        absolute_units(magnitude(bits))
    }
}

/// `a < b`: false where either is not a number.
pub open spec fn less(a: u32, b: u32) -> bool {
    !is_nan(a) && !is_nan(b) && units(a) < units(b)
}

/// `a <= b`: false where either is not a number.
pub open spec fn at_most(a: u32, b: u32) -> bool {
    !is_nan(a) && !is_nan(b) && units(a) <= units(b)
}

/// `v` held between 0 and 100; what is not a number stays as it is.
pub open spec fn clamped_percent(v: u32) -> u32 {
    if less(v, ZERO) {
        ZERO
    } else if less(HUNDRED, v) {
        HUNDRED
    } else {
        v
    }
}

/// A larger magnitude encodes a larger absolute value.
proof fn lemma_magnitudes_in_order(a: int, b: int)
    requires
        0 <= a < b,
    ensures
        0 <= absolute_units(a) < absolute_units(b),
{
    let ea = a / 0x80_0000;
    let eb = b / 0x80_0000;
    let fa = a % 0x80_0000;
    let fb = b % 0x80_0000;
    assert(a == ea * 0x80_0000 + fa && b == eb * 0x80_0000 + fb);
    assert(ea <= eb);
    if eb > 0 {
        lemma_pow2_pos((eb - 1) as nat);
        let pb = pow2((eb - 1) as nat) as int;
        assert((0x80_0000 + fb) * pb >= 0x80_0000 * pb) by (nonlinear_arith)
            requires
                fb >= 0,
                pb > 0,
        ;
        if ea == eb {
            assert((0x80_0000 + fa) * pb < (0x80_0000 + fb) * pb) by (nonlinear_arith)
                requires
                    fa < fb,
                    pb > 0,
            ;
            assert((0x80_0000 + fa) * pb >= 0) by (nonlinear_arith)
                requires
                    fa >= 0,
                    pb > 0,
            ;
        } else if ea == 0 {
        } else {
            lemma_pow2_pos((ea - 1) as nat);
            let pa = pow2((ea - 1) as nat) as int;
            lemma_pow2_unfold(ea as nat);
            if ea < eb - 1 {
                lemma_pow2_strictly_increases(ea as nat, (eb - 1) as nat);
            }
            assert(pb >= 2 * pa);
            assert((0x80_0000 + fa) * pa < 0x100_0000 * pa) by (nonlinear_arith)
                requires
                    fa < 0x80_0000,
                    pa > 0,
            ;
            assert((0x80_0000 + fa) * pa >= 0) by (nonlinear_arith)
                requires
                    fa >= 0,
                    pa > 0,
            ;
        }
    }
}

/// Two encodings without a sign compare as the integers they are.
proof fn lemma_order_of_magnitudes(a: int, b: int)
    requires
        0 <= a,
        0 <= b,
    ensures
        a < b <==> absolute_units(a) < absolute_units(b),
        0 <= absolute_units(a),
        a == 0 <==> absolute_units(a) == 0,
{
    if a < b {
        lemma_magnitudes_in_order(a, b);
    } else if b < a {
        lemma_magnitudes_in_order(b, a);
    }
    if a > 0 {
        lemma_magnitudes_in_order(0, a);
    }
    assert(absolute_units(0) == 0);
}

/// The named encodings are those of the numbers they are named after.
pub proof fn lemma_named_encodings()
    ensures
        units(ZERO) == 0,
        2 * units(HALF) == pow2(149),
        units(THIRTY_THREE) == 33 * pow2(149),
        units(SIXTY_SIX) == 66 * pow2(149),
        units(HUNDRED) == 100 * pow2(149),
{
    assert(magnitude(HALF) / 0x80_0000 == 126 && magnitude(HALF) % 0x80_0000 == 0);
    assert(magnitude(THIRTY_THREE) / 0x80_0000 == 132 && magnitude(THIRTY_THREE) % 0x80_0000
        == 0x4_0000);
    assert(magnitude(SIXTY_SIX) / 0x80_0000 == 133 && magnitude(SIXTY_SIX) % 0x80_0000 == 0x4_0000);
    assert(magnitude(HUNDRED) / 0x80_0000 == 133 && magnitude(HUNDRED) % 0x80_0000 == 0x48_0000);
    lemma_pow2_adds(125, 24);
    lemma_pow2_adds(131, 18);
    lemma_pow2_adds(132, 17);
    lemma2_to64();
    assert(pow2(24) == 0x100_0000 && pow2(18) == 0x4_0000 && pow2(17) == 0x2_0000);
}

/// A clamped percentage lies between 0 and 100, or is not a number, which it
/// is only where it was none before.
pub proof fn lemma_clamped_percent_range(v: u32)
    ensures
        is_nan(clamped_percent(v)) <==> is_nan(v),
        !is_nan(v) ==> 0 <= units(clamped_percent(v)) <= 100 * pow2(149),
        !is_nan(v) && 0 <= units(v) <= 100 * pow2(149) ==> clamped_percent(v) == v,
        clamped_percent(clamped_percent(v)) == clamped_percent(v),
{
    lemma_named_encodings();
    lemma_pow2_pos(149);
}

/// `a < b`.
pub fn is_less(a: u32, b: u32) -> (r: bool)
    ensures
        r == less(a, b),
{
    let ma: u32 = a % 0x8000_0000;
    let mb: u32 = b % 0x8000_0000;
    proof {
        lemma_order_of_magnitudes(ma as int, mb as int);
        lemma_order_of_magnitudes(mb as int, ma as int);
    }
    if ma > 0x7f80_0000 || mb > 0x7f80_0000 {
        false
    } else if a >= 0x8000_0000 {
        if b >= 0x8000_0000 {
            mb < ma
        } else {
            ma > 0 || mb > 0
        }
    } else {
        b < 0x8000_0000 && ma < mb
    }
}

/// `a <= b`.
pub fn is_at_most(a: u32, b: u32) -> (r: bool)
    ensures
        r == at_most(a, b),
{
    a % 0x8000_0000 <= 0x7f80_0000 && b % 0x8000_0000 <= 0x7f80_0000 && !is_less(b, a)
}

/// `v` held between 0 and 100.
pub fn clamp_percent(v: u32) -> (r: u32)
    ensures
        r == clamped_percent(v),
{
    if is_less(v, ZERO) {
        ZERO
    } else if is_less(HUNDRED, v) {
        HUNDRED
    } else {
        v
    }
}

/// `v` is a number, and 0.5 or more.
pub fn is_at_least_half(v: u32) -> (r: bool)
    ensures
        r == (!is_nan(v) && !less(v, HALF)),
{
    v % 0x8000_0000 <= 0x7f80_0000 && !is_less(v, HALF)
}

/// The order of numbers by their encodings: those without a sign as integers, those with one the
/// other way round and below the others, the two zeros being equal. What is not a number is neither
/// below nor above anything.
#[verifier::spinoff_prover]
pub proof fn lemma_order(a: u32, b: u32, lesser: bool, no_more: bool)
    requires
        call_ensures(is_less, (a, b), lesser),
        call_ensures(is_at_most, (a, b), no_more),
    ensures
        lesser == less(a, b),
        no_more == at_most(a, b),
        a <= 0x7f80_0000 && b <= 0x7f80_0000 ==> lesser == (a < b) && no_more == (a <= b),
        0x8000_0000 <= a <= 0xff80_0000 && 0x8000_0000 <= b <= 0xff80_0000 ==> lesser == (b < a)
            && no_more == (b <= a),
        0x8000_0000 <= a <= 0xff80_0000 && b <= 0x7f80_0000 ==> no_more && lesser == !(a
            == 0x8000_0000 && b == 0),
        a <= 0x7f80_0000 && 0x8000_0000 <= b <= 0xff80_0000 ==> !lesser && no_more == (a == 0 && b
            == 0x8000_0000),
        is_nan(a) || is_nan(b) ==> !lesser && !no_more,
        is_nan(a) <==> (0x7f80_0000 < a && a < 0x8000_0000) || 0xff80_0000 < a,
{
    let ma = magnitude(a);
    let mb = magnitude(b);
    lemma_order_of_magnitudes(ma, mb);
    lemma_order_of_magnitudes(mb, ma);
}

/// A percentage is held between 0 and 100: what lies between is kept, what lies below becomes 0 and
/// what lies above 100. What is not a number is kept, as is the zero with a sign.
#[verifier::spinoff_prover]
pub proof fn lemma_clamped(v: u32, r: u32)
    requires
        call_ensures(clamp_percent, (v,), r),
    ensures
        r == clamped_percent(v),
        v <= 0x42c8_0000 || v == 0x8000_0000 ==> r == v,
        0x42c8_0000 < v <= 0x7f80_0000 ==> r == 0x42c8_0000,
        0x8000_0000 < v <= 0xff80_0000 ==> r == 0,
        is_nan(v) ==> r == v,
{
    lemma_order_of_magnitudes(magnitude(v), magnitude(ZERO));
    lemma_order_of_magnitudes(magnitude(ZERO), magnitude(v));
    lemma_order_of_magnitudes(magnitude(v), magnitude(HUNDRED));
    lemma_order_of_magnitudes(magnitude(HUNDRED), magnitude(v));
}

/// A larger percentage is not held below a smaller one.
pub proof fn lemma_clamped_in_order(a: u32, b: u32)
    requires
        at_most(a, b),
    ensures
        at_most(clamped_percent(a), clamped_percent(b)),
{
    lemma_named_encodings();
}

/// A number is a half or more by its encoding; what is not a number is not.
pub proof fn lemma_half(v: u32, r: bool)
    requires
        call_ensures(is_at_least_half, (v,), r),
    ensures
        r <==> 0x3f00_0000 <= v <= 0x7f80_0000,
{
    lemma_order_of_magnitudes(magnitude(v), magnitude(HALF));
    lemma_order_of_magnitudes(magnitude(HALF), magnitude(v));
}

} // verus!
