//! Conversions between Kelvin and the Elgato "mired" wire unit.
//!
//! Elgato exposes colour temperature as mireds — micro reciprocal degrees — in
//! the range 143..=344, mapping to the usable Kelvin range 7000K (cool) down to
//! 2900K (warm). Note the inversion: a *higher* mired is a *warmer* light.
//!
//! The integer rounding is deliberate and load-bearing: floating point would
//! drift from what the hardware echoes back, and the laws at the end of this
//! module pin the exact behaviour.

use vstd::prelude::*;

verus! {

/// Warmest colour temperature the hardware accepts.
pub const MIN_KELVIN: u16 = 2900;

/// Coolest colour temperature the hardware accepts.
pub const MAX_KELVIN: u16 = 7000;

/// Coolest mired value (corresponds to [`MAX_KELVIN`]).
pub const MIN_MIRED: u16 = 143;

/// Warmest mired value (corresponds to [`MIN_KELVIN`]).
pub const MAX_MIRED: u16 = 344;

/// `value` forced into `low..=high`.
pub open spec fn clamp(value: int, low: int, high: int) -> int {
    if value < low {
        low
    } else if value > high {
        high
    } else {
        value
    }
}

/// A million divided by `unit`, rounded half up. Kelvin and mireds are each
/// other's reciprocal in this sense.
pub open spec fn reciprocal(unit: int) -> int {
    (1_000_000 + unit / 2) / unit
}

/// A Kelvin value forced into the hardware's range.
pub open spec fn valid_kelvin(kelvin: int) -> int {
    clamp(kelvin, MIN_KELVIN as int, MAX_KELVIN as int)
}

/// The mired value the hardware is sent for a Kelvin value.
pub open spec fn mired_of(kelvin: int) -> int {
    clamp(reciprocal(valid_kelvin(kelvin)), MIN_MIRED as int, MAX_MIRED as int)
}

/// The Kelvin value a mired value reads back as. A zero, which only malformed
/// firmware output can hold, counts as one.
pub open spec fn kelvin_of(mired: int) -> int {
    valid_kelvin(reciprocal(if mired < 1 { 1 } else { mired }))
}

/// Clamp an arbitrary Kelvin value into the hardware's supported range.
pub fn clamp_kelvin(kelvin: u16) -> (r: u16)
    ensures
        r == valid_kelvin(kelvin as int),
{
    if kelvin < MIN_KELVIN {
        MIN_KELVIN
    } else if kelvin > MAX_KELVIN {
        MAX_KELVIN
    } else {
        kelvin
    }
}

/// A million divided by a positive number, rounded half up.
fn divide_million(unit: u32) -> (r: u32)
    requires
        0 < unit <= 0xffff,
    ensures
        r == reciprocal(unit as int),
{
    (1_000_000 + unit / 2) / unit
}

/// Kelvin (2900..=7000) → Elgato mired (143..=344).
pub fn kelvin_to_mired(kelvin: u16) -> (r: u16)
    ensures
        r == mired_of(kelvin as int),
        MIN_MIRED <= r <= MAX_MIRED,
{
    let mired: u32 = divide_million(clamp_kelvin(kelvin) as u32);
    if mired < MIN_MIRED as u32 {
        MIN_MIRED
    } else if mired > MAX_MIRED as u32 {
        MAX_MIRED
    } else {
        mired as u16
    }
}

/// Do two Kelvin values land on the same mired, i.e. the same hardware setting?
///
/// The mired grid is coarser than Kelvin — near the cool end one step spans
/// almost 50K — so 4200K and 4202K are not merely close, they are *identical*
/// on the wire. Callers use this to keep showing what a user asked for instead
/// of the reciprocal-rounding artifact that comes back in the device's echo.
pub fn same_mired(a: u16, b: u16) -> (r: bool)
    ensures
        r == (mired_of(a as int) == mired_of(b as int)),
{
    kelvin_to_mired(a) == kelvin_to_mired(b)
}

/// Elgato mired (143..=344) → Kelvin (2900..=7000).
pub fn mired_to_kelvin(mired: u16) -> (r: u16)
    ensures
        r == kelvin_of(mired as int),
        MIN_KELVIN <= r <= MAX_KELVIN,
{
    let kelvin: u32 = divide_million(
        if mired < 1 {
            1
        } else {
            mired as u32
        },
    );
    if kelvin < MIN_KELVIN as u32 {
        MIN_KELVIN
    } else if kelvin > MAX_KELVIN as u32 {
        MAX_KELVIN
    } else {
        kelvin as u16
    }
}

/// The Kelvin distance that one mired step either way covers, around `kelvin`.
pub open spec fn kelvin_step(kelvin: int) -> int {
    1_000_000int / (mired_of(kelvin) - 1) - 1_000_000int / (mired_of(kelvin) + 1)
}

/// What a rounded reciprocal is bounded by: `r` is `reciprocal(unit)` exactly
/// when `r * unit <= 1_000_000 + unit / 2 < (r + 1) * unit`.
proof fn lemma_reciprocal(unit: int, r: int)
    requires
        unit > 0,
    ensures
        (r == reciprocal(unit)) <==> (r * unit <= 1_000_000 + unit / 2 < (r + 1) * unit),
{
    let n = 1_000_000 + unit / 2;
    let q = n / unit;
    assert(q * unit <= n < (q + 1) * unit) by (nonlinear_arith)
        requires
            unit > 0,
            q == n / unit,
    ;
    if r * unit <= n < (r + 1) * unit {
        assert(r == q) by (nonlinear_arith)
            requires
                unit > 0,
                q * unit <= n < (q + 1) * unit,
                r * unit <= n < (r + 1) * unit,
        ;
    }
}

/// Every mired value survives the trip through Kelvin: `MIN_MIRED..=MAX_MIRED`
/// map to Kelvin values that map back to themselves. Reconciling reported
/// state against desired state rests on this.
pub proof fn law_mired_round_trip(mired: int)
    requires
        MIN_MIRED <= mired <= MAX_MIRED,
    ensures
        mired_of(kelvin_of(mired)) == mired,
{
    let k = reciprocal(mired);
    lemma_reciprocal(mired, k);
    assert(2900 <= k <= 7000) by (nonlinear_arith)
        requires
            143 <= mired <= 344,
            k * mired <= 1_000_000 + mired / 2 < (k + 1) * mired,
    ;
    assert(mired * k <= 1_000_000 + k / 2 < (mired + 1) * k) by (nonlinear_arith)
        requires
            143 <= mired <= 344,
            2900 <= k <= 7000,
            k * mired <= 1_000_000 + mired / 2 < (k + 1) * mired,
    ;
    lemma_reciprocal(k, mired);
}

/// A Kelvin value and what the hardware echoes for it are one setting.
pub proof fn law_echo_is_the_same_setting(kelvin: int)
    ensures
        mired_of(kelvin_of(mired_of(kelvin))) == mired_of(kelvin),
{
    law_mired_round_trip(mired_of(kelvin));
}

/// A Kelvin value in range comes back within one mired step of where it was.
pub proof fn law_kelvin_round_trip(kelvin: int)
    requires
        MIN_KELVIN <= kelvin <= MAX_KELVIN,
    ensures
        -kelvin_step(kelvin) <= kelvin_of(mired_of(kelvin)) - kelvin <= kelvin_step(kelvin),
{
    let m = mired_of(kelvin);
    let back = kelvin_of(m);
    let hi = 1_000_000int / (m - 1);
    let lo = 1_000_000int / (m + 1);
    let raw = reciprocal(kelvin);
    lemma_reciprocal(kelvin, raw);
    assert(143 <= raw <= 345) by (nonlinear_arith)
        requires
            2900 <= kelvin <= 7000,
            raw * kelvin <= 1_000_000 + kelvin / 2 < (raw + 1) * kelvin,
    ;
    assert((m - 1) * kelvin <= 1_000_000 && 1_000_000 < (m + 1) * kelvin) by (nonlinear_arith)
        requires
            2900 <= kelvin <= 7000,
            m == raw || (m == 344 && raw == 345),
            raw * kelvin <= 1_000_000 + kelvin / 2 < (raw + 1) * kelvin,
    ;
    lemma_reciprocal(m, reciprocal(m));
    let b = reciprocal(m);
    assert(2900 <= b <= 7000) by (nonlinear_arith)
        requires
            143 <= m <= 344,
            b * m <= 1_000_000 + m / 2 < (b + 1) * m,
    ;
    assert((m - 1) * b <= 1_000_000 && 1_000_000 < (m + 1) * b) by (nonlinear_arith)
        requires
            143 <= m <= 344,
            2900 <= b <= 7000,
            b * m <= 1_000_000 + m / 2 < (b + 1) * m,
    ;
    assert(kelvin <= hi && b <= hi) by (nonlinear_arith)
        requires
            143 <= m <= 344,
            hi == 1_000_000int / (m - 1),
            (m - 1) * kelvin <= 1_000_000,
            (m - 1) * b <= 1_000_000,
    ;
    assert(lo <= kelvin && lo <= b) by (nonlinear_arith)
        requires
            143 <= m <= 344,
            lo == 1_000_000int / (m + 1),
            1_000_000 < (m + 1) * kelvin,
            1_000_000 < (m + 1) * b,
    ;
}

/// A warmer light never has the lower mired value.
pub proof fn law_warmer_is_higher_mired(warm: int, cool: int)
    requires
        warm <= cool,
    ensures
        mired_of(warm) >= mired_of(cool),
{
    let w = valid_kelvin(warm);
    let c = valid_kelvin(cool);
    let rw = reciprocal(w);
    let rc = reciprocal(c);
    lemma_reciprocal(w, rw);
    lemma_reciprocal(c, rc);
    assert(rw >= rc) by (nonlinear_arith)
        requires
            2900 <= w <= c <= 7000,
            rw * w <= 1_000_000 + w / 2 < (rw + 1) * w,
            rc * c <= 1_000_000 + c / 2 < (rc + 1) * c,
    ;
}

/// Clamping keeps a value that lies between the bounds and moves any other one
/// onto the bound it passed.
pub proof fn law_clamping_moves_only_what_is_outside(value: int, low: int, high: int)
    requires
        low <= high,
    ensures
        low <= clamp(value, low, high) <= high,
        low <= value <= high ==> clamp(value, low, high) == value,
        value <= low ==> clamp(value, low, high) == low,
        value >= high ==> clamp(value, low, high) == high,
{
}

/// A temperature the hardware can do is kept, a warmer one becomes 2900K and a
/// cooler one 7000K.
pub proof fn law_temperatures_are_brought_into_range(kelvin: int)
    ensures
        2900 <= valid_kelvin(kelvin) <= 7000,
        2900 <= kelvin <= 7000 ==> valid_kelvin(kelvin) == kelvin,
        kelvin <= 2900 ==> valid_kelvin(kelvin) == 2900,
        kelvin >= 7000 ==> valid_kelvin(kelvin) == 7000,
{
}

/// A million divided by a number is rounded to the nearest integer: the product
/// misses the million by no more than half the number.
pub proof fn law_reciprocals_are_nearest(unit: int)
    requires
        unit > 0,
    ensures
        2 * (reciprocal(unit) * unit - 1_000_000) <= unit,
        2 * (1_000_000 - reciprocal(unit) * unit) <= unit,
{
    let half = unit / 2;
    let r = (1_000_000 + half) / unit;
    assert(r * unit <= 1_000_000 + half < r * unit + unit) by (nonlinear_arith)
        requires
            unit > 0,
            r == (1_000_000 + half) / unit,
    ;
    assert(unit - 1 <= 2 * half <= unit) by (nonlinear_arith)
        requires
            half == unit / 2,
    ;
}

/// What the hardware is sent is the mired nearest to the temperature, within the
/// 143 to 344 mireds it takes; a temperature out of range is sent as the end of
/// the range it passed.
pub proof fn law_the_hardware_is_sent_the_nearest_mired(kelvin: int)
    ensures
        143 <= mired_of(kelvin) <= 344,
        2900 <= kelvin <= 7000 && 143 < mired_of(kelvin) < 344 ==> {
            &&& 2 * (mired_of(kelvin) * kelvin - 1_000_000) <= kelvin
            &&& 2 * (1_000_000 - mired_of(kelvin) * kelvin) <= kelvin
        },
        2900 <= kelvin <= 7000 && mired_of(kelvin) == 143 ==> 287 * kelvin >= 2_000_000,
        2900 <= kelvin <= 7000 && mired_of(kelvin) == 344 ==> 687 * kelvin <= 2_000_000,
        kelvin <= 2900 ==> mired_of(kelvin) == 344,
        kelvin >= 7000 ==> mired_of(kelvin) == 143,
{
    let k = valid_kelvin(kelvin);
    law_reciprocals_are_nearest(k);
    let r = reciprocal(k);
    if r <= 143 {
        assert(r * k <= 143 * k) by (nonlinear_arith)
            requires
                r <= 143,
                k > 0,
        ;
    }
    if r >= 344 {
        assert(r * k >= 344 * k) by (nonlinear_arith)
            requires
                r >= 344,
                k > 0,
        ;
    }
    assert(reciprocal(2900) == 345) by (nonlinear_arith);
    assert(reciprocal(7000) == 143) by (nonlinear_arith);
}

/// A mired the hardware reports reads as the nearest temperature, within what the
/// hardware can do.
pub proof fn law_a_mired_reads_as_the_nearest_temperature(mired: int)
    requires
        mired > 0,
    ensures
        2900 <= kelvin_of(mired) <= 7000,
        2900 < kelvin_of(mired) < 7000 ==> {
            &&& 2 * (kelvin_of(mired) * mired - 1_000_000) <= mired
            &&& 2 * (1_000_000 - kelvin_of(mired) * mired) <= mired
        },
        mired <= 142 ==> kelvin_of(mired) == 7000,
        mired >= 345 ==> kelvin_of(mired) == 2900,
        143 <= mired <= 344 ==> mired_of(kelvin_of(mired)) == mired,
{
    law_reciprocals_are_nearest(mired);
    let r = reciprocal(mired);
    if mired <= 142 && r < 7000 {
        assert(r * mired <= 6999 * mired) by (nonlinear_arith)
            requires
                r <= 6999,
                mired > 0,
        ;
    }
    if mired >= 345 && r > 2900 {
        assert(r * mired >= 2901 * mired) by (nonlinear_arith)
            requires
                r >= 2901,
                mired > 0,
        ;
    }
    if 143 <= mired <= 344 {
        law_mired_round_trip(mired);
    }
}

} // verus!
