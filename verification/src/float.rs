//! Floating-point numbers by their bits.
//!
//! The bits of a number, read as sign and magnitude, run as the number itself: a number is
//! smaller than another exactly where its key is smaller. Numbers that are no numbers have no
//! place in the order.

use vstd::prelude::*;

verus! {

/// Whether the bits are those of a 64-bit number: the exponent is not the largest, or the
/// fraction is zero.
pub open spec fn is_number(bits: u64) -> bool {
    bits % 0x8000_0000_0000_0000 <= 0x7ff0_0000_0000_0000
}

/// The place of a 64-bit number among all numbers; both zeros have the same.
pub open spec fn order_key(bits: u64) -> int {
    if bits < 0x8000_0000_0000_0000 {
        bits as int
    } else {
        -(bits - 0x8000_0000_0000_0000)
    }
}

/// The place of a 32-bit number among all numbers; both zeros have the same.
pub open spec fn order_key32(bits: u32) -> int {
    if bits < 0x8000_0000 {
        bits as int
    } else {
        -(bits - 0x8000_0000)
    }
}

/// Whether one 64-bit number is smaller than another. Nothing is smaller or larger than what
/// is no number.
pub open spec fn smaller(a: u64, b: u64) -> bool {
    is_number(a) && is_number(b) && order_key(a) < order_key(b)
}

/// The place of a 64-bit number among all numbers.
pub fn float_key(bits: u64) -> (r: i64)
    ensures
        r == order_key(bits),
{
    if bits < 0x8000_0000_0000_0000 {
        bits as i64
    } else {
        -((bits - 0x8000_0000_0000_0000) as i64)
    }
}

/// The place of a 32-bit number among all numbers.
pub fn float_key32(bits: u32) -> (r: i64)
    ensures
        r == order_key32(bits),
{
    if bits < 0x8000_0000 {
        bits as i64
    } else {
        -((bits - 0x8000_0000) as i64)
    }
}

/// Whether one 64-bit number is smaller than another.
pub fn float_less(a: u64, b: u64) -> (r: bool)
    ensures
        r == smaller(a, b),
{
    a % 0x8000_0000_0000_0000 <= 0x7ff0_0000_0000_0000 && b % 0x8000_0000_0000_0000
        <= 0x7ff0_0000_0000_0000 && float_key(a) < float_key(b)
}

/// Keys run as numbers do: by the sign, then by the exponent, then by the fraction, the other
/// way round for negative numbers; the zeros are equal.
pub proof fn law_keys_run_as_numbers(a: u64, b: u64)
    requires
        is_number(a),
        is_number(b),
    ensures
        ({
            let (sa, sb) = (a / 0x8000_0000_0000_0000 == 1, b / 0x8000_0000_0000_0000 == 1);
            let (ea, eb) = ((a / 0x10_0000_0000_0000) % 2048, (b / 0x10_0000_0000_0000) % 2048);
            let (fa, fb) = (a % 0x10_0000_0000_0000, b % 0x10_0000_0000_0000);
            let below = ea < eb || (ea == eb && fa < fb);
            let above = eb < ea || (ea == eb && fb < fa);
            let zeros = ea == 0 && fa == 0 && eb == 0 && fb == 0;
            order_key(a) < order_key(b) <==> if sa && !sb {
                !zeros
            } else if !sa && sb {
                false
            } else if sa {
                above
            } else {
                below
            }
        }),
{
    let top = 0x8000_0000_0000_0000int;
    let unit = 0x10_0000_0000_0000int;
    let (x, y) = (a as int, b as int);
    assert(top == 2048 * unit);
    let (ma, mb) = (x % top, y % top);
    assert(ma == unit * ((x / unit) % 2048) + x % unit) by (nonlinear_arith)
        requires
            top == 2048 * unit,
            unit == 0x10_0000_0000_0000int,
            ma == x % top,
            0 <= x,
    {}
    assert(mb == unit * ((y / unit) % 2048) + y % unit) by (nonlinear_arith)
        requires
            top == 2048 * unit,
            unit == 0x10_0000_0000_0000int,
            mb == y % top,
            0 <= y,
    {}
}

} // verus!
