use vstd::prelude::*;

use crate::lock::{decimal_text, digit_char, u64_text};

verus! {

/// `b / unit` in tenths, rounded to the nearest, ties to even.
pub open spec fn rounded_tenths(b: nat, unit: nat) -> nat
    recommends
        unit > 0,
{
    let q = b * 10 / unit;
    let rem = b * 10 % unit;
    if 2 * rem > unit || (2 * rem == unit && q % 2 == 1) {
        q + 1
    } else {
        q
    }
}

/// A count of tenths written with one decimal.
pub open spec fn one_decimal(t: nat) -> Seq<char> {
    decimal_text(t / 10) + seq!['.', digit_char(t % 10)]
}

/// A byte count for people: bytes below 1 KiB, then KiB, then MiB, with one decimal.
pub open spec fn size_text(b: nat) -> Seq<char> {
    if b < 1024 {
        decimal_text(b) + seq![' ', 'B']
    } else if b < 1048576 {
        one_decimal(rounded_tenths(b, 1024)) + seq![' ', 'K', 'B']
    } else {
        one_decimal(rounded_tenths(b, 1048576)) + seq![' ', 'M', 'B']
    }
}

fn tenths_text(bytes: u64, unit: u64) -> (r: String)
    requires
        unit == 1024 || unit == 1048576,
    ensures
        r@ == one_decimal(rounded_tenths(bytes as nat, unit as nat)),
{
    let x: u128 = bytes as u128 * 10;
    let q: u128 = x / unit as u128;
    let rem: u128 = x % unit as u128;
    assert(q <= x) by (nonlinear_arith)
        requires
            q == x / unit as u128,
            unit >= 1,
    ;
    let t: u128 = if 2 * rem > unit as u128 || (2 * rem == unit as u128 && q % 2 == 1) {
        q + 1
    } else {
        q
    };
    assert(t == rounded_tenths(bytes as nat, unit as nat));
    let whole = (t / 10) as u64;
    assert(t / 10 <= u64::MAX) by (nonlinear_arith)
        requires
            t <= q + 1,
            q <= (bytes as u128 * 10) / 1024,
            bytes <= u64::MAX,
    {
    }
    let mut r = u64_text(whole);
    proof {
        reveal_strlit(".");
        reveal_strlit("0123456789");
    }
    r.append(".");
    let d = (t % 10) as usize;
    let digits = "0123456789";
    let last = digits.substring_char(d, d + 1);
    assert(last@ =~= seq![digit_char(d as nat)]);
    r.append(last);
    assert(r@ =~= one_decimal(t as nat));
    r
}

/// A byte count for people, such as `500 B`, `1.5 KB` or `1.5 MB`.
pub fn format_size(bytes: u64) -> (r: String)
    ensures
        r@ == size_text(bytes as nat),
{
    proof {
        reveal_strlit(" B");
        reveal_strlit(" KB");
        reveal_strlit(" MB");
    }
    if bytes < 1024 {
        let mut r = u64_text(bytes);
        r.append(" B");
        r
    } else if bytes < 1048576 {
        let mut r = tenths_text(bytes, 1024);
        r.append(" KB");
        r
    } else {
        let mut r = tenths_text(bytes, 1048576);
        r.append(" MB");
        r
    }
}

} // verus!
