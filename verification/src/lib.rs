//! A terminal file-viewer rendering pipeline: line-range selection, blank-line
//! squeezing, tab expansion, visualisation of nonprintable characters,
//! escape-sequence-aware wrapping, style-component resolution, and the
//! decoration layout (headers, grid borders, number gutters, snip markers)
//! that turns decoded text into the exact bytes shown in a fixed-width
//! terminal.
use vstd::prelude::*;

pub mod api;
pub mod chars;
pub mod errors;
pub mod decode;
pub mod ranges;
pub mod squeeze;
pub mod layout;
pub mod style;
pub mod tabs;
pub mod nonprintable;
pub mod ansi;
pub mod width;
pub mod wrap;

verus! {

/// Number of decimal digits needed to print `n`, with a minimum of one.
pub open spec fn spec_digits(n: nat) -> nat
    decreases n,
{
    if n < 10 {
        1
    } else {
        1 + spec_digits(n / 10)
    }
}

/// Count the decimal digits of a line number, as used to size the number gutter.
pub fn digit_count(n: u64) -> (d: u64)
    ensures
        d == spec_digits(n as nat),
        1 <= d <= 20,
{
    proof {
        lemma_digits_le_20(n as nat);
    }
    let mut d: u64 = 1;
    let mut rest: u64 = n;
    while rest >= 10
        invariant
            d >= 1,
            d + spec_digits(rest as nat) == 1 + spec_digits(n as nat),
            spec_digits(rest as nat) >= 1,
            spec_digits(n as nat) <= 20,
        decreases rest,
    {
        rest = rest / 10;
        d = d + 1;
    }
    d
}

/// Every 64-bit value has at most twenty decimal digits.
proof fn lemma_digits_le_20(n: nat)
    requires
        n <= u64::MAX,
    ensures
        spec_digits(n) <= 20,
{
    assert(spec_pow10(20) == 100000000000000000000) by {
        reveal_with_fuel(spec_pow10, 21);
    }
    lemma_digits_pow(n, 20);
}

proof fn lemma_digits_pow(n: nat, k: nat)
    requires
        k >= 1,
        n < spec_pow10(k),
    ensures
        spec_digits(n) <= k,
    decreases k,
{
    if n < 10 {
    } else {
        assert(k >= 2) by {
            if k == 1 {
                assert(spec_pow10(1) == 10);
            }
        }
        assert(n / 10 < spec_pow10((k - 1) as nat)) by {
            assert(spec_pow10(k) == 10 * spec_pow10((k - 1) as nat));
        }
        lemma_digits_pow(n / 10, (k - 1) as nat);
    }
}

pub open spec fn spec_pow10(k: nat) -> nat
    decreases k,
{
    if k == 0 {
        1
    } else {
        10 * spec_pow10((k - 1) as nat)
    }
}

} // verus!
