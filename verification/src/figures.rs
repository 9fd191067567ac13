//! What sizes and durations in words stand for.

use vstd::prelude::*;
use vstd::string::*;
use vstd::arithmetic::power::pow;
use crate::output;
use crate::text;

verus! {

proof fn unit_found(v: int, size: int, i: int)
    requires
        0 <= i <= 6,
        size == pow(1024, i as nat),
        0 < size <= v,
    ensures
        ({
            let (unit, k) = output::unit_of(v, size, i);
            &&& i <= k <= 6
            &&& unit == pow(1024, k as nat)
            &&& 0 < unit <= v
            &&& k < 6 ==> v < 1024 * unit
        }),
    decreases 6 - i,
{
    reveal(pow);
    if i < 6 && v >= 1024 * size {
        assert(pow(1024, (i + 1) as nat) == 1024 * pow(1024, i as nat));
        unit_found(v, 1024 * size, i + 1);
    }
}

/// The unit that a size is told in is the largest that it has at least one of,
/// each being 1024 of the one before.
pub proof fn a_unit_is_the_largest_that_fits(v: int)
    requires
        1 <= v,
    ensures
        ({
            let (unit, k) = output::unit_of(v, 1, 0);
            &&& 0 <= k <= 6
            &&& unit == pow(1024, k as nat)
            &&& unit <= v
            &&& k < 6 ==> v < 1024 * unit
        }),
{
    reveal(pow);
    unit_found(v, 1, 0);
}

proof fn nearest_is(p: int, q: int, f: int)
    requires
        0 < q,
        -q < 2 * (p - f * q) < q,
    ensures
        output::nearest(p, q) == f,
{
    let whole = p / q;
    let rest = p % q;
    vstd::arithmetic::div_mod::lemma_fundamental_div_mod(p, q);
    vstd::arithmetic::div_mod::lemma_mod_bound(p, q);
    assert(q * whole == whole * q) by (nonlinear_arith);
    assert(whole == f || whole == f - 1) by (nonlinear_arith)
        requires
            whole * q + rest == p,
            0 <= rest < q,
            -q < 2 * (p - f * q) < q,
            0 < q,
    ;
    assert((f - 1) * q == f * q - q) by (nonlinear_arith);
}

proof fn small_is_exact(n: int)
    requires
        0 <= n < 0x20_0000_0000_0000,
    ensures
        output::as_double(n) == n,
{
    assert(output::last_place(n, 1) == 1);
    nearest_is(n, 1, n);
    assert(n * 1 == n);
}

proof fn unit_is(v: int, k: int)
    requires
        1 <= k <= 5,
        pow(1024, k as nat) <= v < 1024 * pow(1024, k as nat),
    ensures
        output::unit_of(v, 1, 0) == (pow(1024, k as nat), k),
        0 < pow(1024, k as nat),
{
    reveal(pow);
    vstd::arithmetic::power::lemma_pow_positive(1024, k as nat);
    a_unit_is_the_largest_that_fits(v);
    let (unit, j) = output::unit_of(v, 1, 0);
    if j < k {
        vstd::arithmetic::power::lemma_pow_increases(1024, (j + 1) as nat, k as nat);
        assert(pow(1024, (j + 1) as nat) == 1024 * pow(1024, j as nat));
    }
    if k < j {
        vstd::arithmetic::power::lemma_pow_increases(1024, (k + 1) as nat, j as nat);
        assert(pow(1024, (k + 1) as nat) == 1024 * pow(1024, k as nat));
    }
}

/// A size is told in its unit to the nearest hundredth where that is less than
/// ten, else to the nearest tenth where that is less than a hundred, else to the
/// nearest whole. `hundredths`, `tenths` and `whole` are what is nearest.
pub proof fn a_size_is_told_to_three_figures(
    n: int,
    k: int,
    hundredths: int,
    tenths: int,
    whole: int,
)
    requires
        1 <= k <= 5,
        n < 0x20_0000_0000_0000,
        pow(1024, k as nat) <= n < 1024 * pow(1024, k as nat),
        ({
            let unit = pow(1024, k as nat);
            &&& -unit < 2 * (100 * n - hundredths * unit) < unit
            &&& -unit < 2 * (10 * n - tenths * unit) < unit
            &&& -unit < 2 * (n - whole * unit) < unit
        }),
    ensures
        ({
            let name = if k == 1 {
                "KiB"@
            } else if k == 2 {
                "MiB"@
            } else if k == 3 {
                "GiB"@
            } else if k == 4 {
                "TiB"@
            } else {
                "PiB"@
            };
            let figures = if hundredths < 1000 {
                text::dec(hundredths / 100) + "."@ + output::two(hundredths % 100)
            } else if tenths < 1000 {
                text::dec(tenths / 10) + "."@ + text::dec(tenths % 10)
            } else {
                text::dec(whole)
            };
            output::size_text(n) == figures + " "@ + name
        }),
{
    let unit = pow(1024, k as nat);
    reveal(pow);
    vstd::arithmetic::power::lemma_pow_increases(1024, 1, k as nat);
    assert(pow(1024, 1) == 1024) by {
        assert(pow(1024, 0) == 1);
    }
    small_is_exact(n);
    unit_is(n, k);
    nearest_is(100 * n, unit, hundredths);
    nearest_is(10 * n, unit, tenths);
    nearest_is(n, unit, whole);
}

/// Fewer than 1024 bytes are told as they are.
pub proof fn a_small_size_is_told_in_bytes(n: int)
    requires
        0 <= n < 1024,
    ensures
        output::size_text(n) == text::dec(n) + " B"@,
{
}

/// A duration of a minute or more is told in minutes and seconds, and one of an
/// hour or more in hours and minutes.
pub proof fn a_duration_is_told_in_its_parts(h: int, m: int, s: int, nanos: int)
    requires
        0 <= h,
        0 <= m < 60,
        0 <= s < 60,
    ensures
        ({
            let told = output::duration_text(3600 * h + 60 * m + s, nanos);
            &&& h > 0 ==> told == text::dec(h) + "h "@ + text::dec(m) + "m"@
            &&& h == 0 && m > 0 ==> told == text::dec(m) + "m "@ + text::dec(s) + "s"@
        }),
{
}

/// A whole number of seconds, less than a minute, is told as such, with a zero
/// behind the point.
pub proof fn whole_seconds_are_told(s: int)
    requires
        0 <= s < 60,
    ensures
        output::duration_text(s, 0) == text::dec(s) + "."@ + text::dec(0) + "s"@,
{
    assert(output::scale_up(0, 4_503_599_627_370_496_000_000_000int, 1) == 1);
    nearest_is(0, 1_000_000_000, 0);
    small_is_exact(s);
    nearest_is(10 * s, 1, 10 * s);
    assert(output::tenths(s, 0) == 10 * s);
}

} // verus!
