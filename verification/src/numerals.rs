//! What numbers and bytes in text stand for.

use vstd::prelude::*;
use vstd::arithmetic::power::pow;
use crate::hash;
use crate::loading;
use crate::signature;
use crate::text;

verus! {

/// What a character stands for as a digit, by its code; -1 where it is none.
pub open spec fn digit_worth(c: char) -> int {
    if 48 <= c as int <= 57 {
        c as int - 48
    } else if 65 <= c as int <= 70 {
        c as int - 65 + 10
    } else if 97 <= c as int <= 102 {
        c as int - 97 + 10
    } else {
        -1
    }
}

/// What a row of digits stands for in a base, the highest digit first.
pub open spec fn worth(s: Seq<char>, base: int) -> int
    decreases s.len(),
{
    if s.len() == 0 {
        0
    } else {
        base * worth(s.drop_last(), base) + digit_worth(s.last())
    }
}

/// Whether a text is made of the digits 0 to 9, at least one.
pub open spec fn is_decimal(s: Seq<char>) -> bool {
    s.len() > 0 && forall|i: int| 0 <= i < s.len() ==> 48 <= (#[trigger] s[i]) as int <= 57
}

proof fn one_more(s: Seq<char>, c: char, base: int)
    ensures
        worth(s.push(c), base) == base * worth(s, base) + digit_worth(c),
{
    assert(s.push(c).drop_last() =~= s);
    assert(s.push(c).last() == c);
}

proof fn one_alone(c: char, base: int)
    ensures
        worth(seq![c], base) == digit_worth(c),
{
    assert(seq![c].drop_last() =~= Seq::<char>::empty());
    assert(worth(Seq::<char>::empty(), base) == 0);
    assert(base * 0 == 0) by (nonlinear_arith);
}

/// A number in decimal stands for that number, in the digits 0 to 9 and with no
/// zero in front.
pub proof fn a_decimal_stands_for_its_number(n: int)
    requires
        0 <= n,
    ensures
        is_decimal(text::dec(n)),
        worth(text::dec(n), 10) == n,
        text::dec(n)[0] as int == 48 ==> n == 0,
        n == 0 ==> text::dec(n).len() == 1,
    decreases n,
{
    if n < 10 {
        one_alone(text::digit(n), 10);
    } else {
        a_decimal_stands_for_its_number(n / 10);
        one_more(text::dec(n / 10), text::digit(n % 10), 10);
    }
}

/// A number with its sign stands for that number.
pub proof fn a_sign_is_shown(n: int)
    ensures
        n >= 0 ==> is_decimal(text::signed_dec(n)) && worth(text::signed_dec(n), 10) == n,
        n < 0 ==> {
            &&& text::signed_dec(n)[0] == '-'
            &&& is_decimal(text::signed_dec(n).skip(1))
            &&& worth(text::signed_dec(n).skip(1), 10) == -n
        },
{
    reveal_strlit("-");
    if n < 0 {
        a_decimal_stands_for_its_number(-n);
        assert(text::signed_dec(n).skip(1) =~= text::dec(-n));
    } else {
        a_decimal_stands_for_its_number(n);
    }
}

/// A number in hexadecimal on `w` digits stands for that number, in digits of
/// upper case.
pub proof fn hexadecimal_stands_for_its_number(n: int, w: nat)
    requires
        0 <= n < pow(16, w),
    ensures
        text::hex(n, w).len() == w,
        worth(text::hex(n, w), 16) == n,
        forall|i: int| 0 <= i < w ==> 48 <= (#[trigger] text::hex(n, w)[i]) as int <= 70,
    decreases w,
{
    reveal(pow);
    if w > 0 {
        let v = (w - 1) as nat;
        assert(pow(16, w) == 16 * pow(16, v));
        hexadecimal_stands_for_its_number(n / 16, v);
        one_more(text::hex(n / 16, v), text::hex_digit(n % 16), 16);
    }
}

proof fn low_digit_is(d: int)
    requires
        0 <= d < 16,
    ensures
        digit_worth(text::low_digit(d)) == d,
        text::low_digit(d) as int <= 57 || 97 <= text::low_digit(d) as int,
        text::low_digit(d) as int == 48 ==> d == 0,
        loading::is_digit(text::low_digit(d), d),
{
}

/// A number in small hexadecimal stands for that number, in digits of lower case
/// and with no zero in front.
pub proof fn small_hexadecimal_stands_for_its_number(n: int)
    requires
        0 <= n,
    ensures
        text::low_hex(n).len() >= 1,
        worth(text::low_hex(n), 16) == n,
        forall|i: int|
            0 <= i < text::low_hex(n).len() ==> {
                let c = (#[trigger] text::low_hex(n)[i]) as int;
                c <= 57 || 97 <= c
            },
        text::low_hex(n)[0] as int == 48 ==> n == 0,
    decreases n,
{
    if n < 16 {
        low_digit_is(n);
        one_alone(text::low_digit(n), 16);
    } else {
        small_hexadecimal_stands_for_its_number(n / 16);
        low_digit_is(n % 16);
        one_more(text::low_hex(n / 16), text::low_digit(n % 16), 16);
    }
}

proof fn zeros_are_worth_nothing(k: nat, s: Seq<char>, base: int)
    ensures
        worth(text::repeated('0', k) + s, base) == worth(s, base),
    decreases k + s.len(),
{
    let t = text::repeated('0', k) + s;
    if s.len() > 0 {
        zeros_are_worth_nothing(k, s.drop_last(), base);
        assert(t.drop_last() =~= text::repeated('0', k) + s.drop_last());
        assert(t.last() == s.last());
    } else if k > 0 {
        zeros_are_worth_nothing((k - 1) as nat, s, base);
        assert(t.drop_last() =~= text::repeated('0', (k - 1) as nat) + s);
        assert(t.last() == '0');
        assert(base * 0 == 0) by (nonlinear_arith);
    } else {
        assert(t =~= s);
    }
}

/// Zeros in front fill a number up to a width, and change nothing of what it
/// stands for; a number that is wide enough stays as it is.
pub proof fn zeros_only_fill(s: Seq<char>, w: int, base: int)
    ensures
        worth(text::zero_padded(s, w), base) == worth(s, base),
        text::zero_padded(s, w).len() == (if s.len() >= w {
            s.len() as int
        } else {
            w
        }),
        s.len() >= w ==> text::zero_padded(s, w) == s,
{
    if s.len() < w {
        zeros_are_worth_nothing((w - s.len()) as nat, s, base);
    }
}

/// A byte in two digits of lower case, the high one first.
pub proof fn a_byte_is_two_digits(b: u8)
    ensures
        ({
            let t = text::zero_padded(text::low_hex(b as int), 2);
            &&& t.len() == 2
            &&& loading::is_digit(t[0], b as int / 16)
            &&& loading::is_digit(t[1], b as int % 16)
            &&& t[0] as int <= 57 || 97 <= t[0] as int
            &&& t[1] as int <= 57 || 97 <= t[1] as int
        }),
{
    let n = b as int;
    let t = text::zero_padded(text::low_hex(n), 2);
    low_digit_is(n / 16);
    low_digit_is(n % 16);
    if n < 16 {
        assert(text::low_hex(n) == seq![text::low_digit(n)]);
        assert(t =~= seq!['0', text::low_digit(n)]);
        assert(n / 16 == 0 && n % 16 == n);
    } else {
        assert(text::low_hex(n / 16) == seq![text::low_digit(n / 16)]);
        assert(text::low_hex(n) =~= seq![text::low_digit(n / 16), text::low_digit(n % 16)]);
    }
}

proof fn bytes_spelled(d: Seq<u8>, n: int)
    requires
        0 <= n <= d.len(),
    ensures
        loading::spells(hash::hex_upto(d, n), d.subrange(0, n)),
        forall|i: int|
            0 <= i < 2 * n ==> {
                let c = (#[trigger] hash::hex_upto(d, n)[i]) as int;
                c <= 57 || 97 <= c
            },
    decreases n,
{
    if n > 0 {
        bytes_spelled(d, n - 1);
        a_byte_is_two_digits(d[n - 1]);
        let was = hash::hex_upto(d, n - 1);
        let now = hash::hex_upto(d, n);
        let two = text::zero_padded(text::low_hex(d[n - 1] as int), 2);
        assert(now == was + two);
        assert(was.len() == 2 * (n - 1));
        assert forall|i: int| 0 <= i < n implies loading::is_digit(
            now[2 * i],
            (#[trigger] d.subrange(0, n)[i]) as int / 16,
        ) && loading::is_digit(now[2 * i + 1], d.subrange(0, n)[i] as int % 16) by {
            if i < n - 1 {
                assert(d.subrange(0, n - 1)[i] == d[i]);
                assert(now[2 * i] == was[2 * i]);
                assert(now[2 * i + 1] == was[2 * i + 1]);
            } else {
                assert(now[2 * i] == two[0]);
                assert(now[2 * i + 1] == two[1]);
            }
        }
    }
}

/// Bytes in hexadecimal read back as those bytes, and are written in lower
/// case. So two pieces of data have the same hash in text only where they have
/// the same hash.
pub proof fn bytes_in_hexadecimal_read_back(d: Seq<u8>)
    ensures
        hash::hex_upto(d, d.len() as int).len() == 2 * d.len(),
        d.len() > 0 ==> signature::hex_bytes(hash::hex_upto(d, d.len() as int)) == Some(d),
        forall|i: int|
            0 <= i < 2 * d.len() ==> {
                let c = (#[trigger] hash::hex_upto(d, d.len() as int)[i]) as int;
                c <= 57 || 97 <= c
            },
{
    let n = d.len() as int;
    bytes_spelled(d, n);
    assert(d.subrange(0, n) =~= d);
    if n > 0 {
        loading::hex_reads_back(hash::hex_upto(d, n), d);
    }
}

} // verus!
