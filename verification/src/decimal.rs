use vstd::prelude::*;
use vstd::string::*;

use crate::heads::div_round;
use crate::text::push_char;

verus! {

/// The character of the decimal digit `d`.
pub open spec fn digit(d: int) -> char {
    (48 + d) as char
}

/// The decimal digits of `n`, most significant first, without leading zeros.
pub open spec fn nat_digits(n: nat) -> Seq<char>
    decreases n,
{
    if n < 10 {
        seq![digit(n as int)]
    } else {
        nat_digits(n / 10).push(digit((n % 10) as int))
    }
}

/// `n` written in decimal, with a leading `-` when it is negative.
pub open spec fn int_text(n: int) -> Seq<char> {
    if n < 0 {
        seq!['-'] + nat_digits((-n) as nat)
    } else {
        nat_digits(n as nat)
    }
}

/// The last `w` decimal digits of `v`, zero-padded, most significant first.
pub open spec fn fixed_digits(v: nat, w: nat) -> Seq<char>
    decreases w,
{
    if w == 0 {
        Seq::empty()
    } else {
        fixed_digits(v / 10, (w - 1) as nat).push(digit((v % 10) as int))
    }
}

/// `s` without its trailing zeros.
pub open spec fn trim_zeros(s: Seq<char>) -> Seq<char>
    decreases s.len(),
{
    if s.len() > 0 && s.last() == '0' {
        trim_zeros(s.drop_last())
    } else {
        s
    }
}

/// `k / 256` written exactly in decimal (the shortest form: no trailing zeros
/// after the point, no point for a whole number), with a leading `-` when it is
/// negative. Every such number has at most eight decimals, `1/256` being
/// `0.00390625`.
pub open spec fn fixed_text(k: int) -> Seq<char> {
    let a = if k < 0 { -k } else { k };
    let whole = nat_digits((a / 256) as nat);
    let frac = a % 256;
    let sign = if k < 0 { seq!['-'] } else { Seq::<char>::empty() };
    if frac == 0 {
        sign + whole
    } else {
        sign + whole + seq!['.'] + trim_zeros(fixed_digits((frac * 390625) as nat, 8))
    }
}

/// A refresh rate given in mHz, as a whole number of Hz rounded half away from
/// zero; a rate that rounds to zero from below is written `-0`.
pub open spec fn refresh_text(refresh: i32) -> Seq<char> {
    if -500 < refresh < 0 {
        "-0"@
    } else {
        int_text(div_round(refresh as int, 1000))
    }
}

/// The character of the decimal digit `d`.
fn digit_char(d: u64) -> (c: char)
    requires
        d < 10,
    ensures
        c == digit(d as int),
{
    if d == 0 {
        '0'
    } else if d == 1 {
        '1'
    } else if d == 2 {
        '2'
    } else if d == 3 {
        '3'
    } else if d == 4 {
        '4'
    } else if d == 5 {
        '5'
    } else if d == 6 {
        '6'
    } else if d == 7 {
        '7'
    } else if d == 8 {
        '8'
    } else {
        '9'
    }
}

/// Appends the decimal digits of `n`.
fn push_digits(s: &mut String, n: u64)
    ensures
        final(s)@ == old(s)@ + nat_digits(n as nat),
    decreases n,
{
    if n >= 10 {
        push_digits(s, n / 10);
    }
    let c = digit_char(n % 10);
    push_char(s, c);
    proof {
        assert(c == digit((n % 10) as int));
        if n >= 10 {
            assert(nat_digits(n as nat) == nat_digits((n / 10) as nat).push(digit((n % 10) as int)));
        }
    }
}

/// Appends the last `w` decimal digits of `v`, zero-padded.
fn push_fixed(s: &mut String, v: u64, w: u32)
    ensures
        final(s)@ == old(s)@ + fixed_digits(v as nat, w as nat),
    decreases w,
{
    if w == 0 {
        assert(old(s)@ + fixed_digits(v as nat, 0) =~= old(s)@);
        return;
    }
    push_fixed(s, v / 10, w - 1);
    let c = digit_char(v % 10);
    push_char(s, c);
    assert(c == digit((v % 10) as int));
}

/// `n` in decimal.
pub fn nat_to_text(n: u64) -> (r: String)
    ensures
        r@ == int_text(n as int),
{
    let mut s = String::new();
    push_digits(&mut s, n);
    assert(s@ =~= nat_digits(n as nat));
    s
}

/// `n` in decimal.
pub fn int_to_text(n: i64) -> (r: String)
    ensures
        r@ == int_text(n as int),
{
    let mut s = String::new();
    if n < 0 {
        push_char(&mut s, '-');
        let m: u64 = (-(n as i128)) as u64;
        push_digits(&mut s, m);
        assert(s@ =~= seq!['-'] + nat_digits((-n) as nat));
    } else {
        push_digits(&mut s, n as u64);
        assert(s@ =~= nat_digits(n as nat));
    }
    s
}

proof fn lemma_trim_step(v: nat, w: nat)
    requires
        w > 0,
        v % 10 == 0,
    ensures
        trim_zeros(fixed_digits(v, w)) == trim_zeros(fixed_digits(v / 10, (w - 1) as nat)),
{
    assert(fixed_digits(v, w).last() == '0');
    assert(fixed_digits(v, w).drop_last() =~= fixed_digits(v / 10, (w - 1) as nat));
}

proof fn lemma_no_trailing_zero(v: nat, w: nat)
    requires
        w > 0,
        v % 10 != 0,
    ensures
        trim_zeros(fixed_digits(v, w)) == fixed_digits(v, w),
{
    assert(fixed_digits(v, w).last() == digit((v % 10) as int));
}

/// `k / 256` in decimal (see [`fixed_text`]).
pub fn fixed_to_text(k: i32) -> (r: String)
    ensures
        r@ == fixed_text(k as int),
{
    let mut s = String::new();
    let a: u64 = if k < 0 {
        push_char(&mut s, '-');
        (-(k as i64)) as u64
    } else {
        k as u64
    };
    let ghost sign = s@;
    push_digits(&mut s, a / 256);
    let frac = a % 256;
    if frac != 0 {
        push_char(&mut s, '.');
        let mut v: u64 = frac * 390625;
        assert(pow10(8) == 100_000_000) by {
            reveal_with_fuel(pow10, 9);
        }
        let mut w: u32 = 8;
        while v % 10 == 0
            invariant
                0 < v,
                w <= 8,
                v < 100_000_000,
                trim_zeros(fixed_digits(v as nat, w as nat)) == trim_zeros(fixed_digits((frac * 390625) as nat, 8)),
                w > 0,
                v < pow10(w as nat),
            decreases w,
        {
            proof {
                lemma_trim_step(v as nat, w as nat);
                lemma_pow10_div(v as nat, w as nat);
            }
            v = v / 10;
            w = w - 1;
        }
        proof {
            lemma_no_trailing_zero(v as nat, w as nat);
        }
        push_fixed(&mut s, v, w);
    }
    proof {
        if k < 0 {
            assert(sign =~= seq!['-']);
        } else {
            assert(sign =~= Seq::<char>::empty());
        }
    }
    assert(s@ =~= fixed_text(k as int));
    s
}

/// `10` to the power `n`.
pub open spec fn pow10(n: nat) -> nat
    decreases n,
{
    if n == 0 {
        1
    } else {
        10 * pow10((n - 1) as nat)
    }
}

proof fn lemma_pow10_div(v: nat, w: nat)
    requires
        w > 0,
        v < pow10(w),
        v % 10 == 0,
        v > 0,
    ensures
        v / 10 < pow10((w - 1) as nat),
        v / 10 > 0,
        w > 1,
{
    assert(pow10(w) == 10 * pow10((w - 1) as nat));
    if w == 1 {
        assert(pow10(0) == 1);
    }
}

/// A refresh rate in mHz as whole Hz (see [`refresh_text`]).
pub fn refresh_to_text(refresh: i32) -> (r: String)
    ensures
        r@ == refresh_text(refresh),
{
    if -500 < refresh && refresh < 0 {
        return String::from_str("-0");
    }
    let a: i64 = if refresh < 0 {
        -(refresh as i64)
    } else {
        refresh as i64
    };
    let q: i64 = (2 * a + 1000) / 2000;
    let v: i64 = if refresh < 0 {
        -q
    } else {
        q
    };
    int_to_text(v)
}

} // verus!
