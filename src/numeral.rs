use vstd::prelude::*;

use crate::grammar::{
    all_digits, digit_val, digits_value, exp_start, float_text_ok, has_float_marker,
    has_leading_zero, int_text_ok, int_text_value, is_digit, mantissa_ok, numeral, unsigned_part,
};
use crate::text::push_char;
use crate::values::Value;

verus! {

/// A prefix of a run of digits is worth at most the whole run.
proof fn lemma_digits_value_prefix(d: Seq<char>, i: int)
    requires
        0 <= i <= d.len(),
        all_digits(d),
    ensures
        0 <= digits_value(d.subrange(0, i)) <= digits_value(d),
    decreases d.len(),
{
    if i == d.len() {
        assert(d.subrange(0, i) =~= d);
        lemma_digits_value_nonneg(d);
    } else {
        let e = d.drop_last();
        lemma_digits_value_prefix(e, i);
        assert(e.subrange(0, i) =~= d.subrange(0, i));
        lemma_digits_value_nonneg(e);
    }
}

proof fn lemma_digits_value_nonneg(d: Seq<char>)
    ensures
        digits_value(d) >= 0,
    decreases d.len(),
{
    if d.len() > 0 {
        lemma_digits_value_nonneg(d.drop_last());
    }
}

fn is_digit_char(c: char) -> (b: bool)
    ensures
        b == is_digit(c),
{
    '0' <= c && c <= '9'
}

/// The length of the sign: 1 where `t` starts with `-`, else 0.
fn sign_len(t: &Vec<char>) -> (k: usize)
    ensures
        k <= t.len(),
        unsigned_part(t@) == t@.subrange(k as int, t@.len() as int),
        k == 1 <==> (t@.len() > 0 && t@[0] == '-'),
{
    if t.len() > 0 && t[0] == '-' {
        assert(t@.drop_first() =~= t@.subrange(1, t@.len() as int));
        1
    } else {
        assert(t@ =~= t@.subrange(0, t@.len() as int));
        0
    }
}

fn has_marker(t: &Vec<char>) -> (b: bool)
    ensures
        b == has_float_marker(t@),
{
    let mut i: usize = 0;
    while i < t.len()
        invariant
            i <= t.len(),
            forall|j: int| 0 <= j < i ==> !(t@[j] == '.' || t@[j] == 'e' || t@[j] == 'E'),
        decreases t.len() - i,
    {
        if t[i] == '.' || t[i] == 'e' || t[i] == 'E' {
            return true;
        }
        i = i + 1;
    }
    false
}

/// Whether `t` is a well-formed fractional or exponent numeral.
fn float_ok(t: &Vec<char>) -> (b: bool)
    ensures
        b == float_text_ok(t@),
{
    let off = sign_len(t);
    let n = t.len();
    let ghost bs = t@.subrange(off as int, n as int);
    let mut i = off;
    while i < n && t[i] != 'e' && t[i] != 'E'
        invariant
            off <= i <= n == t.len(),
            bs == t@.subrange(off as int, n as int),
            exp_start(bs, i - off) == exp_start(bs, 0),
        decreases n - i,
    {
        i = i + 1;
    }
    let k = i;
    assert(exp_start(bs, k - off) == k - off);
    let ghost m = bs.subrange(0, k - off);
    let mut seen_dot = false;
    let mut seen_digit = false;
    let mut j = off;
    while j < k
        invariant
            off <= j <= k <= n == t.len(),
            m == t@.subrange(off as int, k as int),
            bs == unsigned_part(t@),
            exp_start(bs, 0) == k - off,
            m == bs.subrange(0, k - off),
            forall|x: int| 0 <= x < j - off ==> is_digit(#[trigger] m[x]) || m[x] == '.',
            forall|x: int, y: int|
                0 <= x < j - off && 0 <= y < j - off && #[trigger] m[x] == '.' && #[trigger] m[y]
                    == '.' ==> x == y,
            seen_dot <==> exists|x: int| 0 <= x < j - off && #[trigger] m[x] == '.',
            seen_digit <==> exists|x: int| 0 <= x < j - off && is_digit(#[trigger] m[x]),
        decreases k - j,
    {
        let c = t[j];
        assert(m[j - off] == c);
        if c == '.' {
            if seen_dot {
                assert(!mantissa_ok(m));
                return false;
            }
            seen_dot = true;
        } else if is_digit_char(c) {
            seen_digit = true;
        } else {
            assert(!mantissa_ok(m));
            return false;
        }
        j = j + 1;
    }
    if k > off && t[k - 1] == '.' {
        assert(m[m.len() - 1] == t[k - 1]);
        return false;
    }
    assert(mantissa_ok(m) == seen_digit);
    if !seen_digit {
        return false;
    }
    if k == n {
        return true;
    }
    if k + 1 >= n {
        return false;
    }
    let ghost x = bs.subrange(k - off + 1, bs.len() as int);
    let mut j = k + 1;
    while j < n
        invariant
            k + 1 <= j <= n == t.len(),
            x == t@.subrange(k + 1, n as int),
            bs == unsigned_part(t@),
            bs == t@.subrange(off as int, n as int),
            exp_start(bs, 0) == k - off,
            x == bs.subrange(k - off + 1, bs.len() as int),
            mantissa_ok(bs.subrange(0, k - off)),
            forall|y: int| 0 <= y < j - k - 1 ==> is_digit(#[trigger] x[y]),
        decreases n - j,
    {
        if !is_digit_char(t[j]) {
            assert(x[j - k - 1] == t[j as int]);
            return false;
        }
        j = j + 1;
    }
    true
}

/// The value of `t` as an integer numeral, where it is one and fits in 64 bits.
fn int_value(t: &Vec<char>) -> (r: Option<i64>)
    ensures
        r is Some <==> int_text_ok(t@),
        r matches Some(v) ==> v as int == int_text_value(t@),
{
    let off = sign_len(t);
    let n = t.len();
    let ghost bs = t@.subrange(off as int, n as int);
    if off == n {
        return None;
    }
    let limit: u64 = if off == 1 {
        0x8000_0000_0000_0000
    } else {
        0x7fff_ffff_ffff_ffff
    };
    let mut acc: u64 = 0;
    let mut i = off;
    while i < n
        invariant
            off < n == t.len(),
            off <= i <= n,
            bs == t@.subrange(off as int, n as int),
            bs == unsigned_part(t@),
            limit == if off == 1 { 0x8000_0000_0000_0000u64 } else { 0x7fff_ffff_ffff_ffffu64 },
            off == 1 <==> (t@.len() > 0 && t@[0] == '-'),
            forall|y: int| 0 <= y < i - off ==> is_digit(#[trigger] bs[y]),
            acc as int == digits_value(bs.subrange(0, i - off)),
            acc <= limit,
        decreases n - i,
    {
        let c = t[i];
        assert(bs[i - off] == c);
        if !is_digit_char(c) {
            return None;
        }
        let d = (c as u32 - '0' as u32) as u64;
        assert(d <= 9 && d as nat == digit_val(c));
        let ghost next = bs.subrange(0, i - off + 1);
        assert(next.drop_last() =~= bs.subrange(0, i - off));
        assert(digits_value(next) == acc * 10 + d);
        if acc > (limit - d) / 10 {
            proof {
                assert(acc * 10 + d > limit) by (nonlinear_arith)
                    requires
                        acc > (limit - d) / 10,
                        d <= limit,
                ;
                if all_digits(bs) {
                    lemma_digits_value_prefix(bs, i - off + 1);
                }
            }
            return None;
        }
        assert(acc * 10 + d <= limit) by (nonlinear_arith)
            requires
                acc <= (limit - d) / 10,
                d <= 9,
                d <= limit,
        ;
        acc = acc * 10 + d;
        i = i + 1;
    }
    assert(bs.subrange(0, n - off) =~= bs);
    if off == 1 {
        if acc == 0x8000_0000_0000_0000 {
            Some(i64::MIN)
        } else {
            Some(-(acc as i64))
        }
    } else {
        Some(acc as i64)
    }
}

/// What the scanned numeral `t` stands for: `None` where it is rejected.
pub fn numeral_value(t: &Vec<char>) -> (r: Option<Value>)
    ensures
        match numeral(t@) {
            Ok(j) => r matches Some(v) && v@ == j,
            Err(_) => r is None,
        },
{
    let off = sign_len(t);
    if t.len() >= off + 2 && t[off] == '0' && is_digit_char(t[off + 1]) {
        return None;
    }
    assert(!has_leading_zero(t@));
    if has_marker(t) {
        if float_ok(t) {
            let mut text = String::new();
            let mut i: usize = 0;
            while i < t.len()
                invariant
                    i <= t.len(),
                    text@ == t@.subrange(0, i as int),
                decreases t.len() - i,
            {
                push_char(&mut text, t[i]);
                i = i + 1;
                assert(text@ =~= t@.subrange(0, i as int));
            }
            assert(text@ =~= t@);
            Some(Value::Float(text))
        } else {
            None
        }
    } else {
        match int_value(t) {
            Some(v) => Some(Value::Number(v)),
            None => None,
        }
    }
}

} // verus!
