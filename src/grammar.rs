use vstd::prelude::*;

use crate::render::render;
use crate::values::Json;

verus! {

/// Why a parse failed, as a mathematical value.
pub enum Failure {
    /// The input ended while a character was required.
    Eof,
    /// An invalid token, with its text.
    Token(Seq<char>),
}

/// What a parse yields: a value and the position just past it, or a failure
/// and the position where the cursor stops.
pub type Parsed = Result<(Json, int), (Failure, int)>;

pub open spec fn is_ws(c: char) -> bool {
    c == ' ' || c == '\t' || c == '\n' || c == '\r'
}

pub open spec fn is_digit(c: char) -> bool {
    '0' <= c <= '9'
}

pub open spec fn is_alpha(c: char) -> bool {
    ('a' <= c <= 'z') || ('A' <= c <= 'Z')
}

pub open spec fn is_num_char(c: char) -> bool {
    is_digit(c) || c == '.' || c == 'e' || c == 'E'
}

pub open spec fn is_hex(c: char) -> bool {
    is_digit(c) || ('a' <= c <= 'f') || ('A' <= c <= 'F')
}

pub open spec fn hex_val(c: char) -> nat {
    if is_digit(c) {
        (c as nat - '0' as nat) as nat
    } else if 'a' <= c <= 'f' {
        (c as nat - 'a' as nat + 10) as nat
    } else {
        (c as nat - 'A' as nat + 10) as nat
    }
}

pub open spec fn digit_val(c: char) -> nat {
    (c as nat - '0' as nat) as nat
}

/// The first position at or after `p` that holds no whitespace.
pub open spec fn ws_end(s: Seq<char>, p: int) -> int
    decreases s.len() - p,
{
    if 0 <= p < s.len() && is_ws(s[p]) {
        ws_end(s, p + 1)
    } else {
        p
    }
}

/// The first position at or after `p` that holds no ASCII letter.
pub open spec fn alpha_end(s: Seq<char>, p: int) -> int
    decreases s.len() - p,
{
    if 0 <= p < s.len() && is_alpha(s[p]) {
        alpha_end(s, p + 1)
    } else {
        p
    }
}

/// The first position at or after `p` that holds no digit, `.`, `e` or `E`.
pub open spec fn num_end(s: Seq<char>, p: int) -> int
    decreases s.len() - p,
{
    if 0 <= p < s.len() && is_num_char(s[p]) {
        num_end(s, p + 1)
    } else {
        p
    }
}

/// The keyword parser: the run of letters starting at `p` must be exactly
/// `true`, `false` or `null`.
pub open spec fn parse_keyword(s: Seq<char>, p: int) -> Parsed {
    let e = alpha_end(s, p + 1);
    let w = s.subrange(p, e);
    if w == seq!['t', 'r', 'u', 'e'] {
        Ok((Json::Bool(true), e))
    } else if w == seq!['f', 'a', 'l', 's', 'e'] {
        Ok((Json::Bool(false), e))
    } else if w == seq!['n', 'u', 'l', 'l'] {
        Ok((Json::Null, e))
    } else {
        Err((Failure::Token(w), e))
    }
}

/// The numeral with its sign removed.
pub open spec fn unsigned_part(t: Seq<char>) -> Seq<char> {
    if t.len() > 0 && t[0] == '-' {
        t.drop_first()
    } else {
        t
    }
}

/// An integer part of more than one digit that starts with `0`.
pub open spec fn has_leading_zero(t: Seq<char>) -> bool {
    let b = unsigned_part(t);
    b.len() >= 2 && b[0] == '0' && is_digit(b[1])
}

pub open spec fn has_float_marker(t: Seq<char>) -> bool {
    exists|i: int| 0 <= i < t.len() && (t[i] == '.' || t[i] == 'e' || t[i] == 'E')
}

pub open spec fn all_digits(t: Seq<char>) -> bool {
    forall|i: int| 0 <= i < t.len() ==> is_digit(t[i])
}

/// The position of the first `e` or `E` at or after `i`, or the length.
pub open spec fn exp_start(b: Seq<char>, i: int) -> int
    decreases b.len() - i,
{
    if 0 <= i < b.len() && b[i] != 'e' && b[i] != 'E' {
        exp_start(b, i + 1)
    } else {
        i
    }
}

/// Digits with at most one `.`, at least one digit, and a digit after the `.`.
pub open spec fn mantissa_ok(m: Seq<char>) -> bool {
    &&& forall|i: int| 0 <= i < m.len() ==> is_digit(m[i]) || m[i] == '.'
    &&& forall|i: int, j: int|
        0 <= i < m.len() && 0 <= j < m.len() && m[i] == '.' && m[j] == '.' ==> i == j
    &&& exists|i: int| 0 <= i < m.len() && is_digit(m[i])
    &&& (m.len() > 0 ==> m[m.len() - 1] != '.')
}

/// A fractional or exponent numeral: `-`? mantissa, then optionally
/// `e` or `E` and one or more digits.
pub open spec fn float_text_ok(t: Seq<char>) -> bool {
    let b = unsigned_part(t);
    let k = exp_start(b, 0);
    &&& mantissa_ok(b.subrange(0, k))
    &&& (k == b.len() || (k + 1 < b.len() && all_digits(b.subrange(k + 1, b.len() as int))))
}

/// The value of a run of decimal digits.
pub open spec fn digits_value(d: Seq<char>) -> int
    decreases d.len(),
{
    if d.len() == 0 {
        0
    } else {
        digits_value(d.drop_last()) * 10 + digit_val(d.last())
    }
}

/// The value of an integer numeral `-`? digits.
pub open spec fn int_text_value(t: Seq<char>) -> int {
    if t.len() > 0 && t[0] == '-' {
        -digits_value(t.drop_first())
    } else {
        digits_value(t)
    }
}

pub open spec fn int_text_ok(t: Seq<char>) -> bool {
    let b = unsigned_part(t);
    &&& b.len() > 0
    &&& all_digits(b)
    &&& i64::MIN <= int_text_value(t) <= i64::MAX
}

/// What a scanned numeral stands for.
pub open spec fn numeral(t: Seq<char>) -> Result<Json, Failure> {
    if has_leading_zero(t) {
        Err(Failure::Token(t))
    } else if has_float_marker(t) {
        if float_text_ok(t) {
            Ok(Json::Float(t))
        } else {
            Err(Failure::Token(t))
        }
    } else if int_text_ok(t) {
        Ok(Json::Number(int_text_value(t)))
    } else {
        Err(Failure::Token(t))
    }
}

/// The number parser: a run of digits, `.`, `e` and `E` after the first
/// character at `p`.
pub open spec fn parse_number(s: Seq<char>, p: int) -> Parsed {
    let e = num_end(s, p + 1);
    match numeral(s.subrange(p, e)) {
        Ok(v) => Ok((v, e)),
        Err(f) => Err((f, e)),
    }
}

pub open spec fn is_scalar_code(n: nat) -> bool {
    n < 0xD800 || (0xDFFF < n && n <= 0x10FFFF)
}

/// The first position at or after `p` that holds no hex digit.
pub open spec fn hex_end(s: Seq<char>, p: int) -> int
    decreases s.len() - p,
{
    if 0 <= p < s.len() && is_hex(s[p]) {
        hex_end(s, p + 1)
    } else {
        p
    }
}

/// The value of a run of hex digits.
pub open spec fn hex_value(h: Seq<char>) -> nat
    decreases h.len(),
{
    if h.len() == 0 {
        0
    } else {
        hex_value(h.drop_last()) * 16 + hex_val(h.last())
    }
}

/// Where the escape whose letter stands at `q` ends: after the letter, or
/// after the whole run of hex digits that follows a `u`.
pub open spec fn escape_end(s: Seq<char>, q: int) -> int {
    if s[q] == 'u' {
        hex_end(s, q + 1)
    } else {
        q + 1
    }
}

/// The character that the escape whose letter stands at `q` decodes to. A
/// `u` takes the run of hex digits after it: one to four digits, naming a
/// Unicode scalar value.
pub open spec fn escape(s: Seq<char>, q: int) -> Result<char, Failure> {
    let c = s[q];
    if c == '"' {
        Ok('"')
    } else if c == '\\' {
        Ok('\\')
    } else if c == '/' {
        Ok('/')
    } else if c == 'b' {
        Ok('\x08')
    } else if c == 'f' {
        Ok('\x0c')
    } else if c == 'n' {
        Ok('\n')
    } else if c == 'r' {
        Ok('\r')
    } else if c == 't' {
        Ok('\t')
    } else if c == 'u' {
        let h = s.subrange(q + 1, hex_end(s, q + 1));
        if 1 <= h.len() <= 4 && is_scalar_code(hex_value(h)) {
            Ok((hex_value(h) as u32) as char)
        } else {
            Err(Failure::Token(seq!['\\', 'u'] + h))
        }
    } else {
        Err(Failure::Token(seq!['\\', c]))
    }
}

/// The body of a string from `p` on, `acc` holding what was decoded so far.
pub open spec fn string_body(s: Seq<char>, p: int, acc: Seq<char>) -> Result<
    (Seq<char>, int),
    (Failure, int),
>
    decreases s.len() - p,
{
    if p < 0 || p >= s.len() {
        Err((Failure::Token(acc), p))
    } else if s[p] == '"' {
        Ok((acc, p + 1))
    } else if s[p] == '\\' {
        if p + 1 >= s.len() {
            Err((Failure::Eof, p + 1))
        } else {
            let e = escape_end(s, p + 1);
            match escape(s, p + 1) {
                Ok(c) => if p < e <= s.len() {
                    string_body(s, e, acc.push(c))
                } else {
                    Err((Failure::Eof, e))
                },
                Err(f) => Err((f, e)),
            }
        }
    } else {
        string_body(s, p + 1, acc.push(s[p]))
    }
}

/// The string parser, for a `"` at `p`.
pub open spec fn parse_string(s: Seq<char>, p: int) -> Result<(Seq<char>, int), (Failure, int)> {
    string_body(s, p + 1, Seq::empty())
}

/// The position of the last entry of `e` under key `k`, or -1.
pub open spec fn key_index(e: Seq<(Seq<char>, Json)>, k: Seq<char>) -> int
    decreases e.len(),
{
    if e.len() == 0 {
        -1
    } else if e.last().0 == k {
        e.len() - 1
    } else {
        key_index(e.drop_last(), k)
    }
}

/// Puts `v` under `k`: in place of the value held under `k`, or at the end.
pub open spec fn insert_entry(e: Seq<(Seq<char>, Json)>, k: Seq<char>, v: Json) -> Seq<
    (Seq<char>, Json),
> {
    let i = key_index(e, k);
    if i >= 0 {
        e.update(i, (k, v))
    } else {
        e.push((k, v))
    }
}

/// The value parser: skips whitespace from `p` and dispatches on the next
/// character.
pub open spec fn parse_value(s: Seq<char>, p: int) -> Parsed
    decreases s.len() - p, 1int,
{
    if p < 0 || p >= s.len() {
        Err((Failure::Eof, p))
    } else {
        let c = s[p];
        if is_ws(c) {
            parse_value(s, p + 1)
        } else if c == 't' || c == 'f' || c == 'n' {
            parse_keyword(s, p)
        } else if c == '"' {
            match parse_string(s, p) {
                Ok((t, q)) => Ok((Json::Str(t), q)),
                Err(f) => Err(f),
            }
        } else if is_digit(c) || c == '-' {
            parse_number(s, p)
        } else if c == '[' {
            array_open(s, p + 1)
        } else if c == '{' {
            object_open(s, p + 1)
        } else {
            Err((Failure::Eof, p))
        }
    }
}

/// Just after `[`: an empty array, or the first element.
pub open spec fn array_open(s: Seq<char>, p: int) -> Parsed
    decreases s.len() - p, 3int,
{
    if p < 0 || p >= s.len() {
        Err((Failure::Eof, p))
    } else if is_ws(s[p]) {
        array_open(s, p + 1)
    } else if s[p] == ']' {
        Ok((Json::Array(Seq::empty()), p + 1))
    } else {
        array_elem(s, p, Seq::empty())
    }
}

/// An element at `p`, `acc` holding the elements before it.
pub open spec fn array_elem(s: Seq<char>, p: int, acc: Seq<Json>) -> Parsed
    decreases s.len() - p, 2int,
{
    if p < 0 || p >= s.len() {
        Err((Failure::Eof, p))
    } else {
        match parse_value(s, p) {
            Ok((v, q)) => if p < q <= s.len() {
                array_delim(s, q, acc.push(v))
            } else {
                Err((Failure::Eof, q))
            },
            Err(f) => Err(f),
        }
    }
}

/// After an element: `]` ends the array, `,` leads to the next element.
pub open spec fn array_delim(s: Seq<char>, p: int, acc: Seq<Json>) -> Parsed
    decreases s.len() - p, 0int,
{
    if p < 0 || p >= s.len() {
        Err((Failure::Eof, p))
    } else if is_ws(s[p]) {
        array_delim(s, p + 1, acc)
    } else if s[p] == ']' {
        Ok((Json::Array(acc), p + 1))
    } else if s[p] == ',' {
        array_next(s, p + 1, acc)
    } else {
        Err((Failure::Token(seq![s[p]]), p))
    }
}

/// After a comma: `]` ends the array (a trailing comma), else an element.
pub open spec fn array_next(s: Seq<char>, p: int, acc: Seq<Json>) -> Parsed
    decreases s.len() - p, 3int,
{
    if p < 0 || p >= s.len() {
        Err((Failure::Eof, p))
    } else if is_ws(s[p]) {
        array_next(s, p + 1, acc)
    } else if s[p] == ']' {
        Ok((Json::Array(acc), p + 1))
    } else {
        array_elem(s, p, acc)
    }
}

/// Just after `{`: an empty object, or the first key.
pub open spec fn object_open(s: Seq<char>, p: int) -> Parsed
    decreases s.len() - p, 3int,
{
    if p < 0 || p >= s.len() {
        Err((Failure::Eof, p))
    } else if is_ws(s[p]) {
        object_open(s, p + 1)
    } else if s[p] == '}' {
        Ok((Json::Object(Seq::empty()), p + 1))
    } else {
        object_key(s, p, Seq::empty())
    }
}

/// A key at `p`, `acc` holding the entries before it.
pub open spec fn object_key(s: Seq<char>, p: int, acc: Seq<(Seq<char>, Json)>) -> Parsed
    decreases s.len() - p, 2int,
{
    if p < 0 || p >= s.len() {
        Err((Failure::Eof, p))
    } else if is_ws(s[p]) {
        object_key(s, p + 1, acc)
    } else if s[p] != '"' {
        Err((Failure::Token(seq![s[p]]), p))
    } else {
        match parse_string(s, p) {
            Ok((k, q)) => if p < q <= s.len() {
                object_colon(s, q, k, acc)
            } else {
                Err((Failure::Eof, q))
            },
            Err(f) => Err(f),
        }
    }
}

/// After a key: the `:`.
pub open spec fn object_colon(
    s: Seq<char>,
    p: int,
    k: Seq<char>,
    acc: Seq<(Seq<char>, Json)>,
) -> Parsed
    decreases s.len() - p, 0int,
{
    if p < 0 || p >= s.len() {
        Err((Failure::Eof, p))
    } else if is_ws(s[p]) {
        object_colon(s, p + 1, k, acc)
    } else if s[p] == ':' {
        object_member(s, p + 1, k, acc)
    } else {
        Err((Failure::Token(seq!['"'] + k + seq!['"', s[p]]), p + 1))
    }
}

/// The value under key `k`, at `p`.
pub open spec fn object_member(
    s: Seq<char>,
    p: int,
    k: Seq<char>,
    acc: Seq<(Seq<char>, Json)>,
) -> Parsed
    decreases s.len() - p, 2int,
{
    match parse_value(s, p) {
        Ok((v, q)) => if p < q <= s.len() {
            object_delim(s, q, k, v, acc)
        } else {
            Err((Failure::Eof, q))
        },
        Err(f) => Err(f),
    }
}

/// After a member: `}` ends the object, `,` leads to the next key.
pub open spec fn object_delim(
    s: Seq<char>,
    p: int,
    k: Seq<char>,
    v: Json,
    acc: Seq<(Seq<char>, Json)>,
) -> Parsed
    decreases s.len() - p, 0int,
{
    if p < 0 || p >= s.len() {
        Err((Failure::Eof, p))
    } else if is_ws(s[p]) {
        object_delim(s, p + 1, k, v, acc)
    } else if s[p] == '}' {
        Ok((Json::Object(insert_entry(acc, k, v)), p + 1))
    } else if s[p] == ',' {
        object_key(s, p + 1, insert_entry(acc, k, v))
    } else {
        Err(
            (
                Failure::Token(
                    seq!['"'] + k + seq!['"', ' ', ':', ' '] + render(v) + seq![' ', s[p]],
                ),
                p,
            ),
        )
    }
}

/// A function of the position that whitespace does not change takes the
/// same value where the run of whitespace ends.
pub proof fn lemma_skip_ws(s: Seq<char>, p: int, f: spec_fn(int) -> Parsed)
    requires
        0 <= p,
        forall|q: int| 0 <= q < s.len() && is_ws(s[q]) ==> #[trigger] f(q) == f(q + 1),
    ensures
        f(p) == f(ws_end(s, p)),
    decreases s.len() - p,
{
    if 0 <= p < s.len() && is_ws(s[p]) {
        lemma_skip_ws(s, p + 1, f);
    }
}

/// `key_index` is the last position that holds the key, or -1 where none does.
pub proof fn lemma_key_index(e: Seq<(Seq<char>, Json)>, k: Seq<char>)
    ensures
        -1 <= key_index(e, k) < e.len(),
        key_index(e, k) >= 0 ==> e[key_index(e, k)].0 == k,
        forall|j: int| key_index(e, k) < j < e.len() ==> #[trigger] e[j].0 != k,
    decreases e.len(),
{
    if e.len() > 0 && e.last().0 != k {
        let d = e.drop_last();
        lemma_key_index(d, k);
        assert forall|j: int| key_index(e, k) < j < e.len() implies #[trigger] e[j].0 != k by {
            if j < e.len() - 1 {
                assert(e[j] == d[j]);
            }
        }
    }
}

} // verus!
