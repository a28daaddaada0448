use vstd::prelude::*;

use crate::grammar::{
    alpha_end, array_delim, array_elem, array_next, array_open, float_text_ok, has_float_marker,
    has_leading_zero, insert_entry, int_text_ok, int_text_value, is_alpha, is_digit, is_num_char,
    key_index, lemma_key_index, num_end, object_colon, object_delim, object_key, object_member,
    object_open, parse_value, unsigned_part, Failure, Parsed,
};
use crate::values::Json;

verus! {

proof fn lemma_alpha_end(s: Seq<char>, i: int, e: int)
    requires
        0 <= i <= e <= s.len(),
        forall|k: int| i <= k < e ==> is_alpha(#[trigger] s[k]),
        e == s.len() || !is_alpha(s[e]),
    ensures
        alpha_end(s, i) == e,
    decreases e - i,
{
    if i < e {
        lemma_alpha_end(s, i + 1, e);
    }
}

proof fn lemma_num_end(s: Seq<char>, i: int, e: int)
    requires
        0 <= i <= e <= s.len(),
        forall|k: int| i <= k < e ==> is_num_char(#[trigger] s[k]),
        e == s.len() || !is_num_char(s[e]),
    ensures
        num_end(s, i) == e,
    decreases e - i,
{
    if i < e {
        lemma_num_end(s, i + 1, e);
    }
}

/// Where the text at `p` is one of the keywords `true`, `false` and `null`,
/// and no letter follows it, parsing yields the keyword's value and consumes
/// exactly its characters.
pub proof fn law_keyword(s: Seq<char>, p: int, w: Seq<char>, v: Json)
    requires
        0 <= p,
        p + w.len() <= s.len(),
        s.subrange(p, p + w.len()) == w,
        (w == seq!['t', 'r', 'u', 'e'] && v == Json::Bool(true)) || (w == seq![
            'f',
            'a',
            'l',
            's',
            'e',
        ] && v == Json::Bool(false)) || (w == seq!['n', 'u', 'l', 'l'] && v == Json::Null),
        p + w.len() == s.len() || !is_alpha(s[p + w.len()]),
    ensures
        parse_value(s, p) == Ok::<(Json, int), (Failure, int)>((v, p + w.len())),
{
    let e = p + w.len();
    assert forall|k: int| p + 1 <= k < e implies is_alpha(#[trigger] s[k]) by {
        assert(s[k] == w[k - p]);
    }
    lemma_alpha_end(s, p + 1, e);
    assert(s[p] == w[0]);
}

/// An integer numeral: a `-` or not, then digits with no leading zero,
/// worth a value that fits in 64 bits.
pub open spec fn integer_literal(t: Seq<char>) -> bool {
    let b = unsigned_part(t);
    &&& b.len() > 0
    &&& forall|i: int| 0 <= i < b.len() ==> is_digit(#[trigger] b[i])
    &&& (b.len() == 1 || b[0] != '0')
    &&& i64::MIN <= int_text_value(t) <= i64::MAX
}

/// A numeral with a fraction or an exponent: digits, `.`, `e` and `E`
/// after a first `-` or digit, well formed, with no leading zero.
pub open spec fn fraction_literal(t: Seq<char>) -> bool {
    &&& t.len() > 0
    &&& (t[0] == '-' || is_digit(t[0]))
    &&& forall|i: int| 1 <= i < t.len() ==> is_num_char(#[trigger] t[i])
    &&& has_float_marker(t)
    &&& float_text_ok(t)
    &&& !has_leading_zero(t)
}

/// An integer numeral, followed by no digit, `.`, `e` or `E`, parses to the
/// `Number` that holds its exact decimal value, consuming exactly its
/// characters.
pub proof fn law_integer_literal(s: Seq<char>, p: int, t: Seq<char>)
    requires
        0 <= p,
        p + t.len() <= s.len(),
        s.subrange(p, p + t.len()) == t,
        integer_literal(t),
        p + t.len() == s.len() || !is_num_char(s[p + t.len()]),
    ensures
        parse_value(s, p) == Ok::<(Json, int), (Failure, int)>(
            (Json::Number(int_text_value(t)), p + t.len()),
        ),
{
    let e = p + t.len();
    let b = unsigned_part(t);
    let off: int = if t[0] == '-' {
        1
    } else {
        0
    };
    assert forall|k: int| 0 <= k < t.len() implies (k == 0 && t[0] == '-') || is_digit(
        #[trigger] t[k],
    ) by {
        if !(k == 0 && t[0] == '-') {
            assert(t[k] == b[k - off]);
        }
    }
    assert forall|k: int| p + 1 <= k < e implies is_num_char(#[trigger] s[k]) by {
        assert(s[k] == t[k - p]);
    }
    lemma_num_end(s, p + 1, e);
    assert(s[p] == t[0]);
    assert(!has_float_marker(t)) by {
        if has_float_marker(t) {
            let i = choose|i: int| 0 <= i < t.len() && (t[i] == '.' || t[i] == 'e' || t[i] == 'E');
            assert((i == 0 && t[0] == '-') || is_digit(t[i]));
        }
    }
    assert(int_text_ok(t));
}

/// A numeral with a fraction or an exponent, followed by no digit, `.`, `e`
/// or `E`, parses to the `Float` that holds its text, consuming exactly its
/// characters.
pub proof fn law_fraction_literal(s: Seq<char>, p: int, t: Seq<char>)
    requires
        0 <= p,
        p + t.len() <= s.len(),
        s.subrange(p, p + t.len()) == t,
        fraction_literal(t),
        p + t.len() == s.len() || !is_num_char(s[p + t.len()]),
    ensures
        parse_value(s, p) == Ok::<(Json, int), (Failure, int)>(
            (Json::Float(t), p + t.len()),
        ),
{
    let e = p + t.len();
    assert forall|k: int| p + 1 <= k < e implies is_num_char(#[trigger] s[k]) by {
        assert(s[k] == t[k - p]);
    }
    lemma_num_end(s, p + 1, e);
    assert(s[p] == t[0]);
}

/// No key occurs twice among the entries.
pub open spec fn keys_distinct(e: Seq<(Seq<char>, Json)>) -> bool {
    forall|i: int, j: int| 0 <= i < j < e.len() ==> #[trigger] e[i].0 != #[trigger] e[j].0
}

/// Every object inside the value, the value itself included, holds each
/// key once.
pub open spec fn well_keyed(j: Json) -> bool
    decreases j, 1int,
{
    match j {
        Json::Array(x) => all_well_keyed(x),
        Json::Object(e) => keys_distinct(e) && values_well_keyed(e),
        _ => true,
    }
}

pub open spec fn all_well_keyed(x: Seq<Json>) -> bool
    decreases x, 0int,
{
    x.len() == 0 || (all_well_keyed(x.drop_last()) && well_keyed(x.last()))
}

pub open spec fn values_well_keyed(e: Seq<(Seq<char>, Json)>) -> bool
    decreases e, 0int,
{
    e.len() == 0 || (values_well_keyed(e.drop_last()) && well_keyed(e.last().1))
}

proof fn lemma_values_well_keyed(e: Seq<(Seq<char>, Json)>)
    ensures
        values_well_keyed(e) <==> forall|i: int| 0 <= i < e.len() ==> well_keyed(#[trigger] e[i].1),
    decreases e.len(),
{
    if e.len() > 0 {
        let d = e.drop_last();
        lemma_values_well_keyed(d);
        if values_well_keyed(e) {
            assert forall|i: int| 0 <= i < e.len() implies well_keyed(#[trigger] e[i].1) by {
                if i < e.len() - 1 {
                    assert(e[i] == d[i]);
                    assert(well_keyed(d[i].1));
                }
            }
        }
        if forall|i: int| 0 <= i < e.len() ==> well_keyed(#[trigger] e[i].1) {
            assert(well_keyed(e[e.len() - 1].1));
            assert forall|i: int| 0 <= i < d.len() implies well_keyed(#[trigger] d[i].1) by {
                assert(e[i] == d[i]);
                assert(well_keyed(e[i].1));
            }
        }
    }
}

proof fn lemma_insert_well_keyed(e: Seq<(Seq<char>, Json)>, k: Seq<char>, v: Json)
    requires
        keys_distinct(e),
        values_well_keyed(e),
        well_keyed(v),
    ensures
        keys_distinct(insert_entry(e, k, v)),
        values_well_keyed(insert_entry(e, k, v)),
{
    lemma_key_index(e, k);
    lemma_values_well_keyed(e);
    let n = insert_entry(e, k, v);
    let ki = key_index(e, k);
    assert forall|i: int, j: int| 0 <= i < j < n.len() implies #[trigger] n[i].0
        != #[trigger] n[j].0 by {
        if ki < 0 {
            if j == e.len() {
                assert(n[i] == e[i]);
            } else {
                assert(n[i] == e[i] && n[j] == e[j]);
            }
        } else {
            if i == ki {
                assert(n[j] == e[j]);
            } else if j == ki {
                assert(n[i] == e[i]);
            } else {
                assert(n[i] == e[i] && n[j] == e[j]);
            }
        }
    }
    assert forall|i: int| 0 <= i < n.len() implies well_keyed(#[trigger] n[i].1) by {
        if !(i == ki || (ki < 0 && i == e.len())) {
            assert(n[i] == e[i]);
        }
    }
    lemma_values_well_keyed(n);
}

/// Whatever the parser yields holds each key once in every object: a
/// repeated key replaces the value held under it.
pub proof fn law_parsed_keys_distinct(s: Seq<char>, p: int)
    ensures
        parse_value(s, p) matches Ok((v, _)) ==> well_keyed(v),
    decreases s.len() - p, 1int,
{
    if 0 <= p < s.len() {
        let c = s[p];
        if crate::grammar::is_ws(c) {
            law_parsed_keys_distinct(s, p + 1);
        } else if c == '[' {
            lemma_array_open(s, p + 1);
        } else if c == '{' {
            lemma_object_open(s, p + 1);
        }
    }
}

pub open spec fn yields_well_keyed(r: Parsed) -> bool {
    r matches Ok((v, _)) ==> well_keyed(v)
}

proof fn lemma_array_open(s: Seq<char>, p: int)
    ensures
        yields_well_keyed(array_open(s, p)),
    decreases s.len() - p, 3int,
{
    if 0 <= p < s.len() {
        if crate::grammar::is_ws(s[p]) {
            lemma_array_open(s, p + 1);
        } else if s[p] != ']' {
            lemma_array_elem(s, p, Seq::empty());
        }
    }
}

proof fn lemma_array_elem(s: Seq<char>, p: int, acc: Seq<Json>)
    requires
        all_well_keyed(acc),
    ensures
        yields_well_keyed(array_elem(s, p, acc)),
    decreases s.len() - p, 2int,
{
    if 0 <= p < s.len() {
        law_parsed_keys_distinct(s, p);
        if let Ok((v, q)) = parse_value(s, p) {
            if p < q <= s.len() {
                assert(acc.push(v).drop_last() =~= acc);
                lemma_array_delim(s, q, acc.push(v));
            }
        }
    }
}

proof fn lemma_array_delim(s: Seq<char>, p: int, acc: Seq<Json>)
    requires
        all_well_keyed(acc),
    ensures
        yields_well_keyed(array_delim(s, p, acc)),
    decreases s.len() - p, 0int,
{
    if 0 <= p < s.len() {
        if crate::grammar::is_ws(s[p]) {
            lemma_array_delim(s, p + 1, acc);
        } else if s[p] == ',' {
            lemma_array_next(s, p + 1, acc);
        }
    }
}

proof fn lemma_array_next(s: Seq<char>, p: int, acc: Seq<Json>)
    requires
        all_well_keyed(acc),
    ensures
        yields_well_keyed(array_next(s, p, acc)),
    decreases s.len() - p, 3int,
{
    if 0 <= p < s.len() {
        if crate::grammar::is_ws(s[p]) {
            lemma_array_next(s, p + 1, acc);
        } else if s[p] != ']' {
            lemma_array_elem(s, p, acc);
        }
    }
}

proof fn lemma_object_open(s: Seq<char>, p: int)
    ensures
        yields_well_keyed(object_open(s, p)),
    decreases s.len() - p, 3int,
{
    if 0 <= p < s.len() {
        if crate::grammar::is_ws(s[p]) {
            lemma_object_open(s, p + 1);
        } else if s[p] != '}' {
            lemma_object_key(s, p, Seq::empty());
        }
    }
}

proof fn lemma_object_key(s: Seq<char>, p: int, acc: Seq<(Seq<char>, Json)>)
    requires
        keys_distinct(acc),
        values_well_keyed(acc),
    ensures
        yields_well_keyed(object_key(s, p, acc)),
    decreases s.len() - p, 2int,
{
    if 0 <= p < s.len() {
        if crate::grammar::is_ws(s[p]) {
            lemma_object_key(s, p + 1, acc);
        } else if s[p] == '"' {
            if let Ok((k, q)) = crate::grammar::parse_string(s, p) {
                if p < q <= s.len() {
                    lemma_object_colon(s, q, k, acc);
                }
            }
        }
    }
}

proof fn lemma_object_colon(s: Seq<char>, p: int, k: Seq<char>, acc: Seq<(Seq<char>, Json)>)
    requires
        keys_distinct(acc),
        values_well_keyed(acc),
    ensures
        yields_well_keyed(object_colon(s, p, k, acc)),
    decreases s.len() - p, 0int,
{
    if 0 <= p < s.len() {
        if crate::grammar::is_ws(s[p]) {
            lemma_object_colon(s, p + 1, k, acc);
        } else if s[p] == ':' {
            lemma_object_member(s, p + 1, k, acc);
        }
    }
}

proof fn lemma_object_member(s: Seq<char>, p: int, k: Seq<char>, acc: Seq<(Seq<char>, Json)>)
    requires
        keys_distinct(acc),
        values_well_keyed(acc),
    ensures
        yields_well_keyed(object_member(s, p, k, acc)),
    decreases s.len() - p, 2int,
{
    law_parsed_keys_distinct(s, p);
    if let Ok((v, q)) = parse_value(s, p) {
        if p < q <= s.len() {
            lemma_object_delim(s, q, k, v, acc);
        }
    }
}

proof fn lemma_object_delim(
    s: Seq<char>,
    p: int,
    k: Seq<char>,
    v: Json,
    acc: Seq<(Seq<char>, Json)>,
)
    requires
        keys_distinct(acc),
        values_well_keyed(acc),
        well_keyed(v),
    ensures
        yields_well_keyed(object_delim(s, p, k, v, acc)),
    decreases s.len() - p, 0int,
{
    if 0 <= p < s.len() {
        if crate::grammar::is_ws(s[p]) {
            lemma_object_delim(s, p + 1, k, v, acc);
        } else if s[p] == '}' || s[p] == ',' {
            lemma_insert_well_keyed(acc, k, v);
            if s[p] == ',' {
                lemma_object_key(s, p + 1, insert_entry(acc, k, v));
            }
        }
    }
}

} // verus!
