use vstd::prelude::*;

use crate::text::{push_char, push_int, push_str};
use crate::values::{elems_model, entries_model, lemma_elems_model, lemma_entries_model, Json, Value};

verus! {

pub open spec fn digit_char(d: nat) -> char {
    ((d % 10) + '0' as nat) as char
}

/// The decimal digits of a natural number.
pub open spec fn nat_text(n: nat) -> Seq<char>
    decreases n,
{
    if n < 10 {
        seq![digit_char(n)]
    } else {
        nat_text(n / 10).push(digit_char(n % 10))
    }
}

/// The decimal text of an integer.
pub open spec fn int_text(n: int) -> Seq<char> {
    if n < 0 {
        seq!['-'] + nat_text((-n) as nat)
    } else {
        nat_text(n as nat)
    }
}

pub open spec fn quoted(s: Seq<char>) -> Seq<char> {
    seq!['"'] + s + seq!['"']
}

/// The canonical text of a value: strings are quoted without re-escaping,
/// array elements and object members are separated by `, `, brackets and
/// braces are padded by one space, and empty containers are `[]` and `{}`.
pub open spec fn render(j: Json) -> Seq<char>
    decreases j,
{
    match j {
        Json::Null => seq!['n', 'u', 'l', 'l'],
        Json::Bool(b) => if b {
            seq!['t', 'r', 'u', 'e']
        } else {
            seq!['f', 'a', 'l', 's', 'e']
        },
        Json::Number(n) => int_text(n),
        Json::Float(t) => t,
        Json::Str(s) => quoted(s),
        Json::Array(a) => if a.len() == 0 {
            seq!['[', ']']
        } else {
            seq!['[', ' '] + render_elems(a) + seq![' ', ']']
        },
        Json::Object(o) => if o.len() == 0 {
            seq!['{', '}']
        } else {
            seq!['{', ' '] + render_entries(o) + seq![' ', '}']
        },
    }
}

/// The elements, rendered and joined by `, `.
pub open spec fn render_elems(a: Seq<Json>) -> Seq<char>
    decreases a,
{
    if a.len() == 0 {
        Seq::empty()
    } else if a.len() == 1 {
        render(a[0])
    } else {
        render_elems(a.drop_last()) + seq![',', ' '] + render(a.last())
    }
}

/// The members, each `"key" : value`, joined by `, `.
pub open spec fn render_entries(o: Seq<(Seq<char>, Json)>) -> Seq<char>
    decreases o,
{
    if o.len() == 0 {
        Seq::empty()
    } else if o.len() == 1 {
        quoted(o[0].0) + seq![' ', ':', ' '] + render(o[0].1)
    } else {
        render_entries(o.drop_last()) + seq![',', ' '] + quoted(o.last().0) + seq![' ', ':', ' ']
            + render(o.last().1)
    }
}

/// Appends `s` between double quotes, with nothing re-escaped.
pub(crate) fn push_quoted(r: &mut String, s: &String)
    ensures
        final(r)@ == old(r)@ + quoted(s@),
{
    push_char(r, '"');
    push_str(r, s.as_str());
    push_char(r, '"');
    assert(final(r)@ =~= old(r)@ + quoted(s@));
}

/// Renders a value in its canonical text form.
pub fn traverse_json(v: &Value) -> (r: String)
    ensures
        r@ == render(v@),
    decreases v,
{
    let mut r = String::new();
    match v {
        Value::Null => {
            push_str(&mut r, "null");
            proof {
                reveal_strlit("null");
            }
        },
        Value::Bool(b) => {
            if *b {
                push_str(&mut r, "true");
                proof {
                    reveal_strlit("true");
                }
            } else {
                push_str(&mut r, "false");
                proof {
                    reveal_strlit("false");
                }
            }
        },
        Value::Number(n) => {
            push_int(&mut r, *n);
        },
        Value::Float(t) => {
            push_str(&mut r, t.as_str());
        },
        Value::Str(s) => {
            push_quoted(&mut r, s);
        },
        Value::Array(a) => {
            let ghost m = elems_model(a@);
            proof {
                lemma_elems_model(a@);
            }
            if a.len() == 0 {
                push_char(&mut r, '[');
                push_char(&mut r, ']');
            } else {
                push_char(&mut r, '[');
                push_char(&mut r, ' ');
                let mut i: usize = 0;
                while i < a.len()
                    invariant
                        *v == Value::Array(*a),
                        m == elems_model(a@),
                        m.len() == a@.len(),
                        forall|j: int| 0 <= j < a@.len() ==> #[trigger] m[j] == a@[j]@,
                        0 <= i <= a.len(),
                        r@ == seq!['[', ' '] + render_elems(m.subrange(0, i as int)),
                    decreases a.len() - i,
                {
                    if i > 0 {
                        push_char(&mut r, ',');
                        push_char(&mut r, ' ');
                    }
                    proof {
                        vstd::std_specs::vec::axiom_vec_index_decreases(*a, i as int);
                        assert(decreases_to!(*v => (*v)->Array_0));
                        assert(decreases_to!(*a => a[i as int]));
                    }
                    let e = traverse_json(&a[i]);
                    push_str(&mut r, e.as_str());
                    proof {
                        let sub = m.subrange(0, i + 1);
                        assert(sub.drop_last() =~= m.subrange(0, i as int));
                        assert(sub.last() == a@[i as int]@);
                        if i == 0 {
                            assert(render_elems(m.subrange(0, 0)) =~= Seq::<char>::empty());
                        }
                    }
                    i = i + 1;
                    assert(r@ =~= seq!['[', ' '] + render_elems(m.subrange(0, i as int)));
                }
                push_char(&mut r, ' ');
                push_char(&mut r, ']');
                assert(m.subrange(0, a.len() as int) =~= m);
            }
            assert(r@ =~= render(v@));
        },
        Value::Object(o) => {
            let ghost m = entries_model(o@);
            proof {
                lemma_entries_model(o@);
            }
            if o.len() == 0 {
                push_char(&mut r, '{');
                push_char(&mut r, '}');
            } else {
                push_char(&mut r, '{');
                push_char(&mut r, ' ');
                let mut i: usize = 0;
                while i < o.len()
                    invariant
                        *v == Value::Object(*o),
                        m == entries_model(o@),
                        m.len() == o@.len(),
                        forall|j: int|
                            0 <= j < o@.len() ==> #[trigger] m[j] == (o@[j].0@, o@[j].1@),
                        0 <= i <= o.len(),
                        r@ == seq!['{', ' '] + render_entries(m.subrange(0, i as int)),
                    decreases o.len() - i,
                {
                    if i > 0 {
                        push_char(&mut r, ',');
                        push_char(&mut r, ' ');
                    }
                    push_quoted(&mut r, &o[i].0);
                    push_char(&mut r, ' ');
                    push_char(&mut r, ':');
                    push_char(&mut r, ' ');
                    proof {
                        vstd::std_specs::vec::axiom_vec_index_decreases(*o, i as int);
                        assert(decreases_to!(*v => (*v)->Object_0));
                        assert(decreases_to!(*o => o[i as int]));
                        assert(decreases_to!(o[i as int] => o[i as int].1));
                    }
                    let e = traverse_json(&o[i].1);
                    push_str(&mut r, e.as_str());
                    proof {
                        let sub = m.subrange(0, i + 1);
                        assert(sub.drop_last() =~= m.subrange(0, i as int));
                        assert(sub.last() == (o@[i as int].0@, o@[i as int].1@));
                        if i == 0 {
                            assert(render_entries(m.subrange(0, 0)) =~= Seq::<char>::empty());
                        }
                    }
                    i = i + 1;
                    assert(r@ =~= seq!['{', ' '] + render_entries(m.subrange(0, i as int)));
                }
                push_char(&mut r, ' ');
                push_char(&mut r, '}');
                assert(m.subrange(0, o.len() as int) =~= m);
            }
            assert(r@ =~= render(v@));
        },
    }
    r
}

} // verus!
