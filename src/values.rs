use vstd::prelude::*;

use crate::grammar::{key_index, lemma_key_index};

verus! {

/// A JSON value as produced by the parser.
///
/// A `Float` carries the text of its numeral, validated against the numeral
/// grammar; an `Object` carries its entries in insertion order, each key once.
#[derive(Debug)]
pub enum Value {
    Str(String),
    Number(i64),
    Float(String),
    Bool(bool),
    Array(Vec<Value>),
    Object(Vec<(String, Value)>),
    Null,
}

/// The mathematical model of a [`Value`].
pub enum Json {
    Str(Seq<char>),
    Number(int),
    Float(Seq<char>),
    Bool(bool),
    Array(Seq<Json>),
    Object(Seq<(Seq<char>, Json)>),
    Null,
}

pub open spec fn value_model(v: Value) -> Json
    decreases v,
{
    match v {
        Value::Str(s) => Json::Str(s@),
        Value::Number(n) => Json::Number(n as int),
        Value::Float(t) => Json::Float(t@),
        Value::Bool(b) => Json::Bool(b),
        Value::Array(a) => Json::Array(elems_model(a@)),
        Value::Object(o) => Json::Object(entries_model(o@)),
        Value::Null => Json::Null,
    }
}

pub open spec fn elems_model(s: Seq<Value>) -> Seq<Json>
    decreases s,
{
    if s.len() == 0 {
        Seq::empty()
    } else {
        elems_model(s.drop_last()).push(value_model(s.last()))
    }
}

pub open spec fn entries_model(s: Seq<(String, Value)>) -> Seq<(Seq<char>, Json)>
    decreases s,
{
    if s.len() == 0 {
        Seq::empty()
    } else {
        entries_model(s.drop_last()).push((s.last().0@, value_model(s.last().1)))
    }
}

pub proof fn lemma_elems_model(s: Seq<Value>)
    ensures
        elems_model(s).len() == s.len(),
        forall|i: int| 0 <= i < s.len() ==> #[trigger] elems_model(s)[i] == s[i]@,
    decreases s.len(),
{
    if s.len() > 0 {
        lemma_elems_model(s.drop_last());
    }
}

pub proof fn lemma_entries_model(s: Seq<(String, Value)>)
    ensures
        entries_model(s).len() == s.len(),
        forall|i: int|
            0 <= i < s.len() ==> #[trigger] entries_model(s)[i] == (s[i].0@, s[i].1@),
    decreases s.len(),
{
    if s.len() > 0 {
        lemma_entries_model(s.drop_last());
    }
}

impl View for Value {
    type V = Json;

    open spec fn view(&self) -> Json {
        value_model(*self)
    }
}

/// Deep equality: arrays element by element; objects as mappings from
/// key to value, whatever the order of their entries (their keys being
/// unique); `Number` and `Float` are never equal.
pub open spec fn same_json(a: Json, b: Json) -> bool
    decreases a, 1int,
{
    match a {
        Json::Array(x) => match b {
            Json::Array(y) => same_elems(x, y),
            _ => false,
        },
        Json::Object(x) => match b {
            Json::Object(y) => x.len() == y.len() && covers(x, y),
            _ => false,
        },
        _ => a == b,
    }
}

/// Same length, and equal element by element.
pub open spec fn same_elems(x: Seq<Json>, y: Seq<Json>) -> bool
    decreases x, 0int,
{
    if x.len() == 0 {
        y.len() == 0
    } else {
        &&& y.len() == x.len()
        &&& same_elems(x.drop_last(), y.drop_last())
        &&& same_json(x.last(), y.last())
    }
}

/// Each key of `x` is a key of `y`, under an equal value.
pub open spec fn covers(x: Seq<(Seq<char>, Json)>, y: Seq<(Seq<char>, Json)>) -> bool
    decreases x, 0int,
{
    if x.len() == 0 {
        true
    } else {
        let i = key_index(y, x.last().0);
        &&& covers(x.drop_last(), y)
        &&& i >= 0
        &&& same_json(x.last().1, y[i].1)
    }
}

proof fn lemma_same_elems(x: Seq<Json>, y: Seq<Json>)
    ensures
        same_elems(x, y) <==> (x.len() == y.len() && forall|i: int|
            0 <= i < x.len() ==> #[trigger] same_json(x[i], y[i])),
    decreases x.len(),
{
    if x.len() > 0 && y.len() == x.len() {
        let (dx, dy) = (x.drop_last(), y.drop_last());
        lemma_same_elems(dx, dy);
        if same_elems(x, y) {
            assert forall|i: int| 0 <= i < x.len() implies #[trigger] same_json(x[i], y[i]) by {
                if i < x.len() - 1 {
                    assert(x[i] == dx[i] && y[i] == dy[i]);
                }
            }
        }
        if forall|i: int| 0 <= i < x.len() ==> #[trigger] same_json(x[i], y[i]) {
            assert forall|i: int| 0 <= i < dx.len() implies #[trigger] same_json(dx[i], dy[i]) by {
                assert(x[i] == dx[i] && y[i] == dy[i]);
                assert(same_json(x[i], y[i]));
            }
            assert(same_json(x[x.len() - 1], y[x.len() - 1]));
        }
    }
}

proof fn lemma_covers(x: Seq<(Seq<char>, Json)>, y: Seq<(Seq<char>, Json)>)
    ensures
        covers(x, y) <==> forall|i: int|
            0 <= i < x.len() ==> key_index(y, #[trigger] x[i].0) >= 0 && same_json(
                x[i].1,
                y[key_index(y, x[i].0)].1,
            ),
    decreases x.len(),
{
    if x.len() > 0 {
        let dx = x.drop_last();
        lemma_covers(dx, y);
        if covers(x, y) {
            assert forall|i: int| 0 <= i < x.len() implies key_index(y, #[trigger] x[i].0) >= 0
                && same_json(x[i].1, y[key_index(y, x[i].0)].1) by {
                if i < x.len() - 1 {
                    assert(x[i] == dx[i]);
                }
            }
        }
        if forall|i: int|
            0 <= i < x.len() ==> key_index(y, #[trigger] x[i].0) >= 0 && same_json(
                x[i].1,
                y[key_index(y, x[i].0)].1,
            ) {
            assert forall|i: int| 0 <= i < dx.len() implies key_index(y, #[trigger] dx[i].0) >= 0
                && same_json(dx[i].1, y[key_index(y, dx[i].0)].1) by {
                assert(x[i] == dx[i]);
                assert(key_index(y, x[i].0) >= 0);
            }
            assert(key_index(y, x[x.len() - 1].0) >= 0);
        }
    }
}

/// The position of the last entry of `o` with key `k`, or `None`.
fn find_key(o: &Vec<(String, Value)>, k: &String) -> (r: Option<usize>)
    ensures
        ({
            let e = entries_model(o@);
            match r {
                Some(j) => j < o.len() && key_index(e, k@) == j,
                None => key_index(e, k@) == -1,
            }
        }),
{
    let ghost e = entries_model(o@);
    proof {
        lemma_entries_model(o@);
        lemma_key_index(e, k@);
    }
    let mut j = o.len();
    while j > 0
        invariant
            j <= o.len(),
            e == entries_model(o@),
            e.len() == o@.len(),
            forall|x: int| 0 <= x < o@.len() ==> #[trigger] e[x] == (o@[x].0@, o@[x].1@),
            forall|x: int| j <= x < o@.len() ==> #[trigger] e[x].0 != k@,
            -1 <= key_index(e, k@) < e.len(),
            key_index(e, k@) >= 0 ==> e[key_index(e, k@)].0 == k@,
            forall|x: int| key_index(e, k@) < x < e.len() ==> #[trigger] e[x].0 != k@,
        decreases j,
    {
        if o[j - 1].0 == *k {
            assert(e[j - 1].0 == k@);
            return Some(j - 1);
        }
        j = j - 1;
    }
    None
}

/// Deep equality of two values.
pub fn values_equal(a: &Value, b: &Value) -> (r: bool)
    ensures
        r == same_json(a@, b@),
    decreases a,
{
    match (a, b) {
        (Value::Array(x), Value::Array(y)) => {
            let ghost ex = elems_model(x@);
            let ghost ey = elems_model(y@);
            proof {
                lemma_elems_model(x@);
                lemma_elems_model(y@);
                lemma_same_elems(ex, ey);
            }
            assert(a@ == Json::Array(ex));
            assert(b@ == Json::Array(ey));
            if x.len() != y.len() {
                return false;
            }
            let mut i: usize = 0;
            while i < x.len()
                invariant
                    *a == Value::Array(*x),
                    a@ == Json::Array(ex),
                    b@ == Json::Array(ey),
                    x.len() == y.len(),
                    i <= x.len(),
                    ex == elems_model(x@),
                    ey == elems_model(y@),
                    ex.len() == x@.len(),
                    ey.len() == y@.len(),
                    forall|k: int| 0 <= k < x@.len() ==> #[trigger] ex[k] == x@[k]@,
                    forall|k: int| 0 <= k < y@.len() ==> #[trigger] ey[k] == y@[k]@,
                    forall|k: int| 0 <= k < i ==> #[trigger] same_json(ex[k], ey[k]),
                decreases x.len() - i,
            {
                proof {
                    vstd::std_specs::vec::axiom_vec_index_decreases(*x, i as int);
                    assert(decreases_to!(*a => (*a)->Array_0));
                }
                if !values_equal(&x[i], &y[i]) {
                    assert(!same_json(ex[i as int], ey[i as int]));
                    proof {
                        lemma_same_elems(ex, ey);
                    }
                    return false;
                }
                i = i + 1;
            }
            true
        },
        (Value::Object(x), Value::Object(y)) => {
            let ghost ex = entries_model(x@);
            let ghost ey = entries_model(y@);
            proof {
                lemma_entries_model(x@);
                lemma_entries_model(y@);
                lemma_covers(ex, ey);
            }
            assert(a@ == Json::Object(ex));
            assert(b@ == Json::Object(ey));
            if x.len() != y.len() {
                return false;
            }
            let mut i: usize = 0;
            while i < x.len()
                invariant
                    *a == Value::Object(*x),
                    a@ == Json::Object(ex),
                    b@ == Json::Object(ey),
                    x.len() == y.len(),
                    i <= x.len(),
                    ex == entries_model(x@),
                    ey == entries_model(y@),
                    ex.len() == x@.len(),
                    ey.len() == y@.len(),
                    forall|k: int| 0 <= k < x@.len() ==> #[trigger] ex[k] == (x@[k].0@, x@[k].1@),
                    forall|k: int| 0 <= k < y@.len() ==> #[trigger] ey[k] == (y@[k].0@, y@[k].1@),
                    forall|k: int|
                        0 <= k < i ==> key_index(ey, #[trigger] ex[k].0) >= 0 && same_json(
                            ex[k].1,
                            ey[key_index(ey, ex[k].0)].1,
                        ),
                decreases x.len() - i,
            {
                proof {
                    vstd::std_specs::vec::axiom_vec_index_decreases(*x, i as int);
                    assert(decreases_to!(*a => (*a)->Object_0));
                    assert(decreases_to!(x[i as int] => x[i as int].1));
                }
                assert(ex[i as int] == (x@[i as int].0@, x@[i as int].1@));
                match find_key(y, &x[i].0) {
                    None => {
                        assert(key_index(ey, ex[i as int].0) == -1);
                        proof {
                            lemma_covers(ex, ey);
                        }
                        return false;
                    },
                    Some(j) => {
                        assert(ey[j as int] == (y@[j as int].0@, y@[j as int].1@));
                        if !values_equal(&x[i].1, &y[j].1) {
                            assert(key_index(ey, ex[i as int].0) == j);
                            assert(!same_json(ex[i as int].1, ey[j as int].1));
                            proof {
                                lemma_covers(ex, ey);
                            }
                            return false;
                        }
                    },
                }
                i = i + 1;
            }
            true
        },
        (Value::Str(x), Value::Str(y)) => *x == *y,
        (Value::Float(x), Value::Float(y)) => *x == *y,
        (Value::Number(x), Value::Number(y)) => *x == *y,
        (Value::Bool(x), Value::Bool(y)) => *x == *y,
        (Value::Null, Value::Null) => true,
        _ => false,
    }
}

impl PartialEq for Value {
    fn eq(&self, other: &Value) -> (r: bool) {
        values_equal(self, other)
    }
}

impl vstd::std_specs::cmp::PartialEqSpecImpl for Value {
    open spec fn obeys_eq_spec() -> bool {
        true
    }

    open spec fn eq_spec(&self, other: &Value) -> bool {
        same_json(self@, other@)
    }
}

} // verus!
