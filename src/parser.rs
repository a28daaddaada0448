use vstd::prelude::*;

use crate::grammar::{
    alpha_end, array_delim, array_elem, array_next, array_open, escape, escape_end, hex_end,
    hex_val, hex_value, insert_entry, is_alpha, is_hex, is_num_char, is_scalar_code, is_ws,
    key_index, lemma_key_index, lemma_skip_ws, num_end, object_colon, object_delim, object_key,
    object_member, object_open, parse_keyword, parse_number, parse_string, parse_value,
    string_body, ws_end, Failure, Parsed,
};
use crate::numeral::numeral_value;
use crate::render::{push_quoted, render, traverse_json};
use crate::text::{push_char, push_str};
use crate::values::{elems_model, entries_model, lemma_entries_model, Value};

verus! {

/// A cursor over the characters of a JSON text, with one character of
/// lookahead. The cursor only moves forward.
pub struct Parser {
    chars: Vec<char>,
    pos: usize,
}

/// Why a parse failed.
#[derive(Debug)]
pub enum ParserError {
    /// The input ended while a character was required.
    UnExpectedEOF,
    /// An invalid token, with its text.
    UnExpectedToken(String),
}

impl View for ParserError {
    type V = Failure;

    open spec fn view(&self) -> Failure {
        match self {
            ParserError::UnExpectedEOF => Failure::Eof,
            ParserError::UnExpectedToken(s) => Failure::Token(s@),
        }
    }
}

/// The outcome `r`, with the cursor left at `end`, is the one that the
/// grammar gives.
pub open spec fn agrees(r: Result<Value, ParserError>, end: int, expected: Parsed) -> bool {
    match expected {
        Ok((j, q)) => r matches Ok(v) && v@ == j && end == q,
        Err((f, q)) => r matches Err(e) && e@ == f && end == q,
    }
}

impl Parser {
    /// The characters of the input.
    pub closed spec fn text(&self) -> Seq<char> {
        self.chars@
    }

    /// The position of the next character to be consumed.
    pub closed spec fn cursor(&self) -> int {
        self.pos as int
    }

    pub closed spec fn wf(&self) -> bool {
        self.pos <= self.chars.len()
    }

    /// The cursor of a well-formed parser lies within its input.
    pub proof fn lemma_cursor_in_range(&self)
        requires
            self.wf(),
        ensures
            0 <= self.cursor() <= self.text().len(),
    {
    }

    /// A parser over the characters of `json`, with the cursor at the start.
    pub fn new(json: &str) -> (p: Parser)
        ensures
            p.wf(),
            p.text() == json@,
            p.cursor() == 0,
    {
        let mut chars: Vec<char> = Vec::new();
        for c in it: json.chars()
            invariant
                chars@ == it.seq().take(it.index() as int),
        {
            chars.push(c);
        }
        Parser { chars, pos: 0 }
    }

    /// The next character, not consumed.
    pub fn peek(&self) -> (r: Result<&char, ParserError>)
        requires
            self.wf(),
        ensures
            self.cursor() < self.text().len() ==> (r matches Ok(c) && *c
                == self.text()[self.cursor()]),
            self.cursor() >= self.text().len() ==> r matches Err(ParserError::UnExpectedEOF),
    {
        if self.pos < self.chars.len() {
            Ok(&self.chars[self.pos])
        } else {
            Err(ParserError::UnExpectedEOF)
        }
    }

    /// Consumes and returns the next character.
    pub fn next(&mut self) -> (r: Result<char, ParserError>)
        requires
            old(self).wf(),
        ensures
            final(self).wf(),
            final(self).text() == old(self).text(),
            old(self).cursor() < old(self).text().len() ==> r == Ok::<char, ParserError>(
                old(self).text()[old(self).cursor()],
            ) && final(self).cursor() == old(self).cursor() + 1,
            old(self).cursor() >= old(self).text().len() ==> (r matches Err(
                ParserError::UnExpectedEOF,
            ) && final(self).cursor() == old(self).cursor()),
    {
        if self.pos < self.chars.len() {
            let c = self.chars[self.pos];
            self.pos = self.pos + 1;
            Ok(c)
        } else {
            Err(ParserError::UnExpectedEOF)
        }
    }

    /// Consumes a maximal run of spaces, tabs, line feeds and carriage returns.
    pub fn skip_whitespace(&mut self)
        requires
            old(self).wf(),
        ensures
            final(self).wf(),
            final(self).text() == old(self).text(),
            final(self).cursor() == ws_end(old(self).text(), old(self).cursor()),
            old(self).cursor() <= final(self).cursor(),
            final(self).cursor() < final(self).text().len() ==> !is_ws(
                final(self).text()[final(self).cursor()],
            ),
    {
        while self.pos < self.chars.len() && is_ws_char(self.chars[self.pos])
            invariant
                self.wf(),
                self.text() == old(self).text(),
                ws_end(self.text(), self.cursor()) == ws_end(old(self).text(), old(self).cursor()),
                old(self).cursor() <= self.cursor(),
            decreases self.chars.len() - self.pos,
        {
            self.pos = self.pos + 1;
        }
    }

    /// Parses one value: skips whitespace, then reads the value that the next
    /// character announces. Repeated calls go on from where the cursor stopped.
    pub fn parse(&mut self) -> (r: Result<Value, ParserError>)
        requires
            old(self).wf(),
        ensures
            final(self).wf(),
            final(self).text() == old(self).text(),
            agrees(r, final(self).cursor(), parse_value(old(self).text(), old(self).cursor())),
            old(self).cursor() <= final(self).cursor(),
            r is Ok ==> old(self).cursor() < final(self).cursor(),
        decreases old(self).text().len() - old(self).cursor(), 1int,
    {
        let ghost s = self.chars@;
        let ghost p = self.pos as int;
        self.skip_whitespace();
        proof {
            lemma_skip_ws(s, p, |q: int| parse_value(s, q));
        }
        let c = match self.peek() {
            Ok(c) => *c,
            Err(e) => return Err(e),
        };
        if c == 't' || c == 'f' || c == 'n' {
            self.parse_true_false_null()
        } else if c == '"' {
            match self.parse_str() {
                Ok(t) => Ok(Value::Str(t)),
                Err(e) => Err(e),
            }
        } else if ('0' <= c && c <= '9') || c == '-' {
            self.parse_num()
        } else if c == '[' {
            self.parse_array()
        } else if c == '{' {
            self.parse_obj()
        } else {
            Err(ParserError::UnExpectedEOF)
        }
    }

    /// Reads a number: the first character, then a run of digits, `.`, `e`
    /// and `E`.
    fn parse_num(&mut self) -> (r: Result<Value, ParserError>)
        requires
            old(self).wf(),
            old(self).cursor() < old(self).text().len(),
        ensures
            final(self).wf(),
            final(self).text() == old(self).text(),
            agrees(r, final(self).cursor(), parse_number(old(self).text(), old(self).cursor())),
            old(self).cursor() < final(self).cursor(),
    {
        let start = self.pos;
        self.pos = self.pos + 1;
        while self.pos < self.chars.len() && is_num_char_exec(self.chars[self.pos])
            invariant
                self.wf(),
                self.chars@ == old(self).chars@,
                start < self.pos,
                start == old(self).pos,
                num_end(self.chars@, self.pos as int) == num_end(self.chars@, start as int + 1),
            decreases self.chars.len() - self.pos,
        {
            self.pos = self.pos + 1;
        }
        assert(num_end(self.chars@, self.pos as int) == self.pos as int);
        let mut t: Vec<char> = Vec::new();
        let mut i = start;
        while i < self.pos
            invariant
                self.wf(),
                start <= i <= self.pos,
                t@ == self.chars@.subrange(start as int, i as int),
            decreases self.pos - i,
        {
            t.push(self.chars[i]);
            i = i + 1;
            assert(t@ =~= self.chars@.subrange(start as int, i as int));
        }
        match numeral_value(&t) {
            Some(v) => Ok(v),
            None => {
                let mut text = String::new();
                self.push_span(&mut text, start, self.pos);
                Err(ParserError::UnExpectedToken(text))
            },
        }
    }

    /// Reads an array from the `[` at the cursor. `[]` is the empty array,
    /// and a comma before the closing `]` is allowed.
    #[verifier::rlimit(40)]
    fn parse_array(&mut self) -> (r: Result<Value, ParserError>)
        requires
            old(self).wf(),
            old(self).cursor() < old(self).text().len(),
            old(self).text()[old(self).cursor()] == '[',
        ensures
            final(self).wf(),
            final(self).text() == old(self).text(),
            agrees(r, final(self).cursor(), array_open(old(self).text(), old(self).cursor() + 1)),
            old(self).cursor() < final(self).cursor(),
        decreases old(self).text().len() - old(self).cursor(), 0int,
    {
        let ghost s = self.chars@;
        let ghost p = self.pos as int;
        self.pos = self.pos + 1;
        self.skip_whitespace();
        proof {
            lemma_skip_ws(s, p + 1, |q: int| array_open(s, q));
        }
        let c = match self.peek() {
            Ok(c) => *c,
            Err(e) => return Err(e),
        };
        let mut v: Vec<Value> = Vec::new();
        if c == ']' {
            self.pos = self.pos + 1;
            return Ok(Value::Array(v));
        }
        loop
            invariant
                self.wf(),
                self.chars@ == s,
                s == old(self).chars@,
                p == old(self).pos,
                p < self.pos,
                array_elem(s, self.pos as int, elems_model(v@)) == array_open(s, p + 1),
            decreases self.chars.len() - self.pos,
        {
            let ghost pe = self.pos as int;
            let e = self.parse()?;
            let ghost acc = elems_model(v@);
            let ghost before = v@;
            v.push(e);
            assert(v@.drop_last() =~= before);
            assert(elems_model(v@) == acc.push(e@));
            let ghost q = self.pos as int;
            self.skip_whitespace();
            proof {
                lemma_skip_ws(s, q, |x: int| array_delim(s, x, acc.push(e@)));
            }
            let d = match self.peek() {
                Ok(d) => *d,
                Err(e) => return Err(e),
            };
            if d == ']' {
                self.pos = self.pos + 1;
                return Ok(Value::Array(v));
            } else if d == ',' {
                self.pos = self.pos + 1;
                let ghost w = self.pos as int;
                self.skip_whitespace();
                proof {
                    lemma_skip_ws(s, w, |x: int| array_next(s, x, acc.push(e@)));
                }
                let n = match self.peek() {
                    Ok(n) => *n,
                    Err(e) => return Err(e),
                };
                if n == ']' {
                    self.pos = self.pos + 1;
                    return Ok(Value::Array(v));
                }
            } else {
                let mut t = String::new();
                push_char(&mut t, d);
                assert(t@ =~= seq![d]);
                return Err(ParserError::UnExpectedToken(t));
            }
        }
    }

    /// Reads an object from the `{` at the cursor. `{}` is the empty object;
    /// a repeated key keeps its place and takes the later value.
    #[verifier::rlimit(60)]
    fn parse_obj(&mut self) -> (r: Result<Value, ParserError>)
        requires
            old(self).wf(),
            old(self).cursor() < old(self).text().len(),
            old(self).text()[old(self).cursor()] == '{',
        ensures
            final(self).wf(),
            final(self).text() == old(self).text(),
            agrees(r, final(self).cursor(), object_open(old(self).text(), old(self).cursor() + 1)),
            old(self).cursor() < final(self).cursor(),
        decreases old(self).text().len() - old(self).cursor(), 0int,
    {
        let ghost s = self.chars@;
        let ghost p = self.pos as int;
        self.pos = self.pos + 1;
        self.skip_whitespace();
        proof {
            lemma_skip_ws(s, p + 1, |q: int| object_open(s, q));
        }
        let c = match self.peek() {
            Ok(c) => *c,
            Err(e) => return Err(e),
        };
        let mut m: Vec<(String, Value)> = Vec::new();
        if c == '}' {
            self.pos = self.pos + 1;
            return Ok(Value::Object(m));
        }
        loop
            invariant
                self.wf(),
                self.chars@ == s,
                s == old(self).chars@,
                p == old(self).pos,
                p < self.pos,
                object_key(s, self.pos as int, entries_model(m@)) == object_open(s, p + 1),
            decreases self.chars.len() - self.pos,
        {
            let ghost acc = entries_model(m@);
            let ghost pk = self.pos as int;
            self.skip_whitespace();
            proof {
                lemma_skip_ws(s, pk, |x: int| object_key(s, x, acc));
            }
            let c = match self.peek() {
                Ok(c) => *c,
                Err(e) => return Err(e),
            };
            if c != '"' {
                let mut t = String::new();
                push_char(&mut t, c);
                assert(t@ =~= seq![c]);
                return Err(ParserError::UnExpectedToken(t));
            }
            let ghost pk2 = self.pos as int;
            let key = self.parse_str()?;
            let ghost q = self.pos as int;
            assert(object_key(s, pk2, acc) == object_colon(s, q, key@, acc));
            self.skip_whitespace();
            proof {
                lemma_skip_ws(s, q, |x: int| object_colon(s, x, key@, acc));
            }
            let ch = self.next()?;
            if ch != ':' {
                let mut t = String::new();
                push_quoted(&mut t, &key);
                push_char(&mut t, ch);
                assert(t@ =~= seq!['"'] + key@ + seq!['"', ch]);
                return Err(ParserError::UnExpectedToken(t));
            }
            assert(object_colon(s, q, key@, acc) == object_member(s, self.pos as int, key@, acc));
            let value = self.parse()?;
            let ghost q2 = self.pos as int;
            self.skip_whitespace();
            proof {
                lemma_skip_ws(s, q2, |x: int| object_delim(s, x, key@, value@, acc));
            }
            let d = match self.peek() {
                Ok(d) => *d,
                Err(e) => return Err(e),
            };
            if d == '}' || d == ',' {
                insert_member(&mut m, key, value);
                self.pos = self.pos + 1;
                if d == '}' {
                    return Ok(Value::Object(m));
                }
            } else {
                let mut t = String::new();
                push_quoted(&mut t, &key);
                push_char(&mut t, ' ');
                push_char(&mut t, ':');
                push_char(&mut t, ' ');
                let rendered = traverse_json(&value);
                push_str(&mut t, rendered.as_str());
                push_char(&mut t, ' ');
                push_char(&mut t, d);
                assert(t@ =~= seq!['"'] + key@ + seq!['"', ' ', ':', ' '] + render(value@) + seq![
                    ' ',
                    d,
                ]);
                return Err(ParserError::UnExpectedToken(t));
            }
        }
    }

    /// Appends the characters from `start` up to `end`.
    fn push_span(&self, out: &mut String, start: usize, end: usize)
        requires
            start <= end <= self.text().len(),
        ensures
            final(out)@ == old(out)@ + self.text().subrange(start as int, end as int),
    {
        let mut i = start;
        while i < end
            invariant
                start <= i <= end <= self.chars.len(),
                out@ == old(out)@ + self.chars@.subrange(start as int, i as int),
            decreases end - i,
        {
            push_char(out, self.chars[i]);
            i = i + 1;
            assert(out@ =~= old(out)@ + self.chars@.subrange(start as int, i as int));
        }
    }

    /// Reads `true`, `false` or `null`: the run of letters from the cursor on.
    fn parse_true_false_null(&mut self) -> (r: Result<Value, ParserError>)
        requires
            old(self).wf(),
            old(self).cursor() < old(self).text().len(),
        ensures
            final(self).wf(),
            final(self).text() == old(self).text(),
            agrees(r, final(self).cursor(), parse_keyword(old(self).text(), old(self).cursor())),
            old(self).cursor() < final(self).cursor(),
    {
        let start = self.pos;
        self.pos = self.pos + 1;
        while self.pos < self.chars.len() && is_alpha_char(self.chars[self.pos])
            invariant
                self.wf(),
                self.chars@ == old(self).chars@,
                start < self.pos,
                alpha_end(self.chars@, self.pos as int) == alpha_end(
                    self.chars@,
                    start as int + 1,
                ),
            decreases self.chars.len() - self.pos,
        {
            self.pos = self.pos + 1;
        }
        assert(alpha_end(self.chars@, self.pos as int) == self.pos as int);
        let mut word = String::new();
        self.push_span(&mut word, start, self.pos);
        proof {
            reveal_strlit("true");
            reveal_strlit("false");
            reveal_strlit("null");
            assert("true"@ =~= seq!['t', 'r', 'u', 'e']);
            assert("false"@ =~= seq!['f', 'a', 'l', 's', 'e']);
            assert("null"@ =~= seq!['n', 'u', 'l', 'l']);
            assert(word@ =~= self.chars@.subrange(start as int, self.pos as int));
        }
        if word == "true".to_owned() {
            Ok(Value::Bool(true))
        } else if word == "false".to_owned() {
            Ok(Value::Bool(false))
        } else if word == "null".to_owned() {
            Ok(Value::Null)
        } else {
            Err(ParserError::UnExpectedToken(word))
        }
    }

    /// Reads a string from the `"` at the cursor up to its closing `"`,
    /// decoding escapes.
    fn parse_str(&mut self) -> (r: Result<String, ParserError>)
        requires
            old(self).wf(),
            old(self).cursor() < old(self).text().len(),
            old(self).text()[old(self).cursor()] == '"',
        ensures
            final(self).wf(),
            final(self).text() == old(self).text(),
            match parse_string(old(self).text(), old(self).cursor()) {
                Ok((t, q)) => r matches Ok(x) && x@ == t && final(self).cursor() == q,
                Err((f, q)) => r matches Err(e) && e@ == f && final(self).cursor() == q,
            },
            old(self).cursor() < final(self).cursor(),
    {
        let ghost s = self.chars@;
        let ghost p = self.pos as int;
        self.pos = self.pos + 1;
        let mut acc = String::new();
        loop
            invariant
                self.wf(),
                self.chars@ == s,
                s == old(self).chars@,
                p == old(self).pos,
                p < self.pos,
                string_body(s, self.pos as int, acc@) == string_body(s, p + 1, Seq::empty()),
            decreases self.chars.len() - self.pos,
        {
            if self.pos >= self.chars.len() {
                return Err(ParserError::UnExpectedToken(acc));
            }
            let c = self.chars[self.pos];
            self.pos = self.pos + 1;
            if c == '"' {
                return Ok(acc);
            } else if c == '\\' {
                let e = self.parse_escaped()?;
                push_char(&mut acc, e);
            } else {
                push_char(&mut acc, c);
            }
        }
    }

    /// Decodes the escape whose letter is at the cursor (just after a `\\`),
    /// consuming the letter and, after a `u`, the whole run of hex digits.
    pub fn parse_escaped(&mut self) -> (r: Result<char, ParserError>)
        requires
            old(self).wf(),
        ensures
            final(self).wf(),
            final(self).text() == old(self).text(),
            old(self).cursor() <= final(self).cursor(),
            old(self).cursor() >= old(self).text().len() ==> (r matches Err(
                ParserError::UnExpectedEOF,
            ) && final(self).cursor() == old(self).cursor()),
            old(self).cursor() < old(self).text().len() ==> final(self).cursor() == escape_end(
                old(self).text(),
                old(self).cursor(),
            ) && match escape(old(self).text(), old(self).cursor()) {
                Ok(c) => r == Ok::<char, ParserError>(c),
                Err(f) => r matches Err(e) && e@ == f,
            },
    {
        let ghost s = self.chars@;
        let c = self.next()?;
        match c {
            '"' => Ok('"'),
            '\\' => Ok('\\'),
            '/' => Ok('/'),
            'b' => Ok('\x08'),
            'f' => Ok('\x0c'),
            'n' => Ok('\n'),
            'r' => Ok('\r'),
            't' => Ok('\t'),
            'u' => {
                let q = self.pos;
                let mut code: u32 = 0;
                let mut count: usize = 0;
                while self.pos < self.chars.len() && is_hex_char(self.chars[self.pos])
                    invariant
                        self.wf(),
                        self.chars@ == s,
                        s == old(self).chars@,
                        q == old(self).pos + 1,
                        q <= self.pos,
                        count == self.pos - q,
                        hex_end(s, self.pos as int) == hex_end(s, q as int),
                        count <= 4 ==> code as nat == hex_value(
                            s.subrange(q as int, self.pos as int),
                        ),
                        count <= 4 ==> code < pow16(count as nat),
                        count <= 4 ==> pow16(count as nat) <= 65536,
                    decreases self.chars.len() - self.pos,
                {
                    let d = hex_value_of(self.chars[self.pos]);
                    proof {
                        let h = s.subrange(q as int, self.pos + 1);
                        assert(h.drop_last() =~= s.subrange(q as int, self.pos as int));
                    }
                    if count < 4 {
                        assert(pow16(count as nat + 1) <= 65536) by {
                            reveal_with_fuel(pow16, 5);
                        }
                        assert(code * 16 + d < pow16(count as nat + 1)) by (nonlinear_arith)
                            requires
                                code < pow16(count as nat),
                                d < 16,
                                pow16(count as nat + 1) == pow16(count as nat) * 16,
                        ;
                        code = code * 16 + d;
                    }
                    count = count + 1;
                    self.pos = self.pos + 1;
                }
                assert(hex_end(s, self.pos as int) == self.pos as int);
                if 1 <= count && count <= 4 {
                    if let Some(ch) = char_from_code(code) {
                        proof {
                            vstd::utf8::char_u32_cast(ch, code);
                        }
                        return Ok(ch);
                    }
                }
                let mut t = String::new();
                push_char(&mut t, '\\');
                push_char(&mut t, 'u');
                self.push_span(&mut t, q, self.pos);
                assert(t@ =~= seq!['\\', 'u'] + s.subrange(q as int, self.pos as int));
                Err(ParserError::UnExpectedToken(t))
            },
            _ => {
                let mut t = String::new();
                push_char(&mut t, '\\');
                push_char(&mut t, c);
                assert(t@ =~= seq!['\\', c]);
                Err(ParserError::UnExpectedToken(t))
            },
        }
    }
}

pub open spec fn pow16(i: nat) -> nat
    decreases i,
{
    if i == 0 {
        1
    } else {
        16 * pow16((i - 1) as nat)
    }
}

/// Relies on `char::from_u32`: `Some` exactly for the Unicode scalar values,
/// holding the character with that code.
#[verifier::external_body]
fn char_from_code(n: u32) -> (r: Option<char>)
    ensures
        r is Some <==> is_scalar_code(n as nat),
        r matches Some(c) ==> c as u32 == n,
{
    char::from_u32(n)
}

/// Puts `v` under `k`: in place of the value held under `k`, or at the end.
fn insert_member(m: &mut Vec<(String, Value)>, k: String, v: Value)
    ensures
        entries_model(final(m)@) == insert_entry(entries_model(old(m)@), k@, v@),
{
    let ghost e = entries_model(m@);
    proof {
        lemma_entries_model(m@);
        lemma_key_index(e, k@);
    }
    let mut j = m.len();
    while j > 0
        invariant
            j <= m.len(),
            *m == *old(m),
            e == entries_model(m@),
            e.len() == m@.len(),
            forall|x: int| 0 <= x < m@.len() ==> #[trigger] e[x] == (m@[x].0@, m@[x].1@),
            forall|x: int| j <= x < m@.len() ==> #[trigger] e[x].0 != k@,
        decreases j,
    {
        if m[j - 1].0 == k {
            let ghost i = j - 1;
            assert(e[i].0 == k@);
            proof {
                lemma_key_index(e, k@);
            }
            assert(key_index(e, k@) == i);
            m[j - 1] = (k, v);
            proof {
                lemma_entries_model(m@);
            }
            assert(entries_model(m@) =~= insert_entry(e, k@, v@));
            return;
        }
        j = j - 1;
    }
    proof {
        lemma_key_index(e, k@);
    }
    assert(key_index(e, k@) == -1);
    m.push((k, v));
    proof {
        lemma_entries_model(m@);
    }
    assert(entries_model(m@) =~= insert_entry(e, k@, v@));
}

fn is_num_char_exec(c: char) -> (b: bool)
    ensures
        b == is_num_char(c),
{
    ('0' <= c && c <= '9') || c == '.' || c == 'e' || c == 'E'
}

fn is_alpha_char(c: char) -> (b: bool)
    ensures
        b == is_alpha(c),
{
    ('a' <= c && c <= 'z') || ('A' <= c && c <= 'Z')
}

fn is_hex_char(c: char) -> (b: bool)
    ensures
        b == is_hex(c),
{
    ('0' <= c && c <= '9') || ('a' <= c && c <= 'f') || ('A' <= c && c <= 'F')
}

fn hex_value_of(c: char) -> (d: u32)
    requires
        is_hex(c),
    ensures
        d as nat == hex_val(c),
        d < 16,
{
    if '0' <= c && c <= '9' {
        (c as u32) - ('0' as u32)
    } else if 'a' <= c && c <= 'f' {
        (c as u32) - ('a' as u32) + 10
    } else {
        (c as u32) - ('A' as u32) + 10
    }
}

fn is_ws_char(c: char) -> (b: bool)
    ensures
        b == is_ws(c),
{
    c == ' ' || c == '\t' || c == '\n' || c == '\r'
}

} // verus!
