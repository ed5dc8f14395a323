use vstd::prelude::*;

use crate::term::{lemma_tag_of_term, read_as, sym_term, upper, Pool, Ptr, Term};
use crate::field::{field_modulus, lemma_modulus_bounds, Fr};
use crate::text::chars_of;

verus! {

pub open spec fn is_ws(c: char) -> bool {
    c == ' ' || c == '\t' || c == '\n' || c == '\r'
}

pub open spec fn is_line_end(c: char) -> bool {
    c == '\n' || c == '\r'
}

pub open spec fn is_digit(c: char) -> bool {
    '0' <= c && c <= '9'
}

/// Characters a symbol may hold; digits only after the first.
pub open spec fn is_sym_char(c: char, initial: bool) -> bool {
    ||| ('a' <= c && c <= 'z')
    ||| ('A' <= c && c <= 'Z')
    ||| c == '+'
    ||| c == '-'
    ||| c == '*'
    ||| c == '/'
    ||| c == '='
    ||| c == ':'
    ||| (!initial && is_digit(c))
}

/// The first position at or after `p` that holds neither whitespace nor part
/// of a `;` comment (which runs to the end of its line).
pub open spec fn skip_from(s: Seq<char>, p: int, in_comment: bool) -> int
    decreases s.len() - p,
{
    if 0 <= p < s.len() {
        if in_comment {
            skip_from(s, p + 1, !is_line_end(s[p]))
        } else if is_ws(s[p]) {
            skip_from(s, p + 1, false)
        } else if s[p] == ';' {
            skip_from(s, p + 1, true)
        } else {
            p
        }
    } else {
        p
    }
}

pub open spec fn skip(s: Seq<char>, p: int) -> int {
    skip_from(s, p, false)
}

pub proof fn lemma_skip_from_bounds(s: Seq<char>, p: int, in_comment: bool)
    requires
        0 <= p <= s.len(),
    ensures
        p <= skip_from(s, p, in_comment) <= s.len(),
        skip_from(s, p, in_comment) < s.len() ==> {
            let q = skip_from(s, p, in_comment);
            !is_ws(s[q]) && s[q] != ';'
        },
    decreases s.len() - p,
{
    if p < s.len() {
        if in_comment {
            lemma_skip_from_bounds(s, p + 1, !is_line_end(s[p]));
        } else if is_ws(s[p]) || s[p] == ';' {
            lemma_skip_from_bounds(s, p + 1, s[p] == ';');
        }
    }
}

pub proof fn lemma_skip_bounds(s: Seq<char>, p: int)
    requires
        0 <= p <= s.len(),
    ensures
        p <= skip(s, p) <= s.len(),
        skip(s, p) < s.len() ==> !is_ws(s[skip(s, p)]) && s[skip(s, p)] != ';',
        skip(s, skip(s, p)) == skip(s, p),
{
    lemma_skip_from_bounds(s, p, false);
}

/// The end of the run of digits that starts at `p`.
pub open spec fn digits_end(s: Seq<char>, p: int) -> int
    decreases s.len() - p,
{
    if 0 <= p < s.len() && is_digit(s[p]) {
        digits_end(s, p + 1)
    } else {
        p
    }
}

pub open spec fn digit_value(c: char) -> nat {
    ((c as u32) - ('0' as u32)) as nat
}

/// The value of a string of decimal digits.
pub open spec fn decimal_value(ds: Seq<char>) -> nat
    decreases ds.len(),
{
    if ds.len() == 0 {
        0
    } else {
        decimal_value(ds.drop_last()) * 10 + digit_value(ds.last())
    }
}

/// A number literal at `p`: its decimal value as an element of the scalar
/// field, that is reduced modulo the field order. Every run of digits reads
/// as a number.
pub open spec fn parse_number(s: Seq<char>, p: int) -> Option<(Term, int)> {
    let e = digits_end(s, p);
    Some((Term::Num(decimal_value(s.subrange(p, e)) % field_modulus()), e))
}

/// The end of the run of non-initial symbol characters that starts at `p`.
pub open spec fn sym_rest_end(s: Seq<char>, p: int) -> int
    decreases s.len() - p,
{
    if 0 <= p < s.len() && is_sym_char(s[p], false) {
        sym_rest_end(s, p + 1)
    } else {
        p
    }
}

/// A symbol whose first character stands at `p`.
pub open spec fn parse_symbol(s: Seq<char>, p: int) -> Option<(Term, int)> {
    let e = sym_rest_end(s, p + 1);
    Some((sym_term(s.subrange(p, e)), e))
}

/// The first `"` at or after `p`, or the end of the text.
pub open spec fn quote_end(s: Seq<char>, p: int) -> int
    decreases s.len() - p,
{
    if 0 <= p < s.len() && s[p] != '"' {
        quote_end(s, p + 1)
    } else {
        p
    }
}

/// A string literal whose opening `"` stands at `p`. There is no escaping:
/// the string ends at the next `"`.
pub open spec fn parse_string(s: Seq<char>, p: int) -> Option<(Term, int)> {
    let e = quote_end(s, p + 1);
    if e < s.len() {
        Some((Term::Str(s.subrange(p + 1, e)), e + 1))
    } else {
        None
    }
}

/// A string literal after optional whitespace and comments.
pub open spec fn parse_string_after_space(s: Seq<char>, p: int) -> Option<(Term, int)> {
    let q = skip(s, p);
    if 0 <= q < s.len() && s[q] == '"' {
        parse_string(s, q)
    } else {
        None
    }
}

pub open spec fn quote_name() -> Seq<char> {
    seq!['Q', 'U', 'O', 'T', 'E']
}

/// `'x` reads as `(QUOTE x)`.
pub open spec fn quote_term(t: Term) -> Term {
    Term::Cons(
        Box::new(Term::Sym(quote_name())),
        Box::new(Term::Cons(Box::new(t), Box::new(Term::Nil))),
    )
}

/// The next expression at or after `p`, with the position just after it.
pub open spec fn parse_next(s: Seq<char>, p: int) -> Option<(Term, int)>
    decreases s.len() - p, 2int,
{
    if 0 <= p <= s.len() {
        proof {
            lemma_skip_bounds(s, p);
        }
        let q = skip(s, p);
        if q >= s.len() {
            None
        } else {
            let c = s[q];
            if c == '(' {
                parse_tail(s, q + 1, false)
            } else if is_digit(c) {
                parse_number(s, q)
            } else if c == '\'' {
                match parse_next(s, q + 1) {
                    Some((t, r)) => Some((quote_term(t), r)),
                    None => None,
                }
            } else if c == '"' {
                parse_string(s, q)
            } else if is_sym_char(c, true) {
                parse_symbol(s, q)
            } else {
                None
            }
        }
    } else {
        None
    }
}

/// The rest of a list whose `(` has been read: elements up to `)`, or,
/// once at least one element has been read (`has_elem`), a dot followed by
/// exactly one expression and the closing `)`.
pub open spec fn parse_tail(s: Seq<char>, p: int, has_elem: bool) -> Option<(Term, int)>
    decreases s.len() - p, 3int,
{
    if 0 <= p <= s.len() {
        proof {
            lemma_skip_bounds(s, p);
        }
        let q = skip(s, p);
        if q >= s.len() {
            None
        } else if s[q] == ')' {
            Some((Term::Nil, q + 1))
        } else if s[q] == '.' {
            if !has_elem {
                None
            } else {
                match parse_next(s, q + 1) {
                    Some((cdr, r)) => {
                        let c = skip(s, r);
                        if 0 <= c < s.len() && s[c] == ')' {
                            Some((cdr, c + 1))
                        } else {
                            None
                        }
                    },
                    None => None,
                }
            }
        } else {
            match parse_next(s, q) {
                Some((car, r)) => {
                    if q < r <= s.len() {
                        match parse_tail(s, r, true) {
                            Some((rest, e)) => Some((Term::Cons(Box::new(car), Box::new(rest)), e)),
                            None => None,
                        }
                    } else {
                        None
                    }
                },
                None => None,
            }
        }
    } else {
        None
    }
}

/// An expression, marked as meta when a `!` precedes it.
pub open spec fn parse_maybe_meta(s: Seq<char>, p: int) -> Option<(Term, bool, int)>
    decreases s.len() - p,
{
    if 0 <= p <= s.len() {
        proof {
            lemma_skip_bounds(s, p);
        }
        let q = skip(s, p);
        if q >= s.len() {
            None
        } else if s[q] == '!' {
            match parse_string_after_space(s, q + 1) {
                Some((t, r)) => Some((t, true, r)),
                None => match parse_maybe_meta(s, q + 1) {
                    Some((e, meta, r)) => {
                        if meta {
                            None
                        } else {
                            Some((e, true, r))
                        }
                    },
                    None => None,
                },
            }
        } else {
            match parse_next(s, q) {
                Some((t, r)) => Some((t, false, r)),
                None => None,
            }
        }
    } else {
        None
    }
}

pub proof fn lemma_digits_end(s: Seq<char>, p: int)
    requires
        0 <= p <= s.len(),
    ensures
        p <= digits_end(s, p) <= s.len(),
        forall|k: int| p <= k < digits_end(s, p) ==> is_digit(#[trigger] s[k]),
        digits_end(s, p) < s.len() ==> !is_digit(s[digits_end(s, p)]),
    decreases s.len() - p,
{
    if p < s.len() && is_digit(s[p]) {
        lemma_digits_end(s, p + 1);
    }
}

pub proof fn lemma_sym_rest_end(s: Seq<char>, p: int)
    requires
        0 <= p <= s.len(),
    ensures
        p <= sym_rest_end(s, p) <= s.len(),
        forall|k: int| p <= k < sym_rest_end(s, p) ==> is_sym_char(#[trigger] s[k], false),
        sym_rest_end(s, p) < s.len() ==> !is_sym_char(s[sym_rest_end(s, p)], false),
    decreases s.len() - p,
{
    if p < s.len() && is_sym_char(s[p], false) {
        lemma_sym_rest_end(s, p + 1);
    }
}

pub proof fn lemma_quote_end(s: Seq<char>, p: int)
    requires
        0 <= p <= s.len(),
    ensures
        p <= quote_end(s, p) <= s.len(),
        forall|k: int| p <= k < quote_end(s, p) ==> #[trigger] s[k] != '"',
        quote_end(s, p) < s.len() ==> s[quote_end(s, p)] == '"',
    decreases s.len() - p,
{
    if p < s.len() && s[p] != '"' {
        lemma_quote_end(s, p + 1);
    }
}

/// Every successful read consumes at least one character and stays in the text.
pub proof fn lemma_next_advances(s: Seq<char>, p: int)
    requires
        0 <= p <= s.len(),
    ensures
        parse_next(s, p) matches Some((_, r)) ==> p < r <= s.len(),
    decreases s.len() - p, 2int,
{
    lemma_skip_bounds(s, p);
    let q = skip(s, p);
    if q < s.len() {
        lemma_digits_end(s, q);
        lemma_sym_rest_end(s, q + 1);
        lemma_quote_end(s, q + 1);
        lemma_tail_advances(s, q + 1, false);
        lemma_next_advances(s, q + 1);
    }
}

/// Reading the rest of a list consumes at least its `)`.
pub proof fn lemma_tail_advances(s: Seq<char>, p: int, has_elem: bool)
    requires
        0 <= p <= s.len(),
    ensures
        parse_tail(s, p, has_elem) matches Some((_, r)) ==> p < r <= s.len(),
    decreases s.len() - p, 3int,
{
    lemma_skip_bounds(s, p);
    let q = skip(s, p);
    if q < s.len() && s[q] != ')' {
        if s[q] == '.' {
            lemma_next_advances(s, q + 1);
            if let Some((_, r)) = parse_next(s, q + 1) {
                lemma_skip_bounds(s, r);
            }
        } else {
            lemma_next_advances(s, q);
            if let Some((_, r)) = parse_next(s, q) {
                if q < r {
                    lemma_tail_advances(s, r, true);
                }
            }
        }
    }
}

/// A cursor over the characters of a source text.
pub struct CharStream {
    chars: Vec<char>,
    pos: usize,
}

impl CharStream {
    pub closed spec fn text(&self) -> Seq<char> {
        self.chars@
    }

    pub closed spec fn pos(&self) -> int {
        self.pos as int
    }

    pub open spec fn wf(&self) -> bool {
        0 <= self.pos() <= self.text().len()
    }

    pub fn new(s: &str) -> (r: CharStream)
        ensures
            r.wf(),
            r.text() == s@,
            r.pos() == 0,
    {
        CharStream { chars: chars_of(s), pos: 0 }
    }

    /// How many characters have been consumed.
    pub fn position(&self) -> (r: usize)
        ensures
            r == self.pos(),
    {
        self.pos
    }

    /// The next character, if any, without consuming it.
    pub fn peek(&self) -> (r: Option<char>)
        requires
            self.wf(),
        ensures
            self.pos() < self.text().len() ==> r == Some(self.text()[self.pos()]),
            self.pos() >= self.text().len() ==> r is None,
    {
        if self.pos < self.chars.len() {
            Some(self.chars[self.pos])
        } else {
            None
        }
    }

    fn advance(&mut self)
        requires
            old(self).pos() < old(self).text().len(),
        ensures
            final(self).text() == old(self).text(),
            final(self).pos() == old(self).pos() + 1,
    {
        let n = self.chars.len();
        assert(self.pos < n);
        self.pos = self.pos + 1;
    }
}

pub fn is_symbol_char(c: &char, initial: bool) -> (r: bool)
    ensures
        r == is_sym_char(*c, initial),
{
    match *c {
        'a'..='z' | 'A'..='Z' | '+' | '-' | '*' | '/' | '=' | ':' => true,
        _ => {
            if initial {
                false
            } else {
                is_digit_char(c)
            }
        },
    }
}

pub fn is_digit_char(c: &char) -> (r: bool)
    ensures
        r == is_digit(*c),
{
    '0' <= *c && *c <= '9'
}

/// The characters that delimit lists and dotted pairs.
pub fn is_reserved_char(c: &char) -> (r: bool)
    ensures
        r == (*c == '(' || *c == ')' || *c == '.'),
{
    *c == '(' || *c == ')' || *c == '.'
}

pub fn is_whitespace_char(c: &char) -> (r: bool)
    ensures
        r == is_ws(*c),
{
    *c == ' ' || *c == '\t' || *c == '\n' || *c == '\r'
}

pub fn is_comment_char(c: &char) -> (r: bool)
    ensures
        r == (*c == ';'),
{
    *c == ';'
}

pub fn is_line_end_char(c: &char) -> (r: bool)
    ensures
        r == is_line_end(*c),
{
    *c == '\n' || *c == '\r'
}

/// Skips whitespace and comments; returns the next character, if any.
#[verifier::loop_isolation(false)]
pub fn skip_whitespace_and_peek(chars: &mut CharStream) -> (r: Option<char>)
    requires
        old(chars).wf(),
    ensures
        final(chars).wf(),
        final(chars).text() == old(chars).text(),
        final(chars).pos() == skip(old(chars).text(), old(chars).pos()),
        final(chars).pos() < final(chars).text().len() ==> r == Some(
            final(chars).text()[final(chars).pos()],
        ),
        final(chars).pos() >= final(chars).text().len() ==> r is None,
{
    let ghost s = chars.text();
    let ghost start = chars.pos();
    while chars.pos < chars.chars.len()
        invariant
            chars.wf(),
            chars.text() == s,
            skip(s, start) == skip_from(s, chars.pos(), false),
        decreases s.len() - chars.pos(),
    {
        let c = chars.chars[chars.pos];
        if is_whitespace_char(&c) {
            chars.advance();
        } else if is_comment_char(&c) {
            chars.advance();
            skip_line_comment(chars);
        } else {
            return Some(c);
        }
    }
    None
}

/// Skips the rest of a comment, up to but not over its line end. Returns
/// whether a line end was found; if not, the text is used up.
#[verifier::loop_isolation(false)]
pub fn skip_line_comment(chars: &mut CharStream) -> (r: bool)
    requires
        old(chars).wf(),
    ensures
        final(chars).wf(),
        final(chars).text() == old(chars).text(),
        skip_from(old(chars).text(), old(chars).pos(), true) == skip_from(
            final(chars).text(),
            final(chars).pos(),
            false,
        ),
        r ==> final(chars).pos() < final(chars).text().len() && is_line_end(
            final(chars).text()[final(chars).pos()],
        ),
        !r ==> final(chars).pos() == final(chars).text().len(),
        final(chars).pos() >= old(chars).pos(),
{
    let ghost s = chars.text();
    let ghost start = chars.pos();
    while chars.pos < chars.chars.len()
        invariant
            chars.wf(),
            chars.text() == s,
            skip_from(s, start, true) == skip_from(s, chars.pos(), true),
            start <= chars.pos(),
        decreases s.len() - chars.pos(),
    {
        let c = chars.chars[chars.pos];
        if !is_line_end_char(&c) {
            chars.advance();
        } else {
            return true;
        }
    }
    false
}

impl Pool {
    pub fn read(&mut self, input: &str) -> (r: Option<Ptr>)
        requires
            old(self).wf(),
        ensures
            final(self).wf(),
            final(self).extends(old(self)),
            read_as(
                final(self),
                r,
                match parse_next(input@, 0) {
                    Some((t, _)) => Some(t),
                    None => None,
                },
            ),
    {
        let mut chars = CharStream::new(input);
        self.read_next(&mut chars)
    }

    /// Reads a string literal after optional whitespace and comments. Where
    /// no `"` stands there, only the whitespace and comments are consumed;
    /// a string that is never closed consumes the rest of the text.
    #[verifier::loop_isolation(false)]
    pub fn read_string(&mut self, chars: &mut CharStream) -> (r: Option<Ptr>)
        requires
            old(self).wf(),
            old(chars).wf(),
        ensures
            final(self).wf(),
            final(self).extends(old(self)),
            final(chars).wf(),
            final(chars).text() == old(chars).text(),
            read_as(
                final(self),
                r,
                match parse_string_after_space(old(chars).text(), old(chars).pos()) {
                    Some((t, _)) => Some(t),
                    None => None,
                },
            ),
            match parse_string_after_space(old(chars).text(), old(chars).pos()) {
                Some((_, e)) => final(chars).pos() == e,
                None => if skip(old(chars).text(), old(chars).pos()) < old(chars).text().len()
                    && old(chars).text()[skip(old(chars).text(), old(chars).pos())] == '"' {
                    final(chars).pos() == old(chars).text().len()
                } else {
                    final(chars).pos() == skip(old(chars).text(), old(chars).pos())
                },
            },
    {
        let ghost s = chars.text();
        let ghost pool0 = *self;
        let c = skip_whitespace_and_peek(chars);
        if c == Some('"') {
            let start = chars.pos;
            chars.advance();
            let mut result: Vec<char> = Vec::new();
            proof {
                lemma_quote_end(s, start + 1);
            }
            while chars.pos < chars.chars.len()
                invariant
                    chars.wf(),
                    chars.text() == s,
                    start < chars.pos(),
                    start < s.len(),
                    s[start as int] == '"',
                    result@ == s.subrange(start + 1, chars.pos()),
                    *self == pool0,
                    pool0.wf(),
                    quote_end(s, start + 1) == quote_end(s, chars.pos()),
                decreases s.len() - chars.pos(),
            {
                let c = chars.chars[chars.pos];
                chars.advance();
                if c == '"' {
                    return Some(self.alloc_str_chars(result));
                } else {
                    result.push(c);
                    assert(result@ =~= s.subrange(start + 1, chars.pos()));
                }
            }
            None
        } else {
            None
        }
    }

    pub fn read_maybe_meta(&mut self, chars: &mut CharStream) -> (r: Option<(Ptr, bool)>)
        requires
            old(self).wf(),
            old(chars).wf(),
        ensures
            final(self).wf(),
            final(self).extends(old(self)),
            final(chars).wf(),
            final(chars).text() == old(chars).text(),
            match parse_maybe_meta(old(chars).text(), old(chars).pos()) {
                Some((t, meta, e)) => (r matches Some((p, m)) && final(self).valid(p)
                    && final(self).term(p) == t && m == meta && final(chars).pos() == e),
                None => r is None,
            },
            skip(old(chars).text(), old(chars).pos()) <= final(chars).pos(),
        decreases old(chars).text().len() - old(chars).pos(),
    {
        let ghost s = chars.text();
        let ghost p0 = chars.pos();
        proof {
            lemma_skip_bounds(s, p0);
        }
        let c = skip_whitespace_and_peek(chars);
        match c {
            None => None,
            Some(c) => {
                if c == '!' {
                    chars.advance();
                    let ghost q1 = chars.pos();
                    proof {
                        lemma_skip_bounds(s, q1);
                        if skip(s, q1) < s.len() {
                            lemma_quote_end(s, skip(s, q1) + 1);
                        }
                    }
                    match self.read_string(chars) {
                        Some(p) => Some((p, true)),
                        None => {
                            proof {
                                lemma_skip_bounds(s, q1);
                                let q2 = skip(s, q1);
                                if q2 < s.len() && s[q2] == '"' {
                                    lemma_skip_bounds(s, q2);
                                    assert(parse_next(s, q2) == parse_string(s, q2));
                                    assert(parse_maybe_meta(s, q1) is None);
                                    assert(parse_maybe_meta(s, chars.pos()) is None);
                                } else {
                                    assert(parse_maybe_meta(s, skip(s, q1)) == parse_maybe_meta(s, q1));
                                }
                                lemma_skip_bounds(s, chars.pos());
                            }
                            match self.read_maybe_meta(chars) {
                                Some((e, is_meta)) => {
                                    if is_meta {
                                        None
                                    } else {
                                        Some((e, true))
                                    }
                                },
                                None => None,
                            }
                        },
                    }
                } else {
                    match self.read_next(chars) {
                        Some(e) => Some((e, false)),
                        None => None,
                    }
                }
            },
        }
    }

    /// Reads the next expression, skipping whitespace and comments before it.
    pub fn read_next(&mut self, chars: &mut CharStream) -> (r: Option<Ptr>)
        requires
            old(self).wf(),
            old(chars).wf(),
        ensures
            final(self).wf(),
            final(self).extends(old(self)),
            final(chars).wf(),
            final(chars).text() == old(chars).text(),
            read_as(
                final(self),
                r,
                match parse_next(old(chars).text(), old(chars).pos()) {
                    Some((t, _)) => Some(t),
                    None => None,
                },
            ),
            parse_next(old(chars).text(), old(chars).pos()) matches Some((_, e)) ==> final(chars).pos() == e,
            skip(old(chars).text(), old(chars).pos()) <= final(chars).pos(),
        decreases old(chars).text().len() - old(chars).pos(), 2int,
    {
        let ghost s = chars.text();
        let ghost p0 = chars.pos();
        proof {
            lemma_skip_bounds(s, p0);
        }
        let c = skip_whitespace_and_peek(chars);
        let ghost q = chars.pos();
        proof {
            lemma_skip_bounds(s, q);
            if q < s.len() {
                lemma_skip_bounds(s, q + 1);
                lemma_quote_end(s, q + 1);
            }
        }
        match c {
            None => None,
            Some(c) => {
                if c == '(' {
                    self.read_list(chars)
                } else if is_digit_char(&c) {
                    self.read_number(chars)
                } else if c == '\'' {
                    chars.advance();
                    let quote_chars: Vec<char> = vec!['Q', 'U', 'O', 'T', 'E'];
                    assert(quote_chars@ =~= quote_name());
                    assert(upper(quote_chars@) =~= quote_name());
                    let quote = self.alloc_sym_chars(&quote_chars);
                    let ghost mid = *self;
                    match self.read_next(chars) {
                        Some(quoted) => {
                            proof {
                                self.lemma_extends_keeps(&mid, quote);
                            }
                            let ghost mid2 = *self;
                            let nil = self.alloc_nil();
                            proof {
                                self.lemma_extends_keeps(&mid2, quoted);
                                self.lemma_extends_keeps(&mid2, quote);
                            }
                            let ghost mid3 = *self;
                            let inner = self.alloc_cons(quoted, nil);
                            proof {
                                self.lemma_extends_keeps(&mid3, quote);
                            }
                            let r = self.alloc_cons(quote, inner);
                            proof {
                                assert(self@.subrange(0, mid@.len() as int) =~= mid@);
                                assert(mid@.subrange(0, mid@.len() as int) =~= mid@);
                            }
                            Some(r)
                        },
                        None => None,
                    }
                } else if c == '"' {
                    self.read_string(chars)
                } else if is_symbol_char(&c, true) {
                    self.read_symbol(chars)
                } else {
                    None
                }
            },
        }
    }

    /// Reads a list (proper or dotted) whose `(` is the next character.
    fn read_list(&mut self, chars: &mut CharStream) -> (r: Option<Ptr>)
        requires
            old(self).wf(),
            old(chars).wf(),
        ensures
            final(self).wf(),
            final(self).extends(old(self)),
            final(chars).wf(),
            final(chars).text() == old(chars).text(),
            read_as(
                final(self),
                r,
                if old(chars).pos() < old(chars).text().len() && old(chars).text()[old(chars).pos()] == '(' {
                    match parse_tail(old(chars).text(), old(chars).pos() + 1, false) {
                        Some((t, _)) => Some(t),
                        None => None,
                    }
                } else {
                    None
                },
            ),
            old(chars).pos() < old(chars).text().len() && old(chars).text()[old(chars).pos()]
                == '(' ==> (parse_tail(old(chars).text(), old(chars).pos() + 1, false) matches Some((_, e)) ==> final(chars).pos() == e),
            old(chars).pos() <= final(chars).pos(),
        decreases old(chars).text().len() - old(chars).pos(), 1int,
    {
        match chars.peek() {
            Some(c) => {
                if c == '(' {
                    chars.advance();
                    proof {
                        lemma_skip_bounds(chars.text(), chars.pos());
                    }
                    self.read_tail(chars, false)
                } else {
                    None
                }
            },
            None => None,
        }
    }

    /// Reads the rest of a list whose `(` has been consumed; `has_elem`
    /// tells whether an element has been read, which a dot needs before it.
    fn read_tail(&mut self, chars: &mut CharStream, has_elem: bool) -> (r: Option<Ptr>)
        requires
            old(self).wf(),
            old(chars).wf(),
        ensures
            final(self).wf(),
            final(self).extends(old(self)),
            final(chars).wf(),
            final(chars).text() == old(chars).text(),
            read_as(
                final(self),
                r,
                match parse_tail(old(chars).text(), old(chars).pos(), has_elem) {
                    Some((t, _)) => Some(t),
                    None => None,
                },
            ),
            parse_tail(old(chars).text(), old(chars).pos(), has_elem) matches Some((_, e)) ==> final(chars).pos() == e,
            skip(old(chars).text(), old(chars).pos()) <= final(chars).pos(),
        decreases old(chars).text().len() - old(chars).pos(), 3int,
    {
        let ghost s = chars.text();
        let ghost p0 = chars.pos();
        let ghost start = *self;
        proof {
            lemma_skip_bounds(s, p0);
        }
        let c = skip_whitespace_and_peek(chars);
        let ghost q = chars.pos();
        match c {
            None => None,
            Some(c) => {
                if c == ')' {
                    chars.advance();
                    Some(self.alloc_nil())
                } else if c == '.' {
                    if !has_elem {
                        return None;
                    }
                    chars.advance();
                    proof {
                        lemma_next_advances(s, q + 1);
                    }
                    proof {
                        lemma_skip_bounds(s, q + 1);
                    }
                    match self.read_next(chars) {
                        Some(cdr) => {
                            let ghost r = chars.pos();
                            proof {
                                lemma_skip_bounds(s, r);
                            }
                            let close = skip_whitespace_and_peek(chars);
                            if close == Some(')') {
                                chars.advance();
                                Some(cdr)
                            } else {
                                None
                            }
                        },
                        None => None,
                    }
                } else {
                    proof {
                        lemma_next_advances(s, q);
                    }
                    match self.read_next(chars) {
                        Some(car) => {
                            let ghost mid = *self;
                            proof {
                                lemma_skip_bounds(s, chars.pos());
                            }
                            match self.read_tail(chars, true) {
                                Some(rest) => {
                                    proof {
                                        self.lemma_extends_keeps(&mid, car);
                                    }
                                    let r = self.alloc_cons(car, rest);
                                    proof {
                                        assert(self@.subrange(0, start@.len() as int) =~= start@);
                                    }
                                    Some(r)
                                },
                                None => None,
                            }
                        },
                        None => None,
                    }
                }
            },
        }
    }

    /// Reads a number literal whose first digit is the next character, as an
    /// element of the scalar field.
    fn read_number(&mut self, chars: &mut CharStream) -> (r: Option<Ptr>)
        requires
            old(self).wf(),
            old(chars).wf(),
            old(chars).pos() < old(chars).text().len(),
            is_digit(old(chars).text()[old(chars).pos()]),
        ensures
            final(self).wf(),
            final(self).extends(old(self)),
            final(chars).wf(),
            final(chars).text() == old(chars).text(),
            read_as(
                final(self),
                r,
                match parse_number(old(chars).text(), old(chars).pos()) {
                    Some((t, _)) => Some(t),
                    None => None,
                },
            ),
            parse_number(old(chars).text(), old(chars).pos()) matches Some((_, e)) ==> final(chars).pos() == e,
            old(chars).pos() <= final(chars).pos(),
    {
        let ghost s = chars.text();
        let start = chars.pos;
        let mut acc = Fr::zero();
        let ghost m = field_modulus() as int;
        proof {
            lemma_digits_end(s, start as int);
            lemma_modulus_bounds();
            assert(s.subrange(start as int, start as int) =~= Seq::<char>::empty());
        }
        while chars.pos < chars.chars.len() && is_digit_char(&chars.chars[chars.pos])
            invariant
                chars.wf(),
                chars.text() == s,
                m == field_modulus(),
                m > 0,
                acc.wf(),
                start <= chars.pos() <= digits_end(s, start as int),
                digits_end(s, start as int) <= s.len(),
                acc@ as int == (decimal_value(s.subrange(start as int, chars.pos())) as int) % m,
                forall|k: int| start <= k < digits_end(s, start as int) ==> is_digit(#[trigger] s[k]),
                digits_end(s, start as int) < s.len() ==> !is_digit(s[digits_end(s, start as int)]),
            decreases s.len() - chars.pos(),
        {
            let c = chars.chars[chars.pos];
            let ghost here = chars.pos();
            assert(here < digits_end(s, start as int)) by {
                if here == digits_end(s, start as int) {
                    assert(!is_digit(s[here]));
                }
            }
            let digit = ((c as u32) - ('0' as u32)) as u8;
            let ghost v = decimal_value(s.subrange(start as int, here)) as int;
            chars.advance();
            assert(s.subrange(start as int, chars.pos()).drop_last() =~= s.subrange(start as int, here));
            let next = acc.mul10_add(digit);
            proof {
                let d = digit as int;
                vstd::arithmetic::div_mod::lemma_mul_mod_noop_left(v, 10, m);
                vstd::arithmetic::div_mod::lemma_add_mod_noop(v * 10, d, m);
                vstd::arithmetic::div_mod::lemma_add_mod_noop((v % m) * 10, d, m);
                assert(decimal_value(s.subrange(start as int, chars.pos())) == v * 10 + d);
                assert(next@ as int == ((v % m) * 10 + d) % m);
            }
            acc = next;
        }
        Some(self.alloc_fr(acc))
    }

    /// Reads a symbol whose first character is the next character.
    fn read_symbol(&mut self, chars: &mut CharStream) -> (r: Option<Ptr>)
        requires
            old(self).wf(),
            old(chars).wf(),
            old(chars).pos() < old(chars).text().len(),
            is_sym_char(old(chars).text()[old(chars).pos()], true),
        ensures
            final(self).wf(),
            final(self).extends(old(self)),
            final(chars).wf(),
            final(chars).text() == old(chars).text(),
            read_as(
                final(self),
                r,
                match parse_symbol(old(chars).text(), old(chars).pos()) {
                    Some((t, _)) => Some(t),
                    None => None,
                },
            ),
            parse_symbol(old(chars).text(), old(chars).pos()) matches Some((_, e)) ==> final(chars).pos() == e,
            old(chars).pos() <= final(chars).pos(),
    {
        let ghost s = chars.text();
        let start = chars.pos;
        let mut name: Vec<char> = Vec::new();
        name.push(chars.chars[start]);
        chars.advance();
        assert(name@ =~= s.subrange(start as int, start + 1));
        proof {
            lemma_sym_rest_end(s, start + 1);
        }
        while chars.pos < chars.chars.len() && is_symbol_char(&chars.chars[chars.pos], false)
            invariant
                chars.wf(),
                chars.text() == s,
                start < chars.pos() <= sym_rest_end(s, start + 1),
                name@ == s.subrange(start as int, chars.pos()),
                sym_rest_end(s, start + 1) <= s.len(),
                sym_rest_end(s, start + 1) < s.len() ==> !is_sym_char(s[sym_rest_end(s, start + 1)], false),
            decreases s.len() - chars.pos(),
        {
            let ghost here = chars.pos();
            assert(here < sym_rest_end(s, start + 1)) by {
                if here == sym_rest_end(s, start + 1) {
                    assert(!is_sym_char(s[here], false));
                }
            }
            name.push(chars.chars[chars.pos]);
            chars.advance();
            assert(name@ =~= s.subrange(start as int, chars.pos()));
        }
        Some(self.alloc_sym_chars(&name))
    }
}

} // verus!
