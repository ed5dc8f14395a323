use vstd::prelude::*;

use crate::reader::{
    decimal_value, digit_value, digits_end, is_digit, is_sym_char, is_ws, parse_next, parse_tail,
    quote_end, skip, skip_from, sym_rest_end,
};
use crate::term::{nil_name, slot_ok, upper, Expr, Pool, Ptr, Term};
use crate::field::{all_digits, canonical, digits_value, field_modulus, lemma_canonical_positive, Fr};
use crate::text::string_of;

verus! {

pub open spec fn digit_char(d: nat) -> char {
    (('0' as u32) + d) as char
}

/// The decimal digits of `n`, without leading zeros.
pub open spec fn decimal_digits(n: nat) -> Seq<char>
    decreases n,
{
    if n < 10 {
        seq![digit_char(n)]
    } else {
        decimal_digits(n / 10).push(digit_char(n % 10))
    }
}

/// The printed form of a term: lists in parentheses with single spaces,
/// dotted pairs as `(a . b)`, the empty list as `NIL`.
pub open spec fn print_term(t: Term) -> Seq<char>
    decreases t, 0int,
{
    match t {
        Term::Nil => seq!['N', 'I', 'L'],
        Term::Num(n) => decimal_digits(n),
        Term::Sym(name) => name,
        Term::Str(s) => seq!['"'] + s + seq!['"'],
        Term::Cons(a, b) => seq!['('] + print_term(*a) + print_tail(*b) + seq![')'],
    }
}

/// What follows the first element of a printed list, up to its `)`.
pub open spec fn print_tail(t: Term) -> Seq<char>
    decreases t, 1int,
{
    match t {
        Term::Nil => Seq::empty(),
        Term::Cons(a, b) => seq![' '] + print_term(*a) + print_tail(*b),
        _ => seq![' ', '.', ' '] + print_term(t),
    }
}

/// The characters of little-endian decimal digits, most significant first.
pub open spec fn digits_text(ds: Seq<u8>) -> Seq<char>
    decreases ds.len(),
{
    if ds.len() == 0 {
        Seq::empty()
    } else {
        digits_text(ds.drop_first()).push(digit_char(ds[0] as nat))
    }
}

/// Canonical digits print as the decimal form of their value.
proof fn lemma_digits_text(ds: Seq<u8>)
    requires
        canonical(ds),
        ds.len() > 0,
    ensures
        digits_text(ds) == decimal_digits(digits_value(ds)),
    decreases ds.len(),
{
    let rest = ds.drop_first();
    let n = digits_value(ds);
    assert(ds[0] < 10);
    if ds.len() == 1 {
        assert(rest =~= Seq::<u8>::empty());
        assert(digits_text(rest) =~= Seq::<char>::empty());
        assert(digits_text(ds) =~= seq![digit_char(ds[0] as nat)]);
    } else {
        assert(canonical(rest)) by {
            assert forall|k: int| 0 <= k < rest.len() implies #[trigger] rest[k] < 10 by {
                assert(rest[k] == ds[k + 1]);
            }
            assert(rest.last() == ds.last());
        }
        lemma_canonical_positive(rest);
        lemma_digits_text(rest);
        let v = digits_value(rest) as int;
        let d = ds[0] as int;
        assert(n / 10 == v && n % 10 == d && n >= 10) by (nonlinear_arith)
            requires
                n == d + 10 * v,
                0 <= d < 10,
                v >= 1,
        ;
    }
}

/// Appends the decimal form of a field element.
fn write_fr(f: &Fr, out: &mut Vec<char>)
    requires
        f.wf(),
    ensures
        final(out)@ == old(out)@ + decimal_digits(f@),
{
    proof {
        f.lemma_view();
    }
    let ds = f.digits();
    if ds.len() == 0 {
        out.push('0');
        assert(final(out)@ =~= old(out)@ + decimal_digits(f@));
        return;
    }
    let mut i: usize = ds.len();
    assert(ds@.subrange(i as int, ds@.len() as int) =~= Seq::<u8>::empty());
    assert(out@ =~= old(out)@ + digits_text(ds@.subrange(i as int, ds@.len() as int)));
    while i > 0
        invariant
            i <= ds@.len(),
            all_digits(ds@),
            out@ == old(out)@ + digits_text(ds@.subrange(i as int, ds@.len() as int)),
        decreases i,
    {
        i -= 1;
        let d = ds[i];
        assert(d < 10);
        let c = (('0' as u32 + d as u32) as u8) as char;
        let ghost before = out@;
        out.push(c);
        proof {
            let sub = ds@.subrange(i as int, ds@.len() as int);
            assert(sub.drop_first() =~= ds@.subrange(i + 1, ds@.len() as int));
            assert(sub[0] == d);
        }
        assert(out@ =~= old(out)@ + digits_text(ds@.subrange(i as int, ds@.len() as int)));
    }
    assert(ds@.subrange(0, ds@.len() as int) =~= ds@);
    proof {
        lemma_digits_text(ds@);
    }
}

fn write_chars(src: &Vec<char>, out: &mut Vec<char>)
    ensures
        final(out)@ == old(out)@ + src@,
{
    let mut i: usize = 0;
    while i < src.len()
        invariant
            i <= src@.len(),
            out@ == old(out)@ + src@.subrange(0, i as int),
        decreases src@.len() - i,
    {
        out.push(src[i]);
        i += 1;
        assert(out@ =~= old(out)@ + src@.subrange(0, i as int));
    }
    assert(src@.subrange(0, src@.len() as int) =~= src@);
}

impl Pool {
    /// Appends the printed form of the term that `p` stands for.
    pub fn write_expr(&self, p: Ptr, out: &mut Vec<char>)
        requires
            self.wf(),
            self.valid(p),
        ensures
            final(out)@ == old(out)@ + print_term(self.term(p)),
        decreases p.idx, 0int,
    {
        proof {
            assert(slot_ok(self@, p.idx as int));
        }
        match self.fetch(&p) {
            Some(e) => match e {
                Expr::Nil => {
                    out.push('N');
                    out.push('I');
                    out.push('L');
                    assert(final(out)@ =~= old(out)@ + print_term(self.term(p)));
                },
                Expr::Num(n) => {
                    proof {
                        n.lemma_wf_from_digits();
                    }
                    write_fr(n, out);
                },
                Expr::Sym(name) => {
                    write_chars(name, out);
                },
                Expr::Str(s) => {
                    out.push('"');
                    write_chars(s, out);
                    out.push('"');
                    assert(final(out)@ =~= old(out)@ + print_term(self.term(p)));
                },
                Expr::Cons(a, b) => {
                    out.push('(');
                    self.write_expr(*a, out);
                    self.write_tail(*b, out);
                    out.push(')');
                    assert(final(out)@ =~= old(out)@ + print_term(self.term(p)));
                },
            },
            None => {},
        }
    }

    /// Appends what follows the first element of a printed list.
    fn write_tail(&self, p: Ptr, out: &mut Vec<char>)
        requires
            self.wf(),
            self.valid(p),
        ensures
            final(out)@ == old(out)@ + print_tail(self.term(p)),
        decreases p.idx, 1int,
    {
        proof {
            assert(slot_ok(self@, p.idx as int));
        }
        match self.fetch(&p) {
            Some(e) => match e {
                Expr::Nil => {
                    assert(final(out)@ =~= old(out)@ + print_tail(self.term(p)));
                },
                Expr::Cons(a, b) => {
                    out.push(' ');
                    self.write_expr(*a, out);
                    self.write_tail(*b, out);
                    assert(final(out)@ =~= old(out)@ + print_tail(self.term(p)));
                },
                _ => {
                    out.push(' ');
                    out.push('.');
                    out.push(' ');
                    self.write_expr(p, out);
                    assert(final(out)@ =~= old(out)@ + print_tail(self.term(p)));
                },
            },
            None => {},
        }
    }
}

impl Ptr {
    /// The printed form of the term that this pointer stands for.
    pub fn fmt_to_string(&self, pool: &Pool) -> (r: String)
        requires
            pool.wf(),
            pool.valid(*self),
        ensures
            r@ == print_term(pool.term(*self)),
    {
        let mut out: Vec<char> = Vec::new();
        pool.write_expr(*self, &mut out);
        assert(out@ =~= print_term(pool.term(*self)));
        string_of(&out)
    }
}

/// Terms that print as text which reads back as the same term: symbol
/// names are well-formed, already upper case and not `NIL`, and strings hold
/// no `"`.
pub open spec fn printable(t: Term) -> bool
    decreases t,
{
    match t {
        Term::Nil => true,
        Term::Num(n) => n < field_modulus(),
        Term::Sym(name) => {
            &&& name.len() > 0
            &&& is_sym_char(name[0], true)
            &&& forall|k: int| 1 <= k < name.len() ==> is_sym_char(#[trigger] name[k], false)
            &&& upper(name) == name
            &&& name != nil_name()
        },
        Term::Str(x) => forall|k: int| 0 <= k < x.len() ==> #[trigger] x[k] != '"',
        Term::Cons(a, b) => printable(*a) && printable(*b),
    }
}

/// Position `e` ends a token: the text ends there or a character stands
/// there that cannot continue a symbol or a number.
pub open spec fn ends_token(s: Seq<char>, e: int) -> bool {
    e == s.len() || (0 <= e < s.len() && !is_sym_char(s[e], false))
}

proof fn lemma_decimal_digits(n: nat)
    ensures
        decimal_digits(n).len() >= 1,
        forall|k: int| 0 <= k < decimal_digits(n).len() ==> is_digit(#[trigger] decimal_digits(n)[k]),
        decimal_value(decimal_digits(n)) == n,
    decreases n,
{
    if n >= 10 {
        lemma_decimal_digits(n / 10);
        let ds = decimal_digits(n);
        assert(ds.drop_last() =~= decimal_digits(n / 10));
        assert(digit_value(digit_char(n % 10)) == n % 10);
        assert(decimal_value(ds) == decimal_value(decimal_digits(n / 10)) * 10 + digit_value(ds.last()));
        assert(ds.last() == digit_char(n % 10));
        assert(n == (n / 10) * 10 + n % 10);
    } else {
        let ds = decimal_digits(n);
        assert(ds.drop_last() =~= Seq::<char>::empty());
        assert(digit_value(digit_char(n)) == n);
        assert(decimal_value(ds.drop_last()) == 0);
    }
}

proof fn lemma_print_first(t: Term)
    requires
        printable(t),
    ensures
        print_term(t).len() >= 1,
        !is_ws(print_term(t)[0]),
        print_term(t)[0] != ';',
        print_term(t)[0] != ')',
        print_term(t)[0] != '.',
{
    match t {
        Term::Num(n) => {
            lemma_decimal_digits(n);
            assert(is_digit(print_term(t)[0]));
        },
        _ => {},
    }
}

proof fn lemma_tail_first(t: Term)
    ensures
        print_tail(t).len() == 0 || print_tail(t)[0] == ' ',
{
}

proof fn lemma_sym_run(s: Seq<char>, a: int, b: int)
    requires
        0 <= a <= b <= s.len(),
        forall|k: int| a <= k < b ==> is_sym_char(#[trigger] s[k], false),
        ends_token(s, b),
    ensures
        sym_rest_end(s, a) == b,
    decreases b - a,
{
    if a < b {
        lemma_sym_run(s, a + 1, b);
    }
}

proof fn lemma_digit_run(s: Seq<char>, a: int, b: int)
    requires
        0 <= a <= b <= s.len(),
        forall|k: int| a <= k < b ==> is_digit(#[trigger] s[k]),
        ends_token(s, b),
    ensures
        digits_end(s, a) == b,
    decreases b - a,
{
    if a < b {
        lemma_digit_run(s, a + 1, b);
    }
}

proof fn lemma_quote_run(s: Seq<char>, a: int, b: int)
    requires
        0 <= a <= b < s.len(),
        forall|k: int| a <= k < b ==> #[trigger] s[k] != '"',
        s[b] == '"',
    ensures
        quote_end(s, a) == b,
    decreases b - a,
{
    if a < b {
        lemma_quote_run(s, a + 1, b);
    }
}

/// A printed term, followed by the end of the text or by a character that
/// ends a token, reads back as that term.
#[verifier::rlimit(100)]
proof fn lemma_parse_printed(s: Seq<char>, p: int, t: Term)
    requires
        printable(t),
        0 <= p,
        p + print_term(t).len() <= s.len(),
        s.subrange(p, p + print_term(t).len()) == print_term(t),
        ends_token(s, p + print_term(t).len()),
    ensures
        parse_next(s, p) == Some((t, p + print_term(t).len())),
    decreases t, 0int,
{
    let pt = print_term(t);
    let e = p + pt.len();
    lemma_print_first(t);
    assert(s[p] == pt[0]) by {
        assert(s.subrange(p, e)[0] == s[p]);
    }
    assert forall|k: int| p <= k < e implies #[trigger] s[k] == pt[k - p] by {
        assert(s.subrange(p, e)[k - p] == s[k]);
    }
    assert(skip(s, p) == p);
    match t {
        Term::Nil => {
            assert(pt =~= seq!['N', 'I', 'L']);
            assert(s[p] == 'N');
            assert(s[p + 1] == 'I');
            assert(s[p + 2] == 'L');
            assert(is_sym_char(s[p], true));
            lemma_sym_run(s, p + 1, e);
            assert(sym_rest_end(s, p + 1) == e);
            assert(s.subrange(p, e) =~= nil_name());
            assert(upper(nil_name()) =~= nil_name());
        },
        Term::Num(n) => {
            lemma_decimal_digits(n);
            assert(is_digit(s[p]));
            lemma_digit_run(s, p, e);
            vstd::arithmetic::div_mod::lemma_small_mod(n, field_modulus());
            assert(decimal_value(s.subrange(p, e)) % field_modulus() == n);
        },
        Term::Sym(name) => {
            assert(!is_digit(s[p]));
            lemma_sym_run(s, p + 1, e);
        },
        Term::Str(x) => {
            assert(s[e - 1] == '"');
            lemma_quote_run(s, p + 1, e - 1);
            assert(s.subrange(p + 1, e - 1) =~= x);
        },
        Term::Cons(a, b) => {
            let pa = print_term(*a);
            let tb = print_tail(*b);
            let q = p + 1;
            let r = q + pa.len();
            assert(s.subrange(q, r) =~= pa);
            assert(s.subrange(r, r + tb.len()) =~= tb);
            assert(s[r + tb.len()] == ')');
            lemma_tail_first(*b);
            lemma_print_first(*a);
            assert(s[q] == pa[0]);
            assert(skip(s, q) == q);
            assert(s[p] == '(');
            if tb.len() > 0 {
                assert(s[r] == tb[0]);
            }
            assert(ends_token(s, r));
            lemma_parse_printed(s, q, *a);
            lemma_parse_printed_tail(s, r, *b);
            assert(parse_tail(s, q, false) == Some((t, e)));
            assert(parse_next(s, p) == Some((t, p + print_term(t).len())));
        },
    }
}

/// A printed list tail followed by `)` reads back as that tail.
#[verifier::rlimit(100)]
proof fn lemma_parse_printed_tail(s: Seq<char>, p: int, t: Term)
    requires
        printable(t),
        0 <= p,
        p + print_tail(t).len() < s.len(),
        s.subrange(p, p + print_tail(t).len()) == print_tail(t),
        s[p + print_tail(t).len()] == ')',
    ensures
        parse_tail(s, p, true) == Some((t, p + print_tail(t).len() + 1)),
    decreases t, 2int,
{
    let tt = print_tail(t);
    let e = p + tt.len();
    assert forall|k: int| p <= k < e implies #[trigger] s[k] == tt[k - p] by {
        assert(s.subrange(p, e)[k - p] == s[k]);
    }
    match t {
        Term::Nil => {
            assert(tt.len() == 0);
            assert(s[p] == ')');
            assert(skip(s, p) == p);
            assert(parse_tail(s, p, true) == Some((Term::Nil, p + 1)));
        },
        Term::Cons(c, d) => {
            let pc = print_term(*c);
            let td = print_tail(*d);
            let q = p + 1;
            let r = q + pc.len();
            lemma_print_first(*c);
            assert(s[p] == ' ');
            assert(s[q] == pc[0]);
            assert(skip(s, q) == q);
            assert(skip_from(s, p + 1, false) == q);
            assert(skip(s, p) == q);
            assert(s.subrange(q, r) =~= pc);
            assert(s.subrange(r, r + td.len()) =~= td);
            lemma_tail_first(*d);
            lemma_parse_printed(s, q, *c);
            lemma_parse_printed_tail(s, r, *d);
            assert(parse_tail(s, p, true) == Some((t, p + print_tail(t).len() + 1)));
        },
        _ => {
            lemma_parse_printed_dotted(s, p, t);
        },
    }
}

/// A dotted tail ` . x` followed by `)` reads back as `x`.
proof fn lemma_parse_printed_dotted(s: Seq<char>, p: int, t: Term)
    requires
        printable(t),
        !(t is Nil),
        !(t is Cons),
        0 <= p,
        p + print_tail(t).len() < s.len(),
        s.subrange(p, p + print_tail(t).len()) == print_tail(t),
        s[p + print_tail(t).len()] == ')',
    ensures
        parse_tail(s, p, true) == Some((t, p + print_tail(t).len() + 1)),
    decreases t, 1int,
{
    let tt = print_tail(t);
    let e = p + tt.len();
    assert forall|k: int| p <= k < e implies #[trigger] s[k] == tt[k - p] by {
        assert(s.subrange(p, e)[k - p] == s[k]);
    }
    let pu = print_term(t);
    let q = p + 3;
    let r = q + pu.len();
    lemma_print_first(t);
    assert(s[p] == ' ');
    assert(s[p + 1] == '.');
    assert(s[p + 2] == ' ');
    assert(s[q] == pu[0]);
    assert(skip(s, q) == q);
    assert(skip_from(s, p + 3, false) == q);
    assert(skip(s, p + 2) == q);
    assert(skip_from(s, p + 1, false) == p + 1);
    assert(skip(s, p) == p + 1);
    assert(s.subrange(q, r) =~= pu);
    assert(r == e);
    assert(ends_token(s, r));
    lemma_parse_printed(s, q, t);
    assert(parse_next(s, p + 2) == parse_next(s, q));
    assert(skip(s, r) == r);
}

/// Reading the printed form of a printable term gives back that term, and
/// reading stops at the end of the text.
pub proof fn lemma_read_print(t: Term)
    requires
        printable(t),
    ensures
        parse_next(print_term(t), 0) == Some((t, print_term(t).len() as int)),
{
    let s = print_term(t);
    assert(s.subrange(0, s.len() as int) =~= s);
    lemma_parse_printed(s, 0, t);
}

} // verus!
