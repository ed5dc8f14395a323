use vstd::prelude::*;

use crate::field::{canonical, digits_value, field_modulus, lemma_canonical_injective, Fr};
use crate::text::{chars_of, string_of};

verus! {

/// Kind of an interned expression; the kind is part of every pointer so that
/// two values of different kinds never compare equal.
#[derive(Clone, Copy, PartialEq, Eq, Debug, Structural)]
pub enum Tag {
    Nil,
    Cons,
    Sym,
    Num,
    Str,
}

impl Tag {
    /// The fixed integer constant that stands for the tag in public inputs.
    pub open spec fn spec_code(self) -> u64 {
        match self {
            Tag::Nil => 0,
            Tag::Cons => 1,
            Tag::Sym => 2,
            Tag::Num => 4,
            Tag::Str => 6,
        }
    }

    pub fn code(&self) -> (r: u64)
        ensures
            r == self.spec_code(),
    {
        match self {
            Tag::Nil => 0,
            Tag::Cons => 1,
            Tag::Sym => 2,
            Tag::Num => 4,
            Tag::Str => 6,
        }
    }
}

/// A handle on an expression interned in a `Pool`: its tag and its slot.
#[derive(Clone, Copy, PartialEq, Eq, Debug, Structural)]
pub struct Ptr {
    pub tag: Tag,
    pub idx: usize,
}

impl Ptr {
    pub fn is_nil(&self) -> (r: bool)
        ensures
            r == (self.tag == Tag::Nil),
    {
        self.tag == Tag::Nil
    }
}

/// One slot of the pool. Children of a cons are pointers to earlier slots.
#[derive(Debug)]
pub enum Expr {
    Nil,
    Cons(Ptr, Ptr),
    Sym(Vec<char>),
    Num(Fr),
    Str(Vec<char>),
}

/// The mathematical content of one slot.
pub enum Node {
    Nil,
    Cons(Ptr, Ptr),
    Sym(Seq<char>),
    Num(Seq<u8>),
    Str(Seq<char>),
}

impl View for Expr {
    type V = Node;

    open spec fn view(&self) -> Node {
        match self {
            Expr::Nil => Node::Nil,
            Expr::Cons(a, b) => Node::Cons(*a, *b),
            Expr::Sym(s) => Node::Sym(s@),
            Expr::Num(n) => Node::Num(n.spec_digits()),
            Expr::Str(s) => Node::Str(s@),
        }
    }
}

/// A fully unfolded expression.
pub enum Term {
    Nil,
    Cons(Box<Term>, Box<Term>),
    Sym(Seq<char>),
    Num(nat),
    Str(Seq<char>),
}

pub open spec fn node_tag(n: Node) -> Tag {
    match n {
        Node::Nil => Tag::Nil,
        Node::Cons(_, _) => Tag::Cons,
        Node::Sym(_) => Tag::Sym,
        Node::Num(_) => Tag::Num,
        Node::Str(_) => Tag::Str,
    }
}

pub open spec fn term_tag(t: Term) -> Tag {
    match t {
        Term::Nil => Tag::Nil,
        Term::Cons(_, _) => Tag::Cons,
        Term::Sym(_) => Tag::Sym,
        Term::Num(_) => Tag::Num,
        Term::Str(_) => Tag::Str,
    }
}

/// `p` names slot `p.idx`, which lies below `bound`, with the right tag.
pub open spec fn ptr_below(nodes: Seq<Node>, p: Ptr, bound: int) -> bool {
    &&& p.idx < bound
    &&& p.idx < nodes.len()
    &&& p.tag == node_tag(nodes[p.idx as int])
}

/// The digits of a number slot: canonical, and a value below the field order.
pub open spec fn num_ok(ds: Seq<u8>) -> bool {
    canonical(ds) && digits_value(ds) < field_modulus()
}

/// Slot `i` only points to earlier slots, and a number slot holds a field
/// element.
pub open spec fn slot_ok(nodes: Seq<Node>, i: int) -> bool {
    match nodes[i] {
        Node::Cons(a, b) => ptr_below(nodes, a, i) && ptr_below(nodes, b, i),
        Node::Num(ds) => num_ok(ds),
        _ => true,
    }
}

/// Unfolds slot `i` into the term it stands for.
pub open spec fn term_at(nodes: Seq<Node>, i: int) -> Term
    decreases i,
{
    if 0 <= i < nodes.len() {
        match nodes[i] {
            Node::Nil => Term::Nil,
            Node::Cons(a, b) => {
                if a.idx < i && b.idx < i {
                    Term::Cons(
                        Box::new(term_at(nodes, a.idx as int)),
                        Box::new(term_at(nodes, b.idx as int)),
                    )
                } else {
                    Term::Nil
                }
            },
            Node::Sym(s) => Term::Sym(s),
            Node::Num(ds) => Term::Num(digits_value(ds)),
            Node::Str(s) => Term::Str(s),
        }
    } else {
        Term::Nil
    }
}

/// Upper-case form of an ASCII letter; every other character is kept.
pub open spec fn upper_char(c: char) -> char {
    if 'a' <= c && c <= 'z' {
        ((c as u32) - 32) as char
    } else {
        c
    }
}

pub open spec fn upper(s: Seq<char>) -> Seq<char> {
    s.map_values(|c: char| upper_char(c))
}

pub open spec fn nil_name() -> Seq<char> {
    seq!['N', 'I', 'L']
}

/// The term that a symbol name reads as: names are folded to upper case,
/// and `NIL` is the empty list.
pub open spec fn sym_term(name: Seq<char>) -> Term {
    if upper(name) == nil_name() {
        Term::Nil
    } else {
        Term::Sym(upper(name))
    }
}

/// A list of terms as right-nested conses ending in `Nil`.
pub open spec fn list_term(items: Seq<Term>) -> Term
    decreases items.len(),
{
    if items.len() == 0 {
        Term::Nil
    } else {
        Term::Cons(Box::new(items[0]), Box::new(list_term(items.drop_first())))
    }
}

pub fn to_upper(c: char) -> (r: char)
    ensures
        r == upper_char(c),
{
    if 'a' <= c && c <= 'z' {
        ((c as u8) - 32) as char
    } else {
        c
    }
}

pub fn chars_equal(a: &Vec<char>, b: &Vec<char>) -> (r: bool)
    ensures
        r == (a@ == b@),
{
    if a.len() != b.len() {
        return false;
    }
    let mut i: usize = 0;
    while i < a.len()
        invariant
            a@.len() == b@.len(),
            i <= a@.len(),
            a@.subrange(0, i as int) == b@.subrange(0, i as int),
        decreases a@.len() - i,
    {
        if a[i] != b[i] {
            assert(a@[i as int] != b@[i as int]);
            return false;
        }
        assert(a@.subrange(0, i + 1) == a@.subrange(0, i as int).push(a@[i as int]));
        assert(b@.subrange(0, i + 1) == b@.subrange(0, i as int).push(b@[i as int]));
        i += 1;
    }
    assert(a@ == a@.subrange(0, a@.len() as int));
    assert(b@ == b@.subrange(0, b@.len() as int));
    true
}

fn digits_equal(a: &Vec<u8>, b: &Vec<u8>) -> (r: bool)
    ensures
        r == (a@ == b@),
{
    if a.len() != b.len() {
        return false;
    }
    let mut i: usize = 0;
    while i < a.len()
        invariant
            a@.len() == b@.len(),
            i <= a@.len(),
            a@.subrange(0, i as int) == b@.subrange(0, i as int),
        decreases a@.len() - i,
    {
        if a[i] != b[i] {
            assert(a@[i as int] != b@[i as int]);
            return false;
        }
        assert(a@.subrange(0, i + 1) == a@.subrange(0, i as int).push(a@[i as int]));
        assert(b@.subrange(0, i + 1) == b@.subrange(0, i as int).push(b@[i as int]));
        i += 1;
    }
    assert(a@ == a@.subrange(0, a@.len() as int));
    assert(b@ == b@.subrange(0, b@.len() as int));
    true
}

fn same_expr(a: &Expr, b: &Expr) -> (r: bool)
    ensures
        r == (a@ == b@),
{
    match (a, b) {
        (Expr::Nil, Expr::Nil) => true,
        (Expr::Cons(a1, a2), Expr::Cons(b1, b2)) => *a1 == *b1 && *a2 == *b2,
        (Expr::Sym(x), Expr::Sym(y)) => chars_equal(x, y),
        (Expr::Num(x), Expr::Num(y)) => digits_equal(x.digits(), y.digits()),
        (Expr::Str(x), Expr::Str(y)) => chars_equal(x, y),
        _ => false,
    }
}

impl Expr {
    /// The name of a symbol.
    pub fn as_sym_str(&self) -> (r: Option<String>)
        ensures
            self@ matches Node::Sym(name) ==> (r matches Some(s) && s@ == name),
            !(self@ is Sym) ==> r is None,
    {
        match self {
            Expr::Sym(name) => Some(string_of(name)),
            _ => None,
        }
    }

    /// Keyword symbols are those whose name begins with `:`.
    pub fn is_keyword_sym(&self) -> (r: bool)
        ensures
            r == (self@ matches Node::Sym(name) && name.len() > 0 && name[0] == ':'),
    {
        match self {
            Expr::Sym(name) => name.len() > 0 && name[0] == ':',
            _ => false,
        }
    }
}

fn tag_of(e: &Expr) -> (r: Tag)
    ensures
        r == node_tag(e@),
{
    match e {
        Expr::Nil => Tag::Nil,
        Expr::Cons(_, _) => Tag::Cons,
        Expr::Sym(_) => Tag::Sym,
        Expr::Num(_) => Tag::Num,
        Expr::Str(_) => Tag::Str,
    }
}

/// The hash-consing term store: every distinct expression is held once, so
/// two pointers are equal exactly when they stand for the same term.
pub struct Pool {
    exprs: Vec<Expr>,
    scalars: Vec<(u64, u64)>,
}

impl View for Pool {
    type V = Seq<Node>;

    closed spec fn view(&self) -> Seq<Node> {
        self.exprs@.map_values(|e: Expr| e@)
    }
}

impl Pool {
    /// Every slot points below itself, and no two slots are equal.
    pub open spec fn wf(&self) -> bool {
        &&& forall|i: int| 0 <= i < self@.len() ==> #[trigger] slot_ok(self@, i)
        &&& forall|i: int, j: int|
            0 <= i < self@.len() && 0 <= j < self@.len() && i != j ==> #[trigger] self@[i]
                != #[trigger] self@[j]
        &&& self.cache_ok()
    }

    /// The digest cache holds, for a prefix of the slots, each slot's tag
    /// and digest.
    pub closed spec fn cache_ok(&self) -> bool {
        &&& self.scalars@.len() <= self@.len()
        &&& forall|i: int|
            0 <= i < self.scalars@.len() ==> #[trigger] self.scalars@[i] == (
                node_tag(self@[i]).spec_code(),
                i as u64,
            )
    }

    /// How many slots have their digest cached.
    pub closed spec fn hydrated_len(&self) -> nat {
        self.scalars@.len()
    }

    pub open spec fn valid(&self, p: Ptr) -> bool {
        ptr_below(self@, p, self@.len() as int)
    }

    /// The term that `p` stands for.
    pub open spec fn term(&self, p: Ptr) -> Term {
        term_at(self@, p.idx as int)
    }

    /// `self` holds every slot of `prev`, unchanged, and maybe more.
    pub open spec fn extends(&self, prev: &Pool) -> bool {
        prev@.is_prefix_of(self@)
    }

    pub fn new() -> (r: Pool)
        ensures
            r.wf(),
            r@.len() == 0,
    {
        let r = Pool { exprs: Vec::new(), scalars: Vec::new() };
        assert(r@ =~= Seq::<Node>::empty());
        r
    }

    pub fn len(&self) -> (r: usize)
        ensures
            r == self@.len(),
    {
        self.exprs.len()
    }

    /// The expression that `p` points to, if `p` is a pointer of this pool.
    pub fn fetch(&self, p: &Ptr) -> (r: Option<&Expr>)
        ensures
            self.valid(*p) ==> (r matches Some(e) && e@ == self@[p.idx as int]),
            !self.valid(*p) ==> r is None,
    {
        if p.idx < self.exprs.len() && tag_of(&self.exprs[p.idx]) == p.tag {
            Some(&self.exprs[p.idx])
        } else {
            None
        }
    }

    /// Computes the digest of every slot not yet cached, so that later
    /// lookups need no computation.
    pub fn hydrate_scalar_cache(&mut self)
        requires
            old(self).wf(),
        ensures
            final(self).wf(),
            final(self)@ == old(self)@,
            final(self).hydrated_len() == final(self)@.len(),
    {
        let n = self.exprs.len();
        while self.scalars.len() < n
            invariant
                n == self.exprs@.len(),
                self@ == old(self)@,
                self.wf(),
            decreases n - self.scalars@.len(),
        {
            let i = self.scalars.len();
            let tag = tag_of(&self.exprs[i]);
            assert(self@[i as int] == self.exprs@[i as int]@);
            self.scalars.push((tag.code(), i as u64));
        }
    }

    /// The tag and digest of `p`, once its slot's digest is cached. The digest
    /// is the slot index: it stands in for an algebraic hash, and since
    /// slots follow the order of interning it identifies a term within this
    /// pool only.
    pub fn hash_expr(&self, p: &Ptr) -> (r: Option<(u64, u64)>)
        requires
            self.wf(),
        ensures
            self.valid(*p) && p.idx < self.hydrated_len() ==> r == Some(
                (p.tag.spec_code(), p.idx as u64),
            ),
            !(self.valid(*p) && p.idx < self.hydrated_len()) ==> r is None,
    {
        if p.idx < self.scalars.len() && tag_of(&self.exprs[p.idx]) == p.tag {
            assert(self@[p.idx as int] == self.exprs@[p.idx as int]@);
            Some(self.scalars[p.idx])
        } else {
            proof {
                if p.idx < self.exprs@.len() {
                    assert(self@[p.idx as int] == self.exprs@[p.idx as int]@);
                }
            }
            None
        }
    }

    /// Interns `e`: returns the slot that already holds it, or a new one.
    fn intern(&mut self, e: Expr) -> (p: Ptr)
        requires
            old(self).wf(),
            e@ matches Node::Cons(a, b) ==> old(self).valid(a) && old(self).valid(b),
            e@ matches Node::Num(ds) ==> num_ok(ds),
        ensures
            final(self).wf(),
            final(self).extends(old(self)),
            final(self).valid(p),
            final(self)@[p.idx as int] == e@,
            p.tag == node_tag(e@),
            p.idx < old(self)@.len() ==> final(self)@ == old(self)@,
    {
        let n = self.exprs.len();
        let mut i: usize = 0;
        while i < n
            invariant
                n == self.exprs@.len(),
                i <= n,
                self.wf(),
                forall|j: int| 0 <= j < i ==> self@[j] != e@,
            decreases n - i,
        {
            if same_expr(&self.exprs[i], &e) {
                assert(self@[i as int] == self.exprs@[i as int]@);
                assert(self@ =~= self@.subrange(0, self@.len() as int));
                return Ptr { tag: tag_of(&e), idx: i };
            }
            assert(self@[i as int] == self.exprs@[i as int]@);
            i += 1;
        }
        let tag = tag_of(&e);
        let ghost prev = self@;
        let ghost ev = e@;
        self.exprs.push(e);
        assert(self@ =~= prev.push(ev));
        assert forall|k: int| 0 <= k < self@.len() implies #[trigger] slot_ok(self@, k) by {
            if k < n {
                assert(slot_ok(prev, k));
            }
        }
        assert(prev =~= self@.subrange(0, prev.len() as int));
        assert forall|i: int| 0 <= i < self.scalars@.len() implies #[trigger] self.scalars@[i] == (
            node_tag(self@[i]).spec_code(),
            i as u64,
        ) by {
            assert(self@[i] == prev[i]);
        }
        Ptr { tag, idx: n }
    }
}

impl Pool {
    /// Pointers valid in `prev` stay valid, with the same terms.
    pub proof fn lemma_extends_keeps(&self, prev: &Pool, q: Ptr)
        requires
            self.extends(prev),
            prev.valid(q),
        ensures
            self.valid(q),
            self.term(q) == prev.term(q),
    {
        assert(self@[q.idx as int] == prev@[q.idx as int]);
        lemma_term_stable(prev@, self@, q.idx as int);
    }

    pub fn alloc_nil(&mut self) -> (p: Ptr)
        requires
            old(self).wf(),
        ensures
            final(self).wf(),
            final(self).extends(old(self)),
            final(self).valid(p),
            final(self).term(p) == Term::Nil,
    {
        self.intern(Expr::Nil)
    }

    pub fn alloc_num(&mut self, n: u64) -> (p: Ptr)
        requires
            old(self).wf(),
        ensures
            final(self).wf(),
            final(self).extends(old(self)),
            final(self).valid(p),
            final(self).term(p) == Term::Num(n as nat),
    {
        let f = Fr::from_u64(n);
        self.alloc_fr(f)
    }

    /// Interns a number given as a field element.
    pub fn alloc_fr(&mut self, f: Fr) -> (p: Ptr)
        requires
            old(self).wf(),
            f.wf(),
        ensures
            final(self).wf(),
            final(self).extends(old(self)),
            final(self).valid(p),
            final(self).term(p) == Term::Num(f@),
    {
        proof {
            f.lemma_view();
        }
        self.intern(Expr::Num(f))
    }

    pub fn alloc_cons(&mut self, a: Ptr, b: Ptr) -> (p: Ptr)
        requires
            old(self).wf(),
            old(self).valid(a),
            old(self).valid(b),
        ensures
            final(self).wf(),
            final(self).extends(old(self)),
            final(self).valid(p),
            final(self).term(p) == Term::Cons(Box::new(old(self).term(a)), Box::new(old(self).term(b))),
    {
        let ghost prev = *self;
        let p = self.intern(Expr::Cons(a, b));
        proof {
            self.lemma_extends_keeps(&prev, a);
            self.lemma_extends_keeps(&prev, b);
            assert(slot_ok(self@, p.idx as int));
        }
        p
    }

    /// Interns a string value made of these characters.
    pub fn alloc_str_chars(&mut self, s: Vec<char>) -> (p: Ptr)
        requires
            old(self).wf(),
        ensures
            final(self).wf(),
            final(self).extends(old(self)),
            final(self).valid(p),
            final(self).term(p) == Term::Str(s@),
    {
        self.intern(Expr::Str(s))
    }

    pub fn alloc_str(&mut self, s: &str) -> (p: Ptr)
        requires
            old(self).wf(),
        ensures
            final(self).wf(),
            final(self).extends(old(self)),
            final(self).valid(p),
            final(self).term(p) == Term::Str(s@),
    {
        let v = chars_of(s);
        self.alloc_str_chars(v)
    }

    /// Interns a symbol: the name is folded to upper case, and `NIL` gives
    /// the empty list.
    pub fn alloc_sym_chars(&mut self, name: &Vec<char>) -> (p: Ptr)
        requires
            old(self).wf(),
        ensures
            final(self).wf(),
            final(self).extends(old(self)),
            final(self).valid(p),
            final(self).term(p) == sym_term(name@),
    {
        let mut up: Vec<char> = Vec::new();
        let mut i: usize = 0;
        while i < name.len()
            invariant
                i <= name@.len(),
                up@ == upper(name@.subrange(0, i as int)),
            decreases name@.len() - i,
        {
            let c = to_upper(name[i]);
            up.push(c);
            i += 1;
            assert(up@ =~= upper(name@.subrange(0, i as int)));
        }
        assert(name@.subrange(0, name@.len() as int) =~= name@);
        let nil_v: Vec<char> = vec!['N', 'I', 'L'];
        assert(nil_v@ =~= nil_name());
        if chars_equal(&up, &nil_v) {
            self.alloc_nil()
        } else {
            self.intern(Expr::Sym(up))
        }
    }

    pub fn alloc_sym(&mut self, name: &str) -> (p: Ptr)
        requires
            old(self).wf(),
        ensures
            final(self).wf(),
            final(self).extends(old(self)),
            final(self).valid(p),
            final(self).term(p) == sym_term(name@),
    {
        let v = chars_of(name);
        self.alloc_sym_chars(&v)
    }

    /// Interns `items` as a proper list, first item outermost.
    pub fn alloc_list(&mut self, items: &[Ptr]) -> (p: Ptr)
        requires
            old(self).wf(),
            forall|k: int| 0 <= k < items@.len() ==> old(self).valid(#[trigger] items@[k]),
        ensures
            final(self).wf(),
            final(self).extends(old(self)),
            final(self).valid(p),
            final(self).term(p) == list_term(old(self).terms(items@)),
    {
        let ghost start = *self;
        let mut acc = self.alloc_nil();
        let mut i: usize = items.len();
        assert(start.terms(items@).subrange(i as int, items@.len() as int) =~= Seq::<Term>::empty());
        while i > 0
            invariant
                i <= items@.len(),
                self.wf(),
                self.extends(&start),
                self.valid(acc),
                forall|k: int| 0 <= k < items@.len() ==> start.valid(#[trigger] items@[k]),
                self.term(acc) == list_term(start.terms(items@).subrange(i as int, items@.len() as int)),
            decreases i,
        {
            i -= 1;
            let ghost before = *self;
            proof {
                before.lemma_extends_keeps(&start, items@[i as int]);
            }
            acc = self.alloc_cons(items[i], acc);
            proof {
                let ts = start.terms(items@);
                let tail = ts.subrange(i as int, items@.len() as int);
                assert(tail.drop_first() =~= ts.subrange(i + 1, items@.len() as int));
                assert(tail[0] == ts[i as int]);
                assert(self@.subrange(0, start@.len() as int) =~= before@.subrange(0, start@.len() as int));
            }
        }
        assert(start.terms(items@).subrange(0, items@.len() as int) =~= start.terms(items@));
        acc
    }

    pub open spec fn terms(&self, ps: Seq<Ptr>) -> Seq<Term> {
        ps.map_values(|q: Ptr| self.term(q))
    }
}

/// The tag of a valid pointer is the kind of the term it stands for.
pub proof fn lemma_tag_of_term(pool: &Pool, p: Ptr)
    requires
        pool.wf(),
        pool.valid(p),
    ensures
        term_tag(pool.term(p)) == p.tag,
{
    assert(slot_ok(pool@, p.idx as int));
}

/// What a read returned: `None` where nothing was read, else a pointer of
/// `pool` to the term read.
pub open spec fn read_as(pool: &Pool, r: Option<Ptr>, expected: Option<Term>) -> bool {
    match expected {
        Some(t) => (r matches Some(p) && pool.valid(p) && pool.term(p) == t),
        None => r is None,
    }
}

impl Default for Pool {
    fn default() -> (r: Pool)
        ensures
            r.wf(),
            r@.len() == 0,
    {
        Pool::new()
    }
}

/// Hydrating the digest cache twice has the same observable effect as
/// hydrating it once: `once` and `twice` stand for the pool after one and
/// after two passes of `hydrate_scalar_cache` from `start`, as its contract
/// describes them; they hold the same slots, the same cached digests and
/// give every pointer the same term.
pub proof fn lemma_hydrate_idempotent(start: &Pool, once: &Pool, twice: &Pool)
    requires
        start.wf(),
        once.wf(),
        once@ == start@,
        once.hydrated_len() == once@.len(),
        twice.wf(),
        twice@ == once@,
        twice.hydrated_len() == twice@.len(),
    ensures
        twice@ == once@,
        twice.hydrated_len() == once.hydrated_len(),
        forall|p: Ptr| #[trigger] twice.valid(p) == once.valid(p),
        forall|p: Ptr| #[trigger] twice.term(p) == once.term(p),
        forall|p: Ptr|
            (#[trigger] twice.valid(p) && p.idx < twice.hydrated_len()) == (once.valid(p) && p.idx
                < once.hydrated_len()),
{
}

/// Terms of slots already present are unchanged when a pool grows.
pub proof fn lemma_term_stable(nodes: Seq<Node>, more: Seq<Node>, i: int)
    requires
        0 <= i < nodes.len(),
        nodes.len() <= more.len(),
        nodes == more.subrange(0, nodes.len() as int),
    ensures
        term_at(more, i) == term_at(nodes, i),
    decreases i,
{
    assert(more[i] == nodes[i]);
    match nodes[i] {
        Node::Cons(a, b) => {
            if a.idx < i && b.idx < i {
                lemma_term_stable(nodes, more, a.idx as int);
                lemma_term_stable(nodes, more, b.idx as int);
            }
        },
        _ => {},
    }
}

/// Interning is exact: two pointers of a well-formed pool are equal if and
/// only if they stand for the same term.
pub proof fn lemma_ptr_eq_iff_term_eq(pool: &Pool, p: Ptr, q: Ptr)
    requires
        pool.wf(),
        pool.valid(p),
        pool.valid(q),
    ensures
        p == q <==> pool.term(p) == pool.term(q),
    decreases p.idx + q.idx,
{
    let nodes = pool@;
    if pool.term(p) == pool.term(q) {
        assert(slot_ok(nodes, p.idx as int));
        assert(slot_ok(nodes, q.idx as int));
        match (nodes[p.idx as int], nodes[q.idx as int]) {
            (Node::Cons(a, b), Node::Cons(c, d)) => {
                lemma_ptr_eq_iff_term_eq(pool, a, c);
                lemma_ptr_eq_iff_term_eq(pool, b, d);
            },
            (Node::Num(x), Node::Num(y)) => {
                lemma_canonical_injective(x, y);
            },
            _ => {},
        }
        assert(nodes[p.idx as int] == nodes[q.idx as int]);
    }
}

} // verus!
