use vstd::prelude::*;

verus! {

/// The value of little-endian decimal digits: the first digit is the least
/// significant.
pub open spec fn digits_value(ds: Seq<u8>) -> nat
    decreases ds.len(),
{
    if ds.len() == 0 {
        0
    } else {
        ds[0] as nat + 10 * digits_value(ds.drop_first())
    }
}

pub open spec fn pow10(n: nat) -> nat
    decreases n,
{
    if n == 0 {
        1
    } else {
        10 * pow10((n - 1) as nat)
    }
}

/// Every entry is a decimal digit.
pub open spec fn all_digits(ds: Seq<u8>) -> bool {
    forall|k: int| 0 <= k < ds.len() ==> #[trigger] ds[k] < 10
}

/// Decimal digits without a zero in the most significant place; zero has
/// no digits.
pub open spec fn canonical(ds: Seq<u8>) -> bool {
    all_digits(ds) && (ds.len() == 0 || ds.last() != 0)
}

/// The digits of the order of the scalar field, least significant first.
pub open spec fn modulus_digits() -> Seq<u8> {
    seq![3, 1, 5, 4, 8, 1, 1, 8, 5, 8, 3, 9, 9, 9, 6, 8, 5, 6, 3, 0, 6, 2, 2, 8, 7, 3, 6, 7, 2, 5, 0, 0, 5, 2, 5, 5, 0, 9, 6, 7, 3, 8, 5, 6, 9, 5, 8, 1, 8, 0, 5, 0, 4, 7, 7, 4, 4, 9, 7, 4, 0, 9, 1, 6, 2, 1, 5, 7, 1, 5, 7, 8, 5, 3, 4, 2, 5]
}

/// The order of the scalar field, a prime: numbers are its elements.
pub open spec fn field_modulus() -> nat {
    digits_value(modulus_digits())
}

pub proof fn lemma_pow10_pos(n: nat)
    ensures
        pow10(n) >= 1,
    decreases n,
{
    if n > 0 {
        lemma_pow10_pos((n - 1) as nat);
    }
}

pub proof fn lemma_pow10_grows(a: nat, b: nat)
    requires
        a <= b,
    ensures
        pow10(a) <= pow10(b),
    decreases b - a,
{
    if a < b {
        lemma_pow10_grows(a, (b - 1) as nat);
        lemma_pow10_pos((b - 1) as nat);
    }
}

/// Appending a most significant digit adds it at its place value.
pub proof fn lemma_value_push(ds: Seq<u8>, x: u8)
    ensures
        digits_value(ds.push(x)) == digits_value(ds) + x * pow10(ds.len()),
    decreases ds.len(),
{
    if ds.len() == 0 {
        assert(ds.push(x).drop_first() =~= Seq::<u8>::empty());
        assert(pow10(0) == 1);
        assert(digits_value(Seq::<u8>::empty()) == 0);
        assert(ds.push(x)[0] == x);
    } else {
        assert(ds.push(x).drop_first() =~= ds.drop_first().push(x));
        assert(ds.push(x)[0] == ds[0]);
        lemma_value_push(ds.drop_first(), x);
        let a = x as int;
        let q = pow10((ds.len() - 1) as nat) as int;
        assert(pow10(ds.len()) == 10 * q);
        assert(10 * (a * q) == a * (10 * q)) by (nonlinear_arith);
    }
}

/// Digits below ten make a value below ten to the number of digits.
pub proof fn lemma_value_bound(ds: Seq<u8>)
    requires
        all_digits(ds),
    ensures
        digits_value(ds) < pow10(ds.len()),
    decreases ds.len(),
{
    if ds.len() > 0 {
        assert(all_digits(ds.drop_first())) by {
            assert forall|k: int| 0 <= k < ds.drop_first().len() implies #[trigger] ds.drop_first()[k]
                < 10 by {
                assert(ds.drop_first()[k] == ds[k + 1]);
            }
        }
        assert(ds[0] < 10);
        lemma_value_bound(ds.drop_first());
    }
}

/// A canonical nonzero digit string has a nonzero value.
pub proof fn lemma_canonical_positive(ds: Seq<u8>)
    requires
        canonical(ds),
        ds.len() > 0,
    ensures
        digits_value(ds) >= 1,
{
    let init = ds.drop_last();
    assert(init.push(ds.last()) =~= ds);
    lemma_value_push(init, ds.last());
    lemma_pow10_pos(init.len());
    assert(ds.last() * pow10(init.len()) >= 1) by (nonlinear_arith)
        requires
            ds.last() >= 1,
            pow10(init.len()) >= 1,
    ;
}

/// Canonical digit strings are equal exactly when their values are.
pub proof fn lemma_canonical_injective(a: Seq<u8>, b: Seq<u8>)
    requires
        canonical(a),
        canonical(b),
        digits_value(a) == digits_value(b),
    ensures
        a == b,
    decreases a.len() + b.len(),
{
    if a.len() == 0 || b.len() == 0 {
        if a.len() > 0 {
            lemma_canonical_positive(a);
        }
        if b.len() > 0 {
            lemma_canonical_positive(b);
        }
        assert(a =~= b);
    } else {
        let (ra, rb) = (a.drop_first(), b.drop_first());
        let (va, vb) = (digits_value(ra) as int, digits_value(rb) as int);
        let (a0, b0) = (a[0] as int, b[0] as int);
        assert(a0 < 10 && b0 < 10);
        assert(a0 == b0 && va == vb) by (nonlinear_arith)
            requires
                a0 + 10 * va == b0 + 10 * vb,
                0 <= a0 < 10,
                0 <= b0 < 10,
                va >= 0,
                vb >= 0,
        ;
        assert(canonical(ra)) by {
            assert forall|k: int| 0 <= k < ra.len() implies #[trigger] ra[k] < 10 by {
                assert(ra[k] == a[k + 1]);
            }
        }
        assert(canonical(rb)) by {
            assert forall|k: int| 0 <= k < rb.len() implies #[trigger] rb[k] < 10 by {
                assert(rb[k] == b[k + 1]);
            }
        }
        lemma_canonical_injective(ra, rb);
        assert(a =~= b) by {
            assert forall|k: int| 0 <= k < a.len() implies a[k] == b[k] by {
                if k > 0 {
                    assert(a[k] == ra[k - 1]);
                    assert(b[k] == rb[k - 1]);
                }
            }
        }
    }
}

pub proof fn lemma_modulus_bounds()
    ensures
        field_modulus() > u64::MAX,
        canonical(modulus_digits()),
{
    let m = modulus_digits();
    assert(m.len() == 77);
    assert(m.last() == 5);
    let init = m.drop_last();
    assert(init.push(m.last()) =~= m);
    lemma_value_push(init, m.last());
    reveal_with_fuel(pow10, 21);
    assert(pow10(20) == 100000000000000000000nat);
    lemma_pow10_grows(20, 76);
    assert(all_digits(m));
}

/// An element of the scalar field, held as its canonical decimal digits,
/// least significant first.
#[derive(Debug)]
pub struct Fr {
    digits: Vec<u8>,
}

impl View for Fr {
    type V = nat;

    closed spec fn view(&self) -> nat {
        digits_value(self.digits@)
    }
}

impl Fr {
    pub closed spec fn spec_digits(&self) -> Seq<u8> {
        self.digits@
    }

    /// The digits are canonical and the value lies below the field order.
    pub closed spec fn wf(&self) -> bool {
        canonical(self.digits@) && digits_value(self.digits@) < field_modulus()
    }

    pub proof fn lemma_view(&self)
        requires
            self.wf(),
        ensures
            self@ < field_modulus(),
            canonical(self.spec_digits()),
            self@ == digits_value(self.spec_digits()),
    {
    }

    /// Canonical digits of a value below the field order make a well-formed
    /// element.
    pub proof fn lemma_wf_from_digits(&self)
        requires
            canonical(self.spec_digits()),
            digits_value(self.spec_digits()) < field_modulus(),
        ensures
            self.wf(),
            self@ == digits_value(self.spec_digits()),
    {
    }

    pub fn zero() -> (r: Fr)
        ensures
            r.wf(),
            r@ == 0,
    {
        proof {
            lemma_modulus_bounds();
        }
        let r = Fr { digits: Vec::new() };
        assert(r.digits@ =~= Seq::<u8>::empty());
        r
    }

    pub fn from_u64(n: u64) -> (r: Fr)
        ensures
            r.wf(),
            r@ == n as nat,
    {
        let mut digits: Vec<u8> = Vec::new();
        let mut m = n;
        proof {
            lemma_modulus_bounds();
            assert(pow10(0) == 1);
            assert(digits@ =~= Seq::<u8>::empty());
            assert(digits_value(digits@) == 0);
        }
        while m > 0
            invariant
                digits_value(digits@) + pow10(digits@.len()) * m == n,
                all_digits(digits@),
                m == 0 ==> canonical(digits@),
            decreases m,
        {
            let d = (m % 10) as u8;
            let ghost old_digits = digits@;
            digits.push(d);
            proof {
                lemma_value_push(old_digits, d);
                let q = pow10(old_digits.len()) as int;
                let mi = m as int;
                assert(pow10(digits@.len()) == 10 * q);
                assert((digits_value(old_digits) + d * q) + (10 * q) * (mi / 10) == digits_value(
                    old_digits,
                ) + q * mi) by (nonlinear_arith)
                    requires
                        d as int == mi % 10,
                        mi >= 0,
                ;
                assert(all_digits(digits@)) by {
                    assert forall|k: int| 0 <= k < digits@.len() implies #[trigger] digits@[k] < 10 by {
                        if k < old_digits.len() {
                            assert(digits@[k] == old_digits[k]);
                        }
                    }
                }
            }
            m = m / 10;
        }
        proof {
            lemma_pow10_pos(digits@.len());
        }
        Fr { digits }
    }

    /// The least significant digit first.
    pub fn digits(&self) -> (r: &Vec<u8>)
        ensures
            r@ == self.spec_digits(),
    {
        &self.digits
    }

    /// `self * 10 + d`, reduced modulo the field order.
    pub fn mul10_add(&self, d: u8) -> (r: Fr)
        requires
            self.wf(),
            d < 10,
        ensures
            r.wf(),
            r@ == (self@ * 10 + d as nat) % field_modulus(),
    {
        proof {
            lemma_modulus_bounds();
        }
        let ghost target: nat = self@ * 10 + d as nat;
        let mut t: Vec<u8> = Vec::new();
        if self.digits.len() > 0 || d != 0 {
            t.push(d);
            let mut k: usize = 0;
            while k < self.digits.len()
                invariant
                    k <= self.digits@.len(),
                    t@.len() == k + 1,
                    t@[0] == d,
                    t@.drop_first() == self.digits@.subrange(0, k as int),
                decreases self.digits@.len() - k,
            {
                t.push(self.digits[k]);
                k += 1;
                assert(t@.drop_first() =~= self.digits@.subrange(0, k as int));
            }
            assert(self.digits@.subrange(0, self.digits@.len() as int) =~= self.digits@);
            assert(canonical(t@)) by {
                assert forall|j: int| 0 <= j < t@.len() implies #[trigger] t@[j] < 10 by {
                    if j > 0 {
                        assert(t@[j] == t@.drop_first()[j - 1]);
                    }
                }
                if self.digits@.len() > 0 {
                    assert(t@.last() == self.digits@.last());
                }
            }
        } else {
            assert(t@ =~= Seq::<u8>::empty());
        }
        assert(digits_value(t@) == target);
        let modulus = modulus_vec();
        let ghost p = field_modulus() as int;
        loop
            invariant
                canonical(t@),
                p == field_modulus(),
                p > u64::MAX,
                modulus@ == modulus_digits(),
                (digits_value(t@) as int) % p == (target as int) % p,
                target == self@ * 10 + d as nat,
            decreases digits_value(t@),
        {
            match sub_digits(&t, &modulus) {
                Some(diff) => {
                    proof {
                        vstd::arithmetic::div_mod::lemma_mod_sub_multiples_vanish(
                            digits_value(t@) as int,
                            p,
                        );
                    }
                    t = diff;
                },
                None => {
                    proof {
                        vstd::arithmetic::div_mod::lemma_small_mod(digits_value(t@), p as nat);
                        assert(digits_value(t@) == (target as int) % p);
                    }
                    let r = Fr { digits: t };
                    assert(r@ == digits_value(t@));
                    return r;
                },
            }
        }
    }
}

fn modulus_vec() -> (r: Vec<u8>)
    ensures
        r@ == modulus_digits(),
{
    let r: Vec<u8> = vec![3, 1, 5, 4, 8, 1, 1, 8, 5, 8, 3, 9, 9, 9, 6, 8, 5, 6, 3, 0, 6, 2, 2, 8, 7, 3, 6, 7, 2, 5, 0, 0, 5, 2, 5, 5, 0, 9, 6, 7, 3, 8, 5, 6, 9, 5, 8, 1, 8, 0, 5, 0, 4, 7, 7, 4, 4, 9, 7, 4, 0, 9, 1, 6, 2, 1, 5, 7, 1, 5, 7, 8, 5, 3, 4, 2, 5];
    assert(r@ =~= modulus_digits());
    r
}

fn copy_padded(s: &Vec<u8>, n: usize) -> (r: Vec<u8>)
    requires
        all_digits(s@),
        s@.len() <= n,
    ensures
        r@.len() == n,
        all_digits(r@),
        digits_value(r@) == digits_value(s@),
{
    let mut r: Vec<u8> = Vec::new();
    let mut k: usize = 0;
    while k < s.len()
        invariant
            k <= s@.len(),
            r@ == s@.subrange(0, k as int),
        decreases s@.len() - k,
    {
        r.push(s[k]);
        k += 1;
        assert(r@ =~= s@.subrange(0, k as int));
    }
    assert(s@.subrange(0, s@.len() as int) =~= s@);
    while r.len() < n
        invariant
            s@.len() <= r@.len() <= n,
            all_digits(r@),
            digits_value(r@) == digits_value(s@),
        decreases n - r@.len(),
    {
        let ghost before = r@;
        r.push(0);
        proof {
            lemma_value_push(before, 0);
            assert forall|j: int| 0 <= j < r@.len() implies #[trigger] r@[j] < 10 by {
                if j < before.len() {
                    assert(r@[j] == before[j]);
                }
            }
        }
    }
    r
}

/// `a - b` in canonical digits, or `None` when `a < b`.
fn sub_digits(a: &Vec<u8>, b: &Vec<u8>) -> (r: Option<Vec<u8>>)
    requires
        all_digits(a@),
        all_digits(b@),
    ensures
        r is None <==> digits_value(a@) < digits_value(b@),
        r matches Some(d) ==> canonical(d@) && digits_value(d@) == digits_value(a@) - digits_value(
            b@,
        ),
{
    let n = if a.len() >= b.len() {
        a.len()
    } else {
        b.len()
    };
    let x = copy_padded(a, n);
    let y = copy_padded(b, n);
    let mut diff: Vec<u8> = Vec::new();
    let mut borrow: u8 = 0;
    let mut i: usize = 0;
    assert(x@.subrange(0, 0) =~= Seq::<u8>::empty());
    assert(y@.subrange(0, 0) =~= Seq::<u8>::empty());
    while i < n
        invariant
            x@.len() == n,
            y@.len() == n,
            all_digits(x@),
            all_digits(y@),
            i <= n,
            diff@.len() == i,
            all_digits(diff@),
            borrow <= 1,
            digits_value(x@.subrange(0, i as int)) - digits_value(y@.subrange(0, i as int))
                == digits_value(diff@) - borrow * pow10(i as nat),
        decreases n - i,
    {
        let xi = x[i];
        let yi = y[i];
        let (digit, next) = if xi >= yi + borrow {
            (xi - yi - borrow, 0u8)
        } else {
            (xi + 10 - yi - borrow, 1u8)
        };
        let ghost before = diff@;
        diff.push(digit);
        proof {
            assert(x@.subrange(0, i + 1) =~= x@.subrange(0, i as int).push(xi));
            assert(y@.subrange(0, i + 1) =~= y@.subrange(0, i as int).push(yi));
            lemma_value_push(x@.subrange(0, i as int), xi);
            lemma_value_push(y@.subrange(0, i as int), yi);
            lemma_value_push(before, digit);
            let q = pow10(i as nat) as int;
            assert(pow10((i + 1) as nat) == 10 * q);
            assert((xi as int) * q - (yi as int) * q - (borrow as int) * q == (digit as int) * q - (
            next as int) * (10 * q)) by (nonlinear_arith)
                requires
                    xi as int - yi as int - borrow as int == digit as int - 10 * (next as int),
            ;
            assert forall|j: int| 0 <= j < diff@.len() implies #[trigger] diff@[j] < 10 by {
                if j < before.len() {
                    assert(diff@[j] == before[j]);
                }
            }
        }
        borrow = next;
        i += 1;
    }
    assert(x@.subrange(0, n as int) =~= x@);
    assert(y@.subrange(0, n as int) =~= y@);
    if borrow == 1 {
        proof {
            lemma_value_bound(diff@);
        }
        return None;
    }
    while diff.len() > 0 && diff[diff.len() - 1] == 0
        invariant
            all_digits(diff@),
            digits_value(diff@) == digits_value(x@) - digits_value(y@),
        decreases diff@.len(),
    {
        let ghost before = diff@;
        diff.pop();
        proof {
            assert(diff@.push(0) =~= before);
            lemma_value_push(diff@, 0);
            assert forall|j: int| 0 <= j < diff@.len() implies #[trigger] diff@[j] < 10 by {
                assert(diff@[j] == before[j]);
            }
        }
    }
    Some(diff)
}

} // verus!
