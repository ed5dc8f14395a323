use lurk::{CharStream, Pool, Tag};

#[test]
fn interning_shares_equal_terms() {
    let mut pool = Pool::default();
    let a = pool.alloc_num(1);
    let b = pool.alloc_sym("x");
    let c1 = pool.alloc_cons(a, b);
    let n = pool.len();
    let c2 = pool.alloc_cons(a, b);
    assert_eq!(c1, c2);
    assert_eq!(pool.len(), n);
    let c3 = pool.alloc_cons(b, a);
    assert_ne!(c1, c3);
    assert_eq!(pool.alloc_sym("X"), b);
    assert_ne!(pool.alloc_str("X"), b);
    assert!(pool.alloc_sym("nIl").is_nil());
}

#[test]
fn symbols_fold_to_upper_case() {
    let mut pool = Pool::default();
    let s = pool.alloc_sym("lambda-x:y");
    assert_eq!(pool.fetch(&s).unwrap().as_sym_str().unwrap(), "LAMBDA-X:Y");
    let n = pool.alloc_num(3);
    assert!(pool.fetch(&n).unwrap().as_sym_str().is_none());
}

#[test]
fn hydrating_caches_digests_once() {
    let mut pool = Pool::default();
    let a = pool.alloc_num(7);
    let s = pool.alloc_sym("y");
    assert_eq!(pool.hash_expr(&a), None);
    pool.hydrate_scalar_cache();
    assert_eq!(pool.hash_expr(&a), Some((Tag::Num.code(), a.idx as u64)));
    assert_eq!(pool.hash_expr(&s), Some((2, s.idx as u64)));
    let len = pool.len();
    pool.hydrate_scalar_cache();
    assert_eq!(pool.len(), len);
    assert_eq!(pool.hash_expr(&a), Some((4, a.idx as u64)));
    let c = pool.alloc_cons(a, s);
    assert_eq!(pool.hash_expr(&c), None);
    pool.hydrate_scalar_cache();
    assert_eq!(pool.hash_expr(&c), Some((1, c.idx as u64)));
}

#[test]
fn print_then_read_gives_the_same_term() {
    let mut pool = Pool::default();
    let one = pool.alloc_num(1);
    let big = pool.alloc_num(18446744073709551615);
    let s = pool.alloc_str("hi there");
    let k = pool.alloc_sym(":key");
    let pair = pool.alloc_cons(one, k);
    let list = pool.alloc_list(&[pair, s, big]);
    let text = list.fmt_to_string(&pool);
    assert_eq!(text, "((1 . :KEY) \"hi there\" 18446744073709551615)");
    assert_eq!(pool.read(&text), Some(list));
    let nil = pool.alloc_nil();
    assert_eq!(nil.fmt_to_string(&pool), "NIL");
}

#[test]
fn quote_reads_as_quote_form() {
    let mut pool = Pool::default();
    let e = pool.read("'a").unwrap();
    assert_eq!(e.fmt_to_string(&pool), "(QUOTE A)");
    let e2 = pool.read("(quote a)").unwrap();
    assert_eq!(e, e2);
}

#[test]
fn malformed_input_reads_as_nothing() {
    let mut pool = Pool::default();
    assert_eq!(pool.read("(1 . 2 3)"), None);
    assert_eq!(pool.read("(1 2"), None);
    assert_eq!(pool.read("#"), None);
    assert_eq!(pool.read(""), None);
    assert_eq!(pool.read("   ; only a comment"), None);
    let mut chars = CharStream::new("!!a");
    assert_eq!(pool.read_maybe_meta(&mut chars), None);
}

#[test]
fn dotted_tail_takes_exactly_one_expression() {
    let mut pool = Pool::default();
    assert_eq!(pool.read("(1 . 2 . nil)"), None);
    assert_eq!(pool.read("(. 2)"), None);
    assert_eq!(pool.read("( . 2)"), None);
    assert_eq!(pool.read("(1 . )"), None);
    let a = pool.read("(1 . 2)").unwrap();
    assert_eq!(a.fmt_to_string(&pool), "(1 . 2)");
    assert_eq!(pool.read("(1 . ; note\n 2 )"), Some(a));
    assert_eq!(pool.read("(1 . (2))"), pool.read("(1 2)"));
}

#[test]
fn large_numbers_read_into_the_field() {
    let mut pool = Pool::default();
    let big = pool.read("99999999999999999999").unwrap();
    assert_eq!(big.fmt_to_string(&pool), "99999999999999999999");
    assert_ne!(big, pool.alloc_num(7766279631452241919));
    let max = pool.read("18446744073709551615").unwrap();
    assert_eq!(max, pool.alloc_num(u64::MAX));
    let modulus = pool.read("52435875175126190479447740508185965837690552500527637822603658699938581184513").unwrap();
    assert_eq!(modulus, pool.alloc_num(0));
    let above = pool.read("52435875175126190479447740508185965837690552500527637822603658699938581184514").unwrap();
    assert_eq!(above, pool.alloc_num(1));
    let twice = pool.read("104871750350252380958895481016371931675381105001055275645207317399877162369031").unwrap();
    assert_eq!(twice, pool.alloc_num(5));
    let below = pool.read("52435875175126190479447740508185965837690552500527637822603658699938581184512").unwrap();
    assert_eq!(below.fmt_to_string(&pool), "52435875175126190479447740508185965837690552500527637822603658699938581184512");
    let padded = pool.read("00010000000000000000000000000000000000000000").unwrap();
    assert_eq!(padded.fmt_to_string(&pool), "10000000000000000000000000000000000000000");
    assert_eq!(pool.read("10000000000000000000000000000000000000000"), Some(padded));
}

#[test]
fn unterminated_string_consumes_the_rest() {
    let mut pool = Pool::default();
    let mut chars = CharStream::new("  \"asdf");
    assert_eq!(pool.read_string(&mut chars), None);
    assert_eq!(chars.position(), 7);
    let mut other = CharStream::new("  asdf");
    assert_eq!(pool.read_string(&mut other), None);
    assert_eq!(other.position(), 2);
}

#[test]
fn blank_input_is_consumed() {
    let mut pool = Pool::default();
    for input in ["", " \n", ";c", ";c\n "] {
        let mut chars = CharStream::new(input);
        assert_eq!(pool.read_next(&mut chars), None);
        assert_eq!(chars.peek(), None);
    }
}

#[test]
fn reading_consumes_one_expression() {
    let mut pool = Pool::default();
    let mut chars = CharStream::new(" 12 (a) ");
    let n = pool.read_next(&mut chars).unwrap();
    assert_eq!(n, pool.alloc_num(12));
    assert_eq!(chars.position(), 3);
    let l = pool.read_next(&mut chars).unwrap();
    assert_eq!(l.fmt_to_string(&pool), "(A)");
    assert_eq!(pool.read_next(&mut chars), None);
}

#[test]
fn field_elements_from_integers() {
    let mut pool = Pool::default();
    let f = lurk::Fr::from_u64(1234);
    assert_eq!(f.digits(), &vec![4u8, 3, 2, 1]);
    assert!(lurk::Fr::zero().digits().is_empty());
    let g = lurk::Fr::from_u64(99).mul10_add(7);
    assert_eq!(g.digits(), &vec![7u8, 9, 9]);
    let p = pool.alloc_fr(g);
    assert_eq!(p, pool.alloc_num(997));
}
