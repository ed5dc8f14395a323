use lurk::{CharStream, Pool, Ptr};

#[test]
fn read_sym() {
    let test = |input, expected: &str| {
        let mut pool = Pool::default();
        let ptr = &pool.read(input).unwrap();
        let expr = pool.fetch(&ptr).unwrap();

        assert_eq!(expected, expr.as_sym_str().unwrap());
    };

    test("asdf", "ASDF");
    test("asdf ", "ASDF");
    test("asdf(", "ASDF");
    test(" asdf", "ASDF");
    test(" asdf ", "ASDF");
    test(
        "
asdf(", "ASDF",
    );
}

#[test]
fn read_nil() {
    let mut pool = Pool::default();
    let expr = pool.read("nil").unwrap();
    assert!(expr.is_nil());
}

#[test]
fn read_num() {
    let test = |input, expected: u64| {
        let mut pool = Pool::default();
        let expr = pool.read(input).unwrap();
        assert_eq!(pool.alloc_num(expected), expr);
    };
    test("123", 123);
    test("0987654321", 987654321);
    test("123)", 123);
    test("123 ", 123);
    test("123z", 123);
    test(" 123", 123);
    test(
        "
0987654321",
        987654321,
    );
}

#[test]
fn read_list() {
    let mut pool = Pool::default();
    let test = |pool: &mut Pool, input, expected| {
        let expr = pool.read(input).unwrap();
        assert_eq!(expected, &expr);
    };

    let a = pool.alloc_num(123);
    let b = pool.alloc_nil();
    let expected = pool.alloc_cons(a, b);
    test(&mut pool, "(123)", &expected);

    let a = pool.alloc_num(321);
    let expected2 = pool.alloc_cons(a, expected);
    test(&mut pool, "(321 123)", &expected2);

    let a = pool.alloc_sym("PUMPKIN");
    let expected3 = pool.alloc_cons(a, expected2);
    test(&mut pool, "(pumpkin 321 123)", &expected3);

    let nil = pool.alloc_nil();
    let expected4 = pool.alloc_cons(expected, nil);
    test(&mut pool, "((123))", &expected4);

    let (a, b) = (pool.alloc_num(321), pool.alloc_nil());
    let alt = pool.alloc_cons(a, b);
    let expected5 = pool.alloc_cons(alt, expected4);
    test(&mut pool, "((321) (123))", &expected5);

    let expected6 = pool.alloc_cons(expected2, expected3);
    test(&mut pool, "((321 123) pumpkin 321 123)", &expected6);

    let (a, b) = (pool.alloc_num(1), pool.alloc_num(2));
    let pair = pool.alloc_cons(a, b);
    let list = [pair, pool.alloc_num(3)];
    let expected7 = pool.alloc_list(&list);
    test(&mut pool, "((1 . 2) 3)", &expected7);
}

#[test]
fn read_improper_list() {
    let mut pool = Pool::default();
    let test = |pool: &mut Pool, input, expected| {
        let expr = pool.read(input).unwrap();
        assert_eq!(expected, &expr);
    };

    let (a, b) = (pool.alloc_num(123), pool.alloc_num(321));
    let expected = pool.alloc_cons(a, b);
    test(&mut pool, "(123 . 321)", &expected);

    assert_eq!(pool.read("(123 321)"), pool.read("(123 . ( 321 ))"))
}

#[test]
fn read_print_expr() {
    let mut pool = Pool::default();
    let test = |pool: &mut Pool, input| {
        let expr = pool.read(input).unwrap();
        let output = expr.fmt_to_string(pool);
        assert_eq!(input, output);
    };

    test(&mut pool, "A");
    test(&mut pool, "(A . B)");
    test(&mut pool, "(A B C)");
    test(&mut pool, "(A (B) C)");
    test(&mut pool, "(A (B . C) (D E (F)) G)");
}

#[test]
fn read_maybe_meta() {
    let mut pool = Pool::default();
    let test = |pool: &mut Pool, input: &str, expected_ptr: Ptr, expected_meta: bool| {
        let mut chars = CharStream::new(input);

        match pool.read_maybe_meta(&mut chars).unwrap() {
            (ptr, meta) => {
                assert_eq!(expected_ptr, ptr);
                assert_eq!(expected_meta, meta);
            }
        };
    };

    let num = pool.alloc_num(123);
    test(&mut pool, "123", num, false);

    {
        let list = [pool.alloc_num(123), pool.alloc_num(321)];
        let l = pool.alloc_list(&list);
        test(&mut pool, " (123 321)", l, false);
    }
    {
        let list = [pool.alloc_num(123), pool.alloc_num(321)];
        let l = pool.alloc_list(&list);
        test(&mut pool, " !(123 321)", l, true);
    }
    {
        let list = [pool.alloc_num(123), pool.alloc_num(321)];
        let l = pool.alloc_list(&list);
        test(&mut pool, " ! (123 321)", l, true);
    }
    {
        let s = pool.alloc_sym("asdf");
        test(&mut pool, "!asdf", s, true);
    }
    {
        let s = pool.alloc_sym(":assert");
        let l = pool.alloc_list(&[s]);
        test(&mut pool, "!(:assert)", l, true);
    }
    {
        let s = pool.alloc_sym("asdf");
        test(
            &mut pool,
            ";; comment
!asdf",
            s,
            true,
        );
    }
}

#[test]
fn is_keyword() {
    let mut pool = Pool::default();
    let kw = pool.alloc_sym(":UIOP");
    let not_kw = pool.alloc_sym("UIOP");

    assert!(pool.fetch(&kw).unwrap().is_keyword_sym());
    assert!(!pool.fetch(&not_kw).unwrap().is_keyword_sym());
}

#[test]
fn read_string() {
    let mut pool = Pool::default();
    let test = |pool: &mut Pool, input: &str, expected: Option<Ptr>| {
        let maybe_string = pool.read_string(&mut CharStream::new(input));
        assert_eq!(expected, maybe_string);
    };

    let s = pool.alloc_str("asdf");
    test(&mut pool, "\"asdf\"", Some(s));
    test(&mut pool, "\"asdf", None);
    test(&mut pool, "asdf", None);
}

#[test]
fn read_with_comments() {
    let mut pool = Pool::default();

    let test = |pool: &mut Pool, input: &str, expected: Option<Ptr>| {
        let res = pool.read(input);
        assert_eq!(expected, res);
    };

    let num = pool.alloc_num(321);
    test(
        &mut pool,
        ";123
321",
        Some(num),
    );
}
