use sodg::{CommandError, Script, ScriptError, Sodg, StoreError};

fn chars(s: &str) -> Vec<char> {
    s.chars().collect()
}

fn texts(v: Vec<Vec<char>>) -> Vec<String> {
    v.into_iter().map(|t| t.into_iter().collect()).collect()
}

#[test]
fn simple_command() {
    let mut g = Sodg::empty();
    let mut s = Script::from_str(
        "
        ADD(0);  ADD($ν1); # adding two vertices
        BIND(0, $ν1, foo  );
        PUT($ν1  , d0-bf-D1-80-d0-B8-d0-b2-d0-b5-d1-82);
        ",
    );
    let total = s.deploy_to(&mut g).unwrap();
    assert_eq!(4, total);
    assert_eq!(
        "привет",
        std::str::from_utf8(g.data(1).unwrap().unwrap().as_slice()).unwrap()
    );
    assert_eq!(1, g.kid(0, "foo").unwrap());
}

#[test]
fn deploy_to_another_root() {
    let mut g = Sodg::empty();
    g.add(42).unwrap();
    let mut s = Script::from_str(
        "
        ADD($ν1);
        BIND(0, $ν1, foo);
        ",
    );
    s.set_root(42);
    s.deploy_to(&mut g).unwrap();
    assert_eq!(43, g.kid(42, "foo").unwrap());
}

#[test]
fn deploys_hello() {
    let mut g = Sodg::empty();
    let mut s = Script::from_str("ADD(0); ADD($x); BIND(0, $x, foo); PUT($x, 68-65-6c-6c-6f)");
    assert_eq!(Ok(4), s.deploy_to(&mut g));
    assert_eq!(2, g.len());
    assert!(g.contains(0));
    let x = g.kid(0, "foo").unwrap();
    assert_eq!(1, x);
    assert_eq!(Some(b"hello".to_vec()), g.data(x).unwrap());
    assert_eq!(vec![("foo".to_string(), x)], g.kids(0).unwrap());
}

#[test]
fn stops_at_the_first_failure() {
    let mut g = Sodg::empty();
    let mut s = Script::from_str("ADD(0); add 1; ADD(2);");
    assert_eq!(
        Err(ScriptError {
            position: 2,
            command: "add 1".to_string(),
            cause: CommandError::Syntax
        }),
        s.deploy_to(&mut g)
    );
    assert_eq!(1, g.len());
    assert!(g.contains(0));
    assert!(!g.contains(2));
}

#[test]
fn names_an_unknown_command() {
    let mut g = Sodg::empty();
    let mut s = Script::from_str("ADD(0);\nDROP (0)");
    assert_eq!(
        Err(ScriptError {
            position: 2,
            command: "DROP (0)".to_string(),
            cause: CommandError::Unknown("DROP".to_string())
        }),
        s.deploy_to(&mut g)
    );
    assert_eq!(1, g.len());
}

#[test]
fn reports_the_store() {
    let mut g = Sodg::empty();
    let mut s = Script::from_str("ADD(1); ADD(1)");
    assert_eq!(
        Err(ScriptError {
            position: 2,
            command: "ADD(1)".to_string(),
            cause: CommandError::Store(StoreError::Present(1))
        }),
        s.deploy_to(&mut g)
    );
    let mut s = Script::from_str("BIND(1, 2, a)");
    assert_eq!(
        CommandError::Store(StoreError::Absent(2)),
        s.deploy_to(&mut g).unwrap_err().cause
    );
    let mut s = Script::from_str("ADD(2); BIND(1, 2, a); BIND(1, 1, a)");
    let e = s.deploy_to(&mut g).unwrap_err();
    assert_eq!(3, e.position);
    assert_eq!(CommandError::Store(StoreError::Taken(1)), e.cause);
    let mut s = Script::from_str("PUT(9, 00)");
    assert_eq!(
        CommandError::Store(StoreError::Absent(9)),
        s.deploy_to(&mut g).unwrap_err().cause
    );
}

#[test]
fn wants_enough_arguments() {
    for text in ["ADD()", "ADD( , )", "BIND(1, 2)", "PUT(1)", "BIND(1,,2)"] {
        let mut g = Sodg::empty();
        g.add(1).unwrap();
        g.add(2).unwrap();
        let mut s = Script::from_str(text);
        let e = s.deploy_to(&mut g).unwrap_err();
        assert_eq!(CommandError::Arity, e.cause);
        assert_eq!(1, e.position);
        assert_eq!(text, e.command);
    }
}

#[test]
fn passes_over_arguments_it_does_not_take() {
    let mut g = Sodg::empty();
    let mut s = Script::from_str("ADD(1, 2, 3); ADD(2, x); BIND(1, 2, a, b)");
    assert_eq!(Ok(3), s.deploy_to(&mut g));
    assert_eq!(2, g.len());
    assert_eq!(Some(2), g.kid(1, "a"));
}

#[test]
fn rejects_what_is_no_command() {
    for text in [
        "add(1)", "ADd(1)", "(1)", "ADD", "ADD(1", "ADD 1)", "ADD(1))", "ADD(1) x", "ADD\t(1)",
        "ADD(1)(2)", "A1(1)",
    ] {
        let mut g = Sodg::empty();
        let mut s = Script::from_str("");
        assert_eq!(
            Err(CommandError::Syntax),
            s.deploy_one(&chars(text), &mut g),
            "{}",
            text
        );
        assert_eq!(0, g.len());
    }
}

#[test]
fn takes_blanks_before_the_bracket() {
    let mut g = Sodg::empty();
    let mut s = Script::from_str("ADD   (7); ADD((8)");
    let e = s.deploy_to(&mut g).unwrap_err();
    assert!(g.contains(7));
    assert_eq!(2, e.position);
    assert_eq!(CommandError::Vertex, e.cause);
}

#[test]
fn rejects_what_is_no_vertex() {
    for token in ["x", "1x", "-1", "4294967296", "99999999999999999999", "1 2", "+", "٣", "1.0"] {
        let mut g = Sodg::empty();
        let mut s = Script::from_str("");
        assert_eq!(
            Err(CommandError::Vertex),
            s.parse(&chars(token), &g),
            "{}",
            token
        );
        let text = format!("ADD({})", token);
        let e = Script::from_str(&text).deploy_to(&mut g).unwrap_err();
        assert_eq!(CommandError::Vertex, e.cause);
    }
}

#[test]
fn reads_numbers() {
    let g = Sodg::empty();
    let mut s = Script::from_str("");
    assert_eq!(Ok(7), s.parse(&chars("7"), &g));
    assert_eq!(Ok(7), s.parse(&chars("+7"), &g));
    assert_eq!(Ok(7), s.parse(&chars("007"), &g));
    assert_eq!(Ok(4294967295), s.parse(&chars("4294967295"), &g));
    assert_eq!(Ok(4294967295), s.parse(&chars("0004294967295"), &g));
    assert_eq!(Ok(0), s.parse(&chars("0"), &g));
    s.set_root(5);
    assert_eq!(Ok(5), s.parse(&chars("0"), &g));
    assert_eq!(Ok(5), s.parse(&chars("+00"), &g));
    assert_eq!(Ok(1), s.parse(&chars("1"), &g));
}

#[test]
fn gives_a_variable_one_vertex() {
    let mut g = Sodg::empty();
    g.add(10).unwrap();
    let mut s = Script::from_str("");
    assert_eq!(Ok(11), s.parse(&chars("$a"), &g));
    g.add(11).unwrap();
    g.add(20).unwrap();
    assert_eq!(Ok(21), s.parse(&chars("$b"), &g));
    assert_eq!(Ok(11), s.parse(&chars("$a"), &g));
    assert_eq!(Ok(21), s.parse(&chars("$b"), &g));
    assert_eq!(Ok(21), s.parse(&chars("$"), &g));
    g.add(21).unwrap();
    assert_eq!(Ok(21), s.parse(&chars("$"), &g));
    assert_eq!(Ok(22), s.parse(&chars("$ a"), &g));
}

#[test]
fn keeps_variables_between_deployments() {
    let mut g = Sodg::empty();
    let mut s = Script::from_str("ADD($v)");
    assert_eq!(Ok(1), s.deploy_to(&mut g));
    let e = s.deploy_to(&mut g).unwrap_err();
    assert_eq!(CommandError::Store(StoreError::Present(0)), e.cause);
    let mut other = Script::from_str("ADD($v)");
    assert_eq!(Ok(1), other.deploy_to(&mut g));
    assert_eq!(2, g.len());
}

#[test]
fn fails_to_name_a_vertex_when_identifiers_run_out() {
    let mut g = Sodg::empty();
    g.add(u32::MAX).unwrap();
    let mut s = Script::from_str("ADD($v)");
    let e = s.deploy_to(&mut g).unwrap_err();
    assert_eq!(CommandError::Store(StoreError::Exhausted), e.cause);
}

#[test]
fn reads_payloads() {
    assert_eq!(Ok(vec![0x68, 0x65]), Script::parse_data(&chars("68-65")));
    assert_eq!(Ok(vec![0xAB, 0xCD, 0xEF]), Script::parse_data(&chars("ab Cd\teF")));
    assert_eq!(Ok(vec![0x01, 0x23]), Script::parse_data(&chars("0-1-2-3")));
    assert_eq!(Ok(vec![0x00]), Script::parse_data(&chars("-0\r\n0-")));
    assert_eq!(Ok(vec![0xFF, 0x09, 0xA0]), Script::parse_data(&chars("FF09a0")));
}

#[test]
fn rejects_what_is_no_payload() {
    for text in ["", "-", "6", "68-6", "6g", "0x68", "68\u{a0}65", "６８"] {
        assert_eq!(
            Err(CommandError::Data),
            Script::parse_data(&chars(text)),
            "{}",
            text
        );
    }
    let mut g = Sodg::empty();
    let e = Script::from_str("ADD(1); PUT(1, 6-8-6)")
        .deploy_to(&mut g)
        .unwrap_err();
    assert_eq!(2, e.position);
    assert_eq!("PUT(1, 6-8-6)", e.command);
    assert_eq!(CommandError::Data, e.cause);
    assert_eq!(Ok(false), g.is_full(1));
}

#[test]
fn takes_comments_out() {
    let s = Script::from_str("ADD(1); # one\nADD(2) # two; ADD(9)\n; ADD(3); # ADD(4)");
    assert_eq!(vec!["ADD(1)", "ADD(2)", "ADD(3)"], texts(s.commands()));
    let s = Script::from_str("ADD( # the vertex\n 5 )");
    assert_eq!(vec!["ADD(  5 )"], texts(s.commands()));
    let s = Script::from_str("#\n#\nADD(1)#\r\n");
    assert_eq!(vec!["ADD(1)"], texts(s.commands()));
    let s = Script::from_str("PUT(1, # ff\n 00)");
    assert_eq!(vec!["PUT(1,  00)"], texts(s.commands()));
}

#[test]
fn takes_white_space_off() {
    let s = Script::from_str(" \u{2003}ADD(1)\u{a0};;\n\t; ;BIND(1 , 1,\u{3000}a b\u{85})  ");
    assert_eq!(
        vec!["ADD(1)", "BIND(1 , 1,\u{3000}a b\u{85})"],
        texts(s.commands())
    );
    let mut g = Sodg::empty();
    let mut s = Script::from_str("ADD(1); BIND(1 , 1,\u{3000}a b\u{85}); BIND(1, 1, \u{200b}c)");
    assert_eq!(Ok(3), s.deploy_to(&mut g));
    assert_eq!(
        vec![("a b".to_string(), 1), ("\u{200b}c".to_string(), 1)],
        g.kids(1).unwrap()
    );
    assert_eq!(0, texts(Script::from_str("").commands()).len());
    assert_eq!(0, texts(Script::from_str(" ; ;\n").commands()).len());
}

#[test]
fn takes_a_comment_out_that_ends_with_the_text() {
    let s = Script::from_str("ADD(0); # last");
    assert_eq!(vec!["ADD(0)"], texts(s.commands()));
    let mut g = Sodg::empty();
    assert_eq!(Ok(1), Script::from_str("ADD(0); # last").deploy_to(&mut g));
    assert_eq!(1, g.len());
    let s = Script::from_str("ADD(1) # one; ADD(2)");
    assert_eq!(vec!["ADD(1)"], texts(s.commands()));
    let s = Script::from_str("ADD(1);\n# two\r");
    assert_eq!(vec!["ADD(1)"], texts(s.commands()));
}

#[test]
fn deploys_nothing_from_comments_alone() {
    for text in ["", "   ", "# last", "#", "# one\n# two", " # a ; b\n;;# c", ";"] {
        let mut g = Sodg::empty();
        g.add(3).unwrap();
        let mut s = Script::from_str(text);
        assert_eq!(0, s.commands().len(), "{:?}", text);
        assert_eq!(Ok(0), s.deploy_to(&mut g), "{:?}", text);
        assert_eq!(1, g.len());
    }
}
