use dd_analysis::rpn::{
    call_of, check, classify_bss, classify_mss, parse_bss, parse_i32, parse_mss, same, Action,
    BinOp, RpnError, RpnState, Token,
};

fn words(expr: &str) -> Vec<String> {
    expr.split_whitespace().map(|w| w.to_string()).collect()
}

fn names(list: &[&str]) -> Vec<String> {
    list.iter().map(|w| w.to_string()).collect()
}

#[test]
fn test_bss_mgr_rpn() {
    assert!(parse_bss(&words("x")).is_ok());
    assert!(parse_bss(&words("y")).is_ok());
    assert!(parse_bss(&words("z")).is_ok());
    let f = parse_bss(&words("x y & z |")).unwrap();
    assert!(matches!(
        f.as_slice(),
        [
            Token::Var(x),
            Token::Var(y),
            Token::Binary(BinOp::And),
            Token::Var(z),
            Token::Binary(BinOp::Or)
        ] if x == "x" && y == "y" && z == "z"
    ));
}

#[test]
fn test_mdd_mgr() {
    let vars = names(&["x", "y", "z"]);
    let rpn = "x y z + *";
    let tokens = parse_mss(&words(rpn), &vars).unwrap();
    assert!(matches!(
        tokens.as_slice(),
        [
            Token::Var(_),
            Token::Var(_),
            Token::Var(_),
            Token::Binary(BinOp::Add),
            Token::Binary(BinOp::Mul)
        ]
    ));
}

#[test]
fn boolean_words() {
    assert!(matches!(classify_bss("0"), Token::False));
    assert!(matches!(classify_bss("False"), Token::False));
    assert!(matches!(classify_bss("1"), Token::True));
    assert!(matches!(classify_bss("True"), Token::True));
    assert!(matches!(classify_bss("&"), Token::Binary(BinOp::And)));
    assert!(matches!(classify_bss("|"), Token::Binary(BinOp::Or)));
    assert!(matches!(classify_bss("^"), Token::Binary(BinOp::Xor)));
    assert!(matches!(classify_bss("~"), Token::Not));
    assert!(matches!(classify_bss("?"), Token::Ite));
    assert!(matches!(classify_bss("save(a)"), Token::Save(n) if n == "a"));
    assert!(matches!(classify_bss("load(top)"), Token::Load(n) if n == "top"));
    assert!(matches!(classify_bss("save()"), Token::Save(n) if n.is_empty()));
    assert!(matches!(classify_bss("save(a"), Token::Var(n) if n == "save(a"));
    assert!(matches!(classify_bss("save"), Token::Var(n) if n == "save"));
    assert!(matches!(classify_bss("&&"), Token::Var(n) if n == "&&"));
    assert!(matches!(classify_bss("12"), Token::Var(n) if n == "12"));
    assert!(matches!(classify_bss("é"), Token::Var(n) if n == "é"));
}

#[test]
fn multi_valued_words() {
    let ops = [
        ("+", BinOp::Add),
        ("-", BinOp::Sub),
        ("*", BinOp::Mul),
        ("/", BinOp::Div),
        ("min", BinOp::Min),
        ("max", BinOp::Max),
        ("==", BinOp::Eq),
        ("!=", BinOp::Neq),
        ("<", BinOp::Lt),
        ("<=", BinOp::Lte),
        (">", BinOp::Gt),
        (">=", BinOp::Gte),
        ("&&", BinOp::And),
        ("||", BinOp::Or),
    ];
    for (word, op) in ops {
        assert!(matches!(classify_mss(word), Token::Binary(o) if o == op));
    }
    assert!(matches!(classify_mss("!"), Token::Not));
    assert!(matches!(classify_mss("?"), Token::Ite));
    assert!(matches!(classify_mss("True"), Token::True));
    assert!(matches!(classify_mss("False"), Token::False));
    assert!(matches!(classify_mss("17"), Token::Value(17)));
    assert!(matches!(classify_mss("-3"), Token::Value(-3)));
    assert!(matches!(classify_mss("0"), Token::Value(0)));
    assert!(matches!(classify_mss("1"), Token::Value(1)));
    assert!(matches!(classify_mss("x1"), Token::Var(n) if n == "x1"));
    assert!(matches!(classify_mss("save(s)"), Token::Save(n) if n == "s"));
    assert!(matches!(classify_mss("load(s)"), Token::Load(n) if n == "s"));
    assert!(matches!(classify_mss("&"), Token::Var(n) if n == "&"));
}

#[test]
fn numbers() {
    for s in ["0", "7", "-7", "+7", "007", "2147483647", "-2147483648", "-0", "+0"] {
        assert_eq!(parse_i32(s), s.parse::<i32>().ok(), "{}", s);
        assert!(parse_i32(s).is_some());
    }
    for s in ["", "-", "+", "2147483648", "-2147483649", "99999999999999999999", "1a", "a1", "1 ",
        "--1", "1.0", "٣"]
    {
        assert_eq!(parse_i32(s), s.parse::<i32>().ok(), "{}", s);
        assert_eq!(parse_i32(s), None);
    }
    assert_eq!(parse_i32("2147483647"), Some(i32::MAX));
    assert_eq!(parse_i32("-2147483648"), Some(i32::MIN));
}

#[test]
fn strings() {
    assert!(same("abc", "abc"));
    assert!(!same("abc", "abd"));
    assert!(!same("abc", "ab"));
    assert!(same("", ""));
    assert_eq!(call_of("save(x)", "save(", ")"), Some("x".to_string()));
    assert_eq!(call_of("save(é)", "save(", ")"), Some("é".to_string()));
    assert_eq!(call_of("save(", "save(", ")"), None);
    assert_eq!(call_of("sav", "save(", ")"), None);
    assert_eq!(call_of("aa", "a", "a"), Some(String::new()));
    assert_eq!(call_of("a", "a", "a"), None);
}

fn verdict_bss(expr: &str) -> Result<(), String> {
    parse_bss(&words(expr)).map(|_| ()).map_err(|e| e.message())
}

#[test]
fn what_is_wrong_with_an_expression() {
    assert_eq!(verdict_bss("x y &"), Ok(()));
    assert_eq!(verdict_bss("x y z ?"), Ok(()));
    assert_eq!(verdict_bss("x ~ save(a) load(a) ^"), Ok(()));
    assert_eq!(verdict_bss(""), Err("Invalid expression".to_string()));
    assert_eq!(verdict_bss("x y"), Err("Invalid expression".to_string()));
    assert_eq!(verdict_bss("save(a)"), Err("Stack is empty for save operation".to_string()));
    assert_eq!(verdict_bss("x load(b)"), Err("No cached value for b".to_string()));
    assert!(matches!(parse_bss(&words("x &")), Err(RpnError::StackUnderflow)));
    assert!(matches!(parse_bss(&words("~")), Err(RpnError::StackUnderflow)));
    assert!(matches!(parse_bss(&words("x y ?")), Err(RpnError::StackUnderflow)));
    // the first error counts
    assert!(matches!(parse_bss(&words("& load(b)")), Err(RpnError::StackUnderflow)));
    assert!(matches!(parse_bss(&words("load(b) &")), Err(RpnError::NoCachedValue(n)) if n == "b"));
    let vars = names(&["x"]);
    assert!(matches!(
        parse_mss(&words("x q +"), &vars),
        Err(RpnError::UnknownVariable(n)) if n == "q"
    ));
    assert_eq!(
        parse_mss(&words("x q +"), &vars).unwrap_err().message(),
        "Unknown variable: q"
    );
    assert_eq!(RpnError::StackUnderflow.message(), "Stack is empty");
    assert!(parse_mss(&words("x 2 * 1 + 3 <="), &vars).is_ok());
}

#[test]
fn tokens_one_after_the_other() {
    let mut state = RpnState::new();
    assert_eq!(state.depth(), 0);
    assert!(matches!(state.take(&Token::Not, None), Err(RpnError::StackUnderflow)));
    assert_eq!(state.depth(), 0);
    assert!(state.take(&Token::True, None).is_ok());
    assert!(state.take(&Token::Value(3), None).is_ok());
    assert_eq!(state.depth(), 2);
    assert!(matches!(state.finish(), Err(RpnError::InvalidExpression)));
    assert!(state.take(&Token::Binary(BinOp::Add), None).is_ok());
    assert_eq!(state.depth(), 1);
    assert!(state.take(&Token::Save("a".to_string()), None).is_ok());
    assert!(state.take(&Token::Load("a".to_string()), None).is_ok());
    assert!(state.take(&Token::Load("b".to_string()), None).is_err());
    assert_eq!(state.depth(), 2);
    assert!(state.take(&Token::Var("v".to_string()), Some(&names(&["w"]))).is_err());
    assert!(state.take(&Token::Var("w".to_string()), Some(&names(&["w"]))).is_ok());
    assert!(state.take(&Token::Ite, None).is_ok());
    assert!(state.finish().is_ok());
    let tokens = vec![Token::False, Token::Not];
    assert!(check(&tokens, None).is_ok());
}

#[test]
fn plan_names_the_operands_by_their_places() {
    let mut state = RpnState::new();
    let mut places = Vec::new();
    for word in words("a b c ? save(s) ~ load(s) &") {
        let token = classify_bss(&word);
        places.push(state.plan(&token, None).unwrap());
    }
    assert_eq!(
        places,
        vec![
            Action::Push { at: 0 },
            Action::Push { at: 1 },
            Action::Push { at: 2 },
            Action::Choose { cond: 0, then: 1, otherwise: 2 },
            Action::Keep { at: 0 },
            Action::Replace { at: 0 },
            Action::Push { at: 1 },
            Action::Combine { left: 0, right: 1 },
        ]
    );
    assert_eq!(state.depth(), 1);
    assert!(state.finish().is_ok());
}

#[test]
fn plan_refuses_what_take_refuses() {
    let mut state = RpnState::new();
    assert!(matches!(state.plan(&Token::Not, None), Err(RpnError::StackUnderflow)));
    assert!(matches!(state.plan(&Token::Ite, None), Err(RpnError::StackUnderflow)));
    assert!(matches!(state.plan(&Token::Save("s".to_string()), None), Err(RpnError::EmptySave)));
    assert!(matches!(
        state.plan(&Token::Load("s".to_string()), None),
        Err(RpnError::NoCachedValue(n)) if n == "s"
    ));
    assert_eq!(state.depth(), 0);
    assert!(matches!(state.plan(&Token::True, None), Ok(Action::Push { at: 0 })));
    assert!(matches!(
        state.plan(&Token::Binary(BinOp::And), None),
        Err(RpnError::StackUnderflow)
    ));
    assert_eq!(state.depth(), 1);
}
