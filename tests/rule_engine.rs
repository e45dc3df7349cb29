use eafcc::rule_engine::{compare_strings, float_nan, float_order_rank, values_equal, Condition, LeafOperator, MatchContext, Value};

fn leaf(lhs: &str, op: LeafOperator, rhs: Option<Value>) -> Condition {
    Condition::Leaf { lhs: lhs.to_string(), op, rhs }
}

#[test]
fn it_works() {
    assert_eq!(2 + 2, 4);
}

#[test]
fn test_leaf_eval() {
    let mut ctx = MatchContext::new();
    ctx.insert("str".into(), Value::Str("str_value".into()));

    let cond = Condition::Leaf {
        lhs: "str".to_string(),
        op: LeafOperator::Eq,
        rhs: Some(Value::Str("str_value".to_string())),
    };
    assert!(cond.eval(&ctx) == true);
}

#[test]
fn test_logic_op() {
    let mut ctx = MatchContext::new();
    ctx.insert("str".into(), Value::Str("str_value".into()));

    let cond = Condition::Not(Box::new(Condition::Leaf {
        lhs: "str".to_string(),
        op: LeafOperator::Eq,
        rhs: Some(Value::Str("str_value".to_string())),
    }));
    assert!(cond.eval(&ctx) == false);

    let cond = Condition::And(vec![
        Condition::Leaf {
            lhs: "str".to_string(),
            op: LeafOperator::Eq,
            rhs: Some(Value::Str("str_value".to_string())),
        },
        Condition::Leaf {
            lhs: "str".to_string(),
            op: LeafOperator::Eq,
            rhs: Some(Value::Str("str_value_1".to_string())),
        },
    ]);
    assert!(cond.eval(&ctx) == false);

    let cond = Condition::Or(vec![
        Condition::Leaf {
            lhs: "str".to_string(),
            op: LeafOperator::Eq,
            rhs: Some(Value::Str("str_value".to_string())),
        },
        Condition::Leaf {
            lhs: "str".to_string(),
            op: LeafOperator::Eq,
            rhs: Some(Value::Str("str_value_1".to_string())),
        },
    ]);
    assert!(cond.eval(&ctx) == true);
}

#[test]
fn absent_attribute_fails_every_binary_operator() {
    let ctx = MatchContext::new();
    for op in [
        LeafOperator::Eq,
        LeafOperator::Ne,
        LeafOperator::Gt,
        LeafOperator::Gte,
        LeafOperator::Lt,
        LeafOperator::Lte,
        LeafOperator::InList,
    ] {
        assert!(!leaf("x", op, Some(Value::Int(1))).eval(&ctx));
    }
    assert!(!leaf("x", LeafOperator::Exist, None).eval(&ctx));
}

#[test]
fn exist_checks_presence_only() {
    let mut ctx = MatchContext::new();
    ctx.insert("x".into(), Value::Null);
    assert!(leaf("x", LeafOperator::Exist, None).eval(&ctx));
    assert!(!leaf("y", LeafOperator::Exist, None).eval(&ctx));
}

#[test]
fn integer_ordering_operators() {
    let mut ctx = MatchContext::new();
    ctx.insert("n".into(), Value::Int(5));
    assert!(leaf("n", LeafOperator::Gt, Some(Value::Int(4))).eval(&ctx));
    assert!(!leaf("n", LeafOperator::Gt, Some(Value::Int(5))).eval(&ctx));
    assert!(leaf("n", LeafOperator::Gte, Some(Value::Int(5))).eval(&ctx));
    assert!(leaf("n", LeafOperator::Lt, Some(Value::Int(6))).eval(&ctx));
    assert!(!leaf("n", LeafOperator::Lt, Some(Value::Int(5))).eval(&ctx));
    assert!(leaf("n", LeafOperator::Lte, Some(Value::Int(5))).eval(&ctx));
    assert!(leaf("n", LeafOperator::Ne, Some(Value::Int(6))).eval(&ctx));
    assert!(!leaf("n", LeafOperator::Ne, Some(Value::Int(5))).eval(&ctx));
}

#[test]
fn mismatched_tags_are_false() {
    let mut ctx = MatchContext::new();
    ctx.insert("n".into(), Value::Int(5));
    assert!(!leaf("n", LeafOperator::Eq, Some(Value::Str("5".into()))).eval(&ctx));
    assert!(!leaf("n", LeafOperator::Ne, Some(Value::Str("5".into()))).eval(&ctx));
    assert!(!leaf("n", LeafOperator::Gt, Some(Value::Bool(true))).eval(&ctx));
    assert!(!leaf("n", LeafOperator::Gt, Some(Value::Str("1".into()))).eval(&ctx));
}

#[test]
fn in_list_tests_membership() {
    let mut ctx = MatchContext::new();
    ctx.insert("c".into(), Value::Str("b".into()));
    let list = Value::List(vec![Value::Str("a".into()), Value::Str("b".into())]);
    assert!(leaf("c", LeafOperator::InList, Some(list)).eval(&ctx));
    let list = Value::List(vec![Value::Str("a".into()), Value::Int(1)]);
    assert!(!leaf("c", LeafOperator::InList, Some(list)).eval(&ctx));
    assert!(!leaf("c", LeafOperator::InList, Some(Value::Str("b".into()))).eval(&ctx));
}

#[test]
fn deep_equality_of_lists() {
    let a = Value::List(vec![Value::Int(1), Value::List(vec![Value::Bool(true)])]);
    let b = Value::List(vec![Value::Int(1), Value::List(vec![Value::Bool(true)])]);
    let c = Value::List(vec![Value::Int(1), Value::List(vec![Value::Bool(false)])]);
    let d = Value::List(vec![Value::Int(1)]);
    assert!(values_equal(&a, &b));
    assert!(!values_equal(&a, &c));
    assert!(!values_equal(&a, &d));
    assert!(values_equal(&Value::Null, &Value::Null));
}

#[test]
fn later_binding_replaces_earlier() {
    let mut ctx = MatchContext::new();
    ctx.insert("k".into(), Value::Int(1));
    ctx.insert("k".into(), Value::Int(2));
    assert!(matches!(ctx.get("k"), Some(Value::Int(2))));
    assert!(ctx.get("other").is_none());
}

#[test]
fn empty_and_or() {
    let ctx = MatchContext::new();
    assert!(Condition::And(vec![]).eval(&ctx));
    assert!(!Condition::Or(vec![]).eval(&ctx));
}

#[test]
fn float_ordering_and_equality() {
    let mut ctx = MatchContext::new();
    ctx.insert("f".into(), Value::Float(1.5f64.to_bits()));
    let f = |x: f64| Some(Value::Float(x.to_bits()));
    assert!(leaf("f", LeafOperator::Gt, f(-2.0)).eval(&ctx));
    assert!(leaf("f", LeafOperator::Gt, f(1.25)).eval(&ctx));
    assert!(!leaf("f", LeafOperator::Gt, f(1.5)).eval(&ctx));
    assert!(leaf("f", LeafOperator::Gte, f(1.5)).eval(&ctx));
    assert!(leaf("f", LeafOperator::Lt, f(f64::INFINITY)).eval(&ctx));
    assert!(!leaf("f", LeafOperator::Lt, f(f64::NAN)).eval(&ctx));
    assert!(!leaf("f", LeafOperator::Gte, f(f64::NAN)).eval(&ctx));
    assert!(leaf("f", LeafOperator::Eq, f(1.5)).eval(&ctx));
    assert!(!leaf("f", LeafOperator::Gt, Some(Value::Int(1))).eval(&ctx));

    let mut z = MatchContext::new();
    z.insert("z".into(), Value::Float((-0.0f64).to_bits()));
    assert!(leaf("z", LeafOperator::Gte, f(0.0)).eval(&z));
    assert!(leaf("z", LeafOperator::Lte, f(0.0)).eval(&z));
    assert!(!leaf("z", LeafOperator::Eq, f(0.0)).eval(&z));

    let mut n = MatchContext::new();
    n.insert("n".into(), Value::Float(f64::NAN.to_bits()));
    assert!(leaf("n", LeafOperator::Eq, f(f64::NAN)).eval(&n));
}

#[test]
fn float_rank_follows_float_order() {
    let vals = [f64::NEG_INFINITY, -1.0e300, -2.5, -0.0, 0.0, 5e-324, 1.5, 2.0, 1.0e300, f64::INFINITY];
    for a in vals {
        for b in vals {
            let ra = float_order_rank(a.to_bits());
            let rb = float_order_rank(b.to_bits());
            assert_eq!(ra > rb, a > b);
            assert_eq!(ra == rb, a == b);
        }
        assert!(!float_nan(a.to_bits()));
    }
    assert!(float_nan(f64::NAN.to_bits()));
}

#[test]
fn string_ordering_is_lexicographic() {
    assert_eq!(compare_strings("abc", "abd"), -1);
    assert_eq!(compare_strings("abd", "abc"), 1);
    assert_eq!(compare_strings("ab", "abc"), -1);
    assert_eq!(compare_strings("abc", "ab"), 1);
    assert_eq!(compare_strings("", ""), 0);
    assert_eq!(compare_strings("same", "same"), 0);
    let mut ctx = MatchContext::new();
    ctx.insert("v".into(), Value::Str("1.10".into()));
    assert!(leaf("v", LeafOperator::Gt, Some(Value::Str("1.09".into()))).eval(&ctx));
    assert!(leaf("v", LeafOperator::Lte, Some(Value::Str("1.10".into()))).eval(&ctx));
    assert!(!leaf("v", LeafOperator::Lt, Some(Value::Str("1.1".into()))).eval(&ctx));
    assert!(!leaf("v", LeafOperator::Gt, Some(Value::Int(1))).eval(&ctx));
}
