use eafcc::error::DataLoaderError;
use eafcc::model::{Rule, RuleMeta};
use eafcc::parser::{do_parse, identifier, parse_rule, rhs_literal};
use eafcc::rule_engine::{Condition, LeafOperator, MatchContext, Value};

fn leaf(lhs: &str, op: LeafOperator, v: Value) -> Condition {
    Condition::Leaf { lhs: lhs.into(), op, rhs: Some(v) }
}

fn s(x: &str) -> Value {
    Value::Str(x.into())
}

#[test]
fn rhs_literal_test() {
    assert_eq!(rhs_literal("\"3.0\""), Some((Value::Str("3.0".into()), 5)));
    assert_eq!(rhs_literal("\"3.0\\n\""), Some((Value::Str("3.0\n".into()), 7)));
}

#[test]
fn leaf_expr_test() {
    assert_eq!(
        do_parse("a == \"4\""),
        Some((
            Condition::Leaf { lhs: "a".into(), op: LeafOperator::Eq, rhs: Some(Value::Str("4".into())) },
            8
        ))
    )
}

#[test]
fn expr_not_test() {
    assert_eq!(
        do_parse("!a==\"1\""),
        Some((
            Condition::Not(Box::new(Condition::Leaf {
                lhs: "a".into(),
                op: LeafOperator::Eq,
                rhs: Some(Value::Str("1".into())),
            })),
            7
        ))
    );
}

#[test]
fn expr_or_test() {
    let text = "a==1 && b==2 && c==3 || d==4 && e==5";
    let expected = Condition::Or(vec![
        Condition::And(vec![
            leaf("a", LeafOperator::Eq, Value::Int(1)),
            leaf("b", LeafOperator::Eq, Value::Int(2)),
            leaf("c", LeafOperator::Eq, Value::Int(3)),
        ]),
        Condition::And(vec![leaf("d", LeafOperator::Eq, Value::Int(4)), leaf("e", LeafOperator::Eq, Value::Int(5))]),
    ]);
    assert_eq!(do_parse(text), Some((expected, text.chars().count())));
}

#[test]
fn expr_test() {
    let text = "b==2&&(c==3||d==4)&&e==5";
    let expected = Condition::And(vec![
        leaf("b", LeafOperator::Eq, Value::Int(2)),
        Condition::Or(vec![leaf("c", LeafOperator::Eq, Value::Int(3)), leaf("d", LeafOperator::Eq, Value::Int(4))]),
        leaf("e", LeafOperator::Eq, Value::Int(5)),
    ]);
    assert_eq!(do_parse(text), Some((expected, text.chars().count())));
}

#[test]
fn test_load_rule() {
    let text = "str == \"123\" && int == \"-345\" || ( float == \"-1.234\" && ! ( str == \"123\" ) )";
    let r = Rule::from_parts(
        RuleMeta { desc: "balabalabala".into(), tags: vec!["foo".into(), "bar".into()] },
        text,
    )
    .unwrap();
    assert_eq!(r.meta.desc, "balabalabala");
    assert_eq!(r.meta.tags, vec!["foo".to_string(), "bar".to_string()]);
    assert_eq!(
        r.spec.rule,
        Condition::Or(vec![
            Condition::And(vec![
                Condition::Leaf { lhs: "str".into(), op: LeafOperator::Eq, rhs: Some(Value::Str("123".into())) },
                Condition::Leaf { lhs: "int".into(), op: LeafOperator::Eq, rhs: Some(Value::Str("-345".into())) },
            ]),
            Condition::And(vec![
                Condition::Leaf {
                    lhs: "float".into(),
                    op: LeafOperator::Eq,
                    rhs: Some(Value::Str("-1.234".into())),
                },
                Condition::Not(Box::new(Condition::Leaf {
                    lhs: "str".into(),
                    op: LeafOperator::Eq,
                    rhs: Some(Value::Str("123".into())),
                })),
            ]),
        ])
    );
}

#[test]
fn all_comparison_operators_parse() {
    assert_eq!(parse_rule("a != \"x\"").unwrap(), leaf("a", LeafOperator::Ne, s("x")));
    assert_eq!(parse_rule("a > 1").unwrap(), leaf("a", LeafOperator::Gt, Value::Int(1)));
    assert_eq!(parse_rule("a >= -1").unwrap(), leaf("a", LeafOperator::Gte, Value::Int(-1)));
    assert_eq!(parse_rule("a < 10").unwrap(), leaf("a", LeafOperator::Lt, Value::Int(10)));
    assert_eq!(parse_rule("a<=0").unwrap(), leaf("a", LeafOperator::Lte, Value::Int(0)));
    assert_eq!(
        parse_rule("a in [\"x\", 2, true, []]").unwrap(),
        leaf(
            "a",
            LeafOperator::InList,
            Value::List(vec![s("x"), Value::Int(2), Value::Bool(true), Value::List(vec![])])
        )
    );
    assert_eq!(parse_rule("flag == false").unwrap(), leaf("flag", LeafOperator::Eq, Value::Bool(false)));
}

#[test]
fn integer_literal_bounds() {
    assert_eq!(rhs_literal("9223372036854775807"), Some((Value::Int(i64::MAX), 19)));
    assert_eq!(rhs_literal("-9223372036854775808"), Some((Value::Int(i64::MIN), 20)));
    assert_eq!(rhs_literal("9223372036854775808"), None);
    assert_eq!(rhs_literal("-9223372036854775809"), None);
    assert_eq!(rhs_literal("1.5"), None);
    assert_eq!(rhs_literal("-"), None);
}

#[test]
fn string_escapes() {
    assert_eq!(rhs_literal("\"a\\tb\""), Some((s("a\tb"), 6)));
    assert_eq!(rhs_literal("\"a\\/b\""), Some((s("a/b"), 6)));
    assert_eq!(rhs_literal("\"\\u0041\""), Some((s("A"), 8)));
    assert_eq!(rhs_literal("\"\\\"q\\\"\""), Some((s("\"q\""), 7)));
    assert_eq!(rhs_literal("\"\""), Some((s(""), 2)));
    assert_eq!(rhs_literal("\"unterminated"), None);
    assert_eq!(rhs_literal("\"bad \\q\""), None);
}

#[test]
fn trailing_text_is_rejected() {
    assert!(matches!(parse_rule("a == 1 b"), Err(DataLoaderError::SpecParseError(_))));
    assert!(matches!(parse_rule("a == "), Err(DataLoaderError::SpecParseError(_))));
    assert!(matches!(parse_rule(""), Err(DataLoaderError::SpecParseError(_))));
    assert!(matches!(parse_rule("(a == 1"), Err(DataLoaderError::SpecParseError(_))));
    assert!(parse_rule("  a == 1  \n").is_ok());
}

#[test]
fn identifiers() {
    assert_eq!(identifier("abc_1 == 2"), Some("abc_1".to_string()));
    assert_eq!(identifier("_x"), Some("_x".to_string()));
    assert_eq!(identifier("1x"), None);
    assert_eq!(identifier(""), None);
}

#[test]
fn parsed_rule_evaluates() {
    let c = parse_rule("(foo == \"1\" || bar == \"2\") && !(n > 3)").unwrap();
    let mut ctx = MatchContext::new();
    ctx.insert("bar".into(), s("2"));
    ctx.insert("n".into(), Value::Int(3));
    assert!(c.eval(&ctx));
    ctx.insert("n".into(), Value::Int(4));
    assert!(!c.eval(&ctx));
}
