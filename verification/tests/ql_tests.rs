use hyperion::errors::StoreError;
use hyperion::memory::MemoryStore;
use hyperion::number::Number;
use hyperion::path::Path;
use hyperion::persistent::PersistentStore;
use hyperion::ql::ast::ComparisonOperator::{
    Equal, GreaterThan, GreaterThanOrEqual, LessThan, LessThanOrEqual, NotEqual,
};
use hyperion::ql::ast::{
    ComparisonOperator, Condition, Expression, LogicalOperator, Operation, Query, WhereClause,
};
use hyperion::ql::evaluator::{
    compare_values, extract_condition_if_their, extract_their_conditions, intersect_ids,
    matching_ids, order_texts, EvaluationContext,
};
use hyperion::ql::execute_query;
use hyperion::ql::executor::execute_operation;
use hyperion::ql::lexer::{tokenize, Token};
use hyperion::ql::parser::{parse_query, primary_of_word};
use hyperion::store::Store;
use hyperion::value::Value;
use std::str::FromStr;

fn p(text: &str) -> Path {
    Path::from_str(text).unwrap()
}

fn s(text: &str) -> Value {
    Value::String(text.to_string())
}

fn f(text: &str) -> Value {
    Value::Float(Number::parse(text).unwrap())
}

fn word(text: &str) -> Token {
    Token::Word(text.to_string())
}

#[test]
fn tokens_of_a_query() {
    assert_eq!(
        tokenize("{ a.b = \"x y\" return count(\"a\") where their.n >= 1 && their.m != -2.5 }"),
        Some(vec![
            Token::LeftBrace,
            word("a.b"),
            Token::Assign,
            Token::Text("x y".to_string()),
            word("return"),
            word("count"),
            Token::LeftParen,
            Token::Text("a".to_string()),
            Token::RightParen,
            word("where"),
            word("their.n"),
            Token::Compare(ComparisonOperator::GreaterThanOrEqual),
            word("1"),
            Token::Logic(LogicalOperator::And),
            word("their.m"),
            Token::Compare(ComparisonOperator::NotEqual),
            word("-2.5"),
            Token::RightBrace,
        ])
    );
    assert_eq!(
        tokenize("a==b<c<=d>e||f,"),
        Some(vec![
            word("a"),
            Token::Compare(ComparisonOperator::Equal),
            word("b"),
            Token::Compare(ComparisonOperator::LessThan),
            word("c"),
            Token::Compare(ComparisonOperator::LessThanOrEqual),
            word("d"),
            Token::Compare(ComparisonOperator::GreaterThan),
            word("e"),
            Token::Logic(LogicalOperator::Or),
            word("f"),
            Token::Comma,
        ])
    );
    assert_eq!(tokenize(""), Some(Vec::new()));
    assert_eq!(tokenize("  \n\t "), Some(Vec::new()));
    assert_eq!(tokenize("\"\""), Some(vec![Token::Text(String::new())]));
    assert_eq!(tokenize("a ! b"), None);
    assert_eq!(tokenize("a & b"), None);
    assert_eq!(tokenize("a | b"), None);
    assert_eq!(tokenize("\"open"), None);
    assert_eq!(tokenize("x="), Some(vec![word("x"), Token::Assign]));
}

#[test]
fn words_become_primaries() {
    let of = |text: &str| primary_of_word(&text.to_string()).unwrap();
    assert_eq!(of("true"), Expression::Literal(Value::Boolean(true)));
    assert_eq!(of("false"), Expression::Literal(Value::Boolean(false)));
    assert_eq!(of("null"), Expression::Literal(Value::Null));
    assert_eq!(of("42"), Expression::Literal(Value::Integer(42)));
    assert_eq!(of("-7"), Expression::Literal(Value::Integer(-7)));
    assert_eq!(of("3.0"), Expression::Literal(Value::Integer(3)));
    assert_eq!(of("-9223372036854775808"), Expression::Literal(Value::Integer(i64::MIN)));
    assert_eq!(of("9223372036854775807"), Expression::Literal(Value::Integer(i64::MAX)));
    assert_eq!(of("9223372036854775808"), Expression::Literal(f("9223372036854775808")));
    assert_eq!(of("2.5"), Expression::Literal(f("2.5")));
    assert_eq!(of("their.active"), Expression::TheirPath(vec!["active".to_string()]));
    assert_eq!(
        of("their.a.b"),
        Expression::TheirPath(vec!["a".to_string(), "b".to_string()])
    );
    assert_eq!(of("their."), Expression::Path(p("their.")));
    assert_eq!(of("users.u1"), Expression::Path(p("users.u1")));
    assert_eq!(of("NaN"), Expression::Path(p("NaN")));
    assert_eq!(of("users.*.tags[1]"), Expression::Path(p("users.*.tags[1]")));
    assert!(matches!(
        primary_of_word(&String::new()),
        Err(StoreError::InvalidOperation(_))
    ));
}

#[test]
fn queries_are_parsed() {
    let query = parse_query("{ users.u1.name = \"alice\" delete users.u2 return users.u1 }").unwrap();
    assert_eq!(
        query,
        Query {
            operations: vec![
                Operation::Assignment {
                    path: p("users.u1.name"),
                    expression: Expression::Literal(s("alice")),
                },
                Operation::Delete { path: p("users.u2") },
            ],
            return_expr: Some(Expression::Path(p("users.u1"))),
        }
    );
    let filtered = parse_query("{ return users where their.active == true || 3 < their.age }").unwrap();
    assert_eq!(
        filtered,
        Query {
            operations: Vec::new(),
            return_expr: Some(Expression::Filtered {
                base: Box::new(Expression::Path(p("users"))),
                where_clause: WhereClause {
                    first_condition: Condition {
                        left: Box::new(Expression::TheirPath(vec!["active".to_string()])),
                        operator: ComparisonOperator::Equal,
                        right: Box::new(Expression::Literal(Value::Boolean(true))),
                    },
                    additional_conditions: vec![(
                        LogicalOperator::Or,
                        Condition {
                            left: Box::new(Expression::Literal(Value::Integer(3))),
                            operator: ComparisonOperator::LessThan,
                            right: Box::new(Expression::TheirPath(vec!["age".to_string()])),
                        }
                    )],
                },
            }),
        }
    );
    let calls = parse_query("{ a = now() b = count(\"users\") c = f(1, g(x), \"t\") }").unwrap();
    assert_eq!(calls.operations.len(), 3);
    assert_eq!(
        calls.operations[2],
        Operation::Assignment {
            path: p("c"),
            expression: Expression::FunctionCall {
                name: "f".to_string(),
                arguments: vec![
                    Expression::Literal(Value::Integer(1)),
                    Expression::FunctionCall {
                        name: "g".to_string(),
                        arguments: vec![Expression::Path(p("x"))],
                    },
                    Expression::Literal(s("t")),
                ],
            },
        }
    );
    assert_eq!(calls.return_expr, None);
}

#[test]
fn texts_that_are_no_queries() {
    for text in [
        "",
        "{}",
        "{ }",
        "{",
        "}",
        "return 1",
        "{ return 1",
        "{ return 1 } x",
        "{ return }",
        "{ a = }",
        "{ a 1 }",
        "{ delete }",
        "{ delete \"a\" }",
        "{ = 1 }",
        "{ return f(1,) }",
        "{ return f(1 2) }",
        "{ return f( }",
        "{ return a where }",
        "{ return a where their.x }",
        "{ return a where their.x == }",
        "{ return a where their.x == 1 && }",
        "{ return 1 return 2 }",
        "{ return 1 a = 2 }",
        "{ a = 1 ! }",
    ] {
        assert!(matches!(parse_query(text), Err(StoreError::InvalidOperation(_))), "{}", text);
    }
}

#[test]
fn comparisons() {
    let all = [Equal, NotEqual, LessThan, LessThanOrEqual, GreaterThan, GreaterThanOrEqual];
    let expect = |l: &Value, r: &Value, results: [bool; 6]| {
        for (op, want) in all.iter().zip(results.iter()) {
            assert_eq!(compare_values(l, *op, r), Ok(*want), "{:?} {:?} {:?}", l, op, r);
        }
    };
    expect(&Value::Integer(1), &Value::Integer(2), [false, true, true, true, false, false]);
    expect(&Value::Integer(2), &Value::Integer(2), [true, false, false, true, false, true]);
    expect(&Value::Integer(3), &Value::Integer(2), [false, true, false, false, true, true]);
    expect(&f("1.5"), &f("1.25"), [false, true, false, false, true, true]);
    expect(&f("1.50"), &f("1.5"), [true, false, false, true, false, true]);
    expect(&Value::Integer(1), &f("1.5"), [false, true, true, true, false, false]);
    expect(&f("1.5"), &Value::Integer(1), [false, true, false, false, true, true]);
    expect(&Value::Integer(2), &f("2.0"), [false, true, false, true, false, true]);
    expect(&f("NaN"), &f("1"), [false, true, false, false, false, false]);
    expect(&f("NaN"), &f("NaN"), [false, true, false, false, false, false]);
    expect(&s("abc"), &s("abd"), [false, true, true, true, false, false]);
    expect(&s("abc"), &s("ab"), [false, true, false, false, true, true]);
    expect(&s("b"), &s("b"), [true, false, false, true, false, true]);
    expect(&s("Z"), &s("a"), [false, true, true, true, false, false]);
    expect(&s("é"), &s("z"), [false, true, false, false, true, true]);
    let refused = Err(StoreError::InvalidOperation(
        "Cannot compare values of these types".to_string(),
    ));
    assert_eq!(compare_values(&Value::Null, LessThan, &Value::Null), refused);
    assert_eq!(compare_values(&Value::Boolean(true), GreaterThan, &Value::Boolean(false)), refused);
    assert_eq!(compare_values(&s("1"), LessThanOrEqual, &Value::Integer(1)), refused);
    assert_eq!(compare_values(&Value::Integer(1), GreaterThanOrEqual, &s("1")), refused);
    assert_eq!(compare_values(&Value::Null, Equal, &Value::Null), Ok(true));
    assert_eq!(compare_values(&Value::Null, NotEqual, &Value::Boolean(false)), Ok(true));
    assert_eq!(compare_values(&s("1"), Equal, &Value::Integer(1)), Ok(false));
    for (a, b) in [("a", "b"), ("", "a"), ("abc", "abc"), ("ab", "abc"), ("é", "e"), ("€", "é")] {
        let want = match a.cmp(b) {
            std::cmp::Ordering::Less => hyperion::number::Order::Less,
            std::cmp::Ordering::Equal => hyperion::number::Order::Equal,
            std::cmp::Ordering::Greater => hyperion::number::Order::Greater,
        };
        assert_eq!(order_texts(a, b), want);
    }
    assert_eq!(LessThan.mirror(), GreaterThan);
    assert_eq!(GreaterThanOrEqual.mirror(), LessThanOrEqual);
    assert_eq!(Equal.mirror(), Equal);
}

fn their(segments: &[&str]) -> Box<Expression> {
    Box::new(Expression::TheirPath(segments.iter().map(|s| s.to_string()).collect()))
}

fn literal(value: Value) -> Box<Expression> {
    Box::new(Expression::Literal(value))
}

#[test]
fn conditions_on_their_paths() {
    let plain = Condition {
        left: their(&["age"]),
        operator: ComparisonOperator::LessThan,
        right: literal(Value::Integer(3)),
    };
    assert_eq!(
        extract_condition_if_their(&plain),
        Ok((vec!["age".to_string()], ComparisonOperator::LessThan, Value::Integer(3)))
    );
    let turned = Condition {
        left: literal(Value::Integer(3)),
        operator: ComparisonOperator::LessThan,
        right: their(&["a", "b"]),
    };
    assert_eq!(
        extract_condition_if_their(&turned),
        Ok((
            vec!["a".to_string(), "b".to_string()],
            ComparisonOperator::GreaterThan,
            Value::Integer(3)
        ))
    );
    let refused = Err(StoreError::InvalidOperation(
        "Where conditions must compare 'their' paths with literal values".to_string(),
    ));
    let both = Condition {
        left: their(&["a"]),
        operator: ComparisonOperator::Equal,
        right: their(&["b"]),
    };
    assert_eq!(extract_condition_if_their(&both), refused);
    let clause = WhereClause {
        first_condition: plain,
        additional_conditions: vec![(LogicalOperator::Or, turned)],
    };
    assert_eq!(extract_their_conditions(&clause).unwrap().len(), 2);
    let bad = WhereClause {
        first_condition: Condition {
            left: their(&["a"]),
            operator: ComparisonOperator::Equal,
            right: literal(Value::Null),
        },
        additional_conditions: vec![(LogicalOperator::And, both)],
    };
    assert!(extract_their_conditions(&bad).is_err());
}

#[test]
fn entity_names_of_matching_endpoints() {
    let results = vec![
        (p("users.u1.age"), Value::Integer(30)),
        (p("users.u2.age"), Value::Integer(20)),
        (p("users.u3.age"), Value::Integer(40)),
        (p("users.u1.age"), Value::Integer(50)),
        (p("users"), Value::Integer(60)),
    ];
    assert_eq!(
        matching_ids(1, &results, ComparisonOperator::GreaterThan, &Value::Integer(25)),
        Ok(vec!["u1".to_string(), "u3".to_string()])
    );
    assert_eq!(
        matching_ids(2, &results, ComparisonOperator::LessThan, &Value::Integer(25)),
        Ok(vec!["age".to_string()])
    );
    assert_eq!(
        matching_ids(1, &results, ComparisonOperator::GreaterThan, &s("x")),
        Err(StoreError::InvalidOperation("Cannot compare values of these types".to_string()))
    );
    assert_eq!(
        intersect_ids(
            &vec!["a".to_string(), "b".to_string(), "c".to_string()],
            &vec!["c".to_string(), "a".to_string(), "d".to_string()]
        ),
        vec!["a".to_string(), "c".to_string()]
    );
}

fn sample_store() -> MemoryStore {
    let mut store = MemoryStore::new();
    store.set(p("users.u1.active"), Value::Boolean(true)).unwrap();
    store.set(p("users.u1.name"), s("alice")).unwrap();
    store.set(p("users.u2.active"), Value::Boolean(false)).unwrap();
    store.set(p("users.u2.name"), s("bob")).unwrap();
    store
}

#[test]
fn filter_by_their_path() {
    let mut store = sample_store();
    assert_eq!(
        execute_query(&mut store, "{ return users where their.active == true }"),
        Ok(s("[{\"active\":true,\"name\":\"alice\"}]"))
    );
    assert_eq!(
        execute_query(&mut store, "{ return users where their.active != true }"),
        Ok(s("[{\"active\":false,\"name\":\"bob\"}]"))
    );
    assert_eq!(
        execute_query(
            &mut store,
            "{ return users where their.active == true && \"b\" > their.name }"
        ),
        Ok(s("[{\"active\":true,\"name\":\"alice\"}]"))
    );
    assert_eq!(
        execute_query(&mut store, "{ return users where their.name >= \"a\" && their.active == false }"),
        Ok(s("[{\"active\":false,\"name\":\"bob\"}]"))
    );
    assert_eq!(
        execute_query(&mut store, "{ return users where their.name == \"carol\" }"),
        Ok(s("[]"))
    );
    assert!(matches!(
        execute_query(&mut store, "{ return users where their.name < 3 }"),
        Err(StoreError::InvalidOperation(_))
    ));
    assert!(matches!(
        execute_query(&mut store, "{ return users where users.u1 == 3 }"),
        Err(StoreError::InvalidOperation(_))
    ));
    assert_eq!(
        execute_query(&mut store, "{ return \"x\" where their.name == 3 }"),
        Err(StoreError::InvalidOperation(
            "Filtering is currently only supported on path expressions".to_string()
        ))
    );
}

#[test]
fn filter_on_a_persistent_store() {
    let mut store = PersistentStore::open_temporary().unwrap();
    store.set(p("users.u1.active"), Value::Boolean(true)).unwrap();
    store.set(p("users.u1.name"), s("alice")).unwrap();
    store.set(p("users.u2.active"), Value::Boolean(false)).unwrap();
    store.set(p("users.u2.name"), s("bob")).unwrap();
    store.flush().unwrap();
    store.drain();
    let found = execute_query(&mut store, "{ return users where their.active == true }");
    assert!(
        found == Ok(s("[{\"active\":true,\"name\":\"alice\"}]"))
            || found == Ok(s("[{\"name\":\"alice\",\"active\":true}]")),
        "{:?}",
        found
    );
    assert_eq!(execute_query(&mut store, "{ return count(\"users\") }"), Ok(Value::Integer(4)));
}

#[test]
fn queries_are_executed_in_order() {
    let mut store = MemoryStore::new();
    assert_eq!(
        execute_query(
            &mut store,
            "{ a.x = 1 a.y = a.x a.x = \"two\" b = a delete a.y return a }"
        ),
        Ok(s("{\"x\":\"two\"}"))
    );
    let copied = store.get(&p("b"));
    assert!(
        copied == Ok(s("{\"x\":\"two\",\"y\":1}")) || copied == Ok(s("{\"y\":1,\"x\":\"two\"}")),
        "{:?}",
        copied
    );
    assert_eq!(store.get(&p("a.x")), Ok(s("two")));
    assert_eq!(execute_query(&mut store, "{ c = 2.5 }"), Ok(Value::Boolean(true)));
    assert_eq!(store.get(&p("c")), Ok(f("2.5")));
    assert_eq!(execute_query(&mut store, "{ return a.x }"), Ok(s("two")));
    assert_eq!(execute_query(&mut store, "{ return null }"), Ok(Value::Null));
    assert_eq!(
        execute_query(&mut store, "{ return missing }"),
        Err(StoreError::NotFound(p("missing")))
    );
    assert_eq!(
        execute_query(&mut store, "{ delete missing return 1 }"),
        Err(StoreError::NotFound(p("missing")))
    );
    assert_eq!(
        execute_query(&mut store, "{ d = 1 e = missing f = 2 }"),
        Err(StoreError::NotFound(p("missing")))
    );
    assert_eq!(store.get(&p("d")), Ok(Value::Integer(1)));
    assert_eq!(store.get(&p("f")), Err(StoreError::NotFound(p("f"))));
    assert!(matches!(
        execute_query(&mut store, "not a query"),
        Err(StoreError::InvalidOperation(_))
    ));
    assert_eq!(
        execute_query(&mut store, "{ return their.x }"),
        Err(StoreError::InvalidOperation(
            "'their' can only be used in a 'where' clause".to_string()
        ))
    );
}

#[test]
fn built_in_functions() {
    let mut store = sample_store();
    assert_eq!(execute_query(&mut store, "{ return count(\"users\") }"), Ok(Value::Integer(4)));
    assert_eq!(execute_query(&mut store, "{ return count(\"users.u1\") }"), Ok(Value::Integer(2)));
    assert_eq!(execute_query(&mut store, "{ return count(\"nothing\") }"), Ok(Value::Integer(0)));
    assert_eq!(
        execute_query(&mut store, "{ return count() }"),
        Err(StoreError::InvalidOperation(
            "count() function requires exactly one argument".to_string()
        ))
    );
    assert_eq!(
        execute_query(&mut store, "{ return count(1) }"),
        Err(StoreError::InvalidOperation(
            "count() function requires a path string argument".to_string()
        ))
    );
    assert!(matches!(
        execute_query(&mut store, "{ return count(\"\") }"),
        Err(StoreError::PathError(_))
    ));
    assert!(matches!(
        execute_query(&mut store, "{ return count(\"a\", \"b\") }"),
        Err(StoreError::InvalidOperation(_))
    ));
    assert_eq!(
        execute_query(&mut store, "{ return sum(1) }"),
        Err(StoreError::InvalidOperation("Unknown function: sum".to_string()))
    );
    assert_eq!(
        execute_query(&mut store, "{ return count(missing) }"),
        Err(StoreError::NotFound(p("missing")))
    );
    match execute_query(&mut store, "{ return uuid() }") {
        Ok(Value::String(text)) => {
            assert_eq!(text.len(), 36);
            assert_eq!(text.matches('-').count(), 4);
            assert_ne!(Ok(Value::String(text)), execute_query(&mut store, "{ return uuid() }"));
        }
        other => panic!("{:?}", other),
    }
    match execute_query(&mut store, "{ return now() }") {
        Ok(Value::String(text)) => {
            assert!(text.len() >= 25);
            assert_eq!(&text[4..5], "-");
            assert_eq!(&text[10..11], "T");
            assert!(text.ends_with("+00:00"));
        }
        other => panic!("{:?}", other),
    }
}

#[test]
fn evaluation_of_paths() {
    let store = sample_store();
    let context = EvaluationContext::new(&store);
    assert_eq!(context.evaluate(&Expression::Path(p("users.u1.name"))), Ok(s("alice")));
    assert_eq!(
        context.evaluate(&Expression::Path(p("users.u2"))),
        Ok(s("{\"active\":false,\"name\":\"bob\"}"))
    );
    assert_eq!(
        context.evaluate(&Expression::Path(p("posts"))),
        Err(StoreError::NotFound(p("posts")))
    );
    assert!(matches!(
        context.evaluate(&Expression::Path(Path::new())),
        Err(StoreError::InvalidOperation(_))
    ));
    assert_eq!(context.evaluate(&Expression::Literal(Value::Integer(5))), Ok(Value::Integer(5)));
    assert_eq!(context.evaluate_path(&p("users.u1.active")), Ok(Value::Boolean(true)));
    assert_eq!(
        context.call_function("count", &vec![s("users.u2")]),
        Ok(Value::Integer(2))
    );
}

#[test]
fn operations_one_by_one() {
    let mut store = MemoryStore::new();
    let assign = Operation::Assignment {
        path: p("k"),
        expression: Expression::Literal(Value::Integer(9)),
    };
    assert_eq!(execute_operation(&mut store, &assign), Ok(()));
    assert_eq!(store.get(&p("k")), Ok(Value::Integer(9)));
    let to_nowhere = Operation::Assignment {
        path: Path::new(),
        expression: Expression::Literal(Value::Integer(9)),
    };
    assert_eq!(
        execute_operation(&mut store, &to_nowhere),
        Err(StoreError::InvalidOperation("Cannot set value at empty path".to_string()))
    );
    assert_eq!(execute_operation(&mut store, &Operation::Delete { path: p("k") }), Ok(()));
    assert_eq!(
        execute_operation(&mut store, &Operation::Delete { path: p("k") }),
        Err(StoreError::NotFound(p("k")))
    );
    assert_eq!(store.count(), Ok(0));
    let empty = Query { operations: Vec::new(), return_expr: None };
    assert_eq!(
        hyperion::ql::executor::execute_query(&mut store, &empty),
        Ok(Value::Boolean(true))
    );
}

#[test]
fn filter_takes_every_condition_whatever_the_operator() {
    let mut store = sample_store();
    store.set(p("users.u3.active"), Value::Boolean(false)).unwrap();
    store.set(p("users.u3.name"), s("carol")).unwrap();
    assert_eq!(
        execute_query(
            &mut store,
            "{ return users where their.active == true || their.name == \"carol\" }"
        ),
        Ok(s("[]"))
    );
    assert_eq!(
        execute_query(
            &mut store,
            "{ return users where their.active == false || their.name == \"carol\" }"
        ),
        Ok(s("[{\"active\":false,\"name\":\"carol\"}]"))
    );
    assert_eq!(
        execute_query(
            &mut store,
            "{ return users where their.active == true || their.name == \"bob\" && their.active == false }"
        ),
        Ok(s("[]"))
    );
    assert_eq!(
        execute_query(
            &mut store,
            "{ return users where their.active == false && their.name == \"bob\" || their.name >= \"a\" }"
        ),
        Ok(s("[{\"active\":false,\"name\":\"bob\"}]"))
    );
}

#[test]
fn names_in_both_lists() {
    let a = vec!["u1".to_string(), "u2".to_string(), "u5".to_string()];
    let b = vec!["u2".to_string(), "u3".to_string(), "u1".to_string(), "u4".to_string()];
    assert_eq!(intersect_ids(&a, &b), vec!["u1", "u2"]);
    assert_eq!(intersect_ids(&b, &a), vec!["u2", "u1"]);
    assert!(intersect_ids(&a, &Vec::new()).is_empty());
}
