use pyrite::lexer::Position;
use pyrite::parser::{find_keywords, is_keyword, parse, parse_config, Parser};
use pyrite::syntax::{
    Decimal, Error, ExtensionChanges, Number, Object, Path, PathType, Span, Statement, Value,
};

fn float_of(n: &Number) -> f64 {
    match *n {
        Number::Integer(i) => i as f64,
        Number::Float(Decimal { negative, whole, fraction, divider }) => {
            if negative {
                whole as f64 - (fraction as f64 / divider as f64)
            } else {
                whole as f64 + (fraction as f64 / divider as f64)
            }
        }
    }
}

fn assert_float(n: &Number, expected: f64) {
    assert!(matches!(n, Number::Float(_)), "{:?} is not a float", n);
    assert_eq!(float_of(n), expected);
}

fn assert_float_value(v: &Value, expected: f64) {
    match v {
        Value::Number(n) => assert_float(n, expected),
        other => panic!("{:?} is not a number", other),
    }
}

fn pos(line: usize, column: usize) -> Position {
    Position { line, column }
}

#[test]
fn ident() {
    let mut parser = Parser::new("hello");
    assert_eq!(parser.parse_ident().unwrap(), Span {
        item: "hello".into(),
        from: Position { line: 0, column: 0 },
        to: Position { line: 0, column: 4 }
    });

    let mut parser = Parser::new("hello world");
    assert_eq!(parser.parse_ident().unwrap(), Span {
        item: "hello".into(),
        from: Position { line: 0, column: 0 },
        to: Position { line: 0, column: 4 }
    });
    parser.lexer.next();
    assert_eq!(parser.parse_ident().unwrap(), Span {
        item: "world".into(),
        from: Position { line: 0, column: 6 },
        to: Position { line: 0, column: 10 }
    });
}

#[test]
fn path() {
    let mut parser = Parser::new("hello");
    assert_eq!(parser.parse_path().unwrap(), Span {
        item: Path { path_type: PathType::Local, path: vec!["hello".into()] },
        from: Position { line: 0, column: 0 },
        to: Position { line: 0, column: 4 }
    });

    let mut parser = Parser::new("hello.world");
    assert_eq!(parser.parse_path().unwrap(), Span {
        item: Path { path_type: PathType::Local, path: vec!["hello".into(), "world".into()] },
        from: Position { line: 0, column: 0 },
        to: Position { line: 0, column: 10 }
    });

    let mut parser = Parser::new("root.hello.world");
    assert_eq!(parser.parse_path().unwrap(), Span {
        item: Path { path_type: PathType::Global, path: vec!["hello".into(), "world".into()] },
        from: Position { line: 0, column: 0 },
        to: Position { line: 0, column: 15 }
    });

    let mut parser = Parser::new("hello.world.");
    assert!(parser.parse_path().is_err());
    let mut parser = Parser::new("hello..world");
    assert!(parser.parse_path().is_err());
    let mut parser = Parser::new("root.root.hello.world");
    assert!(parser.parse_path().is_err());
    let mut parser = Parser::new("hello.root.world");
    assert!(parser.parse_path().is_err());
}

#[test]
fn string() {
    let mut parser = Parser::new("\"hello\"");
    assert_eq!(parser.parse_string().unwrap(), Span {
        item: "hello".into(),
        from: Position { line: 0, column: 0 },
        to: Position { line: 0, column: 6 }
    });

    let mut parser = Parser::new("\"hel\\\"lo\"");
    assert_eq!(parser.parse_string().unwrap(), Span {
        item: "hel\"lo".into(),
        from: Position { line: 0, column: 0 },
        to: Position { line: 0, column: 8 }
    });

    let mut parser = Parser::new("\"hel\\\\lo\"");
    assert_eq!(parser.parse_string().unwrap(), Span {
        item: "hel\\lo".into(),
        from: Position { line: 0, column: 0 },
        to: Position { line: 0, column: 8 }
    });

    let mut parser = Parser::new("hello");
    assert!(parser.parse_string().is_err());
}

#[test]
fn number() {
    let mut parser = Parser::new("12");
    assert_eq!(parser.parse_number().unwrap(), Span {
        item: Number::Integer(12),
        from: Position { line: 0, column: 0 },
        to: Position { line: 0, column: 1 }
    });

    let mut parser = Parser::new("-12");
    assert_eq!(parser.parse_number().unwrap(), Span {
        item: Number::Integer(-12),
        from: Position { line: 0, column: 0 },
        to: Position { line: 0, column: 2 }
    });

    let mut parser = Parser::new("-1202");
    assert_eq!(parser.parse_number().unwrap(), Span {
        item: Number::Integer(-1202),
        from: Position { line: 0, column: 0 },
        to: Position { line: 0, column: 4 }
    });

    let floats = [
        ("12.0", 12.0, 3),
        ("-12.0", -12.0, 4),
        ("12.123456", 12.123456, 8),
        ("12.", 12.0, 2),
    ];
    for &(source, value, to) in floats.iter() {
        let mut parser = Parser::new(source);
        let span = parser.parse_number().unwrap();
        assert_float(&span.item, value);
        assert_eq!(span.from, Position { line: 0, column: 0 });
        assert_eq!(span.to, Position { line: 0, column: to });
    }

    let mut parser = Parser::new("-");
    assert!(parser.parse_number().is_err());
    let mut parser = Parser::new("-.");
    assert!(parser.parse_number().is_err());
}

#[test]
fn list() {
    let mut parser = Parser::new("[]");
    assert_eq!(parser.parse_list().unwrap(), Span {
        item: vec![],
        from: Position { line: 0, column: 0 },
        to: Position { line: 0, column: 1 }
    });

    let mut parser = Parser::new("[12.0]");
    let span = parser.parse_list().unwrap();
    assert_eq!(span.item.len(), 1);
    assert_float_value(&span.item[0], 12.0);
    assert_eq!((span.from, span.to), (pos(0, 0), pos(0, 5)));

    let mut parser = Parser::new("[ 12.0 ]");
    let span = parser.parse_list().unwrap();
    assert_eq!(span.item.len(), 1);
    assert_float_value(&span.item[0], 12.0);
    assert_eq!((span.from, span.to), (pos(0, 0), pos(0, 7)));

    let mut parser = Parser::new("[ 12.0, \"hello\" ]");
    let span = parser.parse_list().unwrap();
    assert_eq!(span.item.len(), 2);
    assert_float_value(&span.item[0], 12.0);
    assert_eq!(span.item[1], Value::String("hello".into()));
    assert_eq!((span.from, span.to), (pos(0, 0), pos(0, 16)));

    let mut parser = Parser::new("[ -12.0 , \"hello\" ]");
    let span = parser.parse_list().unwrap();
    assert_eq!(span.item.len(), 2);
    assert_float_value(&span.item[0], -12.0);
    assert_eq!(span.item[1], Value::String("hello".into()));
    assert_eq!((span.from, span.to), (pos(0, 0), pos(0, 18)));

    let mut parser = Parser::new("[,]");
    assert!(parser.parse_list().is_err());

    let mut parser = Parser::new("[1,]");
    assert!(parser.parse_list().is_err());
}

#[test]
fn object() {
    let mut parser = Parser::new("hello.world");
    assert_eq!(parser.parse_object().unwrap(), Span {
        item: Object::Extension(Path {
            path_type: PathType::Local,
            path: vec!["hello".into(), "world".into()]
        }, None),
        from: Position { line: 0, column: 0 },
        to: Position { line: 0, column: 10 }
    });
    let mut parser = Parser::new("hello.world ( 12 )");
    assert_eq!(parser.parse_object().unwrap(), Span {
        item: Object::Extension(Path {
            path_type: PathType::Local,
            path: vec!["hello".into(), "world".into()]
        }, Some(ExtensionChanges::FunctionStyle(vec![
            Value::Number(Number::Integer(12))
        ]))),
        from: Position { line: 0, column: 0 },
        to: Position { line: 0, column: 17 }
    });
    let mut parser = Parser::new("hello.world { hello = 12 }");
    assert_eq!(parser.parse_object().unwrap(), Span {
        item: Object::Extension(Path {
            path_type: PathType::Local,
            path: vec!["hello".into(), "world".into()]
        }, Some(ExtensionChanges::BlockStyle(vec![
            (Path {
                path_type: PathType::Local,
                path: vec!["hello".into()]
            }, Value::Number(Number::Integer(12)))
        ]))),
        from: Position { line: 0, column: 0 },
        to: Position { line: 0, column: 25 }
    });
    let mut parser = Parser::new("{ hello = 12 }");
    assert_eq!(parser.parse_object().unwrap(), Span {
        item: Object::New(vec![
            (Path {
                path_type: PathType::Local,
                path: vec!["hello".into()]
            }, Value::Number(Number::Integer(12)))
        ]),
        from: Position { line: 0, column: 0 },
        to: Position { line: 0, column: 13 }
    });
}

#[test]
fn value() {
    let mut parser = Parser::new("\"hello\"");
    assert_eq!(parser.parse_value().unwrap(), Span {
        item: Value::String("hello".into()),
        from: Position { line: 0, column: 0 },
        to: Position { line: 0, column: 6 }
    });

    let mut parser = Parser::new("-12.0");
    let span = parser.parse_value().unwrap();
    assert_float_value(&span.item, -12.0);
    assert_eq!((span.from, span.to), (pos(0, 0), pos(0, 4)));

    let mut parser = Parser::new("[-12.0]");
    let span = parser.parse_value().unwrap();
    match &span.item {
        Value::List(items) => {
            assert_eq!(items.len(), 1);
            assert_float_value(&items[0], -12.0);
        }
        other => panic!("{:?} is not a list", other),
    }
    assert_eq!((span.from, span.to), (pos(0, 0), pos(0, 6)));

    let mut parser = Parser::new("hello.world");
    assert_eq!(parser.parse_value().unwrap(), Span {
        item: Value::Object(Object::Extension(Path {
            path_type: PathType::Local,
            path: vec!["hello".into(), "world".into()]
        }, None)),
        from: Position { line: 0, column: 0 },
        to: Position { line: 0, column: 10 }
    });
}

#[test]
fn parser_statement() {
    let mut parser = Parser::new("include \"hello\"");
    assert_eq!(parser.parse_statement().unwrap(), Span {
        item: Statement::Include("hello".into()),
        from: Position { line: 0, column: 0 },
        to: Position { line: 0, column: 14 }
    });

    let mut parser = Parser::new("hello = \"hello\"");
    assert_eq!(parser.parse_statement().unwrap(), Span {
        item: Statement::Assign(Path {
            path_type: PathType::Local,
            path: vec!["hello".into()]
        }, Value::String("hello".into())),
        from: Position { line: 0, column: 0 },
        to: Position { line: 0, column: 14 }
    });

    let mut parser = Parser::new("hello.world = \"hello\"");
    assert_eq!(parser.parse_statement().unwrap(), Span {
        item: Statement::Assign(Path {
            path_type: PathType::Local,
            path: vec!["hello".into(), "world".into()]
        }, Value::String("hello".into())),
        from: Position { line: 0, column: 0 },
        to: Position { line: 0, column: 20 }
    });

    let mut parser = Parser::new("include hello");
    assert!(parser.parse_statement().is_err());
    let mut parser = Parser::new("hello hello");
    assert!(parser.parse_statement().is_err());
    let mut parser = Parser::new("include.hello = \"hello\"");
    assert!(parser.parse_statement().is_err());
    let mut parser = Parser::new("include = \"hello\"");
    assert!(parser.parse_statement().is_err());
    let mut parser = Parser::new("hello.include = \"hello\"");
    assert!(parser.parse_statement().is_err());
    let mut parser = Parser::new("hello = include");
    assert!(parser.parse_statement().is_err());
}

#[test]
fn keywords_are_found() {
    assert!(is_keyword("root"));
    assert!(is_keyword("include"));
    assert!(!is_keyword("rooted"));
    assert!(!is_keyword(""));
    let words: Vec<String> = vec!["a".into(), "include".into(), "root".into()];
    assert_eq!(find_keywords(&words), Some("include".to_string()));
    let words: Vec<String> = vec!["a".into(), "b".into()];
    assert_eq!(find_keywords(&words), None);
}

#[test]
fn parse_whole_source() {
    let statements = parse("a.b = [1, \"x\"]").unwrap();
    assert_eq!(statements, vec![Span {
        item: Statement::Assign(
            Path { path_type: PathType::Local, path: vec!["a".into(), "b".into()] },
            Value::List(vec![Value::Number(Number::Integer(1)), Value::String("x".into())]),
        ),
        from: pos(0, 0),
        to: pos(0, 13),
    }]);
    assert_eq!(parse("").unwrap(), vec![]);
    // A statement cut short by the end of the source ends the list.
    assert_eq!(parse("a").unwrap(), vec![]);
    // Whitespace after a statement is not skipped before the next one.
    assert_eq!(parse("a = 1 b"), Err(Error::UnexpectedCharacter(pyrite::lexer::Character {
        ty: pyrite::lexer::CharacterType::Whitespace(' '),
        position: pos(0, 5),
    })));
    // Statements follow each other without whitespace in between.
    assert_eq!(parse("a = \"x\"b = \"y\"").unwrap().len(), 2);
}

#[test]
fn parse_errors() {
    assert_eq!(parse("1 = 2"), Err(Error::UnexpectedCharacter(pyrite::lexer::Character {
        ty: pyrite::lexer::CharacterType::Numeric(1),
        position: pos(0, 0),
    })));
    match parse("root.include = 1") {
        Err(Error::UnexpectedKeyword(span)) => {
            assert_eq!(span.item, "include");
            assert_eq!((span.from, span.to), (pos(0, 0), pos(0, 11)));
        }
        other => panic!("unexpected {:?}", other),
    }
    // A value that cannot be read is reported where it starts, whatever went wrong inside.
    assert_eq!(parse("a = { include \"x\" }"), Err(Error::ExpectedValue(pos(0, 5))));
    assert_eq!(parse("a = ="), Err(Error::ExpectedValue(pos(0, 5))));
    assert_eq!(parse("a ="), Err(Error::ExpectedValue(pos(0, 3))));
    let mut parser = Parser::new("{ include \"x\" }");
    assert_eq!(parser.parse_block(), Err(Some(Error::UnexpectedInclude(pos(0, 2), pos(0, 12)))));
}

#[test]
fn wrapping_whole_part() {
    // Digits accumulate in wrapping 64-bit arithmetic.
    let mut parser = Parser::new("9223372036854775808");
    assert_eq!(parser.parse_number().unwrap().item, Number::Integer(i64::MIN));
}

fn config_items(source: &str) -> Result<Vec<Statement>, Error> {
    parse_config(source).map(|statements| statements.into_iter().map(|s| s.item).collect())
}

#[test]
fn mod_statement() {
    let stmt = config_items("include \"hello\"");
    assert_eq!(stmt.unwrap(), vec![Statement::Include("hello".into())]);

    let stmt = config_items("include \"hello\" as a.b.c");
    assert_eq!(
        stmt.unwrap(),
        vec![Statement::IncludeAs(
            "hello".into(),
            Path { path_type: PathType::Local, path: vec!["a".into(), "b".into(), "c".into()] }
        )]
    );

    let stmt = config_items("hello = \"hello\"");
    assert_eq!(
        stmt.unwrap(),
        vec![Statement::Assign(
            Path { path_type: PathType::Local, path: vec!["hello".into()] },
            Value::String("hello".into())
        )]
    );

    let stmt = config_items("hello.world = \"hello\"");
    assert_eq!(
        stmt.unwrap(),
        vec![Statement::Assign(
            Path { path_type: PathType::Local, path: vec!["hello".into(), "world".into()] },
            Value::String("hello".into())
        )]
    );

    let stmt = config_items("include hello");
    assert!(stmt.is_err());
    let stmt = config_items("hello hello");
    assert!(stmt.is_err());
    let stmt = config_items("include.hello = \"hello\"");
    assert!(stmt.is_err());
    let stmt = config_items("include = \"hello\"");
    assert!(stmt.is_err());
    let stmt = config_items("hello.include = \"hello\"");
    assert!(stmt.is_err());
    let stmt = config_items("hello = include");
    assert!(stmt.is_err());
}

#[test]
fn include_as_ends_where_its_path_ends() {
    let stmt = config_items("include \"a\"\nb = 1\ninclude \"c\" as d\ne = 2");
    assert_eq!(
        stmt.unwrap(),
        vec![
            Statement::Include("a".into()),
            Statement::Assign(Path { path_type: PathType::Local, path: vec!["b".into()] }, Value::Number(Number::Integer(1))),
            Statement::IncludeAs("c".into(), Path { path_type: PathType::Local, path: vec!["d".into()] }),
            Statement::Assign(Path { path_type: PathType::Local, path: vec!["e".into()] }, Value::Number(Number::Integer(2))),
        ]
    );
    assert_eq!(
        config_items("include \"a\" as include"),
        Err(Error::UnexpectedKeyword(Span {
            item: "include".into(),
            from: Position { line: 0, column: 15 },
            to: Position { line: 0, column: 21 },
        }))
    );
}
