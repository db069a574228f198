use pyrite::lexer::{classify_char, is_white_space_char, Bracket, Character, CharacterType, Lexer, Position};

#[test]
fn character_types() {
    let mut lexer = Lexer::new("{[()]}=,.\"\\ \n8$");
    assert_eq!(lexer.next(), Some(Character {
        ty: CharacterType::Open(Bracket::Brace),
        position: Position {
            line: 0,
            column: 0
        }
    }));
    assert_eq!(lexer.next(), Some(Character {
        ty: CharacterType::Open(Bracket::Square),
        position: Position {
            line: 0,
            column: 1
        }
    }));
    assert_eq!(lexer.next(), Some(Character {
        ty: CharacterType::Open(Bracket::Parenthesis),
        position: Position {
            line: 0,
            column: 2
        }
    }));

    assert_eq!(lexer.next(), Some(Character {
        ty: CharacterType::Close(Bracket::Parenthesis),
        position: Position {
            line: 0,
            column: 3
        }
    }));
    assert_eq!(lexer.next(), Some(Character {
        ty: CharacterType::Close(Bracket::Square),
        position: Position {
            line: 0,
            column: 4
        }
    }));
    assert_eq!(lexer.next(), Some(Character {
        ty: CharacterType::Close(Bracket::Brace),
        position: Position {
            line: 0,
            column: 5
        }
    }));

    assert_eq!(lexer.next(), Some(Character {
        ty: CharacterType::Equals,
        position: Position {
            line: 0,
            column: 6
        }
    }));
    assert_eq!(lexer.next(), Some(Character {
        ty: CharacterType::Comma,
        position: Position {
            line: 0,
            column: 7
        }
    }));
    assert_eq!(lexer.next(), Some(Character {
        ty: CharacterType::Dot,
        position: Position {
            line: 0,
            column: 8
        }
    }));
    assert_eq!(lexer.next(), Some(Character {
        ty: CharacterType::Quote,
        position: Position {
            line: 0,
            column: 9
        }
    }));
    assert_eq!(lexer.next(), Some(Character {
        ty: CharacterType::BackSlash,
        position: Position {
            line: 0,
            column: 10
        }
    }));

    assert_eq!(lexer.next(), Some(Character {
        ty: CharacterType::Whitespace(' '),
        position: Position {
            line: 0,
            column: 11
        }
    }));
    assert_eq!(lexer.next(), Some(Character {
        ty: CharacterType::Whitespace('\n'),
        position: Position {
            line: 0,
            column: 12
        }
    }));

    assert_eq!(lexer.next(), Some(Character {
        ty: CharacterType::Numeric(8),
        position: Position {
            line: 1,
            column: 0
        }
    }));
    assert_eq!(lexer.next(), Some(Character {
        ty: CharacterType::Other('$'),
        position: Position {
            line: 1,
            column: 1
        }
    }));

    assert_eq!(lexer.next(), None);
}

#[test]
fn skip_whitespace() {
    let mut lexer = Lexer::new("a     \\   \n  b");
    lexer.skip_whitespace();
    assert_eq!(lexer.next(), Some(Character {
        ty: CharacterType::Other('a'),
        position: Position {
            line: 0,
            column: 0
        }
    }));
    lexer.skip_whitespace();
    assert_eq!(lexer.next(), Some(Character {
        ty: CharacterType::BackSlash,
        position: Position {
            line: 0,
            column: 6
        }
    }));
    lexer.skip_whitespace();
    assert_eq!(lexer.next(), Some(Character {
        ty: CharacterType::Other('b'),
        position: Position {
            line: 1,
            column: 2
        }
    }));
    assert_eq!(lexer.next(), None);
}

#[test]
fn peek() {
    let mut lexer = Lexer::new("abc");
    assert_eq!(lexer.peek().map(|p| *p.get()).as_ref(), Some(&Character {
        ty: CharacterType::Other('a'),
        position: Position {
            line: 0,
            column: 0
        }
    }));
    assert_eq!(lexer.peek().map(|p| p.take()), Some(Character {
        ty: CharacterType::Other('a'),
        position: Position {
            line: 0,
            column: 0
        }
    }));
    assert_eq!(lexer.peek().map(|p| *p.get()).as_ref(), Some(&Character {
        ty: CharacterType::Other('b'),
        position: Position {
            line: 0,
            column: 1
        }
    }));
    assert_eq!(lexer.next(), Some(Character {
        ty: CharacterType::Other('b'),
        position: Position {
            line: 0,
            column: 1
        }
    }));
    assert_eq!(lexer.next(), Some(Character {
        ty: CharacterType::Other('c'),
        position: Position {
            line: 0,
            column: 2
        }
    }));
    assert_eq!(lexer.next(), None);
}

#[test]
fn white_space_matches_std() {
    for code in 0u32..0x110000 {
        if let Some(c) = char::from_u32(code) {
            assert_eq!(is_white_space_char(c), c.is_whitespace(), "{:?}", c);
        }
    }
}

#[test]
fn classification_matches_std() {
    for code in 0u32..0x110000 {
        if let Some(c) = char::from_u32(code) {
            let t = classify_char(c);
            match t {
                CharacterType::Whitespace(w) => assert!(w == c && c.is_whitespace()),
                CharacterType::Numeric(d) => assert_eq!(c.to_digit(10), Some(d as u32)),
                CharacterType::Other(o) => {
                    assert_eq!(o, c);
                    assert!(!c.is_whitespace() && c.to_digit(10).is_none());
                }
                _ => {}
            }
            assert_eq!(t.to_char(), c);
            assert_eq!(CharacterType::from(c), t);
        }
    }
}

#[test]
fn brackets_classify() {
    assert_eq!(classify_char('('), CharacterType::Open(Bracket::Parenthesis));
    assert_eq!(classify_char('}'), CharacterType::Close(Bracket::Brace));
    assert_eq!(classify_char(']'), CharacterType::Close(Bracket::Square));
    assert!(CharacterType::Whitespace('\t').is_whitespace());
    assert!(!CharacterType::Other('x').is_whitespace());
}

#[test]
fn positions_advance() {
    let p = Position { line: 3, column: 7 };
    assert_eq!(p.next_column(), Position { line: 3, column: 8 });
    assert_eq!(p.next_line(), Position { line: 4, column: 0 });
}

#[test]
fn lexer_position_reports_after_pulled_character() {
    let mut lexer = Lexer::new("a\nb");
    assert_eq!(lexer.position(), Position { line: 0, column: 0 });
    lexer.next();
    assert_eq!(lexer.position(), Position { line: 0, column: 1 });
    lexer.next();
    assert_eq!(lexer.position(), Position { line: 1, column: 0 });
    let peeked = lexer.peek().map(|p| *p.get());
    assert_eq!(peeked.map(|c| c.to_char()), Some('b'));
    assert_eq!(lexer.position(), Position { line: 1, column: 1 });
    assert_eq!(lexer.next().map(|c| c.position), Some(Position { line: 1, column: 0 }));
    assert_eq!(lexer.next(), None);
    assert!(lexer.peek().is_none());
}
