//! A recursive descent parser for the configuration language.
use vstd::prelude::*;

use crate::grammar::{
    SResult, digits_end, first_keyword, fraction_fold, ident_end, kw_include, kw_root,
    parse_block, parse_ident, parse_list, parse_number, parse_object, parse_path, parse_sequence,
    parse_source, parse_statement, parse_statements, parse_string, parse_value, path_more,
    path_rest, rem, spec_is_keyword, lemma_ident_end, lemma_digits_end, stop_at, string_body, whole_fold, whole_step, block_rest,
    sequence_rest, number_tail, next_type, peek_state, parse_config_source, parse_spaced_statements,
    parse_config_statement, kw_as,
};
use crate::lexer::{
    Bracket, Character, CharacterType, LexView, Lexer, Position, char_at, classify,
    lemma_classify_round_trip, lemma_first_non_whitespace, pos_at,
};
use crate::syntax::{
    Decimal, Error, ExtensionChanges, Number, Object, Path, PathType, SError, SExtension, SObject,
    SPath, SStatement, SValue, Span, Statement, Value, agrees, changes_view, error_view,
    object_view, opt_error_view, pairs_view, path_view, statement_view, strings_view, value_view,
    values_view,
};

verus! {

/// Appends a character to a string.
#[verifier::external_body]
fn push_char(s: &mut String, c: char)
    ensures
        final(s)@ == old(s)@.push(c),
{
    s.push(c);
}

/// Whether two strings hold the same characters.
fn same_text(a: &str, b: &str) -> (r: bool)
    ensures
        r == (a@ == b@),
{
    a.to_owned() == b.to_owned()
}

/// Whether a word is one of the language's keywords, `root` and `include`.
pub fn is_keyword(word: &str) -> (r: bool)
    ensures
        r == spec_is_keyword(word@),
{
    proof {
        reveal_strlit("root");
        reveal_strlit("include");
        assert("root"@ =~= kw_root());
        assert("include"@ =~= kw_include());
    }
    if same_text(word, "root") || same_text(word, "include") {
        true
    } else {
        false
    }
}

/// The first keyword among `words`, if any.
pub fn find_keywords(words: &[String]) -> (r: Option<String>)
    ensures
        r matches Some(w) ==> first_keyword(strings_view(words@)) == Some(w@),
        r is None ==> first_keyword(strings_view(words@)) is None,
{
    let mut i: usize = 0;
    proof {
        assert(strings_view(words@).subrange(0, words@.len() as int) =~= strings_view(words@));
    }
    while i < words.len()
        invariant
            0 <= i <= words@.len(),
            first_keyword(strings_view(words@)) == first_keyword(
                strings_view(words@).subrange(i as int, words@.len() as int),
            ),
        decreases words@.len() - i,
    {
        let ghost rest = strings_view(words@).subrange(i as int, words@.len() as int);
        proof {
            assert(rest[0] == words@[i as int]@);
            assert(rest.subrange(1, rest.len() as int) =~= strings_view(words@).subrange(
                i + 1,
                words@.len() as int,
            ));
        }
        if is_keyword(words[i].as_str()) {
            return Some(words[i].clone());
        }
        i = i + 1;
    }
    proof {
        assert(strings_view(words@).subrange(i as int, words@.len() as int).len() == 0);
    }
    None
}

/// Reads the configuration language from a character stream.
pub struct Parser {
    pub lexer: Lexer,
}

impl Parser {
    pub open spec fn wf(&self) -> bool {
        self.lexer.wf()
    }

    /// A parser at the start of `source`.
    pub fn new(source: &str) -> (p: Parser)
        ensures
            p.wf(),
            p.lexer@ == (LexView { src: source@, cursor: 0, buffered: false }),
    {
        Parser { lexer: Lexer::new(source) }
    }

    /// An identifier.
    pub fn parse_ident(&mut self) -> (r: Result<Span<String>, Option<Error>>)
        requires
            old(self).wf(),
        ensures
            final(self).wf(),
            agrees(r, parse_ident(old(self).lexer@).0, |s: String| s@),
            final(self).lexer@ == parse_ident(old(self).lexer@).1,
            rem(final(self).lexer@) <= rem(old(self).lexer@),
            final(self).lexer@.src == old(self).lexer@.src,
            r is Ok ==> rem(final(self).lexer@) < rem(old(self).lexer@),
    {
        let ghost v = self.lexer@;
        proof {
            self.lexer.lemma_wf();
        }
        let mut ident = String::new();
        let first_pos;
        match self.lexer.peek() {
            None => {
                return Err(None);
            },
            Some(first) => {
                if let CharacterType::Other(_) = first.character.ty {
                    first_pos = first.character.position;
                    let ch = first.take();
                    proof {
                        lemma_classify_round_trip(v.src[v.cursor]);
                    }
                    push_char(&mut ident, ch.to_char());
                } else {
                    let c = first.character;
                    return Err(Some(Error::UnexpectedCharacter(c)));
                }
            },
        }
        let mut last_pos = first_pos;
        proof {
            lemma_ident_end(v.src, v.cursor + 1);
        }
        loop
            invariant_except_break
                !self.lexer@.buffered,
            invariant
                self.wf(),
                v.valid(),
                self.lexer@.src == v.src,
                v.cursor < self.lexer@.cursor <= ident_end(v.src, v.cursor + 1) <= v.src.len(),
                ident_end(v.src, v.cursor + 1) == ident_end(v.src, self.lexer@.cursor),
                ident@ == v.src.subrange(v.cursor, self.lexer@.cursor),
                first_pos == pos_at(v.src, v.cursor),
                last_pos == pos_at(v.src, self.lexer@.cursor - 1),
                v.cursor < v.src.len(),
                classify(v.src[v.cursor]) is Other,
            ensures
                self.wf(),
                self.lexer@ == stop_at(v, ident_end(v.src, v.cursor + 1)),
                ident@ == v.src.subrange(v.cursor, ident_end(v.src, v.cursor + 1)),
                last_pos == pos_at(v.src, ident_end(v.src, v.cursor + 1) - 1),
            decreases v.src.len() - self.lexer@.cursor,
        {
            let ghost j = self.lexer@.cursor;
            proof {
                self.lexer.lemma_wf();
                lemma_ident_end(v.src, j);
            }
            match self.lexer.peek() {
                Some(c) => {
                    match c.character.ty {
                        CharacterType::Numeric(_) | CharacterType::Other(_) => {
                            last_pos = c.character.position;
                            let ch = c.take();
                            proof {
                                lemma_ident_end(v.src, j + 1);
                                lemma_classify_round_trip(v.src[j]);
                                assert(v.src.subrange(v.cursor, j + 1) =~= v.src.subrange(
                                    v.cursor,
                                    j,
                                ).push(v.src[j]));
                            }
                            push_char(&mut ident, ch.to_char());
                        },
                        _ => {
                            break ;
                        },
                    }
                },
                None => {
                    break ;
                },
            }
        }
        Ok(Span { item: ident, from: first_pos, to: last_pos })
    }

    /// A path: identifiers separated by dots, where a leading `root` makes it global.
    pub fn parse_path(&mut self) -> (r: Result<Span<Path>, Option<Error>>)
        requires
            old(self).wf(),
        ensures
            final(self).wf(),
            agrees(r, parse_path(old(self).lexer@).0, |p: Path| path_view(p)),
            final(self).lexer@ == parse_path(old(self).lexer@).1,
            rem(final(self).lexer@) <= rem(old(self).lexer@),
            final(self).lexer@.src == old(self).lexer@.src,
            r is Ok ==> rem(final(self).lexer@) < rem(old(self).lexer@),
    {
        let ghost v0 = self.lexer@;
        let mut path: Vec<String> = Vec::new();
        let mut path_type = PathType::Local;
        let mut first_pos: Option<Position> = None;
        let mut last_pos = Position { line: 0, column: 0 };
        proof {
            assert(strings_view(path@) =~= Seq::<Seq<char>>::empty());
            self.lexer.lemma_wf();
        }
        loop
            invariant_except_break
                parse_path(v0) == path_rest(self.lexer@, path_type, strings_view(path@), first_pos),
                rem(self.lexer@) <= rem(v0),
                path.len() > 0 || path_type == PathType::Global ==> rem(self.lexer@) < rem(v0),
            invariant
                self.wf(),
                self.lexer@.src == v0.src,
                v0.valid(),
                v0 == old(self).lexer@,
            ensures
                parse_path(v0).1 == self.lexer@,
                parse_path(v0).0 == Ok::<Span<SPath>, Option<SError>>(
                    Span {
                        item: SPath { path_type, path: strings_view(path@) },
                        from: first_pos.unwrap_or(last_pos),
                        to: last_pos,
                    },
                ),
                rem(self.lexer@) < rem(v0),
            decreases rem(self.lexer@),
        {
            let ghost v = self.lexer@;
            let ident = match self.parse_ident() {
                Ok(i) => i,
                Err(e) => {
                    return Err(e);
                },
            };
            let ghost v1 = self.lexer@;
            let ghost old_type = path_type;
            let ghost old_path0 = strings_view(path@);
            let ghost old_first = first_pos;
            proof {
                self.lexer.lemma_wf();
                reveal_strlit("root");
                assert("root"@ =~= kw_root());
            }
            let is_root = same_text(ident.item.as_str(), "root");
            if is_root && path_type == PathType::Local && path.len() == 0 {
                if first_pos.is_none() {
                    first_pos = Some(ident.from);
                }
                last_pos = ident.to;
                path_type = PathType::Global;
            } else if is_root {
                return Err(Some(Error::UnexpectedKeyword(ident)));
            } else {
                if first_pos.is_none() {
                    first_pos = Some(ident.from);
                }
                last_pos = ident.to;
                let ghost old_path = strings_view(path@);
                let ghost item = ident.item@;
                path.push(ident.item);
                proof {
                    assert(strings_view(path@) =~= old_path.push(item));
                }
            }
            proof {
                assert(path_rest(v, old_type, old_path0, old_first) == path_more(
                    v,
                    v1,
                    path_type,
                    strings_view(path@),
                    first_pos,
                    last_pos,
                ));
            }
            match self.lexer.peek() {
                Some(c) => {
                    if let CharacterType::Dot = c.character.ty {
                        c.take();
                    } else {
                        break ;
                    }
                },
                None => {
                    break ;
                },
            }
        }
        Ok(Span { item: Path { path_type, path }, from: first_pos.unwrap_or(last_pos), to: last_pos })
    }

    /// A string in quotes; a backslash takes the next character as it is.
    pub fn parse_string(&mut self) -> (r: Result<Span<String>, Option<Error>>)
        requires
            old(self).wf(),
        ensures
            final(self).wf(),
            agrees(r, parse_string(old(self).lexer@).0, |s: String| s@),
            final(self).lexer@ == parse_string(old(self).lexer@).1,
            rem(final(self).lexer@) <= rem(old(self).lexer@),
            final(self).lexer@.src == old(self).lexer@.src,
            r is Ok ==> rem(final(self).lexer@) < rem(old(self).lexer@),
    {
        let ghost v = self.lexer@;
        proof {
            self.lexer.lemma_wf();
        }
        let first_pos = match self.lexer.peek() {
            None => {
                return Err(None);
            },
            Some(first) => {
                if let CharacterType::Quote = first.character.ty {
                    first.take().position
                } else {
                    let c = first.character;
                    return Err(Some(Error::UnexpectedCharacter(c)));
                }
            },
        };
        let mut string = String::new();
        let mut last_pos = first_pos;
        let ghost body = string_body(v.src, v.cursor + 1, Seq::empty(), first_pos);
        proof {
            assert(string@ =~= Seq::<char>::empty());
        }
        loop
            invariant_except_break
                string_body(v.src, self.lexer@.cursor, string@, last_pos) == body,
            invariant
                self.wf(),
                v.valid(),
                v.cursor < v.src.len(),
                self.lexer@.src == v.src,
                !self.lexer@.buffered,
                v.cursor < self.lexer@.cursor <= v.src.len(),
                body == string_body(v.src, v.cursor + 1, Seq::empty(), first_pos),
                first_pos == pos_at(v.src, v.cursor),
            ensures
                self.wf(),
                self.lexer@ == v.at(body.2, false),
                string@ == body.0,
                last_pos == body.1,
            decreases v.src.len() - self.lexer@.cursor,
        {
            let ghost j = self.lexer@.cursor;
            proof {
                self.lexer.lemma_wf();
            }
            match self.lexer.next() {
                None => {
                    break ;
                },
                Some(c) => {
                    proof {
                        lemma_classify_round_trip(v.src[j]);
                    }
                    match c.ty {
                        CharacterType::Quote => {
                            last_pos = c.position;
                            break ;
                        },
                        CharacterType::BackSlash => {
                            proof {
                                self.lexer.lemma_wf();
                            }
                            if let Some(e) = self.lexer.next() {
                                proof {
                                    lemma_classify_round_trip(v.src[j + 1]);
                                }
                                last_pos = e.position;
                                push_char(&mut string, e.to_char());
                            }
                        },
                        _ => {
                            last_pos = c.position;
                            push_char(&mut string, c.to_char());
                        },
                    }
                },
            }
        }
        Ok(Span { item: string, from: first_pos, to: last_pos })
    }

    /// Reads the digits that follow; `whole` is updated digit by digit.
    fn parse_digits(&mut self, whole: &mut i64, negative: bool, last_pos: &mut Position)
        requires
            old(self).wf(),
            !old(self).lexer@.buffered,
        ensures
            final(self).wf(),
            final(self).lexer@ == stop_at(
                old(self).lexer@,
                digits_end(old(self).lexer@.src, old(self).lexer@.cursor),
            ),
            *final(whole) == whole_fold(
                old(self).lexer@.src,
                old(self).lexer@.cursor,
                digits_end(old(self).lexer@.src, old(self).lexer@.cursor),
                *old(whole),
                negative,
            ),
            *final(last_pos) == if digits_end(old(self).lexer@.src, old(self).lexer@.cursor)
                > old(self).lexer@.cursor {
                pos_at(
                    old(self).lexer@.src,
                    digits_end(old(self).lexer@.src, old(self).lexer@.cursor) - 1,
                )
            } else {
                *old(last_pos)
            },
    {
        let ghost v = self.lexer@;
        let ghost w0 = *whole;
        let ghost l0 = *last_pos;
        proof {
            self.lexer.lemma_wf();
            lemma_digits_end(v.src, v.cursor);
        }
        let ghost e = digits_end(v.src, v.cursor);
        loop
            invariant_except_break
                !self.lexer@.buffered,
            invariant
                self.wf(),
                v.valid(),
                self.lexer@.src == v.src,
                v.cursor <= self.lexer@.cursor <= e <= v.src.len(),
                e == digits_end(v.src, v.cursor),
                e == digits_end(v.src, self.lexer@.cursor),
                *whole == whole_fold(v.src, v.cursor, self.lexer@.cursor, w0, negative),
                *last_pos == if self.lexer@.cursor > v.cursor {
                    pos_at(v.src, self.lexer@.cursor - 1)
                } else {
                    l0
                },
            ensures
                self.wf(),
                self.lexer@ == stop_at(v, e),
                *whole == whole_fold(v.src, v.cursor, e, w0, negative),
                *last_pos == if e > v.cursor {
                    pos_at(v.src, e - 1)
                } else {
                    l0
                },
            decreases v.src.len() - self.lexer@.cursor,
        {
            let ghost j = self.lexer@.cursor;
            proof {
                self.lexer.lemma_wf();
                lemma_digits_end(v.src, j);
            }
            match self.lexer.peek() {
                Some(c) => {
                    if let CharacterType::Numeric(n) = c.character.ty {
                        *last_pos = c.take().position;
                        proof {
                            lemma_digits_end(v.src, j + 1);
                        }
                        let w = (*whole).wrapping_mul(10);
                        if negative {
                            *whole = w.wrapping_sub(n as i64);
                        } else {
                            *whole = w.wrapping_add(n as i64);
                        }
                    } else {
                        break ;
                    }
                },
                None => {
                    break ;
                },
            }
        }
    }

    /// Reads the digits of a fraction.
    fn parse_fraction(&mut self, last_pos: &mut Position) -> (r: (u64, u64))
        requires
            old(self).wf(),
            !old(self).lexer@.buffered,
        ensures
            final(self).wf(),
            final(self).lexer@ == stop_at(
                old(self).lexer@,
                digits_end(old(self).lexer@.src, old(self).lexer@.cursor),
            ),
            r == fraction_fold(
                old(self).lexer@.src,
                old(self).lexer@.cursor,
                digits_end(old(self).lexer@.src, old(self).lexer@.cursor),
            ),
            *final(last_pos) == if digits_end(old(self).lexer@.src, old(self).lexer@.cursor)
                > old(self).lexer@.cursor {
                pos_at(
                    old(self).lexer@.src,
                    digits_end(old(self).lexer@.src, old(self).lexer@.cursor) - 1,
                )
            } else {
                *old(last_pos)
            },
    {
        let ghost v = self.lexer@;
        let ghost l0 = *last_pos;
        proof {
            self.lexer.lemma_wf();
            lemma_digits_end(v.src, v.cursor);
        }
        let ghost e = digits_end(v.src, v.cursor);
        let mut fraction_part: u64 = 0;
        let mut divider: u64 = 1;
        loop
            invariant_except_break
                !self.lexer@.buffered,
            invariant
                self.wf(),
                v.valid(),
                self.lexer@.src == v.src,
                v.cursor <= self.lexer@.cursor <= e <= v.src.len(),
                e == digits_end(v.src, v.cursor),
                e == digits_end(v.src, self.lexer@.cursor),
                (fraction_part, divider) == fraction_fold(v.src, v.cursor, self.lexer@.cursor),
                *last_pos == if self.lexer@.cursor > v.cursor {
                    pos_at(v.src, self.lexer@.cursor - 1)
                } else {
                    l0
                },
            ensures
                self.wf(),
                self.lexer@ == stop_at(v, e),
                (fraction_part, divider) == fraction_fold(v.src, v.cursor, e),
                *last_pos == if e > v.cursor {
                    pos_at(v.src, e - 1)
                } else {
                    l0
                },
            decreases v.src.len() - self.lexer@.cursor,
        {
            let ghost j = self.lexer@.cursor;
            proof {
                self.lexer.lemma_wf();
                lemma_digits_end(v.src, j);
            }
            match self.lexer.peek() {
                Some(c) => {
                    if let CharacterType::Numeric(n) = c.character.ty {
                        *last_pos = c.take().position;
                        proof {
                            lemma_digits_end(v.src, j + 1);
                        }
                        fraction_part = fraction_part.wrapping_mul(10).wrapping_add(n as u64);
                        divider = divider.wrapping_mul(10);
                    } else {
                        break ;
                    }
                },
                None => {
                    break ;
                },
            }
        }
        (fraction_part, divider)
    }

    /// A number: an optional minus sign, digits, and optionally a dot and more digits.
    /// Digits accumulate in wrapping 64-bit arithmetic.
    pub fn parse_number(&mut self) -> (r: Result<Span<Number>, Option<Error>>)
        requires
            old(self).wf(),
        ensures
            final(self).wf(),
            agrees(r, parse_number(old(self).lexer@).0, |n: Number| n),
            final(self).lexer@ == parse_number(old(self).lexer@).1,
            rem(final(self).lexer@) <= rem(old(self).lexer@),
            final(self).lexer@.src == old(self).lexer@.src,
            r is Ok ==> rem(final(self).lexer@) < rem(old(self).lexer@),
    {
        let ghost v = self.lexer@;
        proof {
            self.lexer.lemma_wf();
        }
        let mut whole_part: i64 = 0;
        let mut negative = false;
        let first_pos = match self.lexer.peek() {
            None => {
                return Err(None);
            },
            Some(first) => {
                if let CharacterType::Other('-') = first.character.ty {
                    negative = true;
                } else if let CharacterType::Numeric(n) = first.character.ty {
                    whole_part = n as i64;
                } else {
                    let c = first.character;
                    return Err(Some(Error::UnexpectedCharacter(c)));
                }
                first.take().position
            },
        };
        proof {
            self.lexer.lemma_wf();
        }
        if negative {
            match self.lexer.peek() {
                None => {
                    return Err(None);
                },
                Some(second) => {
                    if let CharacterType::Numeric(n) = second.character.ty {
                        second.take();
                        whole_part = -(n as i64);
                    } else {
                        let c = second.character;
                        return Err(Some(Error::UnexpectedCharacter(c)));
                    }
                },
            }
        }
        let ghost j = self.lexer@.cursor;
        let ghost w0 = whole_part;
        let mut last_pos = first_pos;
        self.parse_digits(&mut whole_part, negative, &mut last_pos);
        let ghost e = digits_end(v.src, j);
        proof {
            self.lexer.lemma_wf();
            lemma_digits_end(v.src, j);
        }
        let float = match self.lexer.peek() {
            Some(c) => {
                if let CharacterType::Dot = c.character.ty {
                    last_pos = c.take().position;
                    true
                } else {
                    false
                }
            },
            None => false,
        };
        if !float {
            return Ok(Span { item: Number::Integer(whole_part), from: first_pos, to: last_pos });
        }
        proof {
            self.lexer.lemma_wf();
            lemma_digits_end(v.src, e + 1);
        }
        let (fraction_part, divider) = self.parse_fraction(&mut last_pos);
        Ok(
            Span {
                item: Number::Float(
                    Decimal { negative, whole: whole_part, fraction: fraction_part, divider },
                ),
                from: first_pos,
                to: last_pos,
            },
        )
    }

    /// A value: a string, a number, a list or an object, tried in that order.
    pub fn parse_value(&mut self) -> (r: Result<Span<Value>, Option<Error>>)
        requires
            old(self).wf(),
        ensures
            final(self).wf(),
            agrees(r, parse_value(old(self).lexer@).0, |x: Value| value_view(x)),
            final(self).lexer@ == parse_value(old(self).lexer@).1,
            rem(final(self).lexer@) <= rem(old(self).lexer@),
            final(self).lexer@.src == old(self).lexer@.src,
            r is Ok ==> rem(final(self).lexer@) < rem(old(self).lexer@),
        decreases rem(old(self).lexer@), 4int,
    {
        let ghost v = self.lexer@;
        let pos = self.lexer.position();
        match self.parse_string() {
            Ok(string) => {
                return Ok(Span { item: Value::String(string.item), from: string.from, to: string.to });
            },
            Err(_) => {},
        }
        match self.parse_number() {
            Ok(num) => {
                return Ok(Span { item: Value::Number(num.item), from: num.from, to: num.to });
            },
            Err(_) => {},
        }
        match self.parse_list() {
            Ok(list) => {
                return Ok(Span { item: Value::List(list.item), from: list.from, to: list.to });
            },
            Err(_) => {},
        }
        match self.parse_object() {
            Ok(object) => {
                return Ok(
                    Span { item: Value::Object(object.item), from: object.from, to: object.to },
                );
            },
            Err(_) => {},
        }
        Err(Some(Error::ExpectedValue(pos)))
    }

    /// A list: values in square brackets.
    pub fn parse_list(&mut self) -> (r: Result<Span<Vec<Value>>, Option<Error>>)
        requires
            old(self).wf(),
        ensures
            final(self).wf(),
            agrees(r, parse_list(old(self).lexer@).0, |x: Vec<Value>| values_view(x@)),
            final(self).lexer@ == parse_list(old(self).lexer@).1,
            rem(final(self).lexer@) <= rem(old(self).lexer@),
            final(self).lexer@.src == old(self).lexer@.src,
            r is Ok ==> rem(final(self).lexer@) < rem(old(self).lexer@),
        decreases rem(old(self).lexer@), 3int,
    {
        self.parse_sequence(Bracket::Square)
    }

    /// Values separated by commas between an opening and a closing bracket of one kind.
    pub fn parse_sequence(&mut self, bracket: Bracket) -> (r: Result<Span<Vec<Value>>, Option<Error>>)
        requires
            old(self).wf(),
        ensures
            final(self).wf(),
            agrees(r, parse_sequence(old(self).lexer@, bracket).0, |x: Vec<Value>| values_view(x@)),
            final(self).lexer@ == parse_sequence(old(self).lexer@, bracket).1,
            rem(final(self).lexer@) <= rem(old(self).lexer@),
            final(self).lexer@.src == old(self).lexer@.src,
            r is Ok ==> rem(final(self).lexer@) < rem(old(self).lexer@),
        decreases rem(old(self).lexer@), 2int,
    {
        let ghost v = self.lexer@;
        proof {
            self.lexer.lemma_wf();
        }
        let first_pos = match self.lexer.peek() {
            None => {
                return Err(None);
            },
            Some(first) => {
                if first.character.ty == CharacterType::Open(bracket) {
                    first.take().position
                } else {
                    let c = first.character;
                    return Err(Some(Error::UnexpectedCharacter(c)));
                }
            },
        };
        let mut items: Vec<Value> = Vec::new();
        proof {
            self.lexer.lemma_wf();
            lemma_first_non_whitespace(self.lexer@.src, self.lexer@.cursor);
        }
        self.lexer.skip_whitespace();
        proof {
            self.lexer.lemma_wf();
        }
        match self.lexer.peek() {
            Some(c) => {
                if c.character.ty == CharacterType::Close(bracket) {
                    let to = c.take().position;
                    return Ok(Span { item: items, from: first_pos, to });
                }
            },
            None => {
                return Err(None);
            },
        }
        proof {
            assert(values_view(items@) =~= Seq::<SValue>::empty());
        }
        let mut last_pos = first_pos;
        loop
            invariant_except_break
                parse_sequence(v, bracket) == sequence_rest(
                    self.lexer@,
                    bracket,
                    values_view(items@),
                    first_pos,
                ),
            invariant
                self.wf(),
                v.valid(),
                self.lexer@.src == v.src,
                rem(self.lexer@) < rem(v),
                v == old(self).lexer@,
            ensures
                parse_sequence(v, bracket) == (
                    Ok::<Span<Seq<SValue>>, Option<SError>>(
                        Span { item: values_view(items@), from: first_pos, to: last_pos },
                    ),
                    self.lexer@,
                ),
            decreases rem(self.lexer@),
        {
            let ghost w = self.lexer@;
            let ghost before = values_view(items@);
            let ghost old_seq = items@;
            let value = match self.parse_value() {
                Ok(value) => value,
                Err(e) => {
                    return Err(e);
                },
            };
            let ghost vv = value_view(value.item);
            items.push(value.item);
            proof {
                assert(items@.subrange(0, items@.len() - 1) =~= old_seq);
                assert(values_view(items@) =~= before.push(vv));
                self.lexer.lemma_wf();
                lemma_first_non_whitespace(self.lexer@.src, self.lexer@.cursor);
            }
            self.lexer.skip_whitespace();
            let c = match self.lexer.next() {
                Some(c) => c,
                None => {
                    return Err(None);
                },
            };
            if c.ty == CharacterType::Close(bracket) {
                last_pos = c.position;
                break ;
            } else if c.ty == CharacterType::Comma {
                proof {
                    self.lexer.lemma_wf();
                    lemma_first_non_whitespace(self.lexer@.src, self.lexer@.cursor);
                }
                self.lexer.skip_whitespace();
            } else {
                return Err(Some(Error::UnexpectedCharacter(c)));
            }
        }
        Ok(Span { item: items, from: first_pos, to: last_pos })
    }

    /// An object: a path that names the base of an extension, optionally followed by
    /// arguments in parentheses or assignments in braces; or a new object in braces.
    pub fn parse_object(&mut self) -> (r: Result<Span<Object>, Option<Error>>)
        requires
            old(self).wf(),
        ensures
            final(self).wf(),
            agrees(r, parse_object(old(self).lexer@).0, |x: Object| object_view(x)),
            final(self).lexer@ == parse_object(old(self).lexer@).1,
            rem(final(self).lexer@) <= rem(old(self).lexer@),
            final(self).lexer@.src == old(self).lexer@.src,
            r is Ok ==> rem(final(self).lexer@) < rem(old(self).lexer@),
        decreases rem(old(self).lexer@), 3int,
    {
        let ghost v = self.lexer@;
        match self.parse_path() {
            Ok(path) => {
                let Span { item: path, from: first_pos, to: last_pos } = path;
                if let Some(keyword) = find_keywords(path.path.as_slice()) {
                    return Err(
                        Some(
                            Error::UnexpectedKeyword(
                                Span { item: keyword, from: first_pos, to: last_pos },
                            ),
                        ),
                    );
                }
                proof {
                    self.lexer.lemma_wf();
                    lemma_first_non_whitespace(self.lexer@.src, self.lexer@.cursor);
                }
                self.lexer.skip_whitespace();
                match self.parse_sequence(Bracket::Parenthesis) {
                    Ok(items) => {
                        return Ok(
                            Span {
                                item: Object::Extension(
                                    path,
                                    Some(ExtensionChanges::FunctionStyle(items.item)),
                                ),
                                from: first_pos,
                                to: items.to,
                            },
                        );
                    },
                    Err(_) => {},
                }
                match self.parse_block() {
                    Ok(items) => Ok(
                        Span {
                            item: Object::Extension(
                                path,
                                Some(ExtensionChanges::BlockStyle(items.item)),
                            ),
                            from: first_pos,
                            to: items.to,
                        },
                    ),
                    Err(_) => Ok(
                        Span { item: Object::Extension(path, None), from: first_pos, to: last_pos },
                    ),
                }
            },
            Err(_) => {
                match self.parse_block() {
                    Ok(block) => Ok(
                        Span { item: Object::New(block.item), from: block.from, to: block.to },
                    ),
                    Err(e) => Err(e),
                }
            },
        }
    }

    /// Assignments between braces.
    pub fn parse_block(&mut self) -> (r: Result<Span<Vec<(Path, Value)>>, Option<Error>>)
        requires
            old(self).wf(),
        ensures
            final(self).wf(),
            agrees(r, parse_block(old(self).lexer@).0, |x: Vec<(Path, Value)>| pairs_view(x@)),
            final(self).lexer@ == parse_block(old(self).lexer@).1,
            rem(final(self).lexer@) <= rem(old(self).lexer@),
            final(self).lexer@.src == old(self).lexer@.src,
            r is Ok ==> rem(final(self).lexer@) < rem(old(self).lexer@),
        decreases rem(old(self).lexer@), 1int,
    {
        let ghost v = self.lexer@;
        proof {
            self.lexer.lemma_wf();
        }
        let first_pos = match self.lexer.peek() {
            None => {
                return Err(None);
            },
            Some(first) => {
                if first.character.ty == CharacterType::Open(Bracket::Brace) {
                    first.take().position
                } else {
                    let c = first.character;
                    return Err(Some(Error::UnexpectedCharacter(c)));
                }
            },
        };
        let mut items: Vec<(Path, Value)> = Vec::new();
        proof {
            self.lexer.lemma_wf();
            lemma_first_non_whitespace(self.lexer@.src, self.lexer@.cursor);
        }
        self.lexer.skip_whitespace();
        proof {
            self.lexer.lemma_wf();
        }
        match self.lexer.peek() {
            Some(c) => {
                if c.character.ty == CharacterType::Close(Bracket::Brace) {
                    let to = c.take().position;
                    return Ok(Span { item: items, from: first_pos, to });
                }
            },
            None => {
                return Err(None);
            },
        }
        proof {
            assert(pairs_view(items@) =~= Seq::<(SPath, SValue)>::empty());
        }
        let mut last_pos = first_pos;
        loop
            invariant_except_break
                parse_block(v) == block_rest(self.lexer@, pairs_view(items@), first_pos),
            invariant
                self.wf(),
                v.valid(),
                self.lexer@.src == v.src,
                rem(self.lexer@) < rem(v),
                v == old(self).lexer@,
            ensures
                parse_block(v) == (
                    Ok::<Span<Seq<(SPath, SValue)>>, Option<SError>>(
                        Span { item: pairs_view(items@), from: first_pos, to: last_pos },
                    ),
                    self.lexer@,
                ),
            decreases rem(self.lexer@),
        {
            let ghost w = self.lexer@;
            let Span { item, from, to } = match self.parse_statement() {
                Ok(st) => st,
                Err(e) => {
                    return Err(e);
                },
            };
            match item {
                Statement::Include(_) | Statement::IncludeAs(..) => {
                    return Err(Some(Error::UnexpectedInclude(from, to)));
                },
                Statement::Assign(path, value) => {
                    let ghost before = pairs_view(items@);
                    let ghost old_seq = items@;
                    let ghost pv = (path_view(path), value_view(value));
                    items.push((path, value));
                    proof {
                        assert(items@.subrange(0, items@.len() - 1) =~= old_seq);
                        assert(pairs_view(items@) =~= before.push(pv));
                    }
                },
            }
            proof {
                self.lexer.lemma_wf();
                lemma_first_non_whitespace(self.lexer@.src, self.lexer@.cursor);
            }
            self.lexer.skip_whitespace();
            proof {
                self.lexer.lemma_wf();
            }
            match self.lexer.peek() {
                Some(c) => {
                    if c.character.ty == CharacterType::Close(Bracket::Brace) {
                        last_pos = c.take().position;
                        break ;
                    }
                },
                None => {
                    return Err(None);
                },
            }
        }
        Ok(Span { item: items, from: first_pos, to: last_pos })
    }

    /// A statement: `include` and a string, or a path, `=` and a value.
    pub fn parse_statement(&mut self) -> (r: Result<Span<Statement>, Option<Error>>)
        requires
            old(self).wf(),
        ensures
            final(self).wf(),
            agrees(r, parse_statement(old(self).lexer@).0, |x: Statement| statement_view(x)),
            final(self).lexer@ == parse_statement(old(self).lexer@).1,
            rem(final(self).lexer@) <= rem(old(self).lexer@),
            final(self).lexer@.src == old(self).lexer@.src,
            r is Ok ==> rem(final(self).lexer@) < rem(old(self).lexer@),
        decreases rem(old(self).lexer@), 5int,
    {
        let ghost v = self.lexer@;
        let Span { item: path, from: first_pos, to: last_pos } = match self.parse_path() {
            Ok(p) => p,
            Err(e) => {
                return Err(e);
            },
        };
        proof {
            self.lexer.lemma_wf();
            lemma_first_non_whitespace(self.lexer@.src, self.lexer@.cursor);
            reveal_strlit("include");
            assert("include"@ =~= kw_include());
        }
        self.lexer.skip_whitespace();
        if path.path_type == PathType::Local && path.path.len() == 1 {
            if same_text(path.path[0].as_str(), "include") {
                let Span { item: filename, to: last, .. } = match self.parse_string() {
                    Ok(s) => s,
                    Err(e) => {
                        return Err(e);
                    },
                };
                return Ok(Span { item: Statement::Include(filename), from: first_pos, to: last });
            }
        }
        if let Some(keyword) = find_keywords(path.path.as_slice()) {
            return Err(
                Some(Error::UnexpectedKeyword(Span { item: keyword, from: first_pos, to: last_pos })),
            );
        }
        let c = match self.lexer.next() {
            Some(c) => c,
            None => {
                return Err(None);
            },
        };
        if let CharacterType::Equals = c.ty {
            proof {
                self.lexer.lemma_wf();
                lemma_first_non_whitespace(self.lexer@.src, self.lexer@.cursor);
            }
            self.lexer.skip_whitespace();
            let Span { item: value, to: last, .. } = match self.parse_value() {
                Ok(val) => val,
                Err(e) => {
                    return Err(e);
                },
            };
            Ok(Span { item: Statement::Assign(path, value), from: first_pos, to: last })
        } else {
            Err(Some(Error::UnexpectedCharacter(c)))
        }
    }

    /// A statement of a configuration source: as `parse_statement`, where an include may go
    /// on with `as` and the path of the object that the included file is read into.
    #[verifier::spinoff_prover]
    pub fn parse_config_statement(&mut self) -> (r: Result<Span<Statement>, Option<Error>>)
        requires
            old(self).wf(),
        ensures
            final(self).wf(),
            agrees(r, parse_config_statement(old(self).lexer@).0, |x: Statement| statement_view(x)),
            final(self).lexer@ == parse_config_statement(old(self).lexer@).1,
            final(self).lexer@.src == old(self).lexer@.src,
            r is Ok ==> rem(final(self).lexer@) < rem(old(self).lexer@),
    {
        let ghost v = self.lexer@;
        let st = self.parse_statement();
        let ghost v1 = self.lexer@;
        match st {
            Ok(Span { item: Statement::Include(file), from, to }) => {
                let m = self.lexer.mark();
                proof {
                    self.lexer.lemma_wf();
                    lemma_first_non_whitespace(v1.src, v1.cursor);
                    reveal_strlit("as");
                    assert("as"@ =~= kw_as());
                }
                self.lexer.skip_whitespace();
                let ghost v2 = self.lexer@;
                let is_as = match self.parse_path() {
                    Ok(w) => {
                        proof {
                            if w.item.path@.len() == 1 {
                                assert(strings_view(w.item.path@)[0] == w.item.path@[0]@);
                                if strings_view(w.item.path@) == seq![kw_as()] {
                                    assert(strings_view(w.item.path@)[0] == kw_as());
                                }
                            }
                        }
                        let r = w.item.path_type == PathType::Local && w.item.path.len() == 1 && same_text(
                            w.item.path[0].as_str(),
                            "as",
                        );
                        proof {
                            if w.item.path@.len() == 1 && w.item.path@[0]@ == kw_as() {
                                assert(strings_view(w.item.path@) =~= seq![kw_as()]);
                            }
                            assert(r ==> (parse_path(v2).0 matches Ok(sw) && sw.item.path_type == PathType::Local
                                && sw.item.path == seq![kw_as()]));
                        }
                        r
                    },
                    Err(_) => false,
                };
                if is_as {
                    let ghost v3 = self.lexer@;
                    proof {
                        self.lexer.lemma_wf();
                        lemma_first_non_whitespace(v3.src, v3.cursor);
                    }
                    self.lexer.skip_whitespace();
                    let p = match self.parse_path() {
                        Ok(p) => p,
                        Err(e) => {
                            return Err(e);
                        },
                    };
                    if let Some(keyword) = find_keywords(p.item.path.as_slice()) {
                        return Err(Some(Error::UnexpectedKeyword(Span { item: keyword, from: p.from, to: p.to })));
                    }
                    proof {
                        let ps = parse_statement(v);
                        assert(ps.1 == v1);
                        assert(ps.0 == Ok::<Span<SStatement>, Option<SError>>(
                            Span { item: SStatement::Include(file@), from, to },
                        ));
                        assert(v2 == v1.skip_whitespace());
                        let pp = parse_path(v3.skip_whitespace());
                        assert(pp.0 == Ok::<Span<SPath>, Option<SError>>(
                            Span { item: path_view(p.item), from: p.from, to: p.to },
                        ));
                        assert(first_keyword(path_view(p.item).path) is None);
                        assert(parse_config_statement(v).0 == Ok::<Span<SStatement>, Option<SError>>(
                            Span { item: SStatement::IncludeAs(file@, path_view(p.item)), from, to: p.to },
                        ));
                    }
                    let r = Ok(Span { item: Statement::IncludeAs(file, p.item), from, to: p.to });
                    assert(agrees(r, parse_config_statement(v).0, |x: Statement| statement_view(x)));
                    r
                } else {
                    self.lexer.reset(m);
                    let r = Ok(Span { item: Statement::Include(file), from, to });
                    assert(agrees(r, parse_config_statement(v).0, |x: Statement| statement_view(x)));
                    r
                }
            },
            other => {
                assert(agrees(other, parse_config_statement(v).0, |x: Statement| statement_view(x)));
                other
            },
        }
    }
}

/// The statements of a source, with where each starts and ends.
pub open spec fn spans_view(s: Seq<Span<Statement>>) -> Seq<Span<SStatement>> {
    s.map_values(|x: Span<Statement>| Span { item: statement_view(x.item), from: x.from, to: x.to })
}

/// Parses a whole source into statements. A statement cut short by the end of the
/// source ends the list; any other error is returned.
pub fn parse(source: &str) -> (r: Result<Vec<Span<Statement>>, Error>)
    ensures
        match (r, parse_source(source@)) {
            (Ok(a), Ok(b)) => spans_view(a@) == b,
            (Err(e), Err(f)) => error_view(e) == f,
            _ => false,
        },
{
    let mut parser = Parser::new(source);
    let mut statements: Vec<Span<Statement>> = Vec::new();
    let ghost v0 = parser.lexer@;
    proof {
        assert(spans_view(statements@) =~= Seq::<Span<SStatement>>::empty());
    }
    loop
        invariant_except_break
            parse_source(source@) == parse_statements(parser.lexer@, spans_view(statements@)),
        invariant
            parser.wf(),
            parser.lexer@.src == source@,
        ensures
            parse_source(source@) == Ok::<Seq<Span<SStatement>>, SError>(spans_view(statements@)),
        decreases rem(parser.lexer@),
    {
        match parser.parse_statement() {
            Ok(statement) => {
                let ghost before = spans_view(statements@);
                let ghost sv = Span {
                    item: statement_view(statement.item),
                    from: statement.from,
                    to: statement.to,
                };
                statements.push(statement);
                proof {
                    assert(spans_view(statements@) =~= before.push(sv));
                }
            },
            Err(Some(e)) => {
                return Err(e);
            },
            Err(None) => {
                break ;
            },
        }
    }
    Ok(statements)
}

/// Parses a configuration source: statements with whitespace around and between them.
/// A statement cut short by the end of the source ends the list; any other error is
/// returned.
pub fn parse_config(source: &str) -> (r: Result<Vec<Span<Statement>>, Error>)
    ensures
        match (r, parse_config_source(source@)) {
            (Ok(a), Ok(b)) => spans_view(a@) == b,
            (Err(e), Err(f)) => error_view(e) == f,
            _ => false,
        },
{
    let mut parser = Parser::new(source);
    let mut statements: Vec<Span<Statement>> = Vec::new();
    proof {
        assert(spans_view(statements@) =~= Seq::<Span<SStatement>>::empty());
    }
    loop
        invariant_except_break
            parse_config_source(source@) == parse_spaced_statements(parser.lexer@, spans_view(statements@)),
        invariant
            parser.wf(),
            parser.lexer@.src == source@,
        ensures
            parse_config_source(source@) == Ok::<Seq<Span<SStatement>>, SError>(spans_view(statements@)),
        decreases rem(parser.lexer@),
    {
        let ghost v = parser.lexer@;
        proof {
            parser.lexer.lemma_wf();
            lemma_first_non_whitespace(v.src, v.cursor);
        }
        parser.lexer.skip_whitespace();
        proof {
            assert(rem(parser.lexer@) <= rem(v));
        }
        match parser.parse_config_statement() {
            Ok(statement) => {
                let ghost before = spans_view(statements@);
                let ghost sv = Span {
                    item: statement_view(statement.item),
                    from: statement.from,
                    to: statement.to,
                };
                statements.push(statement);
                proof {
                    assert(spans_view(statements@) =~= before.push(sv));
                }
            },
            Err(Some(e)) => {
                return Err(e);
            },
            Err(None) => {
                break ;
            },
        }
    }
    Ok(statements)
}

} // verus!
