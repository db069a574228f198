//! Character classification and a position-tracking character stream.
use vstd::prelude::*;

verus! {

/// A place in the source: zero-based line and column.
#[derive(Clone, Copy, PartialEq, Eq, Debug, Structural)]
pub struct Position {
    pub line: usize,
    pub column: usize,
}

impl Position {
    /// The first column of the following line.
    pub fn next_line(&self) -> (p: Position)
        requires
            self.line < usize::MAX,
        ensures
            p == (Position { line: (self.line + 1) as usize, column: 0 }),
    {
        Position { line: self.line + 1, column: 0 }
    }

    /// The following column on the same line.
    pub fn next_column(&self) -> (p: Position)
        requires
            self.column < usize::MAX,
        ensures
            p == (Position { line: self.line, column: (self.column + 1) as usize }),
    {
        Position { line: self.line, column: self.column + 1 }
    }
}

#[derive(Clone, Copy, PartialEq, Eq, Debug, Structural)]
pub enum Bracket {
    ///( )
    Parenthesis,
    ///{ }
    Brace,
    ///[ ]
    Square,
}

/// The kind of bracket that a bracket character belongs to.
fn bracket_of(c: char) -> (b: Bracket)
    requires
        c == '(' || c == ')' || c == '{' || c == '}' || c == '[' || c == ']',
    ensures
        b == spec_bracket_of(c),
{
    if c == '(' || c == ')' {
        Bracket::Parenthesis
    } else if c == '{' || c == '}' {
        Bracket::Brace
    } else {
        Bracket::Square
    }
}

pub open spec fn spec_bracket_of(c: char) -> Bracket {
    if c == '(' || c == ')' {
        Bracket::Parenthesis
    } else if c == '{' || c == '}' {
        Bracket::Brace
    } else {
        Bracket::Square
    }
}

#[derive(Clone, Copy, PartialEq, Eq, Debug, Structural)]
pub enum CharacterType {
    Open(Bracket),
    Close(Bracket),
    Equals,
    Comma,
    Dot,
    Quote,
    BackSlash,
    Whitespace(char),
    Numeric(u8),
    Other(char),
}

/// The characters that Unicode gives the White_Space property.
pub open spec fn is_white_space(c: char) -> bool {
    ||| ('\u{9}' <= c && c <= '\u{d}')
    ||| c == ' '
    ||| c == '\u{85}'
    ||| c == '\u{a0}'
    ||| c == '\u{1680}'
    ||| ('\u{2000}' <= c && c <= '\u{200a}')
    ||| c == '\u{2028}'
    ||| c == '\u{2029}'
    ||| c == '\u{202f}'
    ||| c == '\u{205f}'
    ||| c == '\u{3000}'
}

/// The decimal digits `0` to `9`.
pub open spec fn is_decimal_digit(c: char) -> bool {
    '0' <= c && c <= '9'
}

/// The value of a decimal digit.
pub open spec fn digit_value(c: char) -> u8 {
    (c as u32 - 48) as u8
}

/// How the lexer sees a character.
pub open spec fn classify(c: char) -> CharacterType {
    if c == '(' || c == '{' || c == '[' {
        CharacterType::Open(spec_bracket_of(c))
    } else if c == ')' || c == '}' || c == ']' {
        CharacterType::Close(spec_bracket_of(c))
    } else if c == '=' {
        CharacterType::Equals
    } else if c == ',' {
        CharacterType::Comma
    } else if c == '.' {
        CharacterType::Dot
    } else if c == '"' {
        CharacterType::Quote
    } else if c == '\\' {
        CharacterType::BackSlash
    } else if is_white_space(c) {
        CharacterType::Whitespace(c)
    } else if is_decimal_digit(c) {
        CharacterType::Numeric(digit_value(c))
    } else {
        CharacterType::Other(c)
    }
}

/// Whether a character has the Unicode White_Space property.
pub fn is_white_space_char(c: char) -> (b: bool)
    ensures
        b == is_white_space(c),
{
    ('\u{9}' <= c && c <= '\u{d}') || c == ' ' || c == '\u{85}' || c == '\u{a0}' || c == '\u{1680}'
        || ('\u{2000}' <= c && c <= '\u{200a}') || c == '\u{2028}' || c == '\u{2029}' || c
        == '\u{202f}' || c == '\u{205f}' || c == '\u{3000}'
}

/// Classifies one character.
pub fn classify_char(c: char) -> (t: CharacterType)
    ensures
        t == classify(c),
{
    if c == '(' || c == '{' || c == '[' {
        CharacterType::Open(bracket_of(c))
    } else if c == ')' || c == '}' || c == ']' {
        CharacterType::Close(bracket_of(c))
    } else if c == '=' {
        CharacterType::Equals
    } else if c == ',' {
        CharacterType::Comma
    } else if c == '.' {
        CharacterType::Dot
    } else if c == '"' {
        CharacterType::Quote
    } else if c == '\\' {
        CharacterType::BackSlash
    } else if is_white_space_char(c) {
        CharacterType::Whitespace(c)
    } else if '0' <= c && c <= '9' {
        CharacterType::Numeric(((c as u32) - 48) as u8)
    } else {
        CharacterType::Other(c)
    }
}

impl CharacterType {
    pub open spec fn spec_is_whitespace(self) -> bool {
        self is Whitespace
    }

    pub fn is_whitespace(&self) -> (b: bool)
        ensures
            b == self.spec_is_whitespace(),
    {
        if let CharacterType::Whitespace(_) = *self {
            true
        } else {
            false
        }
    }

    /// A character type that some character has: a stored digit is below ten.
    pub open spec fn wf(self) -> bool {
        self matches CharacterType::Numeric(n) ==> n < 10
    }

    /// The character that a character type stands for.
    pub open spec fn spec_to_char(self) -> char {
        match self {
            CharacterType::Open(Bracket::Parenthesis) => '(',
            CharacterType::Open(Bracket::Brace) => '{',
            CharacterType::Open(Bracket::Square) => '[',
            CharacterType::Close(Bracket::Parenthesis) => ')',
            CharacterType::Close(Bracket::Brace) => '}',
            CharacterType::Close(Bracket::Square) => ']',
            CharacterType::Equals => '=',
            CharacterType::Comma => ',',
            CharacterType::Dot => '.',
            CharacterType::Quote => '"',
            CharacterType::BackSlash => '\\',
            CharacterType::Whitespace(c) => c,
            CharacterType::Other(c) => c,
            CharacterType::Numeric(n) => (48 + n) as char,
        }
    }

    /// The character that this character type stands for.
    pub fn to_char(&self) -> (c: char)
        requires
            self.wf(),
        ensures
            c == self.spec_to_char(),
    {
        match *self {
            CharacterType::Open(Bracket::Parenthesis) => '(',
            CharacterType::Open(Bracket::Brace) => '{',
            CharacterType::Open(Bracket::Square) => '[',
            CharacterType::Close(Bracket::Parenthesis) => ')',
            CharacterType::Close(Bracket::Brace) => '}',
            CharacterType::Close(Bracket::Square) => ']',
            CharacterType::Equals => '=',
            CharacterType::Comma => ',',
            CharacterType::Dot => '.',
            CharacterType::Quote => '"',
            CharacterType::BackSlash => '\\',
            CharacterType::Whitespace(c) => c,
            CharacterType::Other(c) => c,
            CharacterType::Numeric(n) => (48u8 + n) as char,
        }
    }
}

impl From<char> for CharacterType {
    fn from(c: char) -> (t: CharacterType) {
        classify_char(c)
    }
}

impl vstd::std_specs::convert::FromSpecImpl<char> for CharacterType {
    open spec fn obeys_from_spec() -> bool {
        true
    }

    open spec fn from_spec(c: char) -> CharacterType {
        classify(c)
    }
}

/// Classifying a character and turning the class back into a character gives the character.
pub proof fn lemma_classify_round_trip(c: char)
    ensures
        classify(c).wf(),
        classify(c).spec_to_char() == c,
{
    if is_decimal_digit(c) && classify(c) is Numeric {
        assert(c as u32 - 48 < 10);
        assert(((48 + digit_value(c)) as char) == c);
    }
}

#[derive(Clone, Copy, PartialEq, Eq, Debug, Structural)]
pub struct Character {
    pub ty: CharacterType,
    pub position: Position,
}

impl Character {
    /// The character that was read.
    pub fn to_char(&self) -> (c: char)
        requires
            self.ty.wf(),
        ensures
            c == self.ty.spec_to_char(),
    {
        self.ty.to_char()
    }
}

/// The position of the character at index `k`, or just past the end for `k == src.len()`.
pub open spec fn pos_at(src: Seq<char>, k: int) -> Position
    decreases k,
{
    if k <= 0 {
        Position { line: 0, column: 0 }
    } else {
        let p = pos_at(src, k - 1);
        if src[k - 1] == '\n' {
            Position { line: (p.line + 1) as usize, column: 0 }
        } else {
            Position { line: p.line, column: (p.column + 1) as usize }
        }
    }
}

/// Line and column together never exceed the number of characters before them.
pub proof fn lemma_pos_at_bound(src: Seq<char>, k: int)
    requires
        0 <= k,
        k <= usize::MAX,
    ensures
        pos_at(src, k).line + pos_at(src, k).column <= k,
    decreases k,
{
    if k > 0 {
        lemma_pos_at_bound(src, k - 1);
    }
}

/// The character at index `k`, as the lexer reads it.
pub open spec fn char_at(src: Seq<char>, k: int) -> Character {
    Character { ty: classify(src[k]), position: pos_at(src, k) }
}

/// What the lexer holds: its source, the index of the next character it will hand out,
/// and whether that character has already been pulled from the source.
pub struct LexView {
    pub src: Seq<char>,
    pub cursor: int,
    pub buffered: bool,
}

impl LexView {
    pub open spec fn valid(self) -> bool {
        &&& 0 <= self.cursor <= self.src.len()
        &&& self.buffered ==> self.cursor < self.src.len()
        &&& self.src.len() <= usize::MAX
    }

    pub open spec fn at(self, cursor: int, buffered: bool) -> LexView {
        LexView { src: self.src, cursor, buffered }
    }

    /// The next character, if any, and the state after reading it.
    pub open spec fn next(self) -> (Option<Character>, LexView) {
        if self.cursor < self.src.len() {
            (Some(char_at(self.src, self.cursor)), self.at(self.cursor + 1, false))
        } else {
            (None, self)
        }
    }

    /// The position that the lexer reports.
    pub open spec fn position(self) -> Position {
        pos_at(self.src, if self.buffered { self.cursor + 1 } else { self.cursor })
    }

    /// The state after skipping whitespace: the next character is the first one
    /// that is not whitespace, and it is already pulled from the source.
    pub open spec fn skip_whitespace(self) -> LexView {
        let k = first_non_whitespace(self.src, self.cursor);
        if k < self.src.len() {
            self.at(k, true)
        } else {
            self.at(k, false)
        }
    }

    /// The state after a peek that found a character.
    pub open spec fn peeked(self) -> LexView {
        self.at(self.cursor, true)
    }
}

/// The index of the first character at or after `k` that is not whitespace, or the length.
pub open spec fn first_non_whitespace(src: Seq<char>, k: int) -> int
    decreases src.len() - k,
{
    if k >= src.len() {
        src.len() as int
    } else if classify(src[k]).spec_is_whitespace() {
        first_non_whitespace(src, k + 1)
    } else {
        k
    }
}

pub proof fn lemma_first_non_whitespace(src: Seq<char>, k: int)
    requires
        0 <= k <= src.len(),
    ensures
        k <= first_non_whitespace(src, k) <= src.len(),
        forall|j: int|
            k <= j < first_non_whitespace(src, k) ==> #[trigger] classify(src[j]).spec_is_whitespace(),
        first_non_whitespace(src, k) < src.len() ==> !classify(
            src[first_non_whitespace(src, k)],
        ).spec_is_whitespace(),
    decreases src.len() - k,
{
    if k < src.len() && classify(src[k]).spec_is_whitespace() {
        lemma_first_non_whitespace(src, k + 1);
    }
}

/// A place in a source that a lexer can go back to.
#[derive(Clone, Copy)]
pub struct Mark {
    index: usize,
    position: Position,
    buffer: Option<Character>,
}

impl Mark {
    /// The mark is a place in `src` that a lexer can stand at.
    pub closed spec fn valid_for(&self, src: Seq<char>) -> bool {
        &&& self.index <= src.len()
        &&& self.position == pos_at(src, self.index as int)
        &&& self.buffer is Some ==> {
            &&& self.index > 0
            &&& self.buffer == Some(char_at(src, self.index - 1))
        }
    }

    /// What a lexer over `src` that stands at the mark sees.
    pub closed spec fn view_for(&self, src: Seq<char>) -> LexView {
        LexView {
            src,
            cursor: if self.buffer is Some {
                self.index - 1
            } else {
                self.index as int
            },
            buffered: self.buffer is Some,
        }
    }
}

/// A stream of classified characters that knows the position of each.
pub struct Lexer {
    source: Vec<char>,
    index: usize,
    position: Position,
    buffer: Option<Character>,
}

impl View for Lexer {
    type V = LexView;

    closed spec fn view(&self) -> LexView {
        LexView {
            src: self.source@,
            cursor: if self.buffer is Some {
                self.index - 1
            } else {
                self.index as int
            },
            buffered: self.buffer is Some,
        }
    }
}

impl Lexer {
    pub closed spec fn wf(&self) -> bool {
        &&& self.index <= self.source@.len()
        &&& self.source@.len() <= usize::MAX
        &&& self.position == pos_at(self.source@, self.index as int)
        &&& self.buffer is Some ==> {
            &&& self.index > 0
            &&& self.buffer == Some(char_at(self.source@, self.index - 1))
        }
    }

    pub proof fn lemma_wf(&self)
        requires
            self.wf(),
        ensures
            self@.valid(),
    {
    }

    /// Where the lexer stands, to come back to.
    pub fn mark(&self) -> (m: Mark)
        requires
            self.wf(),
        ensures
            m.valid_for(self@.src),
            m.view_for(self@.src) == self@,
    {
        Mark { index: self.index, position: self.position, buffer: self.buffer }
    }

    /// Goes back to a place marked in the same source.
    pub fn reset(&mut self, m: Mark)
        requires
            old(self).wf(),
            m.valid_for(old(self)@.src),
        ensures
            final(self).wf(),
            final(self)@ == m.view_for(old(self)@.src),
    {
        self.index = m.index;
        self.position = m.position;
        self.buffer = m.buffer;
    }

    /// A lexer at the start of `source`.
    pub fn new(source: &str) -> (lexer: Lexer)
        ensures
            lexer.wf(),
            lexer@ == (LexView { src: source@, cursor: 0, buffered: false }),
    {
        let mut chars: Vec<char> = Vec::new();
        for c in it: source.chars()
            invariant
                chars@ == it.seq().take(it.index() as int),
        {
            proof {
                assert(it.seq().take(it.index() + 1) =~= it.seq().take(it.index() as int).push(c));
            }
            chars.push(c);
        }
        let _n = chars.len();
        proof {
            broadcast use vstd::string::axiom_spec_iter;
            assert(chars@ =~= source@);
        }
        Lexer { source: chars, index: 0, position: Position { line: 0, column: 0 }, buffer: None }
    }

    /// The next character, with its position.
    pub fn next(&mut self) -> (c: Option<Character>)
        requires
            old(self).wf(),
        ensures
            final(self).wf(),
            (c, final(self)@) == old(self)@.next(),
    {
        let buffered = self.buffer.take();
        if buffered.is_some() {
            return buffered;
        }
        if self.index < self.source.len() {
            let ch = self.source[self.index];
            let ty = classify_char(ch);
            let res = Character { ty, position: self.position };
            proof {
                lemma_pos_at_bound(self.source@, self.index as int);
            }
            if let CharacterType::Whitespace('\n') = ty {
                self.position = self.position.next_line();
            } else {
                self.position = self.position.next_column();
            }
            self.index = self.index + 1;
            Some(res)
        } else {
            None
        }
    }

    /// Reads past whitespace; the first other character stays to be read next.
    pub fn skip_whitespace(&mut self)
        requires
            old(self).wf(),
        ensures
            final(self).wf(),
            final(self)@ == old(self)@.skip_whitespace(),
    {
        proof {
            lemma_first_non_whitespace(self@.src, self@.cursor);
        }
        let ghost start = self@;
        let ghost k = first_non_whitespace(start.src, start.cursor);
        loop
            invariant
                self.wf(),
                start.valid(),
                start == old(self)@,
                self@.src == start.src,
                k == first_non_whitespace(start.src, start.cursor),
                start.cursor <= k <= start.src.len(),
                forall|j: int| start.cursor <= j < k ==> #[trigger] classify(start.src[j]).spec_is_whitespace(),
                k < start.src.len() ==> !classify(start.src[k]).spec_is_whitespace(),
                start.cursor <= self@.cursor <= k,
                self@.buffered ==> self@ == start,
            decreases self@.src.len() - self@.cursor + if self@.buffered { 1int } else { 0 },
        {
            proof {
                self.lemma_wf();
            }
            let ghost j = self@.cursor;
            match self.next() {
                Some(c) => {
                    proof {
                        assert(c.ty == classify(start.src[j]));
                    }
                    if !c.ty.is_whitespace() {
                        self.buffer = Some(c);
                        assert(j == k);
                        return;
                    }
                },
                None => {
                    return;
                },
            }
        }
    }

    /// The next character, without reading past it: unless the returned guard is taken,
    /// the character is handed out again.
    pub fn peek<'a>(&'a mut self) -> (p: Option<Peek<'a>>)
        requires
            old(self).wf(),
        ensures
            p matches Some(g) ==> {
                &&& old(self)@.cursor < old(self)@.src.len()
                &&& g.wf()
                &&& g.character == char_at(old(self)@.src, old(self)@.cursor)
                &&& g.lexer@ == old(self)@.peeked()
                &&& *final(self) == *final(g.lexer)
            },
            p is None ==> {
                &&& old(self)@.cursor >= old(self)@.src.len()
                &&& final(self).wf()
                &&& final(self)@ == old(self)@
            },
    {
        match self.next() {
            Some(c) => {
                self.buffer = Some(c);
                Some(Peek { character: c, lexer: self })
            },
            None => None,
        }
    }

    /// The position just after the last character that was pulled from the source.
    pub fn position(&self) -> (p: Position)
        requires
            self.wf(),
        ensures
            p == self@.position(),
    {
        self.position
    }
}

/// A character that was looked at but not yet read.
pub struct Peek<'a> {
    pub character: Character,
    pub lexer: &'a mut Lexer,
}

impl<'a> Peek<'a> {
    /// The lexer holds the peeked character as its next one.
    pub open spec fn wf(&self) -> bool {
        &&& self.lexer.wf()
        &&& self.lexer@.buffered
        &&& self.character == char_at(self.lexer@.src, self.lexer@.cursor)
    }

    /// The peeked character.
    pub fn get(&self) -> (c: &Character)
        ensures
            *c == self.character,
    {
        &self.character
    }

    /// Reads the peeked character.
    pub fn take(self) -> (c: Character)
        requires
            self.wf(),
        ensures
            c == self.character,
            final(self.lexer).wf(),
            final(self.lexer)@ == old(self.lexer)@.at(old(self.lexer)@.cursor + 1, false),
    {
        self.lexer.buffer = None;
        self.character
    }
}

} // verus!
