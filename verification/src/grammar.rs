//! The configuration language, defined over the lexer's state: each rule says what it
//! reads, what it yields and where it leaves the lexer, success or not.
//!
//! A rule that repeats itself, or that hands the lexer on to the next rule after one
//! that may fail, first checks that the lexer has moved forward; the parser proves that
//! it always has, so these checks never decide anything.
use vstd::prelude::*;

use crate::lexer::{
    Bracket, Character, CharacterType, LexView, Position, char_at, classify, digit_value,
    first_non_whitespace, pos_at,
};
use crate::syntax::{Decimal, Number, PathType, SError, SExtension, SObject, SPath, SStatement, SValue, Span};
use vstd::arithmetic::div_mod::{
    lemma_add_mod_noop, lemma_mod_add_multiples_vanish, lemma_mod_sub_multiples_vanish, lemma_mod_twice,
    lemma_mul_mod_noop_left,
};
use vstd::arithmetic::mul::lemma_mul_is_commutative;
use vstd::arithmetic::power::pow;

verus! {

pub type SResult<T> = Result<Span<T>, Option<SError>>;

pub open spec fn kw_root() -> Seq<char> {
    seq!['r', 'o', 'o', 't']
}

pub open spec fn kw_include() -> Seq<char> {
    seq!['i', 'n', 'c', 'l', 'u', 'd', 'e']
}

/// The word that names, after an include, the object that the file is read into.
pub open spec fn kw_as() -> Seq<char> {
    seq!['a', 's']
}

pub open spec fn spec_is_keyword(word: Seq<char>) -> bool {
    word == kw_root() || word == kw_include()
}

/// The first keyword among `words`, if any.
pub open spec fn first_keyword(words: Seq<Seq<char>>) -> Option<Seq<char>>
    decreases words.len(),
{
    if words.len() == 0 {
        None
    } else if spec_is_keyword(words[0]) {
        Some(words[0])
    } else {
        first_keyword(words.subrange(1, words.len() as int))
    }
}

/// How much of the source is left to read.
pub open spec fn rem(v: LexView) -> nat {
    if 0 <= v.cursor <= v.src.len() {
        (v.src.len() - v.cursor) as nat
    } else {
        0
    }
}

/// The lexer's state after stopping in front of index `k`: a character there has
/// been looked at.
pub open spec fn stop_at(v: LexView, k: int) -> LexView {
    v.at(k, k < v.src.len())
}

pub open spec fn next_type(v: LexView) -> Option<CharacterType> {
    if 0 <= v.cursor < v.src.len() {
        Some(classify(v.src[v.cursor]))
    } else {
        None
    }
}

pub open spec fn peek_state(v: LexView) -> LexView {
    if v.cursor < v.src.len() {
        v.peeked()
    } else {
        v
    }
}

pub open spec fn is_ident_char(t: CharacterType) -> bool {
    t is Numeric || t is Other
}

/// The end of the run of identifier characters that starts at `k`.
pub open spec fn ident_end(src: Seq<char>, k: int) -> int
    decreases src.len() - k,
{
    if k >= src.len() {
        src.len() as int
    } else if is_ident_char(classify(src[k])) {
        ident_end(src, k + 1)
    } else {
        k
    }
}

pub proof fn lemma_ident_end(src: Seq<char>, k: int)
    requires
        0 <= k <= src.len(),
    ensures
        k <= ident_end(src, k) <= src.len(),
        k < src.len() && is_ident_char(classify(src[k])) ==> ident_end(src, k) == ident_end(
            src,
            k + 1,
        ),
        k < src.len() && !is_ident_char(classify(src[k])) ==> ident_end(src, k) == k,
    decreases src.len() - k,
{
    if k < src.len() && is_ident_char(classify(src[k])) {
        lemma_ident_end(src, k + 1);
    }
}

/// An identifier: a character that is neither a digit nor punctuation nor whitespace,
/// then any run of such characters and digits.
pub open spec fn parse_ident(v: LexView) -> (SResult<Seq<char>>, LexView) {
    if v.cursor >= v.src.len() {
        (Err(None), v)
    } else {
        let first = char_at(v.src, v.cursor);
        if first.ty is Other {
            let e = ident_end(v.src, v.cursor + 1);
            (
                Ok(
                    Span {
                        item: v.src.subrange(v.cursor, e),
                        from: first.position,
                        to: pos_at(v.src, e - 1),
                    },
                ),
                stop_at(v, e),
            )
        } else {
            (Err(Some(SError::UnexpectedCharacter(first))), v.peeked())
        }
    }
}

/// The rest of a path, after the identifiers in `path`; `first` is where the path started.
pub open spec fn path_rest(
    v: LexView,
    path_type: PathType,
    path: Seq<Seq<char>>,
    first: Option<Position>,
) -> (SResult<SPath>, LexView)
    decreases rem(v), 1int,
{
    let (id, v1) = parse_ident(v);
    match id {
        Err(e) => (Err(e), v1),
        Ok(ident) => {
            if ident.item == kw_root() && path_type == PathType::Local && path.len() == 0 {
                path_more(v, v1, PathType::Global, path, Some(first.unwrap_or(ident.from)), ident.to)
            } else if ident.item == kw_root() {
                (Err(Some(SError::UnexpectedKeyword(ident))), v1)
            } else {
                path_more(
                    v,
                    v1,
                    path_type,
                    path.push(ident.item),
                    Some(first.unwrap_or(ident.from)),
                    ident.to,
                )
            }
        },
    }
}

/// After an identifier of a path: a dot continues the path, anything else ends it.
pub open spec fn path_more(
    start: LexView,
    v: LexView,
    path_type: PathType,
    path: Seq<Seq<char>>,
    first: Option<Position>,
    last: Position,
) -> (SResult<SPath>, LexView)
    decreases rem(start), 0int,
{
    if next_type(v) == Some(CharacterType::Dot) {
        let v2 = v.at(v.cursor + 1, false);
        if rem(v2) < rem(start) {
            path_rest(v2, path_type, path, first)
        } else {
            (Err(None), v2)
        }
    } else {
        (
            Ok(
                Span {
                    item: SPath { path_type, path },
                    from: first.unwrap_or(last),
                    to: last,
                },
            ),
            peek_state(v),
        )
    }
}

/// A path: identifiers separated by dots, where a leading `root` makes it global.
pub open spec fn parse_path(v: LexView) -> (SResult<SPath>, LexView) {
    path_rest(v, PathType::Local, Seq::empty(), None)
}

/// The body of a string from index `j` on: `acc` is what was read so far and `last` the
/// position of the last character read. Yields the text, the position of the last
/// character read and the index after the closing quote.
pub open spec fn string_body(src: Seq<char>, j: int, acc: Seq<char>, last: Position) -> (
    Seq<char>,
    Position,
    int,
)
    decreases src.len() - j,
{
    if j >= src.len() {
        (acc, last, j)
    } else if classify(src[j]) is Quote {
        (acc, pos_at(src, j), j + 1)
    } else if classify(src[j]) is BackSlash {
        if j + 1 < src.len() {
            string_body(src, j + 2, acc.push(src[j + 1]), pos_at(src, j + 1))
        } else {
            (acc, last, j + 1)
        }
    } else {
        string_body(src, j + 1, acc.push(src[j]), pos_at(src, j))
    }
}

/// A string: a quote, then text up to the next unescaped quote or the end of the
/// source; a backslash takes the character after it as it is.
pub open spec fn parse_string(v: LexView) -> (SResult<Seq<char>>, LexView) {
    if v.cursor >= v.src.len() {
        (Err(None), v)
    } else {
        let first = char_at(v.src, v.cursor);
        if first.ty is Quote {
            let (text, last, end) = string_body(v.src, v.cursor + 1, Seq::empty(), first.position);
            (Ok(Span { item: text, from: first.position, to: last }), v.at(end, false))
        } else {
            (Err(Some(SError::UnexpectedCharacter(first))), v.peeked())
        }
    }
}

/// Text without quotes or backslashes is taken as it stands, up to the quote after it.
pub proof fn lemma_plain_string_body(src: Seq<char>, j: int, e: int, acc: Seq<char>, last: Position)
    requires
        0 <= j <= e < src.len(),
        classify(src[e]) is Quote,
        forall|i: int| j <= i < e ==> !(#[trigger] classify(src[i]) is Quote) && !(classify(src[i]) is BackSlash),
    ensures
        string_body(src, j, acc, last).0 == acc + src.subrange(j, e),
        string_body(src, j, acc, last).2 == e + 1,
    decreases e - j,
{
    if j == e {
        assert(src.subrange(j, e) =~= Seq::<char>::empty());
        assert(acc + Seq::<char>::empty() =~= acc);
    } else {
        assert(!(classify(src[j]) is Quote) && !(classify(src[j]) is BackSlash));
        lemma_plain_string_body(src, j + 1, e, acc.push(src[j]), pos_at(src, j));
        assert(acc.push(src[j]) + src.subrange(j + 1, e) =~= acc + src.subrange(j, e));
    }
}

/// A string whose text holds no quote and no backslash is that text, and reading goes on
/// after its closing quote: `"abc"` gives `abc`.
pub proof fn lemma_plain_string(v: LexView, e: int)
    requires
        v.valid(),
        v.cursor < e < v.src.len(),
        classify(v.src[v.cursor]) is Quote,
        classify(v.src[e]) is Quote,
        forall|i: int|
            v.cursor < i < e ==> !(#[trigger] classify(v.src[i]) is Quote) && !(classify(v.src[i]) is BackSlash),
    ensures
        parse_string(v).0 is Ok,
        parse_string(v).0->Ok_0.item == v.src.subrange(v.cursor + 1, e),
        parse_string(v).1.cursor == e + 1,
{
    let first = char_at(v.src, v.cursor);
    lemma_plain_string_body(v.src, v.cursor + 1, e, Seq::empty(), first.position);
    assert(Seq::<char>::empty() + v.src.subrange(v.cursor + 1, e) =~= v.src.subrange(v.cursor + 1, e));
}

/// The end of the run of digits that starts at `k`.
pub open spec fn digits_end(src: Seq<char>, k: int) -> int
    decreases src.len() - k,
{
    if k >= src.len() {
        src.len() as int
    } else if classify(src[k]) is Numeric {
        digits_end(src, k + 1)
    } else {
        k
    }
}

pub proof fn lemma_digits_end(src: Seq<char>, k: int)
    requires
        0 <= k <= src.len(),
    ensures
        k <= digits_end(src, k) <= src.len(),
        k < src.len() && classify(src[k]) is Numeric ==> digits_end(src, k) == digits_end(
            src,
            k + 1,
        ),
        k < src.len() && !(classify(src[k]) is Numeric) ==> digits_end(src, k) == k,
    decreases src.len() - k,
{
    if k < src.len() && classify(src[k]) is Numeric {
        lemma_digits_end(src, k + 1);
    }
}

/// One more digit of a whole part, in wrapping 64-bit arithmetic.
pub open spec fn whole_step(acc: i64, d: u8, negative: bool) -> i64 {
    if negative {
        acc.wrapping_mul(10).wrapping_sub(d as i64)
    } else {
        acc.wrapping_mul(10).wrapping_add(d as i64)
    }
}

/// The whole part after the digits `src[k..e]`, starting from `init`.
pub open spec fn whole_fold(src: Seq<char>, k: int, e: int, init: i64, negative: bool) -> i64
    decreases e - k,
{
    if e <= k {
        init
    } else {
        whole_step(whole_fold(src, k, e - 1, init, negative), digit_value(src[e - 1]), negative)
    }
}

/// The digits `src[k..e]` of a fraction, and ten to the power of their number,
/// in wrapping 64-bit arithmetic.
pub open spec fn fraction_fold(src: Seq<char>, k: int, e: int) -> (u64, u64)
    decreases e - k,
{
    if e <= k {
        (0, 1)
    } else {
        let (f, d) = fraction_fold(src, k, e - 1);
        (f.wrapping_mul(10).wrapping_add(digit_value(src[e - 1]) as u64), d.wrapping_mul(10))
    }
}

/// The digits of a number from index `j` on, after its first digit; `whole` is the value
/// so far and `first` the position of the number's first character.
pub open spec fn number_tail(
    v: LexView,
    j: int,
    first: Position,
    whole: i64,
    negative: bool,
) -> (SResult<Number>, LexView) {
    let src = v.src;
    let e = digits_end(src, j);
    let w = whole_fold(src, j, e, whole, negative);
    let last = if e > j {
        pos_at(src, e - 1)
    } else {
        first
    };
    if e < src.len() && classify(src[e]) is Dot {
        let f_end = digits_end(src, e + 1);
        let (fraction, divider) = fraction_fold(src, e + 1, f_end);
        let last2 = if f_end > e + 1 {
            pos_at(src, f_end - 1)
        } else {
            pos_at(src, e)
        };
        (
            Ok(
                Span {
                    item: Number::Float(Decimal { negative, whole: w, fraction, divider }),
                    from: first,
                    to: last2,
                },
            ),
            stop_at(v, f_end),
        )
    } else {
        (Ok(Span { item: Number::Integer(w), from: first, to: last }), stop_at(v, e))
    }
}

/// The number that a numeral writes in base ten.
pub open spec fn numeral_value(s: Seq<char>) -> nat
    decreases s.len(),
{
    if s.len() == 0 {
        0
    } else {
        numeral_value(s.drop_last()) * 10 + digit_value(s.last()) as nat
    }
}

/// The digits `src[k..e]` of a fraction give, in 64-bit arithmetic, the number they write
/// and ten to the power of their number, so that the fraction is that number divided by
/// that power: `05` gives 5 and 100.
pub proof fn lemma_fraction_is_decimal(src: Seq<char>, k: int, e: int)
    requires
        0 <= k <= e <= src.len(),
    ensures
        fraction_fold(src, k, e).0 as int == numeral_value(src.subrange(k, e)) as int % 0x1_0000_0000_0000_0000,
        fraction_fold(src, k, e).1 as int == pow(10, (e - k) as nat) % 0x1_0000_0000_0000_0000,
    decreases e - k,
{
    let m: int = 0x1_0000_0000_0000_0000;
    if e <= k {
        assert(src.subrange(k, e) =~= Seq::<char>::empty());
        assert(pow(10, 0) == 1) by {
            reveal(pow);
        }
    } else {
        lemma_fraction_is_decimal(src, k, e - 1);
        let (f, d) = fraction_fold(src, k, e - 1);
        let s = src.subrange(k, e);
        assert(s.drop_last() =~= src.subrange(k, e - 1));
        assert(s.last() == src[e - 1]);
        let v = numeral_value(src.subrange(k, e - 1)) as int;
        let dg = digit_value(src[e - 1]) as int;
        let p = pow(10, (e - 1 - k) as nat);
        assert(numeral_value(s) as int == v * 10 + dg);
        assert(pow(10, (e - k) as nat) == 10 * p) by {
            reveal(pow);
        }
        lemma_mul_mod_noop_left(v, 10, m);
        lemma_add_mod_noop(v * 10, dg, m);
        lemma_mod_twice(v * 10, m);
        assert(dg % m == dg);
        lemma_mul_mod_noop_left(p, 10, m);
        lemma_mul_is_commutative(p, 10);
        assert((f as int * 10) % m == (v * 10) % m);
        assert((d as int * 10) % m == (10 * p) % m);
    }
}

/// Plus or minus one.
pub open spec fn sign(negative: bool) -> int {
    if negative {
        -1
    } else {
        1
    }
}

/// Numbers that agree modulo `m` still agree after both are multiplied by ten and the
/// same number is added.
proof fn lemma_step_congruent(a: int, b: int, c: int, m: int)
    requires
        m > 0,
        a % m == b % m,
    ensures
        (a * 10 + c) % m == (b * 10 + c) % m,
{
    lemma_mul_mod_noop_left(a, 10, m);
    lemma_mul_mod_noop_left(b, 10, m);
    lemma_add_mod_noop(a * 10, c, m);
    lemma_add_mod_noop(b * 10, c, m);
}

/// The digits `src[k..e]` of a whole part, read after `init`, give in 64-bit arithmetic
/// `init` shifted left by their number of places, plus (or, for a negative number, minus)
/// the number they write.
pub proof fn lemma_whole_is_decimal(src: Seq<char>, k: int, e: int, init: i64, negative: bool)
    requires
        0 <= k <= e <= src.len(),
    ensures
        whole_fold(src, k, e, init, negative) as int % 0x1_0000_0000_0000_0000 == (init as int * pow(
            10,
            (e - k) as nat,
        ) + sign(negative) * numeral_value(src.subrange(k, e)) as int) % 0x1_0000_0000_0000_0000,
    decreases e - k,
{
    let m: int = 0x1_0000_0000_0000_0000;
    if e <= k {
        assert(src.subrange(k, e) =~= Seq::<char>::empty());
        assert(pow(10, 0) == 1) by {
            reveal(pow);
        }
        assert(numeral_value(src.subrange(k, e)) == 0);
        assert(init as int * 1 + sign(negative) * 0 == init as int) by (nonlinear_arith);
    } else {
        lemma_whole_is_decimal(src, k, e - 1, init, negative);
        let w = whole_fold(src, k, e - 1, init, negative);
        let s = src.subrange(k, e);
        assert(s.drop_last() =~= src.subrange(k, e - 1));
        assert(s.last() == src[e - 1]);
        let v = numeral_value(src.subrange(k, e - 1)) as int;
        let dg = digit_value(src[e - 1]) as int;
        let p = pow(10, (e - 1 - k) as nat);
        assert(numeral_value(s) as int == v * 10 + dg);
        assert(pow(10, (e - k) as nat) == 10 * p) by {
            reveal(pow);
        }
        let sg = sign(negative);
        let prev = init as int * p + sg * v;
        assert(w as int % m == prev % m);
        let t = w.wrapping_mul(10);
        assert(t as int % m == (w as int * 10) % m) by {
            lemma_mod_twice(w as int * 10, m);
        }
        let next = whole_step(w, digit_value(src[e - 1]), negative);
        let x = t as int + sg * dg;
        let d8 = digit_value(src[e - 1]);
        assert(d8 as i64 as int == dg);
        if negative {
            assert(next == t.wrapping_sub(d8 as i64));
            assert(sg * dg == -dg) by (nonlinear_arith)
                requires
                    sg == -1,
            ;
        } else {
            assert(next == t.wrapping_add(d8 as i64));
            assert(sg * dg == dg) by (nonlinear_arith)
                requires
                    sg == 1,
            ;
        }
        assert(next as int == x || next as int == -m + x || next as int == m + x);
        lemma_mod_add_multiples_vanish(x, m);
        lemma_mod_sub_multiples_vanish(x, m);
        assert(next as int % m == x % m);
        lemma_add_mod_noop(t as int, sg * dg, m);
        lemma_add_mod_noop(w as int * 10, sg * dg, m);
        lemma_mod_twice(t as int, m);
        assert(x % m == (w as int * 10 + sg * dg) % m);
        lemma_step_congruent(w as int, prev, sg * dg, m);
        assert(prev * 10 + sg * dg == init as int * (10 * p) + sg * (v * 10 + dg)) by (nonlinear_arith)
            requires
                prev == init as int * p + sg * v,
        ;
        assert(numeral_value(s) as int == v * 10 + dg);
        assert(next as int % m == (init as int * pow(10, (e - k) as nat) + sg * numeral_value(s) as int) % m);
        assert(whole_fold(src, k, e, init, negative) == next);
    }
}

/// A numeral is its first digit in the place of its length, plus the numeral after it.
pub proof fn lemma_numeral_first_digit(s: Seq<char>)
    requires
        s.len() >= 1,
    ensures
        numeral_value(s) as int == digit_value(s[0]) as int * pow(10, (s.len() - 1) as nat) + numeral_value(
            s.drop_first(),
        ) as int,
    decreases s.len(),
{
    if s.len() == 1 {
        assert(s.drop_last() =~= Seq::<char>::empty());
        assert(s.drop_first() =~= Seq::<char>::empty());
        assert(pow(10, 0) == 1) by {
            reveal(pow);
        }
    } else {
        let dl = s.drop_last();
        lemma_numeral_first_digit(dl);
        let rest = s.drop_first();
        assert(rest.drop_last() =~= dl.drop_first());
        assert(rest.last() == s.last());
        assert(dl[0] == s[0]);
        let p = pow(10, (s.len() - 2) as nat);
        assert(pow(10, (s.len() - 1) as nat) == 10 * p) by {
            reveal(pow);
        }
        let d0 = digit_value(s[0]) as int;
        let nr = numeral_value(dl.drop_first()) as int;
        assert((d0 * p + nr) * 10 == d0 * (10 * p) + nr * 10) by (nonlinear_arith);
    }
}

/// Where the digits of a run that starts at `j` end, every character before is a digit.
pub proof fn lemma_digits_run(src: Seq<char>, j: int, i: int)
    requires
        0 <= j <= i < digits_end(src, j),
        j <= src.len(),
    ensures
        classify(src[i]) is Numeric,
    decreases i - j,
{
    lemma_digits_end(src, j);
    if i > j {
        lemma_digits_run(src, j + 1, i);
    }
}

/// A number with a fraction part holds, as the fraction, the number that the digits after
/// its dot write and, as the divider, ten to the power of how many there are (both in
/// 64-bit arithmetic): `1.05` gives 5 and 100.
pub proof fn lemma_number_fraction(v: LexView)
    requires
        v.valid(),
    ensures
        parse_number(v).0 is Ok && parse_number(v).0->Ok_0.item is Float ==> ({
            let d = parse_number(v).0->Ok_0.item->Float_0;
            let k = v.cursor;
            let src = v.src;
            let j = if char_at(src, k).ty == CharacterType::Other('-') {
                k + 2
            } else {
                k + 1
            };
            let dot = digits_end(src, j);
            let end = digits_end(src, dot + 1);
            &&& dot < end <= src.len()
            &&& classify(src[dot]) is Dot
            &&& forall|i: int| dot < i < end ==> #[trigger] classify(src[i]) is Numeric
            &&& d.fraction as int == numeral_value(src.subrange(dot + 1, end)) as int % 0x1_0000_0000_0000_0000
            &&& d.divider as int == pow(10, (end - dot - 1) as nat) % 0x1_0000_0000_0000_0000
        }),
{
    let k = v.cursor;
    let src = v.src;
    if k < src.len() && 0 <= k {
        let j = if char_at(src, k).ty == CharacterType::Other('-') {
            k + 2
        } else {
            k + 1
        };
        if j <= src.len() {
            lemma_digits_end(src, j);
            let dot = digits_end(src, j);
            if dot < src.len() && classify(src[dot]) is Dot {
                lemma_digits_end(src, dot + 1);
                let end = digits_end(src, dot + 1);
                lemma_fraction_is_decimal(src, dot + 1, end);
                assert forall|i: int| dot < i < end implies #[trigger] classify(src[i]) is Numeric by {
                    lemma_digits_run(src, dot + 1, i);
                }
            }
        }
    }
}

/// A number holds, as its whole part, the number that its digits before any dot write,
/// negated after a minus sign (in 64-bit arithmetic), and a decimal is negative just
/// where the minus sign stands: `-12.5` has the whole part -12.
pub proof fn lemma_number_whole(v: LexView)
    requires
        v.valid(),
    ensures
        parse_number(v).0 is Ok ==> ({
            let src = v.src;
            let k = v.cursor;
            let negative = classify(src[k]) == CharacterType::Other('-');
            let start = if negative {
                k + 1
            } else {
                k
            };
            let end = digits_end(src, start);
            let item = parse_number(v).0->Ok_0.item;
            let whole = match item {
                Number::Integer(w) => w,
                Number::Float(d) => d.whole,
            };
            &&& start < end <= src.len()
            &&& forall|i: int| start <= i < end ==> #[trigger] classify(src[i]) is Numeric
            &&& (item matches Number::Float(d) ==> d.negative == negative)
            &&& whole as int % 0x1_0000_0000_0000_0000 == (sign(negative) * numeral_value(
                src.subrange(start, end),
            ) as int) % 0x1_0000_0000_0000_0000
        }),
{
    let src = v.src;
    let k = v.cursor;
    if parse_number(v).0 is Ok {
        let negative = classify(src[k]) == CharacterType::Other('-');
        let start = if negative {
            k + 1
        } else {
            k
        };
        assert(start < src.len());
        assert(classify(src[start]) is Numeric);
        lemma_digits_end(src, start);
        lemma_digits_end(src, start + 1);
        let end = digits_end(src, start);
        assert forall|i: int| start <= i < end implies #[trigger] classify(src[i]) is Numeric by {
            lemma_digits_run(src, start, i);
        }
        let d0 = digit_value(src[start]);
        let sg = sign(negative);
        let init: i64 = if negative {
            (-(d0 as int)) as i64
        } else {
            d0 as i64
        };
        assert(init as int == sg * d0 as int);
        lemma_whole_is_decimal(src, start + 1, end, init, negative);
        let t = src.subrange(start, end);
        lemma_numeral_first_digit(t);
        assert(t.drop_first() =~= src.subrange(start + 1, end));
        let p = pow(10, (end - start - 1) as nat);
        let nr = numeral_value(src.subrange(start + 1, end)) as int;
        assert(init as int * p + sg * nr == sg * (d0 as int * p + nr)) by (nonlinear_arith)
            requires
                init as int == sg * d0 as int,
        ;
    }
}

/// A number: an optional minus sign, digits, and optionally a dot and more digits.
pub open spec fn parse_number(v: LexView) -> (SResult<Number>, LexView) {
    let k = v.cursor;
    let src = v.src;
    if k >= src.len() {
        (Err(None), v)
    } else {
        let first = char_at(src, k);
        if first.ty == CharacterType::Other('-') {
            if k + 1 >= src.len() {
                (Err(None), v.at(k + 1, false))
            } else {
                let second = char_at(src, k + 1);
                if let CharacterType::Numeric(n) = second.ty {
                    number_tail(v, k + 2, first.position, (-(n as int)) as i64, true)
                } else {
                    (Err(Some(SError::UnexpectedCharacter(second))), v.at(k + 1, true))
                }
            }
        } else if let CharacterType::Numeric(n) = first.ty {
            number_tail(v, k + 1, first.position, n as i64, false)
        } else {
            (Err(Some(SError::UnexpectedCharacter(first))), v.peeked())
        }
    }
}

/// A value: a string, a number, a list or an object, tried in that order.
pub open spec fn parse_value(v: LexView) -> (SResult<SValue>, LexView)
    decreases rem(v), 4int,
{
    let pos = v.position();
    let (s, v1) = parse_string(v);
    match s {
        Ok(s) => (Ok(Span { item: SValue::String(s.item), from: s.from, to: s.to }), v1),
        Err(_) => {
            let (n, v2) = parse_number(v1);
            match n {
                Ok(n) => (Ok(Span { item: SValue::Number(n.item), from: n.from, to: n.to }), v2),
                Err(_) => {
                    if rem(v2) <= rem(v) {
                        let (l, v3) = parse_list(v2);
                        match l {
                            Ok(l) => (
                                Ok(Span { item: SValue::List(l.item), from: l.from, to: l.to }),
                                v3,
                            ),
                            Err(_) => {
                                if rem(v3) <= rem(v) {
                                    let (o, v4) = parse_object(v3);
                                    match o {
                                        Ok(o) => (
                                            Ok(
                                                Span {
                                                    item: SValue::Object(o.item),
                                                    from: o.from,
                                                    to: o.to,
                                                },
                                            ),
                                            v4,
                                        ),
                                        Err(_) => (Err(Some(SError::ExpectedValue(pos))), v4),
                                    }
                                } else {
                                    (Err(None), v3)
                                }
                            },
                        }
                    } else {
                        (Err(None), v2)
                    }
                },
            }
        },
    }
}

/// A list: values in square brackets.
pub open spec fn parse_list(v: LexView) -> (SResult<Seq<SValue>>, LexView)
    decreases rem(v), 3int,
{
    parse_sequence(v, Bracket::Square)
}

/// Values separated by commas between an opening and a closing bracket of one kind.
pub open spec fn parse_sequence(v: LexView, bracket: Bracket) -> (SResult<Seq<SValue>>, LexView)
    decreases rem(v), 2int,
{
    if v.cursor >= v.src.len() {
        (Err(None), v)
    } else {
        let first = char_at(v.src, v.cursor);
        if first.ty == CharacterType::Open(bracket) {
            let v1 = v.at(v.cursor + 1, false).skip_whitespace();
            if v1.cursor >= v1.src.len() {
                (Err(None), v1)
            } else {
                let c = char_at(v1.src, v1.cursor);
                if c.ty == CharacterType::Close(bracket) {
                    (
                        Ok(Span { item: Seq::empty(), from: first.position, to: c.position }),
                        v1.at(v1.cursor + 1, false),
                    )
                } else if rem(v1) < rem(v) {
                    sequence_rest(v1, bracket, Seq::empty(), first.position)
                } else {
                    (Err(None), v1)
                }
            }
        } else {
            (Err(Some(SError::UnexpectedCharacter(first))), v.peeked())
        }
    }
}

/// The items of a sequence after `items`; `from` is where the sequence opened.
pub open spec fn sequence_rest(
    v: LexView,
    bracket: Bracket,
    items: Seq<SValue>,
    from: Position,
) -> (SResult<Seq<SValue>>, LexView)
    decreases rem(v), 6int,
{
    let (val, v1) = parse_value(v);
    match val {
        Err(e) => (Err(e), v1),
        Ok(val) => {
            let items2 = items.push(val.item);
            let v2 = v1.skip_whitespace();
            let (c, v3) = v2.next();
            match c {
                None => (Err(None), v3),
                Some(c) => {
                    if c.ty == CharacterType::Close(bracket) {
                        (Ok(Span { item: items2, from, to: c.position }), v3)
                    } else if c.ty == CharacterType::Comma {
                        let v4 = v3.skip_whitespace();
                        if rem(v4) < rem(v) {
                            sequence_rest(v4, bracket, items2, from)
                        } else {
                            (Err(None), v4)
                        }
                    } else {
                        (Err(Some(SError::UnexpectedCharacter(c))), v3)
                    }
                },
            }
        },
    }
}

/// An object: a path that names the base of an extension, optionally followed by
/// arguments in parentheses or assignments in braces; or a new object in braces.
pub open spec fn parse_object(v: LexView) -> (SResult<SObject>, LexView)
    decreases rem(v), 3int,
{
    let (p, v1) = parse_path(v);
    match p {
        Ok(p) => {
            match first_keyword(p.item.path) {
                Some(kw) => (
                    Err(Some(SError::UnexpectedKeyword(Span { item: kw, from: p.from, to: p.to }))),
                    v1,
                ),
                None => {
                    let v2 = v1.skip_whitespace();
                    if rem(v2) <= rem(v) {
                        let (s, v3) = parse_sequence(v2, Bracket::Parenthesis);
                        match s {
                            Ok(s) => (
                                Ok(
                                    Span {
                                        item: SObject::Extension(
                                            p.item,
                                            Some(SExtension::FunctionStyle(s.item)),
                                        ),
                                        from: p.from,
                                        to: s.to,
                                    },
                                ),
                                v3,
                            ),
                            Err(_) => {
                                if rem(v3) <= rem(v) {
                                    let (b, v4) = parse_block(v3);
                                    match b {
                                        Ok(b) => (
                                            Ok(
                                                Span {
                                                    item: SObject::Extension(
                                                        p.item,
                                                        Some(SExtension::BlockStyle(b.item)),
                                                    ),
                                                    from: p.from,
                                                    to: b.to,
                                                },
                                            ),
                                            v4,
                                        ),
                                        Err(_) => (
                                            Ok(
                                                Span {
                                                    item: SObject::Extension(p.item, None),
                                                    from: p.from,
                                                    to: p.to,
                                                },
                                            ),
                                            v4,
                                        ),
                                    }
                                } else {
                                    (Err(None), v3)
                                }
                            },
                        }
                    } else {
                        (Err(None), v2)
                    }
                },
            }
        },
        Err(_) => {
            if rem(v1) <= rem(v) {
                let (b, v2) = parse_block(v1);
                match b {
                    Ok(b) => (
                        Ok(Span { item: SObject::New(b.item), from: b.from, to: b.to }),
                        v2,
                    ),
                    Err(e) => (Err(e), v2),
                }
            } else {
                (Err(None), v1)
            }
        },
    }
}

/// Assignments between braces.
pub open spec fn parse_block(v: LexView) -> (SResult<Seq<(SPath, SValue)>>, LexView)
    decreases rem(v), 1int,
{
    if v.cursor >= v.src.len() {
        (Err(None), v)
    } else {
        let first = char_at(v.src, v.cursor);
        if first.ty == CharacterType::Open(Bracket::Brace) {
            let v1 = v.at(v.cursor + 1, false).skip_whitespace();
            if v1.cursor >= v1.src.len() {
                (Err(None), v1)
            } else {
                let c = char_at(v1.src, v1.cursor);
                if c.ty == CharacterType::Close(Bracket::Brace) {
                    (
                        Ok(Span { item: Seq::empty(), from: first.position, to: c.position }),
                        v1.at(v1.cursor + 1, false),
                    )
                } else if rem(v1) < rem(v) {
                    block_rest(v1, Seq::empty(), first.position)
                } else {
                    (Err(None), v1)
                }
            }
        } else {
            (Err(Some(SError::UnexpectedCharacter(first))), v.peeked())
        }
    }
}

/// The assignments of a block after `items`; `from` is where the block opened.
pub open spec fn block_rest(v: LexView, items: Seq<(SPath, SValue)>, from: Position) -> (
    SResult<Seq<(SPath, SValue)>>,
    LexView,
)
    decreases rem(v), 6int,
{
    let (st, v1) = parse_statement(v);
    match st {
        Err(e) => (Err(e), v1),
        Ok(st) => match st.item {
            SStatement::Include(_) | SStatement::IncludeAs(..) => (
                Err(Some(SError::UnexpectedInclude(st.from, st.to))),
                v1,
            ),
            SStatement::Assign(path, value) => {
                let items2 = items.push((path, value));
                let v2 = v1.skip_whitespace();
                if v2.cursor >= v2.src.len() {
                    (Err(None), v2)
                } else {
                    let c = char_at(v2.src, v2.cursor);
                    if c.ty == CharacterType::Close(Bracket::Brace) {
                        (Ok(Span { item: items2, from, to: c.position }), v2.at(v2.cursor + 1, false))
                    } else if rem(v2) < rem(v) {
                        block_rest(v2.peeked(), items2, from)
                    } else {
                        (Err(None), v2)
                    }
                }
            },
        },
    }
}

/// A statement: `include` and a string, or a path, `=` and a value.
pub open spec fn parse_statement(v: LexView) -> (SResult<SStatement>, LexView)
    decreases rem(v), 5int,
{
    let (p, v1) = parse_path(v);
    match p {
        Err(e) => (Err(e), v1),
        Ok(p) => {
            let v2 = v1.skip_whitespace();
            if p.item.path_type == PathType::Local && p.item.path.len() == 1 && p.item.path[0]
                == kw_include() {
                let (s, v3) = parse_string(v2);
                match s {
                    Err(e) => (Err(e), v3),
                    Ok(s) => (
                        Ok(Span { item: SStatement::Include(s.item), from: p.from, to: s.to }),
                        v3,
                    ),
                }
            } else {
                match first_keyword(p.item.path) {
                    Some(kw) => (
                        Err(
                            Some(
                                SError::UnexpectedKeyword(Span { item: kw, from: p.from, to: p.to }),
                            ),
                        ),
                        v2,
                    ),
                    None => {
                        let (c, v3) = v2.next();
                        match c {
                            None => (Err(None), v3),
                            Some(c) => {
                                if c.ty == CharacterType::Equals {
                                    let v4 = v3.skip_whitespace();
                                    if rem(v4) <= rem(v) {
                                        let (val, v5) = parse_value(v4);
                                        match val {
                                            Err(e) => (Err(e), v5),
                                            Ok(val) => (
                                                Ok(
                                                    Span {
                                                        item: SStatement::Assign(p.item, val.item),
                                                        from: p.from,
                                                        to: val.to,
                                                    },
                                                ),
                                                v5,
                                            ),
                                        }
                                    } else {
                                        (Err(None), v4)
                                    }
                                } else {
                                    (Err(Some(SError::UnexpectedCharacter(c))), v3)
                                }
                            },
                        }
                    },
                }
            }
        },
    }
}

/// Statements, one after the other, until one cannot be read: a statement that ends
/// early at the end of the source ends the list, any other error is the result.
pub open spec fn parse_statements(v: LexView, acc: Seq<Span<SStatement>>) -> Result<
    Seq<Span<SStatement>>,
    SError,
>
    decreases rem(v),
{
    let (st, v1) = parse_statement(v);
    match st {
        Ok(st) => {
            if rem(v1) < rem(v) {
                parse_statements(v1, acc.push(st))
            } else {
                Ok(acc.push(st))
            }
        },
        Err(Some(e)) => Err(e),
        Err(None) => Ok(acc),
    }
}

/// A whole source.
pub open spec fn parse_source(src: Seq<char>) -> Result<Seq<Span<SStatement>>, SError> {
    parse_statements(LexView { src, cursor: 0, buffered: false }, Seq::empty())
}

/// A statement of a configuration source: as `parse_statement`, where an include may go on
/// with `as` and the path of the object that the included file is read into.
pub open spec fn parse_config_statement(v: LexView) -> (SResult<SStatement>, LexView) {
    let (st, v1) = parse_statement(v);
    match st {
        Ok(Span { item: SStatement::Include(file), from, to }) => {
            let (w, v2) = parse_path(v1.skip_whitespace());
            if w matches Ok(w) && w.item.path_type == PathType::Local && w.item.path == seq![kw_as()] {
                let (p, v3) = parse_path(v2.skip_whitespace());
                match p {
                    Err(e) => (Err(e), v3),
                    Ok(p) => match first_keyword(p.item.path) {
                        Some(kw) => (
                            Err(Some(SError::UnexpectedKeyword(Span { item: kw, from: p.from, to: p.to }))),
                            v3,
                        ),
                        None => (Ok(Span { item: SStatement::IncludeAs(file, p.item), from, to: p.to }), v3),
                    },
                }
            } else {
                (Ok(Span { item: SStatement::Include(file), from, to }), v1)
            }
        },
        _ => (st, v1),
    }
}

/// Statements separated by whitespace, up to the end of the source or the first error.
pub open spec fn parse_spaced_statements(v: LexView, acc: Seq<Span<SStatement>>) -> Result<
    Seq<Span<SStatement>>,
    SError,
>
    decreases rem(v),
{
    let (st, v1) = parse_config_statement(v.skip_whitespace());
    match st {
        Ok(st) => {
            if rem(v1) < rem(v) {
                parse_spaced_statements(v1, acc.push(st))
            } else {
                Ok(acc.push(st))
            }
        },
        Err(Some(e)) => Err(e),
        Err(None) => Ok(acc),
    }
}

/// A configuration source: statements, with whitespace around and between them.
pub open spec fn parse_config_source(src: Seq<char>) -> Result<Seq<Span<SStatement>>, SError> {
    parse_spaced_statements(LexView { src, cursor: 0, buffered: false }, Seq::empty())
}

} // verus!
