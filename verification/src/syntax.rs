//! The syntax tree of the configuration language, and its mathematical counterpart.
use vstd::prelude::*;

use crate::lexer::{Character, Position};

verus! {

/// An item together with where it starts and ends in the source.
#[derive(PartialEq, Debug)]
pub struct Span<T> {
    pub item: T,
    pub from: Position,
    pub to: Position,
}

#[derive(PartialEq, Eq, Debug, Clone, Copy, Structural)]
pub enum PathType {
    Global,
    Local,
}

#[derive(PartialEq, Debug)]
pub struct Path {
    pub path_type: PathType,
    pub path: Vec<String>,
}

/// The parts of a number with a fractional part: its value is
/// `whole + fraction / divider`, or `whole - fraction / divider` when `negative`.
#[derive(PartialEq, Eq, Debug, Clone, Copy, Structural)]
pub struct Decimal {
    pub negative: bool,
    pub whole: i64,
    pub fraction: u64,
    pub divider: u64,
}

#[derive(PartialEq, Eq, Debug, Clone, Copy, Structural)]
pub enum Number {
    Integer(i64),
    Float(Decimal),
}

#[derive(PartialEq, Debug)]
pub enum Value {
    Object(Object),
    Number(Number),
    String(String),
    List(Vec<Value>),
}

#[derive(PartialEq, Debug)]
pub enum Object {
    New(Vec<(Path, Value)>),
    Extension(Path, Option<ExtensionChanges>),
}

#[derive(PartialEq, Debug)]
pub enum ExtensionChanges {
    BlockStyle(Vec<(Path, Value)>),
    FunctionStyle(Vec<Value>),
}

#[derive(PartialEq, Debug)]
pub enum Statement {
    Include(String),
    /// An include that reads the file into the object at the path.
    IncludeAs(String, Path),
    Assign(Path, Value),
}

#[derive(PartialEq, Debug)]
pub enum Error {
    UnexpectedCharacter(Character),
    UnexpectedKeyword(Span<String>),
    UnexpectedInclude(Position, Position),
    ExpectedValue(Position),
}

/// A path as a mathematical value.
pub struct SPath {
    pub path_type: PathType,
    pub path: Seq<Seq<char>>,
}

pub enum SValue {
    Object(SObject),
    Number(Number),
    String(Seq<char>),
    List(Seq<SValue>),
}

pub enum SObject {
    New(Seq<(SPath, SValue)>),
    Extension(SPath, Option<SExtension>),
}

pub enum SExtension {
    BlockStyle(Seq<(SPath, SValue)>),
    FunctionStyle(Seq<SValue>),
}

pub enum SStatement {
    Include(Seq<char>),
    IncludeAs(Seq<char>, SPath),
    Assign(SPath, SValue),
}

pub enum SError {
    UnexpectedCharacter(Character),
    UnexpectedKeyword(Span<Seq<char>>),
    UnexpectedInclude(Position, Position),
    ExpectedValue(Position),
}

pub open spec fn strings_view(s: Seq<String>) -> Seq<Seq<char>> {
    s.map_values(|x: String| x@)
}

pub open spec fn path_view(p: Path) -> SPath {
    SPath { path_type: p.path_type, path: strings_view(p.path@) }
}

pub open spec fn value_view(v: Value) -> SValue
    decreases v, 0int,
{
    match v {
        Value::Object(o) => SValue::Object(object_view(o)),
        Value::Number(n) => SValue::Number(n),
        Value::String(s) => SValue::String(s@),
        Value::List(l) => SValue::List(values_view(l@)),
    }
}

pub open spec fn values_view(s: Seq<Value>) -> Seq<SValue>
    decreases s, 0int,
{
    if s.len() == 0 {
        Seq::empty()
    } else {
        values_view(s.subrange(0, s.len() - 1)).push(value_view(s[s.len() - 1]))
    }
}

pub open spec fn pairs_view(s: Seq<(Path, Value)>) -> Seq<(SPath, SValue)>
    decreases s, 0int,
{
    if s.len() == 0 {
        Seq::empty()
    } else {
        pairs_view(s.subrange(0, s.len() - 1)).push(
            (path_view(s[s.len() - 1].0), value_view(s[s.len() - 1].1)),
        )
    }
}

pub open spec fn object_view(o: Object) -> SObject
    decreases o, 0int,
{
    match o {
        Object::New(items) => SObject::New(pairs_view(items@)),
        Object::Extension(p, None) => SObject::Extension(path_view(p), None),
        Object::Extension(p, Some(c)) => SObject::Extension(path_view(p), Some(changes_view(c))),
    }
}

pub open spec fn changes_view(c: ExtensionChanges) -> SExtension
    decreases c, 0int,
{
    match c {
        ExtensionChanges::BlockStyle(items) => SExtension::BlockStyle(pairs_view(items@)),
        ExtensionChanges::FunctionStyle(values) => SExtension::FunctionStyle(values_view(values@)),
    }
}

pub open spec fn statement_view(s: Statement) -> SStatement {
    match s {
        Statement::Include(f) => SStatement::Include(f@),
        Statement::IncludeAs(f, p) => SStatement::IncludeAs(f@, path_view(p)),
        Statement::Assign(p, v) => SStatement::Assign(path_view(p), value_view(v)),
    }
}

pub open spec fn error_view(e: Error) -> SError {
    match e {
        Error::UnexpectedCharacter(c) => SError::UnexpectedCharacter(c),
        Error::UnexpectedKeyword(s) => SError::UnexpectedKeyword(
            Span { item: s.item@, from: s.from, to: s.to },
        ),
        Error::UnexpectedInclude(a, b) => SError::UnexpectedInclude(a, b),
        Error::ExpectedValue(p) => SError::ExpectedValue(p),
    }
}

pub open spec fn opt_error_view(e: Option<Error>) -> Option<SError> {
    match e {
        Some(e) => Some(error_view(e)),
        None => None,
    }
}

/// An executable parse result agrees with a mathematical one, the items compared through `f`.
pub open spec fn agrees<T, U>(
    r: Result<Span<T>, Option<Error>>,
    s: Result<Span<U>, Option<SError>>,
    f: spec_fn(T) -> U,
) -> bool {
    match (r, s) {
        (Ok(a), Ok(b)) => a.from == b.from && a.to == b.to && f(a.item) == b.item,
        (Err(e), Err(g)) => opt_error_view(e) == g,
        _ => false,
    }
}

/// Each item of a list of values is seen through `value_view`.
pub proof fn lemma_values_view(s: Seq<Value>)
    ensures
        values_view(s).len() == s.len(),
        forall|k: int| 0 <= k < s.len() ==> #[trigger] values_view(s)[k] == value_view(s[k]),
    decreases s.len(),
{
    if s.len() > 0 {
        let init = s.subrange(0, s.len() - 1);
        lemma_values_view(init);
        assert forall|k: int| 0 <= k < s.len() implies #[trigger] values_view(s)[k] == value_view(s[k]) by {
            if k < s.len() - 1 {
                assert(init[k] == s[k]);
            }
        }
    }
}

/// Each pair of a list of assignments is seen through `path_view` and `value_view`.
pub proof fn lemma_pairs_view(s: Seq<(Path, Value)>)
    ensures
        pairs_view(s).len() == s.len(),
        forall|k: int|
            0 <= k < s.len() ==> #[trigger] pairs_view(s)[k] == (path_view(s[k].0), value_view(s[k].1)),
    decreases s.len(),
{
    if s.len() > 0 {
        let init = s.subrange(0, s.len() - 1);
        lemma_pairs_view(init);
        assert forall|k: int| 0 <= k < s.len() implies #[trigger] pairs_view(s)[k] == (
            path_view(s[k].0),
            value_view(s[k].1),
        ) by {
            if k < s.len() - 1 {
                assert(init[k] == s[k]);
            }
        }
    }
}

/// Dropping the first value drops the first of the views.
pub proof fn lemma_values_view_rest(s: Seq<Value>)
    requires
        s.len() > 0,
    ensures
        values_view(s.subrange(1, s.len() as int)) == values_view(s).subrange(1, s.len() as int),
        values_view(s)[0] == value_view(s[0]),
{
    let rest = s.subrange(1, s.len() as int);
    lemma_values_view(s);
    lemma_values_view(rest);
    assert(values_view(rest) =~= values_view(s).subrange(1, s.len() as int)) by {
        assert forall|k: int| 0 <= k < rest.len() implies values_view(rest)[k] == values_view(s).subrange(
            1,
            s.len() as int,
        )[k] by {
            assert(rest[k] == s[k + 1]);
        }
    }
}

/// Dropping the first assignment drops the first of the views.
pub proof fn lemma_pairs_view_rest(s: Seq<(Path, Value)>)
    requires
        s.len() > 0,
    ensures
        pairs_view(s.subrange(1, s.len() as int)) == pairs_view(s).subrange(1, s.len() as int),
        pairs_view(s)[0] == (path_view(s[0].0), value_view(s[0].1)),
{
    let rest = s.subrange(1, s.len() as int);
    lemma_pairs_view(s);
    lemma_pairs_view(rest);
    assert(pairs_view(rest) =~= pairs_view(s).subrange(1, s.len() as int)) by {
        assert forall|k: int| 0 <= k < rest.len() implies pairs_view(rest)[k] == pairs_view(s).subrange(
            1,
            s.len() as int,
        )[k] by {
            assert(rest[k] == s[k + 1]);
        }
    }
}

} // verus!
