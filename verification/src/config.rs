//! The configuration tree: what a sequence of statements builds.
use vstd::prelude::*;

use crate::syntax::{
    self, Number, SError, SStatement, Span, statement_view, PathType, strings_view, value_view, values_view, pairs_view, path_view, changes_view,
    lemma_values_view, lemma_values_view_rest, lemma_pairs_view, lemma_pairs_view_rest,
};

pub mod entry;
pub mod model;
pub mod prelude;

use entry::Entry;

use model::{
    Nodes, SConfigError, SNode, SPrim, SSelection, SType, arguments_from, cloned_arguments, concrete,
    empty_object, find_child, find_child_id, follow, index_of, infer_object, is_ref, key_of,
    links_to, lookup, make_object, reaches, refs_ok, trace, tree_wf, lemma_retype, lemma_leaf,
    lemma_refs_same_len, lemma_lookup_in, fresh, grows, add_child, add_item, lemma_add_new_child, lemma_add_item,
    lemma_grows_trans, lemma_infer_shape, lemma_follow, lemma_make_object_shape, object, object_walk,
    holder, put, id_of, find_in_prelude, prelude_walk, set_base, assign, assign_all, assign_args, extend, insert,
    insert_all, cost, pairs_cost, values_cost, changes_cost, paths_ok, pairs_ok, values_ok, changes_ok, apply,
    apply_all, statement_ok, statement_cost, statements_ok, statements_cost, key_index, put_entry, set_child,
    lemma_key_index, lemma_set_child,
};
use crate::grammar::parse_config_source;
use crate::parser::spans_view;

verus! {

/// A primitive value.
#[derive(PartialEq, Debug)]
pub enum Value {
    Number(Number),
    String(String),
}

impl From<i64> for Value {
    fn from(v: i64) -> (r: Value) {
        Value::Number(Number::Integer(v))
    }
}

impl vstd::std_specs::convert::FromSpecImpl<i64> for Value {
    open spec fn obeys_from_spec() -> bool {
        true
    }

    open spec fn from_spec(v: i64) -> Value {
        Value::Number(Number::Integer(v))
    }
}

impl From<i32> for Value {
    fn from(v: i32) -> (r: Value) {
        Value::Number(Number::Integer(v as i64))
    }
}

impl vstd::std_specs::convert::FromSpecImpl<i32> for Value {
    open spec fn obeys_from_spec() -> bool {
        true
    }

    open spec fn from_spec(v: i32) -> Value {
        Value::Number(Number::Integer(v as i64))
    }
}

impl From<u32> for Value {
    fn from(v: u32) -> (r: Value) {
        Value::Number(Number::Integer(v as i64))
    }
}

impl vstd::std_specs::convert::FromSpecImpl<u32> for Value {
    open spec fn obeys_from_spec() -> bool {
        true
    }

    open spec fn from_spec(v: u32) -> Value {
        Value::Number(Number::Integer(v as i64))
    }
}

impl From<String> for Value {
    fn from(v: String) -> (r: Value) {
        Value::String(v)
    }
}

impl vstd::std_specs::convert::FromSpecImpl<String> for Value {
    open spec fn obeys_from_spec() -> bool {
        true
    }

    open spec fn from_spec(v: String) -> Value {
        Value::String(v)
    }
}

#[derive(PartialEq, Debug)]
pub enum Selection {
    Ident(String),
    Index(usize),
}

/// The path to something in the configuration, for messages.
#[derive(PartialEq, Debug)]
pub struct StackTrace(pub Vec<Selection>);

/// What can go wrong while a configuration is read.
#[derive(PartialEq, Debug)]
pub enum Error {
    /// The source could not be parsed.
    Parse(crate::syntax::Error),
    /// The source includes a file, which only a caller that reads files can follow.
    UnresolvedInclude(String),
    /// Something should be an object, but it is not.
    NotAnObject(StackTrace),
    /// A circular reference was discovered.
    CircularReference(StackTrace),
    /// Too many arguments were passed while extending an object.
    TooManyArguments(StackTrace, usize),
    /// Something was reassigned.
    Reassign(StackTrace),
    /// An attempt to refer to a local value in a list.
    LocalPathInList(StackTrace, Vec<String>),
}

#[derive(PartialEq, Debug)]
pub enum NodeType {
    Unknown,
    Link(usize),
    Object { base: Option<usize>, children: Vec<(String, usize)>, arguments: Vec<String> },
    Value(Value),
    List(Vec<usize>),
}

#[derive(PartialEq, Debug)]
pub struct Node {
    pub ty: NodeType,
    pub parent: usize,
}

/// What a step along a path does with the name at that step.
enum Action {
    /// The name is a child already.
    Continue(usize),
    /// The node is a link, which becomes an object based on its target.
    Upgrade(usize),
    /// The name is missing and is made, based on the same name in the base, if any.
    Create(Option<usize>),
}

pub open spec fn prim_view(v: Value) -> SPrim {
    match v {
        Value::Number(n) => SPrim::Number(n),
        Value::String(s) => SPrim::String(s@),
    }
}

pub open spec fn entries_view(s: Seq<(String, usize)>) -> Seq<(Seq<char>, usize)> {
    s.map_values(|e: (String, usize)| (e.0@, e.1))
}

pub open spec fn names_view(s: Seq<String>) -> Seq<Seq<char>> {
    strings_view(s)
}

pub open spec fn type_view(t: NodeType) -> SType {
    match t {
        NodeType::Unknown => SType::Unknown,
        NodeType::Link(l) => SType::Link(l),
        NodeType::Object { base, children, arguments } => SType::Object {
            base,
            children: entries_view(children@),
            arguments: names_view(arguments@),
        },
        NodeType::Value(v) => SType::Value(prim_view(v)),
        NodeType::List(items) => SType::List(items@),
    }
}

pub open spec fn node_view(n: Node) -> SNode {
    SNode { ty: type_view(n.ty), parent: n.parent }
}

pub open spec fn selection_view(s: Selection) -> SSelection {
    match s {
        Selection::Ident(k) => SSelection::Ident(k@),
        Selection::Index(i) => SSelection::Index(i),
    }
}

pub open spec fn trace_view(t: StackTrace) -> Seq<SSelection> {
    t.0@.map_values(|s: Selection| selection_view(s))
}

/// The error as a mathematical value; `None` for the errors of parsing and including.
pub open spec fn error_view(e: Error) -> Option<SConfigError> {
    match e {
        Error::NotAnObject(t) => Some(SConfigError::NotAnObject(trace_view(t))),
        Error::CircularReference(t) => Some(SConfigError::CircularReference(trace_view(t))),
        Error::TooManyArguments(t, n) => Some(SConfigError::TooManyArguments(trace_view(t), n)),
        Error::Reassign(t) => Some(SConfigError::Reassign(trace_view(t))),
        Error::LocalPathInList(t, p) => Some(
            SConfigError::LocalPathInList(trace_view(t), names_view(p@)),
        ),
        _ => None,
    }
}

/// Whether the outcome of an operation agrees with the model's.
pub open spec fn outcome_agrees<T>(r: Result<T, Error>, s: Result<T, SConfigError>) -> bool {
    match (r, s) {
        (Ok(a), Ok(b)) => a == b,
        (Err(e), Err(f)) => error_view(e) == Some(f),
        _ => false,
    }
}

/// The source parses into statements whose paths all name something and whose nodes fit
/// beside `len` others; or it does not parse.
pub open spec fn source_fits(len: nat, source: Seq<char>) -> bool {
    match parse_config_source(source) {
        Ok(statements) => statements_ok(statements) && len + statements_cost(statements) + 1 < usize::MAX,
        Err(_) => true,
    }
}

/// Whether the outcome of a statement agrees with the model's.
pub open spec fn step_agrees(r: Result<Option<String>, Error>, s: Result<Option<Seq<char>>, SConfigError>) -> bool {
    match (r, s) {
        (Ok(None), Ok(None)) => true,
        (Ok(Some(a)), Ok(Some(b))) => a@ == b,
        (Err(e), Err(f)) => error_view(e) == Some(f),
        _ => false,
    }
}

/// What reading a source gives: a syntax error leaves the tree as it was; otherwise the
/// statements are carried out in order, and an include stops them with an error that
/// names its file.
pub open spec fn parse_agrees(
    r: Result<(), Error>,
    parsed: Result<Seq<Span<SStatement>>, SError>,
    before: Nodes,
    prelude: Seq<(Seq<char>, usize)>,
    root: usize,
    after: Nodes,
) -> bool {
    match parsed {
        Err(e) => r matches Err(Error::Parse(pe)) && syntax::error_view(pe) == e && after == before,
        Ok(statements) => {
            let (o, n) = apply_all(before, prelude, root, statements);
            &&& after == n
            &&& match o {
                Ok(None) => r is Ok,
                Ok(Some(f)) => r matches Err(Error::UnresolvedInclude(g)) && g@ == f,
                Err(e) => r matches Err(x) && error_view(x) == Some(e),
            }
        },
    }
}

/// Whether two strings hold the same characters.
fn same_text(a: &str, b: &str) -> (r: bool)
    ensures
        r == (a@ == b@),
{
    a.to_owned() == b.to_owned()
}

/// The child under `key`.
fn find_key(children: &Vec<(String, usize)>, key: &str) -> (r: Option<usize>)
    ensures
        r == lookup(entries_view(children@), key@),
{
    let mut i: usize = 0;
    proof {
        assert(entries_view(children@).subrange(0, children@.len() as int) =~= entries_view(
            children@,
        ));
    }
    while i < children.len()
        invariant
            0 <= i <= children@.len(),
            lookup(entries_view(children@), key@) == lookup(
                entries_view(children@).subrange(i as int, children@.len() as int),
                key@,
            ),
        decreases children@.len() - i,
    {
        let ghost rest = entries_view(children@).subrange(i as int, children@.len() as int);
        proof {
            assert(rest.subrange(1, rest.len() as int) =~= entries_view(children@).subrange(
                i + 1,
                children@.len() as int,
            ));
        }
        if same_text(children[i].0.as_str(), key) {
            return Some(children[i].1);
        }
        i = i + 1;
    }
    None
}

/// The key of the first entry that holds `child`.
fn find_key_of(children: &Vec<(String, usize)>, child: usize) -> (r: Option<String>)
    ensures
        r matches Some(k) ==> key_of(entries_view(children@), child) == Some(k@),
        r is None ==> key_of(entries_view(children@), child) is None,
{
    let mut i: usize = 0;
    proof {
        assert(entries_view(children@).subrange(0, children@.len() as int) =~= entries_view(
            children@,
        ));
    }
    while i < children.len()
        invariant
            0 <= i <= children@.len(),
            key_of(entries_view(children@), child) == key_of(
                entries_view(children@).subrange(i as int, children@.len() as int),
                child,
            ),
        decreases children@.len() - i,
    {
        let ghost rest = entries_view(children@).subrange(i as int, children@.len() as int);
        proof {
            assert(rest.subrange(1, rest.len() as int) =~= entries_view(children@).subrange(
                i + 1,
                children@.len() as int,
            ));
        }
        if children[i].1 == child {
            return Some(children[i].0.clone());
        }
        i = i + 1;
    }
    None
}

/// The position of the first item equal to `child`.
fn find_index(items: &Vec<usize>, child: usize) -> (r: Option<usize>)
    ensures
        r matches Some(i) ==> index_of(items@, child) == Some(i as int),
        r is None ==> index_of(items@, child) is None,
{
    let mut i: usize = 0;
    proof {
        assert(items@.subrange(0, items@.len() as int) =~= items@);
    }
    while i < items.len()
        invariant
            0 <= i <= items@.len(),
            index_of(items@, child) == match index_of(
                items@.subrange(i as int, items@.len() as int),
                child,
            ) {
                Some(j) => Some(j + i),
                None => None::<int>,
            },
        decreases items@.len() - i,
    {
        let ghost rest = items@.subrange(i as int, items@.len() as int);
        proof {
            assert(rest.subrange(1, rest.len() as int) =~= items@.subrange(
                i + 1,
                items@.len() as int,
            ));
        }
        if items[i] == child {
            return Some(i);
        }
        i = i + 1;
    }
    None
}

/// A copy of a list of names.
fn clone_names(names: &Vec<String>) -> (r: Vec<String>)
    ensures
        names_view(r@) == names_view(names@),
{
    let mut out: Vec<String> = Vec::new();
    let mut i: usize = 0;
    while i < names.len()
        invariant
            0 <= i <= names@.len(),
            names_view(out@) == names_view(names@).subrange(0, i as int),
        decreases names@.len() - i,
    {
        let c = names[i].clone();
        proof {
            assert(c@ == names@[i as int]@);
        }
        let ghost before = out@;
        out.push(c);
        proof {
            assert(out@ =~= before.push(c));
            assert(names_view(before.push(c)) =~= names_view(before).push(c@));
            assert(names_view(names@).subrange(0, i + 1) =~= names_view(names@).subrange(
                0,
                i as int,
            ).push(names@[i as int]@));
        }
        i = i + 1;
    }
    proof {
        assert(names_view(names@).subrange(0, names@.len() as int) =~= names_view(names@));
    }
    out
}

/// The position of the first entry under `key`.
fn find_key_index(entries: &Vec<(String, usize)>, key: &str) -> (r: Option<usize>)
    ensures
        r matches Some(k) ==> key_index(entries_view(entries@), key@) == Some(k as int),
        r is None ==> key_index(entries_view(entries@), key@) is None,
{
    let ghost ev = entries_view(entries@);
    let mut i: usize = 0;
    proof {
        assert(ev.subrange(0, ev.len() as int) =~= ev);
    }
    while i < entries.len()
        invariant
            ev == entries_view(entries@),
            ev.len() == entries@.len(),
            0 <= i <= entries@.len(),
            key_index(ev, key@) == match key_index(ev.subrange(i as int, ev.len() as int), key@) {
                Some(j) => Some(j + i),
                None => None::<int>,
            },
        decreases entries@.len() - i,
    {
        let ghost rest = ev.subrange(i as int, ev.len() as int);
        proof {
            assert(rest.subrange(1, rest.len() as int) =~= ev.subrange(i + 1, ev.len() as int));
        }
        if same_text(entries[i].0.as_str(), key) {
            return Some(i);
        }
        i = i + 1;
    }
    None
}

/// Makes `key` name `id` among `entries`, replacing the first entry under `key`.
fn put_key(entries: &mut Vec<(String, usize)>, key: String, id: usize)
    ensures
        entries_view(final(entries)@) == put_entry(entries_view(old(entries)@), key@, id),
{
    let ghost k = key@;
    match find_key_index(entries, key.as_str()) {
        Some(i) => {
            proof {
                lemma_key_index(entries_view(entries@), k);
            }
            entries.set(i, (key, id));
            proof {
                assert(entries_view(entries@) =~= entries_view(old(entries)@).update(i as int, (k, id)));
            }
        },
        None => {
            entries.push((key, id));
            proof {
                assert(entries_view(entries@) =~= entries_view(old(entries)@).push((k, id)));
            }
        },
    }
}

/// Whether every path in `v` names something.
pub fn value_paths_named(v: &syntax::Value) -> (r: bool)
    ensures
        r == paths_ok(value_view(*v)),
    decreases v, 0int,
{
    match v {
        syntax::Value::Object(syntax::Object::New(values)) => {
            proof {
                let sv = syntax::SValue::Object(syntax::SObject::New(pairs_view(values@)));
                assert(value_view(*v) == sv);
                assert(paths_ok(sv) == pairs_ok(pairs_view(values@)));
            }
            pairs_named(values)
        },
        syntax::Value::Object(syntax::Object::Extension(base, Some(changes))) => {
            proof {
                assert(value_view(*v) == syntax::SValue::Object(
                    syntax::SObject::Extension(path_view(*base), Some(changes_view(*changes))),
                ));
                assert(path_view(*base).path.len() == base.path@.len());
            }
            if base.path.len() == 0 {
                return false;
            }
            match changes {
                syntax::ExtensionChanges::BlockStyle(values) => pairs_named(values),
                syntax::ExtensionChanges::FunctionStyle(values) => values_named(values),
            }
        },
        syntax::Value::Object(syntax::Object::Extension(base, None)) => {
            proof {
                assert(value_view(*v) == syntax::SValue::Object(syntax::SObject::Extension(path_view(*base), None)));
                assert(path_view(*base).path.len() == base.path@.len());
            }
            base.path.len() > 0
        },
        syntax::Value::List(values) => {
            proof {
                assert(value_view(*v) == syntax::SValue::List(values_view(values@)));
            }
            values_named(values)
        },
        _ => true,
    }
}

/// Whether every path of the assignments names something.
fn pairs_named(values: &Vec<(syntax::Path, syntax::Value)>) -> (r: bool)
    ensures
        r == pairs_ok(pairs_view(values@)),
    decreases values@, 1int,
{
    let ghost pv = pairs_view(values@);
    proof {
        lemma_pairs_view(values@);
        assert(pv.subrange(0, pv.len() as int) =~= pv);
    }
    let mut i: usize = 0;
    while i < values.len()
        invariant
            pv == pairs_view(values@),
            pv.len() == values@.len(),
            0 <= i <= values@.len(),
            pairs_ok(pv) == pairs_ok(pv.subrange(i as int, pv.len() as int)),
            forall|k: int| 0 <= k < values@.len() ==> #[trigger] pv[k] == (path_view(values@[k].0), value_view(values@[k].1)),
        decreases values@.len() - i,
    {
        let ghost rest = pv.subrange(i as int, pv.len() as int);
        proof {
            assert(rest.subrange(1, rest.len() as int) =~= pv.subrange(i + 1, pv.len() as int));
            assert(rest[0] == pv[i as int]);
        }
        if values[i].0.path.len() == 0 || !value_paths_named(&values[i].1) {
            return false;
        }
        i = i + 1;
    }
    true
}

/// Whether every path in the values names something.
fn values_named(values: &Vec<syntax::Value>) -> (r: bool)
    ensures
        r == values_ok(values_view(values@)),
    decreases values@, 1int,
{
    let ghost vv = values_view(values@);
    proof {
        lemma_values_view(values@);
        assert(vv.subrange(0, vv.len() as int) =~= vv);
    }
    let mut i: usize = 0;
    while i < values.len()
        invariant
            vv == values_view(values@),
            vv.len() == values@.len(),
            0 <= i <= values@.len(),
            values_ok(vv) == values_ok(vv.subrange(i as int, vv.len() as int)),
            forall|k: int| 0 <= k < values@.len() ==> #[trigger] vv[k] == value_view(values@[k]),
        decreases values@.len() - i,
    {
        let ghost rest = vv.subrange(i as int, vv.len() as int);
        proof {
            assert(rest.subrange(1, rest.len() as int) =~= vv.subrange(i + 1, vv.len() as int));
            assert(rest[0] == vv[i as int]);
        }
        if !value_paths_named(&values[i]) {
            return false;
        }
        i = i + 1;
    }
    true
}

/// The number of nodes that the value `v` may add beyond those of its path, where that is
/// at most `limit`.
pub fn value_cost(v: &syntax::Value, limit: usize) -> (r: Option<usize>)
    ensures
        r matches Some(n) ==> n == cost(value_view(*v)) && n <= limit,
        r is None ==> cost(value_view(*v)) > limit,
    decreases v, 0int,
{
    match v {
        syntax::Value::Object(syntax::Object::New(values)) => {
            proof {
                let sv = syntax::SValue::Object(syntax::SObject::New(pairs_view(values@)));
                assert(value_view(*v) == sv);
            }
            pairs_cost_within(values, limit)
        },
        syntax::Value::Object(syntax::Object::Extension(base, Some(changes))) => {
            proof {
                assert(value_view(*v) == syntax::SValue::Object(
                    syntax::SObject::Extension(path_view(*base), Some(changes_view(*changes))),
                ));
                assert(path_view(*base).path.len() == base.path@.len());
            }
            let b = base.path.len();
            if b > limit {
                return None;
            }
            let rest = match changes {
                syntax::ExtensionChanges::BlockStyle(values) => pairs_cost_within(values, limit - b),
                syntax::ExtensionChanges::FunctionStyle(values) => values_cost_within(values, limit - b),
            };
            match rest {
                Some(n) => Some(b + n),
                None => None,
            }
        },
        syntax::Value::Object(syntax::Object::Extension(base, None)) => {
            proof {
                assert(value_view(*v) == syntax::SValue::Object(syntax::SObject::Extension(path_view(*base), None)));
                assert(path_view(*base).path.len() == base.path@.len());
            }
            if base.path.len() <= limit {
                Some(base.path.len())
            } else {
                None
            }
        },
        syntax::Value::List(values) => {
            proof {
                assert(value_view(*v) == syntax::SValue::List(values_view(values@)));
            }
            values_cost_within(values, limit)
        },
        _ => Some(0),
    }
}

/// The number of nodes that the assignments may add, where that is at most `limit`.
fn pairs_cost_within(values: &Vec<(syntax::Path, syntax::Value)>, limit: usize) -> (r: Option<usize>)
    ensures
        r matches Some(n) ==> n == pairs_cost(pairs_view(values@)) && n <= limit,
        r is None ==> pairs_cost(pairs_view(values@)) > limit,
    decreases values@, 1int,
{
    let ghost pv = pairs_view(values@);
    proof {
        lemma_pairs_view(values@);
        assert(pv.subrange(0, pv.len() as int) =~= pv);
    }
    let mut total: usize = 0;
    let mut i: usize = 0;
    while i < values.len()
        invariant
            pv == pairs_view(values@),
            pv.len() == values@.len(),
            0 <= i <= values@.len(),
            total <= limit,
            pairs_cost(pv) == total + pairs_cost(pv.subrange(i as int, pv.len() as int)),
            forall|k: int| 0 <= k < values@.len() ==> #[trigger] pv[k] == (path_view(values@[k].0), value_view(values@[k].1)),
        decreases values@.len() - i,
    {
        let ghost rest = pv.subrange(i as int, pv.len() as int);
        proof {
            assert(rest.subrange(1, rest.len() as int) =~= pv.subrange(i + 1, pv.len() as int));
            assert(rest[0] == pv[i as int]);
            assert(path_view(values@[i as int].0).path.len() == values@[i as int].0.path@.len());
        }
        let p = values[i].0.path.len();
        if p > limit - total {
            return None;
        }
        let c = match value_cost(&values[i].1, limit - total - p) {
            Some(c) => c,
            None => {
                return None;
            },
        };
        total = total + p + c;
        i = i + 1;
    }
    proof {
        assert(pv.subrange(i as int, pv.len() as int) =~= Seq::<(syntax::SPath, syntax::SValue)>::empty());
    }
    Some(total)
}

/// The number of nodes that the list items may add, where that is at most `limit`.
fn values_cost_within(values: &Vec<syntax::Value>, limit: usize) -> (r: Option<usize>)
    ensures
        r matches Some(n) ==> n == values_cost(values_view(values@)) && n <= limit,
        r is None ==> values_cost(values_view(values@)) > limit,
    decreases values@, 1int,
{
    let ghost vv = values_view(values@);
    proof {
        lemma_values_view(values@);
        assert(vv.subrange(0, vv.len() as int) =~= vv);
    }
    let mut total: usize = 0;
    let mut i: usize = 0;
    while i < values.len()
        invariant
            vv == values_view(values@),
            vv.len() == values@.len(),
            0 <= i <= values@.len(),
            total <= limit,
            values_cost(vv) == total + values_cost(vv.subrange(i as int, vv.len() as int)),
            forall|k: int| 0 <= k < values@.len() ==> #[trigger] vv[k] == value_view(values@[k]),
        decreases values@.len() - i,
    {
        let ghost rest = vv.subrange(i as int, vv.len() as int);
        proof {
            assert(rest.subrange(1, rest.len() as int) =~= vv.subrange(i + 1, vv.len() as int));
            assert(rest[0] == vv[i as int]);
        }
        if total == limit {
            return None;
        }
        let c = match value_cost(&values[i], limit - total - 1) {
            Some(c) => c,
            None => {
                return None;
            },
        };
        total = total + 1 + c;
        i = i + 1;
    }
    proof {
        assert(vv.subrange(i as int, vv.len() as int) =~= Seq::<syntax::SValue>::empty());
    }
    Some(total)
}

/// The number of nodes that carrying out the statement may add, where that is at most
/// `limit`: what `apply_statement` asks to fit.
pub fn statement_cost_within(statement: &syntax::Statement, limit: usize) -> (r: Option<usize>)
    ensures
        r matches Some(n) ==> n == statement_cost(statement_view(*statement)) && n <= limit,
        r is None ==> statement_cost(statement_view(*statement)) > limit,
{
    match statement {
        syntax::Statement::Include(_) | syntax::Statement::IncludeAs(..) => Some(0),
        syntax::Statement::Assign(path, value) => {
            proof {
                assert(path_view(*path).path.len() == path.path@.len());
            }
            let p = path.path.len();
            if p > limit {
                return None;
            }
            match value_cost(value, limit - p) {
                Some(c) => Some(p + c),
                None => None,
            }
        },
    }
}

/// Whether every path in the statement names something, as carrying it out asks.
pub fn statement_paths_named(statement: &syntax::Statement) -> (r: bool)
    ensures
        r == statement_ok(statement_view(*statement)),
{
    match statement {
        syntax::Statement::Include(_) | syntax::Statement::IncludeAs(..) => true,
        syntax::Statement::Assign(path, value) => path.path.len() > 0 && value_paths_named(value),
    }
}

/// A node type for an object with no base, no children and no arguments.
fn new_object() -> (t: NodeType)
    ensures
        type_view(t) == empty_object(),
{
    let t = NodeType::Object { base: None, children: Vec::new(), arguments: Vec::new() };
    proof {
        assert(entries_view(Seq::<(String, usize)>::empty()) =~= Seq::<(Seq<char>, usize)>::empty());
        assert(names_view(Seq::<String>::empty()) =~= Seq::<Seq<char>>::empty());
    }
    t
}

/// Reads a configuration into a tree of objects, lists, values and links.
pub struct Parser {
    nodes: Vec<Node>,
    prelude: Vec<(String, usize)>,
}

impl Parser {
    /// The nodes of the tree; the root is the first.
    pub closed spec fn tree(&self) -> Nodes {
        self.nodes@.map_values(|n: Node| node_view(n))
    }

    /// The predefined names and the nodes they name.
    pub closed spec fn predefined(&self) -> Seq<(Seq<char>, usize)> {
        entries_view(self.prelude@)
    }

    pub open spec fn wf(&self) -> bool {
        &&& tree_wf(self.tree())
        &&& forall|i: int|
            0 <= i < self.predefined().len() ==> #[trigger] is_ref(
                self.tree(),
                self.predefined()[i].1 as int,
            )
    }

    /// A tree that holds nothing but an empty root object.
    pub fn new() -> (p: Parser)
        ensures
            p.wf(),
            p.tree() == seq![SNode { ty: empty_object(), parent: 0 }],
            p.predefined() == Seq::<(Seq<char>, usize)>::empty(),
    {
        let root = Node {
            ty: NodeType::Object { base: None, children: Vec::new(), arguments: Vec::new() },
            parent: 0,
        };
        let mut nodes: Vec<Node> = Vec::new();
        nodes.push(root);
        let p = Parser { nodes, prelude: Vec::new() };
        proof {
            assert(entries_view(Seq::<(String, usize)>::empty()) =~= Seq::<(Seq<char>, usize)>::empty());
            assert(names_view(Seq::<String>::empty()) =~= Seq::<Seq<char>>::empty());
            assert(p.tree() =~= seq![SNode { ty: empty_object(), parent: 0 }]);
            assert(p.predefined() =~= Seq::<(Seq<char>, usize)>::empty());
        }
        p
    }

    /// The node that `id` stands for once its links are followed.
    fn concrete_id(&self, id: usize) -> (c: usize)
        requires
            self.wf(),
            is_ref(self.tree(), id as int),
        ensures
            c == concrete(self.tree(), id),
            is_ref(self.tree(), c as int),
    {
        let ghost t = self.tree();
        let mut current = id;
        let mut steps: usize = 0;
        while steps < self.nodes.len()
            invariant
                self.wf(),
                t == self.tree(),
                0 <= steps <= t.len(),
                t.len() == self.nodes@.len(),
                is_ref(t, current as int),
                follow(t, id, t.len()) == follow(t, current, (t.len() - steps) as nat),
            decreases t.len() - steps,
        {
            proof {
                assert(refs_ok(t, t[current as int].ty));
            }
            match &self.nodes[current].ty {
                NodeType::Link(target) => {
                    current = *target;
                },
                _ => {
                    return current;
                },
            }
            steps = steps + 1;
        }
        current
    }

    /// How `id` is reached from the root.
    fn trace(&self, id: usize) -> (t: StackTrace)
        requires
            self.wf(),
            is_ref(self.tree(), id as int),
        ensures
            trace_view(t) == trace(self.tree(), id),
        decreases id,
    {
        let ghost tr = self.tree();
        if id == 0 || self.nodes[id].parent >= id {
            let empty: Vec<Selection> = Vec::new();
            proof {
                assert(trace_view(StackTrace(empty)) =~= Seq::<SSelection>::empty());
            }
            return StackTrace(empty);
        }
        let parent = self.nodes[id].parent;
        let StackTrace(mut stack) = self.trace(parent);
        let ghost before = trace_view(StackTrace(stack));
        match &self.nodes[parent].ty {
            NodeType::Object { children, .. } => {
                match find_key_of(children, id) {
                    Some(ident) => {
                        let ghost sel = selection_view(Selection::Ident(ident));
                        stack.push(Selection::Ident(ident));
                        proof {
                            assert(trace_view(StackTrace(stack)) =~= before + seq![sel]);
                        }
                    },
                    None => {
                        proof {
                            assert(trace_view(StackTrace(stack)) =~= before + Seq::<SSelection>::empty());
                        }
                    },
                }
            },
            NodeType::List(items) => {
                match find_index(items, id) {
                    Some(i) => {
                        let ghost sel = selection_view(Selection::Index(i));
                        stack.push(Selection::Index(i));
                        proof {
                            assert(trace_view(StackTrace(stack)) =~= before + seq![sel]);
                        }
                    },
                    None => {
                        proof {
                            assert(trace_view(StackTrace(stack)) =~= before + Seq::<SSelection>::empty());
                        }
                    },
                }
            },
            _ => {
                proof {
                    assert(trace_view(StackTrace(stack)) =~= before + Seq::<SSelection>::empty());
                }
            },
        }
        StackTrace(stack)
    }

    /// Gives node `id` the type `ty`.
    fn set_type(&mut self, id: usize, ty: NodeType)
        requires
            id < old(self).tree().len(),
        ensures
            final(self).tree() == old(self).tree().update(
                id as int,
                SNode { ty: type_view(ty), parent: old(self).tree()[id as int].parent },
            ),
            final(self).predefined() == old(self).predefined(),
    {
        let parent = self.nodes[id].parent;
        let ghost tv = type_view(ty);
        self.nodes.set(id, Node { ty, parent });
        proof {
            assert(self.tree() =~= old(self).tree().update(
                id as int,
                SNode { ty: tv, parent: old(self).tree()[id as int].parent },
            ));
        }
    }

    /// Turns the node that `id` stands for into an object if it is unknown; whether it is
    /// an object now.
    fn infer_object(&mut self, id: usize) -> (r: bool)
        requires
            old(self).wf(),
            is_ref(old(self).tree(), id as int),
        ensures
            final(self).wf(),
            (r, final(self).tree()) == infer_object(old(self).tree(), id),
            final(self).predefined() == old(self).predefined(),
            final(self).tree().len() == old(self).tree().len(),
    {
        let c = self.concrete_id(id);
        let unknown = match &self.nodes[c].ty {
            NodeType::Unknown => true,
            NodeType::Object { .. } => {
                return true;
            },
            _ => {
                return false;
            },
        };
        proof {
            lemma_leaf(self.tree(), c as int);
            assert(self.tree()[c as int].ty is Unknown);
            assert(c != 0);
            assert(refs_ok(self.tree(), empty_object()));
            lemma_retype(self.tree(), c as int, empty_object());
        }
        let empty = NodeType::Object { base: None, children: Vec::new(), arguments: Vec::new() };
        proof {
            assert(type_view(empty) =~= empty_object()) by {
                assert(entries_view(Seq::<(String, usize)>::empty()) =~= Seq::<(Seq<char>, usize)>::empty());
                assert(names_view(Seq::<String>::empty()) =~= Seq::<Seq<char>>::empty());
            }
        }
        let ghost before = self.tree();
        self.set_type(c, empty);
        proof {
            assert(self.tree().len() == before.len());
            assert forall|i: int| 0 <= i < self.predefined().len() implies #[trigger] is_ref(
                self.tree(),
                self.predefined()[i].1 as int,
            ) by {
                assert(is_ref(before, self.predefined()[i].1 as int));
            }
        }
        true
    }

    /// Makes `id` an object: an unknown node becomes an empty object, a link becomes an
    /// object based on what it linked to.
    fn make_object(&mut self, id: usize) -> (r: Result<(), Error>)
        requires
            old(self).wf(),
            is_ref(old(self).tree(), id as int),
        ensures
            final(self).wf(),
            outcome_agrees(r, make_object(old(self).tree(), id).0),
            final(self).tree() == make_object(old(self).tree(), id).1,
            final(self).predefined() == old(self).predefined(),
    {
        let ghost t0 = self.tree();
        let inferred = self.infer_object(id);
        proof {
            assert(self.tree().len() == t0.len());
            assert(self.nodes@.len() == self.tree().len());
        }
        if !inferred {
            return Err(Error::NotAnObject(self.trace(id)));
        }
        let upgrade = match &self.nodes[id].ty {
            NodeType::Link(base) => Some(*base),
            _ => None,
        };
        if let Some(base) = upgrade {
            let ghost before = self.tree();
            let ty = NodeType::Object { base: Some(base), children: Vec::new(), arguments: Vec::new() };
            proof {
                assert(type_view(ty) =~= SType::Object {
                    base: Some(base),
                    children: Seq::empty(),
                    arguments: Seq::empty(),
                }) by {
                    assert(entries_view(Seq::<(String, usize)>::empty()) =~= Seq::<(Seq<char>, usize)>::empty());
                    assert(names_view(Seq::<String>::empty()) =~= Seq::<Seq<char>>::empty());
                }
                lemma_leaf(before, id as int);
                assert(refs_ok(before, before[id as int].ty));
                lemma_retype(before, id as int, type_view(ty));
            }
            self.set_type(id, ty);
            proof {
                self.lemma_predefined_kept(before);
            }
        }
        Ok(())
    }

    proof fn lemma_predefined_kept(&self, before: Nodes)
        requires
            before.len() <= self.tree().len(),
            forall|i: int|
                0 <= i < self.predefined().len() ==> #[trigger] is_ref(
                    before,
                    self.predefined()[i].1 as int,
                ),
        ensures
            forall|i: int|
                0 <= i < self.predefined().len() ==> #[trigger] is_ref(
                    self.tree(),
                    self.predefined()[i].1 as int,
                ),
    {
        assert forall|i: int| 0 <= i < self.predefined().len() implies #[trigger] is_ref(
            self.tree(),
            self.predefined()[i].1 as int,
        ) by {
            assert(is_ref(before, self.predefined()[i].1 as int));
        }
    }

    /// The child `key` of the object `parent`, looked up in its bases too.
    fn find_child_id(&self, parent: usize, key: &str) -> (r: Option<usize>)
        requires
            self.wf(),
            is_ref(self.tree(), parent as int),
        ensures
            r == find_child_id(self.tree(), parent, key@),
            r matches Some(c) ==> is_ref(self.tree(), c as int),
    {
        let ghost t = self.tree();
        let mut node = parent;
        let mut fuel: usize = self.nodes.len();
        loop
            invariant
                self.wf(),
                t == self.tree(),
                fuel <= t.len(),
                is_ref(t, node as int),
                find_child_id(t, parent, key@) == find_child(t, node, key@, fuel as nat),
            decreases fuel,
        {
            if fuel == 0 {
                return None;
            }
            proof {
                assert(refs_ok(t, t[node as int].ty));
            }
            match &self.nodes[node].ty {
                NodeType::Object { base, children, .. } => {
                    if let Some(child) = find_key(children, key) {
                        proof {
                            lemma_lookup_in(entries_view(children@), key@);
                        }
                        return Some(child);
                    } else if let Some(b) = base {
                        node = *b;
                    } else {
                        return None;
                    }
                },
                NodeType::Link(b) => {
                    node = *b;
                },
                _ => {
                    return None;
                },
            }
            fuel = fuel - 1;
        }
    }

    /// The argument names of the object that `id` stands for.
    fn cloned_arguments(&self, id: usize) -> (r: Option<Vec<String>>)
        requires
            self.wf(),
            is_ref(self.tree(), id as int),
        ensures
            r matches Some(a) ==> cloned_arguments(self.tree(), id) == Some(names_view(a@)),
            r is None ==> cloned_arguments(self.tree(), id) is None,
    {
        let ghost t = self.tree();
        let mut node = self.concrete_id(id);
        let mut fuel: usize = self.nodes.len();
        loop
            invariant
                self.wf(),
                t == self.tree(),
                fuel <= t.len(),
                is_ref(t, node as int),
                cloned_arguments(t, id) == arguments_from(t, node, fuel as nat),
            decreases fuel,
        {
            if fuel == 0 {
                return None;
            }
            proof {
                assert(refs_ok(t, t[node as int].ty));
            }
            match &self.nodes[node].ty {
                NodeType::Object { arguments, base, .. } => {
                    if arguments.len() > 0 {
                        return Some(clone_names(arguments));
                    } else if let Some(b) = base {
                        node = *b;
                    } else {
                        let none: Vec<String> = Vec::new();
                        proof {
                            assert(names_view(none@) =~= Seq::<Seq<char>>::empty());
                        }
                        return Some(none);
                    }
                },
                NodeType::Link(b) => {
                    node = *b;
                },
                _ => {
                    return None;
                },
            }
            fuel = fuel - 1;
        }
    }

    /// Whether following links and bases from `link_id` reaches `target_id`.
    fn links_to(&self, link_id: usize, target_id: usize) -> (r: bool)
        requires
            self.wf(),
            is_ref(self.tree(), link_id as int),
        ensures
            r == links_to(self.tree(), link_id, target_id),
    {
        let ghost t = self.tree();
        let mut current = link_id;
        let mut fuel: usize = self.nodes.len();
        while current != target_id
            invariant
                self.wf(),
                t == self.tree(),
                fuel <= t.len(),
                is_ref(t, current as int),
                links_to(t, link_id, target_id) == reaches(t, current, target_id, fuel as nat),
            decreases fuel,
        {
            if fuel == 0 {
                return false;
            }
            proof {
                assert(refs_ok(t, t[current as int].ty));
            }
            current = match &self.nodes[current].ty {
                NodeType::Object { base: Some(b), .. } => *b,
                NodeType::Link(b) => *b,
                _ => {
                    return false;
                },
            };
            fuel = fuel - 1;
        }
        true
    }

    /// Adds `ty` under `key` of the object `obj`. An existing child under that key may only
    /// be unknown, and may not be given a base or a link that leads back to it.
    fn add_child(&mut self, obj: usize, key: String, ty: NodeType) -> (r: Result<usize, Error>)
        requires
            old(self).wf(),
            is_ref(old(self).tree(), obj as int),
            old(self).tree()[obj as int].ty is Object,
            refs_ok(old(self).tree(), type_view(ty)),
            fresh(type_view(ty)),
            old(self).tree().len() + 1 < usize::MAX,
        ensures
            final(self).wf(),
            outcome_agrees(r, add_child(old(self).tree(), obj, key@, type_view(ty)).0),
            final(self).tree() == add_child(old(self).tree(), obj, key@, type_view(ty)).1,
            final(self).predefined() == old(self).predefined(),
            grows(old(self).tree(), final(self).tree()),
            final(self).tree().len() <= old(self).tree().len() + 1,
            r matches Ok(id) ==> is_ref(final(self).tree(), id as int) && final(self).tree()[id as int].ty
                == type_view(ty),
    {
        let ghost t0 = self.tree();
        let ghost tv = type_view(ty);
        let current = match &self.nodes[obj].ty {
            NodeType::Object { children, .. } => {
                let c = find_key(children, key.as_str());
                proof {
                    let es = entries_view(children@);
                    lemma_lookup_in(es, key@);
                    assert(t0[obj as int] == node_view(self.nodes@[obj as int]));
                    assert(t0[obj as int].ty matches SType::Object { children: ch, .. } && ch == es);
                    assert(refs_ok(t0, t0[obj as int].ty));
                    if let Some(cid) = c {
                        let i = choose|i: int| 0 <= i < es.len() && #[trigger] es[i].1 == cid;
                        assert(is_ref(t0, es[i].1 as int));
                    }
                }
                c
            },
            _ => None,
        };
        if let Some(id) = current {
            let circular = match &ty {
                NodeType::Object { base: Some(b), .. } => self.links_to(*b, id),
                NodeType::Link(b) => self.links_to(*b, id),
                _ => false,
            };
            if circular {
                return Err(Error::CircularReference(self.trace(id)));
            }
            if let NodeType::Unknown = self.nodes[id].ty {
                proof {
                    lemma_leaf(t0, id as int);
                    assert(id != 0);
                    lemma_retype(t0, id as int, tv);
                }
                self.set_type(id, ty);
                proof {
                    self.lemma_predefined_kept(t0);
                }
                Ok(id)
            } else {
                Err(Error::Reassign(self.trace(id)))
            }
        } else {
            let id = self.nodes.len();
            self.nodes.push(Node { ty, parent: obj });
            let ghost t1 = self.tree();
            proof {
                assert(t1 =~= t0.push(SNode { ty: tv, parent: obj }));
            }
            let mut parent_ty = NodeType::Unknown;
            std::mem::swap(&mut self.nodes[obj].ty, &mut parent_ty);
            let ghost old_parent = type_view(parent_ty);
            let ghost k = key@;
            let mut new_ty = match parent_ty {
                NodeType::Object { base, mut children, arguments } => {
                    let ghost before = children@;
                    children.push((key, id));
                    proof {
                        assert(entries_view(children@) =~= entries_view(before).push((k, id)));
                    }
                    NodeType::Object { base, children, arguments }
                },
                other => other,
            };
            let ghost new_parent = type_view(new_ty);
            std::mem::swap(&mut self.nodes[obj].ty, &mut new_ty);
            proof {
                assert(self.tree() =~= t1.update(obj as int, SNode { ty: new_parent, ..t1[obj as int] }));
                lemma_add_new_child(t0, obj, key@, tv);
                self.lemma_predefined_kept(t0);
            }
            Ok(id)
        }
    }

    /// The object at the first `end` names of `path` below the object `obj`, made where
    /// missing.
    fn object(&mut self, obj: usize, path: &Vec<String>, end: usize) -> (r: Result<usize, Error>)
        requires
            old(self).wf(),
            is_ref(old(self).tree(), obj as int),
            old(self).tree()[obj as int].ty is Object,
            end <= path@.len(),
            old(self).tree().len() + end + 1 < usize::MAX,
        ensures
            final(self).wf(),
            outcome_agrees(r, object(old(self).tree(), obj, names_view(path@).subrange(0, end as int)).0),
            final(self).tree() == object(old(self).tree(), obj, names_view(path@).subrange(0, end as int)).1,
            final(self).predefined() == old(self).predefined(),
            grows(old(self).tree(), final(self).tree()),
            final(self).tree().len() <= old(self).tree().len() + end,
            r matches Ok(o) ==> is_ref(final(self).tree(), o as int) && final(self).tree()[o as int].ty is Object,
    {
        let ghost t0 = self.tree();
        let ghost p0 = self.predefined();
        let ghost sub = names_view(path@).subrange(0, end as int);
        let mut cur = obj;
        let mut i: usize = 0;
        while i < end
            invariant
                self.wf(),
                t0 == old(self).tree(),
                p0 == old(self).predefined(),
                self.predefined() == p0,
                end <= path@.len(),
                sub == names_view(path@).subrange(0, end as int),
                0 <= i <= end,
                t0.len() + end + 1 < usize::MAX,
                self.tree().len() <= t0.len() + i,
                self.nodes@.len() == self.tree().len(),
                grows(t0, self.tree()),
                is_ref(self.tree(), cur as int),
                self.tree()[cur as int].ty is Object || self.tree()[cur as int].ty is Link,
                object(t0, obj, sub) == object_walk(self.tree(), cur, sub, i as int),
            decreases end - i,
        {
            let ghost t = self.tree();
            let ident = &path[i];
            proof {
                assert(sub[i as int] == ident@);
                assert(refs_ok(t, t[cur as int].ty));
                assert(t[cur as int] == node_view(self.nodes@[cur as int]));
            }
            let action = match &self.nodes[cur].ty {
                NodeType::Object { base, children, .. } => {
                    match find_key(children, ident.as_str()) {
                        Some(c) => {
                            proof {
                                let es = entries_view(children@);
                                lemma_lookup_in(es, ident@);
                                let k = choose|k: int| 0 <= k < es.len() && #[trigger] es[k].1 == c;
                                assert(is_ref(t, es[k].1 as int));
                            }
                            Action::Continue(c)
                        },
                        None => match base {
                            Some(b) => Action::Create(self.find_child_id(*b, ident.as_str())),
                            None => Action::Create(None),
                        },
                    }
                },
                NodeType::Link(b) => Action::Upgrade(*b),
                _ => {
                    return Err(Error::NotAnObject(self.trace(cur)));
                },
            };
            match action {
                Action::Continue(c) => {
                    proof {
                        lemma_infer_shape(t, c);
                    }
                    if !self.infer_object(c) {
                        return Err(Error::NotAnObject(self.trace(c)));
                    }
                    proof {
                        lemma_grows_trans(t0, t, self.tree());
                    }
                    cur = c;
                },
                Action::Create(b) => {
                    if let Some(bb) = b {
                        proof {
                            lemma_infer_shape(t, bb);
                        }
                        if !self.infer_object(bb) {
                            return Err(Error::NotAnObject(self.trace(bb)));
                        }
                    }
                    let ghost t1 = self.tree();
                    let ty = NodeType::Object { base: b, children: Vec::new(), arguments: Vec::new() };
                    proof {
                        assert(type_view(ty) =~= SType::Object { base: b, children: Seq::empty(), arguments: Seq::empty() }) by {
                            assert(entries_view(Seq::<(String, usize)>::empty()) =~= Seq::<(Seq<char>, usize)>::empty());
                            assert(names_view(Seq::<String>::empty()) =~= Seq::<Seq<char>>::empty());
                        }
                        assert(grows(t, t1));
                        assert(t[cur as int].ty is Object);
                    }
                    match self.add_child(cur, ident.clone(), ty) {
                        Err(e) => {
                            return Err(e);
                        },
                        Ok(c) => {
                            proof {
                                lemma_grows_trans(t, t1, self.tree());
                                lemma_grows_trans(t0, t, self.tree());
                            }
                            cur = c;
                        },
                    }
                },
                Action::Upgrade(bb) => {
                    proof {
                        lemma_infer_shape(t, bb);
                    }
                    if !self.infer_object(bb) {
                        return Err(Error::NotAnObject(self.trace(bb)));
                    }
                    let ghost t1 = self.tree();
                    let up = NodeType::Object { base: Some(bb), children: Vec::new(), arguments: Vec::new() };
                    proof {
                        assert(type_view(up) =~= SType::Object { base: Some(bb), children: Seq::empty(), arguments: Seq::empty() }) by {
                            assert(entries_view(Seq::<(String, usize)>::empty()) =~= Seq::<(Seq<char>, usize)>::empty());
                            assert(names_view(Seq::<String>::empty()) =~= Seq::<Seq<char>>::empty());
                        }
                        assert(t1[cur as int] == t[cur as int]) by {
                            lemma_follow(t, bb, t.len());
                        }
                        lemma_leaf(t1, cur as int);
                        lemma_retype(t1, cur as int, type_view(up));
                    }
                    self.set_type(cur, up);
                    let ghost t2 = self.tree();
                    proof {
                        self.lemma_predefined_kept(t1);
                        assert(grows(t1, t2));
                    }
                    let child_base = self.find_child_id(bb, ident.as_str());
                    let ty = NodeType::Object { base: child_base, children: Vec::new(), arguments: Vec::new() };
                    proof {
                        assert(type_view(ty) =~= SType::Object { base: child_base, children: Seq::empty(), arguments: Seq::empty() }) by {
                            assert(entries_view(Seq::<(String, usize)>::empty()) =~= Seq::<(Seq<char>, usize)>::empty());
                            assert(names_view(Seq::<String>::empty()) =~= Seq::<Seq<char>>::empty());
                        }
                    }
                    match self.add_child(cur, ident.clone(), ty) {
                        Err(e) => {
                            return Err(e);
                        },
                        Ok(c) => {
                            proof {
                                lemma_grows_trans(t1, t2, self.tree());
                                lemma_grows_trans(t, t1, self.tree());
                                lemma_grows_trans(t0, t, self.tree());
                            }
                            cur = c;
                        },
                    }
                },
            }
            i = i + 1;
        }
        let ghost t = self.tree();
        proof {
            lemma_make_object_shape(t, cur);
        }
        match self.make_object(cur) {
            Err(e) => Err(e),
            Ok(()) => {
                proof {
                    lemma_grows_trans(t0, t, self.tree());
                }
                Ok(cur)
            },
        }
    }

    /// The object that holds the last name of `path`, below the object `obj`.
    fn holder(&mut self, obj: usize, path: &Vec<String>) -> (r: Result<usize, Error>)
        requires
            old(self).wf(),
            is_ref(old(self).tree(), obj as int),
            old(self).tree()[obj as int].ty is Object,
            path@.len() > 0,
            old(self).tree().len() + path@.len() < usize::MAX,
        ensures
            final(self).wf(),
            outcome_agrees(r, holder(old(self).tree(), obj, names_view(path@)).0),
            final(self).tree() == holder(old(self).tree(), obj, names_view(path@)).1,
            final(self).predefined() == old(self).predefined(),
            grows(old(self).tree(), final(self).tree()),
            final(self).tree().len() < old(self).tree().len() + path@.len(),
            r matches Ok(h) ==> is_ref(final(self).tree(), h as int) && final(self).tree()[h as int].ty is Object,
    {
        if path.len() > 1 {
            self.object(obj, path, path.len() - 1)
        } else {
            Ok(obj)
        }
    }

    /// Puts a node of type `ty` at `path` below the object `obj`.
    fn put(&mut self, obj: usize, path: &Vec<String>, ty: NodeType) -> (r: Result<usize, Error>)
        requires
            old(self).wf(),
            is_ref(old(self).tree(), obj as int),
            old(self).tree()[obj as int].ty is Object,
            path@.len() > 0,
            old(self).tree().len() + path@.len() + 1 < usize::MAX,
            refs_ok(old(self).tree(), type_view(ty)),
            fresh(type_view(ty)),
        ensures
            final(self).wf(),
            outcome_agrees(r, put(old(self).tree(), obj, names_view(path@), type_view(ty)).0),
            final(self).tree() == put(old(self).tree(), obj, names_view(path@), type_view(ty)).1,
            final(self).predefined() == old(self).predefined(),
            grows(old(self).tree(), final(self).tree()),
            final(self).tree().len() <= old(self).tree().len() + path@.len(),
            r matches Ok(id) ==> is_ref(final(self).tree(), id as int) && final(self).tree()[id as int].ty
                == type_view(ty),
    {
        let ghost t0 = self.tree();
        let h = match self.holder(obj, path) {
            Err(e) => {
                return Err(e);
            },
            Ok(h) => h,
        };
        let ghost t1 = self.tree();
        proof {
            lemma_refs_same_len(t0, t1, type_view(ty));
        }
        let key = path[path.len() - 1].clone();
        let r = self.add_child(h, key, ty);
        proof {
            lemma_grows_trans(t0, t1, self.tree());
        }
        r
    }

    /// A predefined node named by `path`.
    fn find_in_prelude(&self, path: &Vec<String>) -> (r: Option<usize>)
        requires
            self.wf(),
        ensures
            r == find_in_prelude(self.tree(), self.predefined(), names_view(path@)),
            r matches Some(id) ==> is_ref(self.tree(), id as int),
    {
        let ghost t = self.tree();
        let ghost pv = names_view(path@);
        if path.len() == 0 {
            return None;
        }
        let mut current = find_key(&self.prelude, path[0].as_str());
        proof {
            let es = entries_view(self.prelude@);
            lemma_lookup_in(es, path@[0]@);
            if let Some(c) = current {
                let k = choose|k: int| 0 <= k < es.len() && #[trigger] es[k].1 == c;
                assert(is_ref(t, self.predefined()[k].1 as int));
            }
        }
        let mut i: usize = 1;
        loop
            invariant
                self.wf(),
                t == self.tree(),
                pv == names_view(path@),
                1 <= i <= path@.len(),
                find_in_prelude(t, self.predefined(), pv) == prelude_walk(t, current, pv, i as int),
                current matches Some(id) ==> is_ref(t, id as int),
            decreases path@.len() - i,
        {
            match current {
                None => {
                    return None;
                },
                Some(id) => {
                    if i >= path.len() {
                        return current;
                    }
                    proof {
                        assert(refs_ok(t, t[id as int].ty));
                    }
                    match &self.nodes[id].ty {
                        NodeType::Object { children, .. } => {
                            current = find_key(children, path[i].as_str());
                            proof {
                                let es = entries_view(children@);
                                lemma_lookup_in(es, path@[i as int]@);
                                if let Some(c) = current {
                                    let k = choose|k: int| 0 <= k < es.len() && #[trigger] es[k].1 == c;
                                    assert(is_ref(t, es[k].1 as int));
                                }
                            }
                        },
                        _ => {
                            return None;
                        },
                    }
                },
            }
            i = i + 1;
        }
    }

    /// The node that `path` names below the object `obj`, or in the prelude; a missing last
    /// name is added as an unknown node.
    fn id_of(&mut self, obj: usize, path: &Vec<String>) -> (r: Result<usize, Error>)
        requires
            old(self).wf(),
            is_ref(old(self).tree(), obj as int),
            old(self).tree()[obj as int].ty is Object,
            path@.len() > 0,
            old(self).tree().len() + path@.len() + 1 < usize::MAX,
        ensures
            final(self).wf(),
            outcome_agrees(r, id_of(old(self).tree(), old(self).predefined(), obj, names_view(path@)).0),
            final(self).tree() == id_of(old(self).tree(), old(self).predefined(), obj, names_view(path@)).1,
            final(self).predefined() == old(self).predefined(),
            grows(old(self).tree(), final(self).tree()),
            final(self).tree().len() <= old(self).tree().len() + path@.len(),
            r matches Ok(id) ==> is_ref(final(self).tree(), id as int),
    {
        let ghost t0 = self.tree();
        if let Some(id) = self.find_in_prelude(path) {
            return Ok(id);
        }
        let h = match self.holder(obj, path) {
            Err(e) => {
                return Err(e);
            },
            Ok(h) => h,
        };
        let ghost t1 = self.tree();
        let key = &path[path.len() - 1];
        proof {
            assert(refs_ok(t1, t1[h as int].ty));
            assert(t1[h as int] == node_view(self.nodes@[h as int]));
        }
        let current = match &self.nodes[h].ty {
            NodeType::Object { children, .. } => {
                let c = find_key(children, key.as_str());
                proof {
                    let es = entries_view(children@);
                    lemma_lookup_in(es, key@);
                    if let Some(c) = c {
                        let k = choose|k: int| 0 <= k < es.len() && #[trigger] es[k].1 == c;
                        assert(is_ref(t1, es[k].1 as int));
                    }
                }
                c
            },
            _ => {
                return Err(Error::NotAnObject(self.trace(h)));
            },
        };
        match current {
            Some(id) => Ok(id),
            None => {
                let r = self.add_child(h, key.clone(), NodeType::Unknown);
                proof {
                    lemma_grows_trans(t0, t1, self.tree());
                }
                r
            },
        }
    }

    /// Makes `base_id` the base of the object `obj`, if it stands for an object.
    fn set_base(&mut self, obj: usize, base_id: usize) -> (r: Result<(), Error>)
        requires
            old(self).wf(),
            is_ref(old(self).tree(), obj as int),
            old(self).tree()[obj as int].ty is Object,
            is_ref(old(self).tree(), base_id as int),
        ensures
            final(self).wf(),
            outcome_agrees(r, set_base(old(self).tree(), obj, base_id).0),
            final(self).tree() == set_base(old(self).tree(), obj, base_id).1,
            final(self).predefined() == old(self).predefined(),
            grows(old(self).tree(), final(self).tree()),
            final(self).tree().len() == old(self).tree().len(),
            final(self).tree()[obj as int].ty is Object,
    {
        let ghost t0 = self.tree();
        proof {
            lemma_infer_shape(t0, base_id);
        }
        if !self.infer_object(base_id) {
            return Err(Error::NotAnObject(self.trace(base_id)));
        }
        let ghost t1 = self.tree();
        let mut old_ty = NodeType::Unknown;
        std::mem::swap(&mut self.nodes[obj].ty, &mut old_ty);
        let ghost before = type_view(old_ty);
        let mut new_ty = match old_ty {
            NodeType::Object { children, arguments, .. } => NodeType::Object { base: Some(base_id), children, arguments },
            other => other,
        };
        let ghost after = type_view(new_ty);
        proof {
            assert(t1[obj as int].ty == before);
            assert(refs_ok(t1, before));
            assert(refs_ok(t1, after));
            lemma_retype(t1, obj as int, after);
        }
        std::mem::swap(&mut self.nodes[obj].ty, &mut new_ty);
        proof {
            assert(self.tree() =~= t1.update(obj as int, SNode { ty: after, ..t1[obj as int] }));
            self.lemma_predefined_kept(t1);
            assert(grows(t1, self.tree()));
            lemma_grows_trans(t0, t1, self.tree());
        }
        Ok(())
    }

    /// Assigns `v` to `path` below the object `obj`; global paths start at `root`.
    #[verifier::rlimit(80)]
    #[verifier::spinoff_prover]
    fn assign(&mut self, obj: usize, root: usize, path: &Vec<String>, v: syntax::Value) -> (r: Result<(), Error>)
        requires
            old(self).wf(),
            is_ref(old(self).tree(), obj as int),
            old(self).tree()[obj as int].ty is Object,
            is_ref(old(self).tree(), root as int),
            old(self).tree()[root as int].ty is Object,
            path@.len() > 0,
            paths_ok(value_view(v)),
            old(self).tree().len() + path@.len() + cost(value_view(v)) + 1 < usize::MAX,
        ensures
            final(self).wf(),
            outcome_agrees(
                r,
                assign(old(self).tree(), old(self).predefined(), obj, root, names_view(path@), value_view(v)).0,
            ),
            final(self).tree() == assign(
                old(self).tree(),
                old(self).predefined(),
                obj,
                root,
                names_view(path@),
                value_view(v),
            ).1,
            final(self).predefined() == old(self).predefined(),
            grows(old(self).tree(), final(self).tree()),
            final(self).tree().len() <= old(self).tree().len() + path@.len() + cost(value_view(v)),
        decreases v,
    {
        let ghost t0 = self.tree();
        proof {
            assert(names_view(path@).subrange(0, path@.len() as int) =~= names_view(path@));
        }
        match v {
            syntax::Value::Object(syntax::Object::New(values)) => {
                let o = match self.object(obj, path, path.len()) {
                    Err(e) => {
                        return Err(e);
                    },
                    Ok(o) => o,
                };
                let ghost t1 = self.tree();
                let r = self.assign_all(o, root, values);
                proof {
                    lemma_grows_trans(t0, t1, self.tree());
                }
                r
            },
            syntax::Value::Object(syntax::Object::Extension(base, Some(changes))) => {
                let start = if base.path_type == PathType::Local {
                    obj
                } else {
                    root
                };
                let b = match self.id_of(start, &base.path) {
                    Err(e) => {
                        return Err(e);
                    },
                    Ok(b) => b,
                };
                let ghost t1 = self.tree();
                let o = match self.object(obj, path, path.len()) {
                    Err(e) => {
                        proof {
                            lemma_grows_trans(t0, t1, self.tree());
                        }
                        return Err(e);
                    },
                    Ok(o) => o,
                };
                let ghost t2 = self.tree();
                proof {
                    lemma_grows_trans(t0, t1, t2);
                }
                match self.set_base(o, b) {
                    Err(e) => {
                        proof {
                            lemma_grows_trans(t0, t2, self.tree());
                        }
                        return Err(e);
                    },
                    Ok(()) => {},
                }
                let ghost t3 = self.tree();
                proof {
                    lemma_grows_trans(t0, t2, t3);
                }
                let r = self.extend(o, root, changes);
                proof {
                    lemma_grows_trans(t0, t3, self.tree());
                }
                r
            },
            syntax::Value::Object(syntax::Object::Extension(base, None)) => {
                let start = if base.path_type == PathType::Local {
                    obj
                } else {
                    root
                };
                let b = match self.id_of(start, &base.path) {
                    Err(e) => {
                        return Err(e);
                    },
                    Ok(b) => b,
                };
                let ghost t1 = self.tree();
                let r = self.put(obj, path, NodeType::Link(b));
                proof {
                    lemma_grows_trans(t0, t1, self.tree());
                }
                match r {
                    Err(e) => Err(e),
                    Ok(_) => Ok(()),
                }
            },
            syntax::Value::Number(n) => {
                match self.put(obj, path, NodeType::Value(Value::Number(n))) {
                    Err(e) => Err(e),
                    Ok(_) => Ok(()),
                }
            },
            syntax::Value::String(s) => {
                match self.put(obj, path, NodeType::Value(Value::String(s))) {
                    Err(e) => Err(e),
                    Ok(_) => Ok(()),
                }
            },
            syntax::Value::List(values) => {
                let list = NodeType::List(Vec::new());
                proof {
                    assert(type_view(list) =~= SType::List(Seq::empty()));
                }
                let l = match self.put(obj, path, list) {
                    Err(e) => {
                        return Err(e);
                    },
                    Ok(l) => l,
                };
                let ghost t1 = self.tree();
                let r = self.insert_all(l, root, values);
                proof {
                    lemma_grows_trans(t0, t1, self.tree());
                }
                r
            },
        }
    }

    /// Applies the changes of an extension to the object `o`: assignments, or values for
    /// its arguments in order.
    fn extend(&mut self, o: usize, root: usize, changes: syntax::ExtensionChanges) -> (r: Result<(), Error>)
        requires
            old(self).wf(),
            is_ref(old(self).tree(), o as int),
            old(self).tree()[o as int].ty is Object,
            is_ref(old(self).tree(), root as int),
            old(self).tree()[root as int].ty is Object,
            changes_ok(changes_view(changes)),
            old(self).tree().len() + changes_cost(changes_view(changes)) + 1 < usize::MAX,
        ensures
            final(self).wf(),
            outcome_agrees(r, extend(old(self).tree(), old(self).predefined(), o, root, changes_view(changes)).0),
            final(self).tree() == extend(old(self).tree(), old(self).predefined(), o, root, changes_view(changes)).1,
            final(self).predefined() == old(self).predefined(),
            grows(old(self).tree(), final(self).tree()),
            final(self).tree().len() <= old(self).tree().len() + changes_cost(changes_view(changes)),
        decreases changes,
    {
        match changes {
            syntax::ExtensionChanges::BlockStyle(values) => self.assign_all(o, root, values),
            syntax::ExtensionChanges::FunctionStyle(values) => {
                match self.cloned_arguments(o) {
                    Some(args) => {
                        proof {
                            lemma_values_view(values@);
                        }
                        if args.len() < values.len() {
                            Err(Error::TooManyArguments(self.trace(o), args.len()))
                        } else {
                            self.assign_args(o, root, args, values)
                        }
                    },
                    None => Ok(()),
                }
            },
        }
    }

    /// Assigns each value of `values` to the object `o`.
    fn assign_all(&mut self, o: usize, root: usize, values: Vec<(syntax::Path, syntax::Value)>) -> (r: Result<(), Error>)
        requires
            old(self).wf(),
            is_ref(old(self).tree(), o as int),
            old(self).tree()[o as int].ty is Object,
            is_ref(old(self).tree(), root as int),
            old(self).tree()[root as int].ty is Object,
            pairs_ok(pairs_view(values@)),
            old(self).tree().len() + pairs_cost(pairs_view(values@)) + 1 < usize::MAX,
        ensures
            final(self).wf(),
            outcome_agrees(r, assign_all(old(self).tree(), old(self).predefined(), o, root, pairs_view(values@)).0),
            final(self).tree() == assign_all(old(self).tree(), old(self).predefined(), o, root, pairs_view(values@)).1,
            final(self).predefined() == old(self).predefined(),
            grows(old(self).tree(), final(self).tree()),
            final(self).tree().len() <= old(self).tree().len() + pairs_cost(pairs_view(values@)),
        decreases values@,
    {
        let ghost t0 = self.tree();
        let ghost vs = values@;
        proof {
            lemma_pairs_view(vs);
        }
        if values.len() == 0 {
            return Ok(());
        }
        let mut values = values;
        let (p, v) = values.remove(0);
        proof {
            lemma_pairs_view_rest(vs);
            assert(values@ == vs.subrange(1, vs.len() as int));
            assert(decreases_to!(vs => vs.subrange(1, vs.len() as int)));
        }
        match self.assign(o, root, &p.path, v) {
            Err(e) => Err(e),
            Ok(()) => {
                let ghost t1 = self.tree();
                let r = self.assign_all(o, root, values);
                proof {
                    lemma_grows_trans(t0, t1, self.tree());
                }
                r
            },
        }
    }

    /// Assigns the values to the arguments of the object `o`, in order.
    fn assign_args(&mut self, o: usize, root: usize, args: Vec<String>, values: Vec<syntax::Value>) -> (r: Result<(), Error>)
        requires
            old(self).wf(),
            is_ref(old(self).tree(), o as int),
            old(self).tree()[o as int].ty is Object,
            is_ref(old(self).tree(), root as int),
            old(self).tree()[root as int].ty is Object,
            values_ok(values_view(values@)),
            old(self).tree().len() + values_cost(values_view(values@)) + 1 < usize::MAX,
        ensures
            final(self).wf(),
            outcome_agrees(
                r,
                assign_args(old(self).tree(), old(self).predefined(), o, root, names_view(args@), values_view(values@)).0,
            ),
            final(self).tree() == assign_args(
                old(self).tree(),
                old(self).predefined(),
                o,
                root,
                names_view(args@),
                values_view(values@),
            ).1,
            final(self).predefined() == old(self).predefined(),
            grows(old(self).tree(), final(self).tree()),
            final(self).tree().len() <= old(self).tree().len() + values_cost(values_view(values@)),
        decreases values@,
    {
        let ghost t0 = self.tree();
        let ghost vs = values@;
        let ghost names = args@;
        proof {
            lemma_values_view(vs);
        }
        if values.len() == 0 || args.len() == 0 {
            return Ok(());
        }
        let mut values = values;
        let mut args = args;
        let field = args.remove(0);
        let value = values.remove(0);
        let path = vec![field];
        proof {
            lemma_values_view_rest(vs);
            assert(values@ == vs.subrange(1, vs.len() as int));
            assert(decreases_to!(vs => vs.subrange(1, vs.len() as int)));
            assert(names_view(path@) =~= seq![names_view(names)[0]]);
            assert(names_view(args@) =~= names_view(names).subrange(1, names.len() as int));
        }
        match self.assign(o, root, &path, value) {
            Err(e) => Err(e),
            Ok(()) => {
                let ghost t1 = self.tree();
                let r = self.assign_args(o, root, args, values);
                proof {
                    lemma_grows_trans(t0, t1, self.tree());
                }
                r
            },
        }
    }

    /// Adds `v` as the last item of the list `list`; paths in it must be global.
    fn insert(&mut self, list: usize, root: usize, v: syntax::Value) -> (r: Result<(), Error>)
        requires
            old(self).wf(),
            is_ref(old(self).tree(), list as int),
            old(self).tree()[list as int].ty is List,
            is_ref(old(self).tree(), root as int),
            old(self).tree()[root as int].ty is Object,
            paths_ok(value_view(v)),
            old(self).tree().len() + cost(value_view(v)) + 2 < usize::MAX,
        ensures
            final(self).wf(),
            outcome_agrees(r, insert(old(self).tree(), old(self).predefined(), list, root, value_view(v)).0),
            final(self).tree() == insert(old(self).tree(), old(self).predefined(), list, root, value_view(v)).1,
            final(self).predefined() == old(self).predefined(),
            grows(old(self).tree(), final(self).tree()),
            final(self).tree().len() <= old(self).tree().len() + 1 + cost(value_view(v)),
        decreases v,
    {
        let ghost t0 = self.tree();
        match v {
            syntax::Value::Object(syntax::Object::New(values)) => {
                let o = self.add_item(list, new_object());
                let ghost t1 = self.tree();
                let r = self.assign_all(o, root, values);
                proof {
                    lemma_grows_trans(t0, t1, self.tree());
                }
                r
            },
            syntax::Value::Object(syntax::Object::Extension(base, Some(changes))) => {
                if base.path_type == PathType::Local {
                    return Err(Error::LocalPathInList(self.trace(list), base.path));
                }
                let b = match self.id_of(root, &base.path) {
                    Err(e) => {
                        return Err(e);
                    },
                    Ok(b) => b,
                };
                let ghost t1 = self.tree();
                let o = self.add_item(list, new_object());
                let ghost t2 = self.tree();
                proof {
                    lemma_grows_trans(t0, t1, t2);
                }
                match self.set_base(o, b) {
                    Err(e) => {
                        proof {
                            lemma_grows_trans(t0, t2, self.tree());
                        }
                        return Err(e);
                    },
                    Ok(()) => {},
                }
                let ghost t3 = self.tree();
                proof {
                    lemma_grows_trans(t0, t2, t3);
                }
                let r = self.extend(o, root, changes);
                proof {
                    lemma_grows_trans(t0, t3, self.tree());
                }
                r
            },
            syntax::Value::Object(syntax::Object::Extension(base, None)) => {
                if base.path_type == PathType::Local {
                    return Err(Error::LocalPathInList(self.trace(list), base.path));
                }
                let b = match self.id_of(root, &base.path) {
                    Err(e) => {
                        return Err(e);
                    },
                    Ok(b) => b,
                };
                let ghost t1 = self.tree();
                self.add_item(list, NodeType::Link(b));
                proof {
                    lemma_grows_trans(t0, t1, self.tree());
                }
                Ok(())
            },
            syntax::Value::Number(n) => {
                self.add_item(list, NodeType::Value(Value::Number(n)));
                Ok(())
            },
            syntax::Value::String(s) => {
                self.add_item(list, NodeType::Value(Value::String(s)));
                Ok(())
            },
            syntax::Value::List(values) => {
                let inner = NodeType::List(Vec::new());
                proof {
                    assert(type_view(inner) =~= SType::List(Seq::empty()));
                }
                let l = self.add_item(list, inner);
                let ghost t1 = self.tree();
                let r = self.insert_all(l, root, values);
                proof {
                    lemma_grows_trans(t0, t1, self.tree());
                }
                r
            },
        }
    }

    /// Adds each value of `values` to the list `list`, in order.
    fn insert_all(&mut self, list: usize, root: usize, values: Vec<syntax::Value>) -> (r: Result<(), Error>)
        requires
            old(self).wf(),
            is_ref(old(self).tree(), list as int),
            old(self).tree()[list as int].ty is List,
            is_ref(old(self).tree(), root as int),
            old(self).tree()[root as int].ty is Object,
            values_ok(values_view(values@)),
            old(self).tree().len() + values_cost(values_view(values@)) + 1 < usize::MAX,
        ensures
            final(self).wf(),
            outcome_agrees(r, insert_all(old(self).tree(), old(self).predefined(), list, root, values_view(values@)).0),
            final(self).tree() == insert_all(old(self).tree(), old(self).predefined(), list, root, values_view(values@)).1,
            final(self).predefined() == old(self).predefined(),
            grows(old(self).tree(), final(self).tree()),
            final(self).tree().len() <= old(self).tree().len() + values_cost(values_view(values@)),
        decreases values@,
    {
        let ghost t0 = self.tree();
        let ghost vs = values@;
        proof {
            lemma_values_view(vs);
        }
        if values.len() == 0 {
            return Ok(());
        }
        let mut values = values;
        let v = values.remove(0);
        proof {
            lemma_values_view_rest(vs);
            assert(values@ == vs.subrange(1, vs.len() as int));
            assert(decreases_to!(vs => vs.subrange(1, vs.len() as int)));
        }
        match self.insert(list, root, v) {
            Err(e) => Err(e),
            Ok(()) => {
                let ghost t1 = self.tree();
                let r = self.insert_all(list, root, values);
                proof {
                    lemma_grows_trans(t0, t1, self.tree());
                }
                r
            },
        }
    }

    /// The nodes of the tree, the root first.
    pub fn nodes(&self) -> (r: &Vec<Node>)
        ensures
            r@.map_values(|n: Node| node_view(n)) == self.tree(),
    {
        &self.nodes
    }

    /// The root entry.
    pub fn root(&self) -> (e: Entry)
        ensures
            e.tree() == self.tree(),
            e.node() == 0,
            self.wf() ==> e.valid(),
    {
        Entry::root_of(self)
    }

    /// Carries out one statement, with the object `root` as the start of its paths. An
    /// include is not followed here: its file name is handed back.
    pub fn apply_statement(&mut self, root: usize, statement: syntax::Statement) -> (r: Result<Option<String>, Error>)
        requires
            old(self).wf(),
            is_ref(old(self).tree(), root as int),
            old(self).tree()[root as int].ty is Object,
            statement_ok(statement_view(statement)),
            old(self).tree().len() + statement_cost(statement_view(statement)) + 1 < usize::MAX,
        ensures
            final(self).wf(),
            step_agrees(r, apply(old(self).tree(), old(self).predefined(), root, statement_view(statement)).0),
            final(self).tree() == apply(old(self).tree(), old(self).predefined(), root, statement_view(statement)).1,
            final(self).predefined() == old(self).predefined(),
            grows(old(self).tree(), final(self).tree()),
            final(self).tree().len() <= old(self).tree().len() + statement_cost(statement_view(statement)),
    {
        match statement {
            syntax::Statement::Include(file) | syntax::Statement::IncludeAs(file, _) => Ok(Some(file)),
            syntax::Statement::Assign(path, value) => {
                match self.assign(root, root, &path.path, value) {
                    Ok(()) => Ok(None),
                    Err(e) => Err(e),
                }
            },
        }
    }

    /// The object at `path` below the object `root`, made where it is missing: the object
    /// that a file included `as` that path is read into.
    pub fn object_at(&mut self, root: usize, path: &syntax::Path) -> (r: Result<usize, Error>)
        requires
            old(self).wf(),
            is_ref(old(self).tree(), root as int),
            old(self).tree()[root as int].ty is Object,
            old(self).tree().len() + path.path@.len() + 1 < usize::MAX,
        ensures
            final(self).wf(),
            outcome_agrees(r, object(old(self).tree(), root, names_view(path.path@)).0),
            final(self).tree() == object(old(self).tree(), root, names_view(path.path@)).1,
            final(self).predefined() == old(self).predefined(),
            grows(old(self).tree(), final(self).tree()),
            r matches Ok(o) ==> is_ref(final(self).tree(), o as int) && final(self).tree()[o as int].ty is Object,
    {
        proof {
            assert(names_view(path.path@).subrange(0, path.path@.len() as int) =~= names_view(path.path@));
        }
        self.object(root, &path.path, path.path.len())
    }

    /// Reads `source` into the tree, with the object `root` as the start of its paths.
    pub fn parse_string_in(&mut self, root: usize, source: &str) -> (r: Result<(), Error>)
        requires
            old(self).wf(),
            is_ref(old(self).tree(), root as int),
            old(self).tree()[root as int].ty is Object,
            source_fits(old(self).tree().len(), source@),
        ensures
            final(self).wf(),
            final(self).predefined() == old(self).predefined(),
            grows(old(self).tree(), final(self).tree()),
            parse_agrees(r, parse_config_source(source@), old(self).tree(), old(self).predefined(), root, final(self).tree()),
    {
        let mut statements = match crate::parser::parse_config(source) {
            Err(e) => {
                return Err(Error::Parse(e));
            },
            Ok(s) => s,
        };
        let ghost sts = spans_view(statements@);
        let ghost t0 = self.tree();
        let ghost p0 = self.predefined();
        while statements.len() > 0
            invariant
                self.wf(),
                t0 == old(self).tree(),
                p0 == old(self).predefined(),
                self.predefined() == p0,
                sts == parse_config_source(source@)->Ok_0,
                parse_config_source(source@) is Ok,
                is_ref(self.tree(), root as int),
                self.tree()[root as int].ty is Object,
                grows(t0, self.tree()),
                apply_all(t0, p0, root, sts) == apply_all(self.tree(), p0, root, spans_view(statements@)),
                statements_ok(spans_view(statements@)),
                self.tree().len() + statements_cost(spans_view(statements@)) + 1 < usize::MAX,
            decreases statements@.len(),
        {
            let ghost t = self.tree();
            let ghost before = spans_view(statements@);
            let st = statements.remove(0);
            let ghost rest = spans_view(statements@);
            proof {
                assert(rest =~= before.subrange(1, before.len() as int));
                assert(before[0].item == statement_view(st.item));
                assert(statement_ok(before[0].item));
                assert forall|i: int| 0 <= i < rest.len() implies #[trigger] statement_ok(rest[i].item) by {
                    assert(rest[i] == before[i + 1]);
                    assert(statement_ok(before[i + 1].item));
                }
            }
            match self.apply_statement(root, st.item) {
                Err(e) => {
                    proof {
                        lemma_grows_trans(t0, t, self.tree());
                    }
                    return Err(e);
                },
                Ok(Some(file)) => {
                    proof {
                        lemma_grows_trans(t0, t, self.tree());
                    }
                    return Err(Error::UnresolvedInclude(file));
                },
                Ok(None) => {},
            }
            proof {
                lemma_grows_trans(t0, t, self.tree());
            }
        }
        Ok(())
    }

    /// Reads `source` into the tree, with paths that start at the root.
    pub fn parse_string(&mut self, source: &str) -> (r: Result<(), Error>)
        requires
            old(self).wf(),
            source_fits(old(self).tree().len(), source@),
        ensures
            final(self).wf(),
            final(self).predefined() == old(self).predefined(),
            grows(old(self).tree(), final(self).tree()),
            parse_agrees(r, parse_config_source(source@), old(self).tree(), old(self).predefined(), 0, final(self).tree()),
    {
        self.parse_string_in(0, source)
    }

    /// Adds a node of type `ty` below the object `obj` under `key`, replacing the entry
    /// that was under that key.
    fn set_child(&mut self, obj: usize, key: String, ty: NodeType) -> (id: usize)
        requires
            old(self).wf(),
            is_ref(old(self).tree(), obj as int),
            old(self).tree()[obj as int].ty is Object,
            refs_ok(old(self).tree(), type_view(ty)),
            fresh(type_view(ty)),
            old(self).tree().len() + 1 < usize::MAX,
        ensures
            final(self).wf(),
            (id, final(self).tree()) == set_child(old(self).tree(), obj, key@, type_view(ty)),
            final(self).predefined() == old(self).predefined(),
            grows(old(self).tree(), final(self).tree()),
            id == old(self).tree().len(),
            final(self).tree().len() == old(self).tree().len() + 1,
            final(self).tree()[id as int].ty == type_view(ty),
    {
        let ghost t0 = self.tree();
        let ghost tv = type_view(ty);
        let id = self.nodes.len();
        self.nodes.push(Node { ty, parent: obj });
        let ghost t1 = self.tree();
        proof {
            assert(t1 =~= t0.push(SNode { ty: tv, parent: obj }));
        }
        let mut parent_ty = NodeType::Unknown;
        std::mem::swap(&mut self.nodes[obj].ty, &mut parent_ty);
        let mut new_ty = match parent_ty {
            NodeType::Object { base, mut children, arguments } => {
                put_key(&mut children, key, id);
                NodeType::Object { base, children, arguments }
            },
            other => other,
        };
        let ghost new_parent = type_view(new_ty);
        std::mem::swap(&mut self.nodes[obj].ty, &mut new_ty);
        proof {
            assert(self.tree() =~= t1.update(obj as int, SNode { ty: new_parent, ..t1[obj as int] }));
            lemma_set_child(t0, obj, key@, tv);
            assert(self.predefined() == old(self).predefined());
            self.lemma_predefined_kept(t0);
        }
        id
    }

    /// Adds `ty` as the last item of the list `list`.
    fn add_item(&mut self, list: usize, ty: NodeType) -> (id: usize)
        requires
            old(self).wf(),
            is_ref(old(self).tree(), list as int),
            old(self).tree()[list as int].ty is List,
            refs_ok(old(self).tree(), type_view(ty)),
            fresh(type_view(ty)),
            old(self).tree().len() + 1 < usize::MAX,
        ensures
            final(self).wf(),
            (id, final(self).tree()) == add_item(old(self).tree(), list, type_view(ty)),
            final(self).predefined() == old(self).predefined(),
            grows(old(self).tree(), final(self).tree()),
            final(self).tree().len() == old(self).tree().len() + 1,
            id == old(self).tree().len(),
            final(self).tree()[id as int].ty == type_view(ty),
    {
        let ghost t0 = self.tree();
        let ghost tv = type_view(ty);
        let id = self.nodes.len();
        self.nodes.push(Node { ty, parent: list });
        let ghost t1 = self.tree();
        proof {
            assert(t1 =~= t0.push(SNode { ty: tv, parent: list }));
        }
        let mut list_ty = NodeType::Unknown;
        std::mem::swap(&mut self.nodes[list].ty, &mut list_ty);
        let mut new_ty = match list_ty {
            NodeType::List(mut items) => {
                items.push(id);
                NodeType::List(items)
            },
            other => other,
        };
        let ghost new_list = type_view(new_ty);
        std::mem::swap(&mut self.nodes[list].ty, &mut new_ty);
        proof {
            assert(self.tree() =~= t1.update(list as int, SNode { ty: new_list, ..t1[list as int] }));
            lemma_add_item(t0, list, tv);
            assert(self.predefined() == old(self).predefined());
            self.lemma_predefined_kept(t0);
        }
        id
    }
}

} // verus!
