use pyrite::config::statement_cost_within;
use pyrite::parser::parse_config;
use pyrite::config::entry::{Entry, FromEntry};
use pyrite::config::prelude::Prelude;
use pyrite::config::{Error, Node, NodeType, Parser, Selection, StackTrace, Value};
use pyrite::syntax::{Decimal, Number, Path, PathType};

#[derive(PartialEq, Debug)]
struct SingleItem<T>(T);

impl<'a, T: FromEntry<'a>> FromEntry<'a> for SingleItem<T> {
    fn from_entry(entry: Entry<'a>) -> Result<SingleItem<T>, String> {
        entry
            .as_object()
            .ok_or_else(|| String::from("expected an object"))
            .and_then(|o| o.get("a").ok_or_else(|| String::from("missing field a")))
            .and_then(|e| T::from_entry(e))
            .map(SingleItem)
    }
}

fn with_args() -> Parser {
    let mut prelude = Prelude::new();
    let object = prelude.object("o".into());
    object.object(&mut prelude, "a".into());
    object.object(&mut prelude, "b".into());
    object.object(&mut prelude, "c".into());
    object.arguments(&mut prelude, vec!["a".into(), "b".into(), "c".into()]);
    prelude.into_parser()
}

fn object(base: Option<usize>, children: Vec<(&str, usize)>, parent: usize) -> Node {
    Node {
        ty: NodeType::Object {
            base,
            children: children.into_iter().map(|(k, v)| (k.to_string(), v)).collect(),
            arguments: vec![],
        },
        parent,
    }
}

fn float_of(n: &Number) -> f64 {
    match *n {
        Number::Integer(i) => i as f64,
        Number::Float(Decimal { negative, whole, fraction, divider }) => {
            if negative {
                whole as f64 - (fraction as f64 / divider as f64)
            } else {
                whole as f64 + (fraction as f64 / divider as f64)
            }
        }
    }
}

#[test]
fn assign_object() {
    let mut cfg = Parser::new();
    cfg.parse_string("a = {}").unwrap();
    assert_eq!(*cfg.nodes(), vec![object(None, vec![("a", 1)], 0), object(None, vec![], 0)]);
}

#[test]
fn assign_deep_object() {
    let mut cfg = Parser::new();
    cfg.parse_string("a.b = {}").unwrap();
    assert_eq!(
        *cfg.nodes(),
        vec![object(None, vec![("a", 1)], 0), object(None, vec![("b", 2)], 0), object(None, vec![], 1)]
    );
}

#[test]
fn assign_in_object() {
    let mut cfg = Parser::new();
    cfg.parse_string("a = { b = {} }").unwrap();
    assert_eq!(
        *cfg.nodes(),
        vec![object(None, vec![("a", 1)], 0), object(None, vec![("b", 2)], 0), object(None, vec![], 1)]
    );
}

#[test]
fn assign_to_object() {
    let mut cfg = Parser::new();
    cfg.parse_string("a = {}").unwrap();
    assert_eq!(*cfg.nodes(), vec![object(None, vec![("a", 1)], 0), object(None, vec![], 0)]);

    cfg.parse_string("a.b = {}").unwrap();
    assert_eq!(
        *cfg.nodes(),
        vec![object(None, vec![("a", 1)], 0), object(None, vec![("b", 2)], 0), object(None, vec![], 1)]
    );
}

#[test]
fn extend_block_style() {
    let mut cfg = Parser::new();
    cfg.parse_string("a = {} b = a { c = {} }").unwrap();
    assert_eq!(
        *cfg.nodes(),
        vec![
            object(None, vec![("a", 1), ("b", 2)], 0),
            object(None, vec![], 0),
            object(Some(1), vec![("c", 3)], 0),
            object(None, vec![], 2),
        ]
    );
}

#[test]
fn insert_list() {
    let mut cfg = Parser::new();
    cfg.parse_string("a = []").unwrap();
    assert_eq!(
        *cfg.nodes(),
        vec![object(None, vec![("a", 1)], 0), Node { ty: NodeType::List(vec![]), parent: 0 }]
    );
}

#[test]
fn extend_list() {
    let mut cfg = Parser::new();
    assert!(cfg.parse_string("a = [] b = a { c = {} }").is_err());
}

#[test]
fn link_to_list() {
    let mut cfg = Parser::new();
    cfg.parse_string("a = [] b = a").unwrap();
}

#[test]
fn decode_integer_list() {
    let mut cfg = Parser::new();
    cfg.parse_string("a = [1, 2, 3]").unwrap();
    assert_eq!(Ok(SingleItem(vec![1, 2, 3])), cfg.root().decode::<SingleItem<Vec<i32>>>());
}

#[test]
fn decode_float_list() {
    let mut cfg = Parser::new();
    cfg.parse_string("a = [1.0, -2.4, 3.8]").unwrap();
    let SingleItem(numbers) = cfg.root().decode::<SingleItem<Vec<Number>>>().unwrap();
    let floats: Vec<f64> = numbers.iter().map(float_of).collect();
    assert_eq!(floats, vec![1.0, -2.4, 3.8]);
}

#[test]
fn decode_string_list() {
    let mut cfg = Parser::new();
    cfg.parse_string("a = [\"foo\", \"bar\"]").unwrap();
    assert_eq!(Ok(SingleItem(vec!["foo", "bar"])), cfg.root().decode::<SingleItem<Vec<&str>>>());
}

#[test]
fn parse_relative_in_inner_root() {
    let mut cfg = Parser::new();
    cfg.parse_string("a.b.c = {}").unwrap();
    let root_id = cfg.nodes().len() - 1;
    cfg.parse_string_in(root_id, "d = 1").unwrap();
    assert_eq!(Ok(1), cfg.root().get("a").get("b").get("c").get("d").decode::<i32>());
}

#[test]
fn link_in_inner_root() {
    let mut cfg = Parser::new();
    cfg.parse_string("a.b.c = {} f = []").unwrap();
    let root_id = cfg.nodes().len() - 2;
    cfg.parse_string_in(root_id, "d = f{}").unwrap();
    assert!(cfg.parse_string("d = f{}").is_err());
}

#[test]
fn function_style() {
    let mut cfg = with_args();
    cfg.parse_string("a = o(1, 2, 3)").unwrap();
    cfg.parse_string("b = o(1, 2)").unwrap();
    assert!(cfg.parse_string("c = o(1, 2, 3, 4)").is_err());
}

#[test]
fn extend_upgrade_unknown() {
    let mut cfg = Parser::new();
    cfg.parse_string("a = b.c b.c = 5").unwrap();
    let a = cfg.root().get("a");
    assert_eq!(Ok(5), a.decode::<i32>());
}

#[test]
fn circular_reference() {
    let mut cfg = Parser::new();
    assert!(cfg.parse_string("a = b b = a").is_err());
    assert!(cfg.parse_string("a = b b = c c = a").is_err());
    assert!(cfg.parse_string("a = b b = c c = a { b = 0}").is_err());
}

#[test]
fn circular_reference_is_named() {
    let mut cfg = Parser::new();
    assert_eq!(
        cfg.parse_string("a = b b = a"),
        Err(Error::CircularReference(StackTrace(vec![Selection::Ident("b".into())])))
    );
}

#[test]
fn reassign_is_refused() {
    let mut cfg = Parser::new();
    assert_eq!(
        cfg.parse_string("a = 1 a = 2"),
        Err(Error::Reassign(StackTrace(vec![Selection::Ident("a".into())])))
    );
    assert_eq!(cfg.root().get("a").decode::<i64>(), Ok(1));
}

#[test]
fn value_is_not_an_object() {
    let mut cfg = Parser::new();
    assert_eq!(
        cfg.parse_string("a = 1 a.b = 2"),
        Err(Error::NotAnObject(StackTrace(vec![Selection::Ident("a".into())])))
    );
}

#[test]
fn too_many_arguments_names_the_count() {
    let mut cfg = with_args();
    assert_eq!(
        cfg.parse_string("c = o(1, 2, 3, 4)"),
        Err(Error::TooManyArguments(StackTrace(vec![Selection::Ident("c".into())]), 3))
    );
}

#[test]
fn local_path_in_list_is_refused() {
    let mut cfg = Parser::new();
    assert_eq!(
        cfg.parse_string("a = {} l = [a]"),
        Err(Error::LocalPathInList(StackTrace(vec![Selection::Ident("l".into())]), vec!["a".into()]))
    );
    let mut cfg = Parser::new();
    cfg.parse_string("a = 7 l = [root.a]").unwrap();
    assert_eq!(cfg.root().get("l").index(0).decode::<i64>(), Ok(7));
}

#[test]
fn include_is_handed_back() {
    let mut cfg = Parser::new();
    assert_eq!(
        cfg.parse_string("a = 1 include \"other\" b = 2"),
        Err(Error::UnresolvedInclude("other".into()))
    );
    assert_eq!(cfg.root().get("a").decode::<i64>(), Ok(1));
    assert!(cfg.root().as_object().unwrap().get("b").is_none());
}

#[test]
fn syntax_error_leaves_tree_unchanged() {
    let mut cfg = Parser::new();
    cfg.parse_string("a = 1").unwrap();
    let before = cfg.nodes().len();
    assert!(matches!(cfg.parse_string("b = [,]"), Err(Error::Parse(_))));
    assert_eq!(cfg.nodes().len(), before);
}

#[test]
fn prelude_values_are_found() {
    let mut prelude = Prelude::new();
    prelude.value("x".into(), Value::Number(Number::Integer(4)));
    prelude.value("x".into(), Value::Number(Number::Integer(5)));
    let list = prelude.list("l".into());
    list.value(&mut prelude, Value::String("s".into()));
    let mut cfg = prelude.into_parser();
    cfg.parse_string("a = x b = l").unwrap();
    assert_eq!(cfg.root().get("a").decode::<i64>(), Ok(5));
    assert_eq!(cfg.root().get("b").decode::<Vec<String>>(), Ok(vec!["s".to_string()]));
}

#[test]
fn object_entries_follow_the_base() {
    let mut cfg = Parser::new();
    cfg.parse_string("a = { x = 1 y = 2 } b = a { y = 3 }").unwrap();
    let b = cfg.root().get("b");
    assert_eq!(b.get("x").decode::<i64>(), Ok(1));
    assert_eq!(b.get("y").decode::<i64>(), Ok(3));
    let own: Vec<&str> = b.as_object().unwrap().iter().into_iter().map(|(k, _)| k).collect();
    assert_eq!(own, vec!["y"]);
    assert_eq!(cfg.root().get("a").as_list().map(|l| l.len()), None);
}

#[test]
fn decode_reports_wrong_types() {
    let mut cfg = Parser::new();
    cfg.parse_string("a = \"text\" n = 3 l = [1]").unwrap();
    assert_eq!(cfg.root().get("a").decode::<i64>(), Err("expected an integer".to_string()));
    assert_eq!(cfg.root().get("n").decode::<String>(), Err("expected a string".to_string()));
    assert_eq!(cfg.root().get("n").decode::<Vec<i64>>(), Err("expected a list".to_string()));
    assert_eq!(cfg.root().get("l").decode::<i64>(), Err("expected a value".to_string()));
    assert_eq!(cfg.root().get("l").as_list().unwrap().len(), 1);
}

#[test]
fn values_from_plain_types() {
    assert_eq!(Value::from(3i64), Value::Number(Number::Integer(3)));
    assert_eq!(Value::from(-7i32), Value::Number(Number::Integer(-7)));
    assert_eq!(Value::from(9u32), Value::Number(Number::Integer(9)));
    assert_eq!(Value::from(String::from("x")), Value::String("x".into()));
}

#[test]
fn include_as_is_handed_back_untouched() {
    let mut cfg = Parser::new();
    assert_eq!(
        cfg.parse_string("a = 1 include \"other\" as x.y b = 2"),
        Err(Error::UnresolvedInclude("other".into()))
    );
    assert_eq!(cfg.nodes().len(), 2);
    assert!(cfg.root().as_object().unwrap().get("x").is_none());
}

#[test]
fn included_files_are_read_into_their_object() {
    let mut cfg = Parser::new();
    cfg.parse_string("x = { k = 3 }").unwrap();
    let path = Path { path_type: PathType::Local, path: vec!["x".into(), "y".into()] };
    let inner = cfg.object_at(0, &path).unwrap();
    assert_eq!(cfg.object_at(0, &path), Ok(inner));
    cfg.parse_string_in(inner, "c = 1").unwrap();
    assert_eq!(cfg.root().get("x").get("y").get("c").decode::<i64>(), Ok(1));
    assert_eq!(cfg.root().get("x").get("k").decode::<i64>(), Ok(3));
    let value = Path { path_type: PathType::Local, path: vec!["x".into(), "k".into()] };
    assert!(cfg.object_at(0, &value).is_err());
}

#[test]
fn a_list_with_an_item_of_another_kind_does_not_decode() {
    let mut cfg = Parser::new();
    cfg.parse_string("l = [1, \"two\", 3] e = []").unwrap();
    assert!(cfg.root().get("l").decode::<Vec<i64>>().is_err());
    assert_eq!(cfg.root().get("e").decode::<Vec<i64>>(), Ok(vec![]));
    assert!(cfg.root().get("e").decode::<i64>().is_err());
}

#[test]
fn statement_costs_count_the_nodes_they_may_add() {
    let statements = parse_config("a = { b = 1 c.d = [1, 2] } include \"x\"").unwrap();
    assert_eq!(statement_cost_within(&statements[0].item, 6), Some(6));
    assert_eq!(statement_cost_within(&statements[0].item, 100), Some(6));
    assert_eq!(statement_cost_within(&statements[0].item, 5), None);
    assert_eq!(statement_cost_within(&statements[1].item, 0), Some(0));
}
