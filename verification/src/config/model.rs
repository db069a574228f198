//! The configuration tree as a mathematical value, and what each operation on it does.
//!
//! Nodes refer to each other by index. A chain of links, or of objects and their bases,
//! is followed for at most as many steps as there are nodes.
use vstd::prelude::*;

use crate::syntax::{Number, PathType, SExtension, SObject, SPath, SStatement, SValue, Span};

verus! {

pub enum SPrim {
    Number(Number),
    String(Seq<char>),
}

pub enum SType {
    Unknown,
    Link(usize),
    Object { base: Option<usize>, children: Seq<(Seq<char>, usize)>, arguments: Seq<Seq<char>> },
    Value(SPrim),
    List(Seq<usize>),
}

pub struct SNode {
    pub ty: SType,
    pub parent: usize,
}

pub enum SSelection {
    Ident(Seq<char>),
    Index(usize),
}

pub enum SConfigError {
    NotAnObject(Seq<SSelection>),
    CircularReference(Seq<SSelection>),
    TooManyArguments(Seq<SSelection>, usize),
    Reassign(Seq<SSelection>),
    LocalPathInList(Seq<SSelection>, Seq<Seq<char>>),
}

pub type Nodes = Seq<SNode>;

pub open spec fn empty_object() -> SType {
    SType::Object { base: None, children: Seq::empty(), arguments: Seq::empty() }
}

/// The child under `key`: the first entry with that key.
pub open spec fn lookup(children: Seq<(Seq<char>, usize)>, key: Seq<char>) -> Option<usize>
    decreases children.len(),
{
    if children.len() == 0 {
        None
    } else if children[0].0 == key {
        Some(children[0].1)
    } else {
        lookup(children.subrange(1, children.len() as int), key)
    }
}

/// The key of the first entry that holds `child`.
pub open spec fn key_of(children: Seq<(Seq<char>, usize)>, child: usize) -> Option<Seq<char>>
    decreases children.len(),
{
    if children.len() == 0 {
        None
    } else if children[0].1 == child {
        Some(children[0].0)
    } else {
        key_of(children.subrange(1, children.len() as int), child)
    }
}

/// The position of the first item equal to `child`.
pub open spec fn index_of(items: Seq<usize>, child: usize) -> Option<int>
    decreases items.len(),
{
    if items.len() == 0 {
        None
    } else if items[0] == child {
        Some(0)
    } else {
        match index_of(items.subrange(1, items.len() as int), child) {
            Some(i) => Some(i + 1),
            None => None,
        }
    }
}

pub open spec fn is_ref(nodes: Nodes, id: int) -> bool {
    0 <= id < nodes.len()
}

/// Every index that a node holds names a node.
pub open spec fn refs_ok(nodes: Nodes, ty: SType) -> bool {
    match ty {
        SType::Link(t) => is_ref(nodes, t as int),
        SType::Object { base, children, .. } => {
            &&& (base matches Some(b) ==> is_ref(nodes, b as int))
            &&& forall|i: int| 0 <= i < children.len() ==> #[trigger] is_ref(nodes, children[i].1 as int)
        },
        SType::List(items) => forall|i: int| 0 <= i < items.len() ==> #[trigger] is_ref(nodes, items[i] as int),
        _ => true,
    }
}

/// The tree is whole: the root is an object, every other node hangs below an earlier
/// object or list (a list holds its items), and every index names a node.
pub open spec fn tree_wf(nodes: Nodes) -> bool {
    &&& nodes.len() >= 1
    &&& nodes.len() < usize::MAX
    &&& nodes[0].ty is Object
    &&& nodes[0].parent == 0
    &&& forall|i: int| 0 <= i < nodes.len() ==> #[trigger] refs_ok(nodes, nodes[i].ty)
    &&& forall|i: int|
        0 < i < nodes.len() ==> {
            &&& #[trigger] nodes[i].parent < i
            &&& (nodes[nodes[i].parent as int].ty is Object || nodes[nodes[i].parent as int].ty is List)
            &&& (nodes[nodes[i].parent as int].ty matches SType::List(items) ==> items.contains(
                i as usize,
            ))
        }
}

/// Follows links from `id` for at most `fuel` steps.
pub open spec fn follow(nodes: Nodes, id: usize, fuel: nat) -> usize
    decreases fuel,
{
    if fuel == 0 || !is_ref(nodes, id as int) {
        id
    } else {
        match nodes[id as int].ty {
            SType::Link(t) => follow(nodes, t, (fuel - 1) as nat),
            _ => id,
        }
    }
}

/// The node that `id` stands for once its links are followed.
pub open spec fn concrete(nodes: Nodes, id: usize) -> usize {
    follow(nodes, id, nodes.len())
}

/// Whether following links and bases from `id`, for at most `fuel` steps, reaches `target`.
pub open spec fn reaches(nodes: Nodes, id: usize, target: usize, fuel: nat) -> bool
    decreases fuel,
{
    if id == target {
        true
    } else if fuel == 0 || !is_ref(nodes, id as int) {
        false
    } else {
        match nodes[id as int].ty {
            SType::Link(t) => reaches(nodes, t, target, (fuel - 1) as nat),
            SType::Object { base: Some(t), .. } => reaches(nodes, t, target, (fuel - 1) as nat),
            _ => false,
        }
    }
}

pub open spec fn links_to(nodes: Nodes, id: usize, target: usize) -> bool {
    reaches(nodes, id, target, nodes.len())
}

/// The child `key` of the object `node`, looked up in its bases too.
pub open spec fn find_child(nodes: Nodes, node: usize, key: Seq<char>, fuel: nat) -> Option<usize>
    decreases fuel,
{
    if fuel == 0 || !is_ref(nodes, node as int) {
        None
    } else {
        match nodes[node as int].ty {
            SType::Object { base, children, .. } => match lookup(children, key) {
                Some(c) => Some(c),
                None => match base {
                    Some(b) => find_child(nodes, b, key, (fuel - 1) as nat),
                    None => None,
                },
            },
            SType::Link(b) => find_child(nodes, b, key, (fuel - 1) as nat),
            _ => None,
        }
    }
}

pub open spec fn find_child_id(nodes: Nodes, node: usize, key: Seq<char>) -> Option<usize> {
    find_child(nodes, node, key, nodes.len())
}

/// The child `key` among `children`, or else in the object that `template` stands for,
/// and so on along the bases, for at most `fuel` bases.
pub open spec fn lookup_from(
    nodes: Nodes,
    children: Seq<(Seq<char>, usize)>,
    template: Option<usize>,
    key: Seq<char>,
    fuel: nat,
) -> Option<usize>
    decreases fuel,
{
    match lookup(children, key) {
        Some(c) => Some(c),
        None => match template {
            None => None,
            Some(t) => {
                if fuel == 0 || !is_ref(nodes, t as int) {
                    None
                } else {
                    match nodes[concrete(nodes, t) as int].ty {
                        SType::Object { base, children, .. } => lookup_from(nodes, children, base, key, (fuel - 1) as nat),
                        _ => None,
                    }
                }
            },
        },
    }
}

/// A key is looked up among the object's own children first, and only where it is
/// missing there, among the own children of the object that its base stands for.
pub proof fn lemma_own_children_first(
    nodes: Nodes,
    children: Seq<(Seq<char>, usize)>,
    template: Option<usize>,
    key: Seq<char>,
    fuel: nat,
)
    ensures
        lookup(children, key) matches Some(c) ==> lookup_from(nodes, children, template, key, fuel) == Some(c),
        lookup(children, key) is None && template is None ==> lookup_from(nodes, children, template, key, fuel) is None,
        template matches Some(t) ==> ({
            let base = nodes[concrete(nodes, t) as int].ty;
            lookup(children, key) is None && fuel > 0 && is_ref(nodes, t as int) && base is Object && lookup(
                base->children,
                key,
            ) is Some ==> lookup_from(nodes, children, template, key, fuel) == lookup(base->children, key)
        }),
{
    if let Some(t) = template {
        if lookup(children, key) is None && fuel > 0 && is_ref(nodes, t as int) {
            if let SType::Object { base, children: inherited, .. } = nodes[concrete(nodes, t) as int].ty {
                assert(lookup_from(nodes, children, template, key, fuel) == lookup_from(
                    nodes,
                    inherited,
                    base,
                    key,
                    (fuel - 1) as nat,
                ));
            }
        }
    }
}

/// The argument names of the object that `node` stands for, looked up in its bases:
/// the first non-empty list, or an empty one; none if it is no object.
pub open spec fn arguments_from(nodes: Nodes, node: usize, fuel: nat) -> Option<Seq<Seq<char>>>
    decreases fuel,
{
    if fuel == 0 || !is_ref(nodes, node as int) {
        None
    } else {
        match nodes[node as int].ty {
            SType::Object { arguments, base, .. } => {
                if arguments.len() > 0 {
                    Some(arguments)
                } else {
                    match base {
                        Some(b) => arguments_from(nodes, b, (fuel - 1) as nat),
                        None => Some(Seq::empty()),
                    }
                }
            },
            SType::Link(b) => arguments_from(nodes, b, (fuel - 1) as nat),
            _ => None,
        }
    }
}

pub open spec fn cloned_arguments(nodes: Nodes, id: usize) -> Option<Seq<Seq<char>>> {
    arguments_from(nodes, concrete(nodes, id), nodes.len())
}

/// How `id` is reached from the root: the key or index of each step, root first.
pub open spec fn trace(nodes: Nodes, id: usize) -> Seq<SSelection>
    decreases id,
{
    if id == 0 || !is_ref(nodes, id as int) || nodes[id as int].parent >= id {
        Seq::empty()
    } else {
        let parent = nodes[id as int].parent;
        let step = match nodes[parent as int].ty {
            SType::Object { children, .. } => match key_of(children, id) {
                Some(k) => seq![SSelection::Ident(k)],
                None => Seq::empty(),
            },
            SType::List(items) => match index_of(items, id) {
                Some(i) => seq![SSelection::Index(i as usize)],
                None => Seq::empty(),
            },
            _ => Seq::empty(),
        };
        trace(nodes, parent) + step
    }
}

/// Turns the node that `id` stands for into an object if it is unknown; whether it is an
/// object now.
pub open spec fn infer_object(nodes: Nodes, id: usize) -> (bool, Nodes) {
    let c = concrete(nodes, id);
    match nodes[c as int].ty {
        SType::Unknown => (true, nodes.update(c as int, SNode { ty: empty_object(), ..nodes[c as int] })),
        SType::Object { .. } => (true, nodes),
        _ => (false, nodes),
    }
}

/// Makes `id` an object: an unknown node becomes an empty object, a link becomes an
/// object based on what it linked to.
pub open spec fn make_object(nodes: Nodes, id: usize) -> (Result<(), SConfigError>, Nodes) {
    let (ok, n1) = infer_object(nodes, id);
    if !ok {
        (Err(SConfigError::NotAnObject(trace(n1, id))), n1)
    } else {
        match n1[id as int].ty {
            SType::Link(base) => (
                Ok(()),
                n1.update(
                    id as int,
                    SNode {
                        ty: SType::Object { base: Some(base), children: Seq::empty(), arguments: Seq::empty() },
                        ..n1[id as int]
                    },
                ),
            ),
            _ => (Ok(()), n1),
        }
    }
}

/// Adds `ty` under `key` of the object `obj`. An existing child under that key may only
/// be unknown, and may not be given a base or a link that leads back to it.
pub open spec fn add_child(nodes: Nodes, obj: usize, key: Seq<char>, ty: SType) -> (
    Result<usize, SConfigError>,
    Nodes,
) {
    match nodes[obj as int].ty {
        SType::Object { base, children, arguments } => match lookup(children, key) {
            Some(id) => {
                let circular = match ty {
                    SType::Object { base: Some(b), .. } => links_to(nodes, b, id),
                    SType::Link(b) => links_to(nodes, b, id),
                    _ => false,
                };
                if circular {
                    (Err(SConfigError::CircularReference(trace(nodes, id))), nodes)
                } else if nodes[id as int].ty is Unknown {
                    (Ok(id), nodes.update(id as int, SNode { ty, ..nodes[id as int] }))
                } else {
                    (Err(SConfigError::Reassign(trace(nodes, id))), nodes)
                }
            },
            None => {
                let id = nodes.len() as usize;
                let n1 = nodes.push(SNode { ty, parent: obj });
                (
                    Ok(id),
                    n1.update(
                        obj as int,
                        SNode {
                            ty: SType::Object { base, children: children.push((key, id)), arguments },
                            ..n1[obj as int]
                        },
                    ),
                )
            },
        },
        _ => (Err(SConfigError::Reassign(Seq::empty())), nodes),
    }
}

/// Adds `ty` as the last item of the list `list`.
pub open spec fn add_item(nodes: Nodes, list: usize, ty: SType) -> (usize, Nodes) {
    let id = nodes.len() as usize;
    let n1 = nodes.push(SNode { ty, parent: list });
    match n1[list as int].ty {
        SType::List(items) => (id, n1.update(list as int, SNode { ty: SType::List(items.push(id)), ..n1[list as int] })),
        _ => (id, n1),
    }
}

/// A predefined node named by `path`: the first name is looked up among the predefined
/// ones, the others among the children of objects.
pub open spec fn find_in_prelude(nodes: Nodes, prelude: Seq<(Seq<char>, usize)>, path: Seq<Seq<char>>) -> Option<usize> {
    if path.len() == 0 {
        None
    } else {
        prelude_walk(nodes, lookup(prelude, path[0]), path, 1)
    }
}

pub open spec fn prelude_walk(nodes: Nodes, current: Option<usize>, path: Seq<Seq<char>>, i: int) -> Option<usize>
    decreases path.len() - i,
{
    match current {
        None => None,
        Some(id) => {
            if i >= path.len() || !is_ref(nodes, id as int) {
                current
            } else {
                match nodes[id as int].ty {
                    SType::Object { children, .. } => prelude_walk(nodes, lookup(children, path[i]), path, i + 1),
                    _ => None,
                }
            }
        },
    }
}

/// The object at `path[i..]` below the object (or link) `obj`, made where missing:
/// a missing child is created as an object based on the same child of the base, and a
/// link on the way becomes an object based on what it linked to.
pub open spec fn object_walk(nodes: Nodes, obj: usize, path: Seq<Seq<char>>, i: int) -> (
    Result<usize, SConfigError>,
    Nodes,
)
    decreases path.len() - i,
{
    if i >= path.len() {
        let (r, n1) = make_object(nodes, obj);
        match r {
            Ok(()) => (Ok(obj), n1),
            Err(e) => (Err(e), n1),
        }
    } else {
        let ident = path[i];
        match nodes[obj as int].ty {
            SType::Object { base, children, .. } => match lookup(children, ident) {
                Some(child) => {
                    let (ok, n1) = infer_object(nodes, child);
                    if !ok {
                        (Err(SConfigError::NotAnObject(trace(n1, child))), n1)
                    } else {
                        object_walk(n1, child, path, i + 1)
                    }
                },
                None => {
                    let b = match base {
                        Some(id) => find_child_id(nodes, id, ident),
                        None => None,
                    };
                    let (ok, n1) = match b {
                        Some(b) => infer_object(nodes, b),
                        None => (true, nodes),
                    };
                    if !ok {
                        (Err(SConfigError::NotAnObject(trace(n1, b->0))), n1)
                    } else {
                        let (c, n2) = add_child(
                            n1,
                            obj,
                            ident,
                            SType::Object { base: b, children: Seq::empty(), arguments: Seq::empty() },
                        );
                        match c {
                            Err(e) => (Err(e), n2),
                            Ok(c) => object_walk(n2, c, path, i + 1),
                        }
                    }
                },
            },
            SType::Link(base) => {
                let (ok, n1) = infer_object(nodes, base);
                if !ok {
                    (Err(SConfigError::NotAnObject(trace(n1, base))), n1)
                } else {
                    let n2 = n1.update(
                        obj as int,
                        SNode {
                            ty: SType::Object { base: Some(base), children: Seq::empty(), arguments: Seq::empty() },
                            ..n1[obj as int]
                        },
                    );
                    let child_base = find_child_id(n2, base, ident);
                    let (c, n3) = add_child(
                        n2,
                        obj,
                        ident,
                        SType::Object { base: child_base, children: Seq::empty(), arguments: Seq::empty() },
                    );
                    match c {
                        Err(e) => (Err(e), n3),
                        Ok(c) => object_walk(n3, c, path, i + 1),
                    }
                }
            },
            _ => (Err(SConfigError::NotAnObject(trace(nodes, obj))), nodes),
        }
    }
}

pub open spec fn object(nodes: Nodes, obj: usize, path: Seq<Seq<char>>) -> (Result<usize, SConfigError>, Nodes) {
    object_walk(nodes, obj, path, 0)
}

/// The object that holds the last name of `path`, below `obj`.
pub open spec fn holder(nodes: Nodes, obj: usize, path: Seq<Seq<char>>) -> (Result<usize, SConfigError>, Nodes) {
    if path.len() > 1 {
        object(nodes, obj, path.subrange(0, path.len() - 1))
    } else {
        (Ok(obj), nodes)
    }
}

/// Puts a node of type `ty` at `path` below `obj`.
pub open spec fn put(nodes: Nodes, obj: usize, path: Seq<Seq<char>>, ty: SType) -> (Result<usize, SConfigError>, Nodes) {
    let (h, n1) = holder(nodes, obj, path);
    match h {
        Err(e) => (Err(e), n1),
        Ok(h) => add_child(n1, h, path.last(), ty),
    }
}

/// The node that `path` names below `obj`, or in the prelude; a missing last name is
/// added as an unknown node.
pub open spec fn id_of(nodes: Nodes, prelude: Seq<(Seq<char>, usize)>, obj: usize, path: Seq<Seq<char>>) -> (
    Result<usize, SConfigError>,
    Nodes,
) {
    match find_in_prelude(nodes, prelude, path) {
        Some(id) => (Ok(id), nodes),
        None => {
            let (h, n1) = holder(nodes, obj, path);
            match h {
                Err(e) => (Err(e), n1),
                Ok(h) => match n1[h as int].ty {
                    SType::Object { children, .. } => match lookup(children, path.last()) {
                        Some(id) => (Ok(id), n1),
                        None => add_child(n1, h, path.last(), SType::Unknown),
                    },
                    _ => (Err(SConfigError::NotAnObject(trace(n1, h))), n1),
                },
            }
        },
    }
}

/// Makes `base_id` the base of the object `obj`, if it stands for an object.
pub open spec fn set_base(nodes: Nodes, obj: usize, base_id: usize) -> (Result<(), SConfigError>, Nodes) {
    let (ok, n1) = infer_object(nodes, base_id);
    if ok {
        match n1[obj as int].ty {
            SType::Object { children, arguments, .. } => (
                Ok(()),
                n1.update(obj as int, SNode { ty: SType::Object { base: Some(base_id), children, arguments }, ..n1[obj as int] }),
            ),
            _ => (Ok(()), n1),
        }
    } else {
        (Err(SConfigError::NotAnObject(trace(n1, base_id))), n1)
    }
}

/// Assigns `v` to `path` below the object `obj`; global paths start at `root`.
pub open spec fn assign(
    nodes: Nodes,
    prelude: Seq<(Seq<char>, usize)>,
    obj: usize,
    root: usize,
    path: Seq<Seq<char>>,
    v: SValue,
) -> (Result<(), SConfigError>, Nodes)
    decreases v, 0int,
{
    match v {
        SValue::Object(SObject::New(values)) => {
            let (o, n1) = object(nodes, obj, path);
            match o {
                Err(e) => (Err(e), n1),
                Ok(o) => assign_all(n1, prelude, o, root, values),
            }
        },
        SValue::Object(SObject::Extension(base, Some(changes))) => {
            let start = if base.path_type == PathType::Local { obj } else { root };
            let (b, n1) = id_of(nodes, prelude, start, base.path);
            match b {
                Err(e) => (Err(e), n1),
                Ok(b) => {
                    let (o, n2) = object(n1, obj, path);
                    match o {
                        Err(e) => (Err(e), n2),
                        Ok(o) => {
                            let (sb, n3) = set_base(n2, o, b);
                            match sb {
                                Err(e) => (Err(e), n3),
                                Ok(()) => extend(n3, prelude, o, root, changes),
                            }
                        },
                    }
                },
            }
        },
        SValue::Object(SObject::Extension(base, None)) => {
            let start = if base.path_type == PathType::Local { obj } else { root };
            let (b, n1) = id_of(nodes, prelude, start, base.path);
            match b {
                Err(e) => (Err(e), n1),
                Ok(b) => {
                    let (r, n2) = put(n1, obj, path, SType::Link(b));
                    match r {
                        Err(e) => (Err(e), n2),
                        Ok(_) => (Ok(()), n2),
                    }
                },
            }
        },
        SValue::Number(n) => {
            let (r, n1) = put(nodes, obj, path, SType::Value(SPrim::Number(n)));
            match r {
                Err(e) => (Err(e), n1),
                Ok(_) => (Ok(()), n1),
            }
        },
        SValue::String(s) => {
            let (r, n1) = put(nodes, obj, path, SType::Value(SPrim::String(s)));
            match r {
                Err(e) => (Err(e), n1),
                Ok(_) => (Ok(()), n1),
            }
        },
        SValue::List(values) => {
            let (l, n1) = put(nodes, obj, path, SType::List(Seq::empty()));
            match l {
                Err(e) => (Err(e), n1),
                Ok(l) => insert_all(n1, prelude, l, root, values),
            }
        },
    }
}

/// Applies the changes of an extension to the object `o`: assignments, or values for its
/// arguments in order.
pub open spec fn extend(
    nodes: Nodes,
    prelude: Seq<(Seq<char>, usize)>,
    o: usize,
    root: usize,
    changes: SExtension,
) -> (Result<(), SConfigError>, Nodes)
    decreases changes, 0int,
{
    match changes {
        SExtension::BlockStyle(values) => assign_all(nodes, prelude, o, root, values),
        SExtension::FunctionStyle(values) => match cloned_arguments(nodes, o) {
            Some(args) => {
                if args.len() < values.len() {
                    (Err(SConfigError::TooManyArguments(trace(nodes, o), args.len() as usize)), nodes)
                } else {
                    assign_args(nodes, prelude, o, root, args, values)
                }
            },
            None => (Ok(()), nodes),
        },
    }
}

pub open spec fn assign_all(
    nodes: Nodes,
    prelude: Seq<(Seq<char>, usize)>,
    o: usize,
    root: usize,
    values: Seq<(SPath, SValue)>,
) -> (Result<(), SConfigError>, Nodes)
    decreases values, 0int,
{
    if values.len() == 0 {
        (Ok(()), nodes)
    } else {
        let (r, n1) = assign(nodes, prelude, o, root, values[0].0.path, values[0].1);
        match r {
            Err(e) => (Err(e), n1),
            Ok(()) => assign_all(n1, prelude, o, root, values.subrange(1, values.len() as int)),
        }
    }
}

pub open spec fn assign_args(
    nodes: Nodes,
    prelude: Seq<(Seq<char>, usize)>,
    o: usize,
    root: usize,
    args: Seq<Seq<char>>,
    values: Seq<SValue>,
) -> (Result<(), SConfigError>, Nodes)
    decreases values, 0int,
{
    if values.len() == 0 || args.len() == 0 {
        (Ok(()), nodes)
    } else {
        let (r, n1) = assign(nodes, prelude, o, root, seq![args[0]], values[0]);
        match r {
            Err(e) => (Err(e), n1),
            Ok(()) => assign_args(
                n1,
                prelude,
                o,
                root,
                args.subrange(1, args.len() as int),
                values.subrange(1, values.len() as int),
            ),
        }
    }
}

/// Adds `v` as the last item of the list `list`; paths in it must be global.
pub open spec fn insert(
    nodes: Nodes,
    prelude: Seq<(Seq<char>, usize)>,
    list: usize,
    root: usize,
    v: SValue,
) -> (Result<(), SConfigError>, Nodes)
    decreases v, 0int,
{
    match v {
        SValue::Object(SObject::New(values)) => {
            let (o, n1) = add_item(nodes, list, empty_object());
            assign_all(n1, prelude, o, root, values)
        },
        SValue::Object(SObject::Extension(base, Some(changes))) => {
            if base.path_type == PathType::Local {
                (Err(SConfigError::LocalPathInList(trace(nodes, list), base.path)), nodes)
            } else {
                let (b, n1) = id_of(nodes, prelude, root, base.path);
                match b {
                    Err(e) => (Err(e), n1),
                    Ok(b) => {
                        let (o, n2) = add_item(n1, list, empty_object());
                        let (sb, n3) = set_base(n2, o, b);
                        match sb {
                            Err(e) => (Err(e), n3),
                            Ok(()) => extend(n3, prelude, o, root, changes),
                        }
                    },
                }
            }
        },
        SValue::Object(SObject::Extension(base, None)) => {
            if base.path_type == PathType::Local {
                (Err(SConfigError::LocalPathInList(trace(nodes, list), base.path)), nodes)
            } else {
                let (b, n1) = id_of(nodes, prelude, root, base.path);
                match b {
                    Err(e) => (Err(e), n1),
                    Ok(b) => (Ok(()), add_item(n1, list, SType::Link(b)).1),
                }
            }
        },
        SValue::Number(n) => (Ok(()), add_item(nodes, list, SType::Value(SPrim::Number(n))).1),
        SValue::String(s) => (Ok(()), add_item(nodes, list, SType::Value(SPrim::String(s))).1),
        SValue::List(values) => {
            let (l, n1) = add_item(nodes, list, SType::List(Seq::empty()));
            insert_all(n1, prelude, l, root, values)
        },
    }
}

pub open spec fn insert_all(
    nodes: Nodes,
    prelude: Seq<(Seq<char>, usize)>,
    list: usize,
    root: usize,
    values: Seq<SValue>,
) -> (Result<(), SConfigError>, Nodes)
    decreases values, 0int,
{
    if values.len() == 0 {
        (Ok(()), nodes)
    } else {
        let (r, n1) = insert(nodes, prelude, list, root, values[0]);
        match r {
            Err(e) => (Err(e), n1),
            Ok(()) => insert_all(n1, prelude, list, root, values.subrange(1, values.len() as int)),
        }
    }
}

/// Carries out one statement with `root` as the object that paths start from: an
/// assignment changes the tree, an include is handed back by the name of its file.
pub open spec fn apply(nodes: Nodes, prelude: Seq<(Seq<char>, usize)>, root: usize, s: SStatement) -> (
    Result<Option<Seq<char>>, SConfigError>,
    Nodes,
) {
    match s {
        SStatement::Include(file) | SStatement::IncludeAs(file, _) => (Ok(Some(file)), nodes),
        SStatement::Assign(path, value) => {
            let (r, n1) = assign(nodes, prelude, root, root, path.path, value);
            match r {
                Ok(()) => (Ok(None), n1),
                Err(e) => (Err(e), n1),
            }
        },
    }
}

/// Carries out statements in order, up to the first include or error.
pub open spec fn apply_all(
    nodes: Nodes,
    prelude: Seq<(Seq<char>, usize)>,
    root: usize,
    statements: Seq<Span<SStatement>>,
) -> (Result<Option<Seq<char>>, SConfigError>, Nodes)
    decreases statements.len(),
{
    if statements.len() == 0 {
        (Ok(None), nodes)
    } else {
        let (r, n1) = apply(nodes, prelude, root, statements[0].item);
        match r {
            Ok(None) => apply_all(n1, prelude, root, statements.subrange(1, statements.len() as int)),
            _ => (r, n1),
        }
    }
}

/// A statement whose paths all name something.
pub open spec fn statement_ok(s: SStatement) -> bool {
    match s {
        SStatement::Assign(path, value) => path.path.len() > 0 && paths_ok(value),
        SStatement::Include(_) | SStatement::IncludeAs(..) => true,
    }
}

/// A bound on the number of nodes that a statement adds.
pub open spec fn statement_cost(s: SStatement) -> nat {
    match s {
        SStatement::Assign(path, value) => path.path.len() + cost(value),
        SStatement::Include(_) | SStatement::IncludeAs(..) => 0,
    }
}

pub open spec fn statements_ok(statements: Seq<Span<SStatement>>) -> bool {
    forall|i: int| 0 <= i < statements.len() ==> #[trigger] statement_ok(statements[i].item)
}

pub open spec fn statements_cost(statements: Seq<Span<SStatement>>) -> nat
    decreases statements.len(),
{
    if statements.len() == 0 {
        0
    } else {
        statement_cost(statements[0].item) + statements_cost(statements.subrange(1, statements.len() as int))
    }
}

/// A type that holds no children and no items yet.
pub open spec fn fresh(t: SType) -> bool {
    &&& (t matches SType::Object { children, .. } ==> children.len() == 0)
    &&& (t matches SType::List(items) ==> items.len() == 0)
}

/// `b` is `a` with nodes added, where objects stayed objects and lists stayed lists.
pub open spec fn grows(a: Nodes, b: Nodes) -> bool {
    &&& a.len() <= b.len()
    &&& forall|j: int|
        0 <= j < a.len() ==> {
            &&& (#[trigger] a[j].ty is Object ==> b[j].ty is Object)
            &&& (a[j].ty is List ==> b[j].ty is List)
        }
}

/// A bound on the number of nodes that the value `v` adds beyond those of its path.
pub open spec fn cost(v: SValue) -> nat
    decreases v, 0int,
{
    match v {
        SValue::Object(SObject::New(values)) => pairs_cost(values),
        SValue::Object(SObject::Extension(base, Some(changes))) => base.path.len() + changes_cost(changes),
        SValue::Object(SObject::Extension(base, None)) => base.path.len(),
        SValue::List(values) => values_cost(values),
        _ => 0,
    }
}

pub open spec fn changes_cost(c: SExtension) -> nat
    decreases c, 0int,
{
    match c {
        SExtension::BlockStyle(values) => pairs_cost(values),
        SExtension::FunctionStyle(values) => values_cost(values),
    }
}

pub open spec fn pairs_cost(s: Seq<(SPath, SValue)>) -> nat
    decreases s, 0int,
{
    if s.len() == 0 {
        0
    } else {
        s[0].0.path.len() + cost(s[0].1) + pairs_cost(s.subrange(1, s.len() as int))
    }
}

pub open spec fn values_cost(s: Seq<SValue>) -> nat
    decreases s, 0int,
{
    if s.len() == 0 {
        0
    } else {
        1 + cost(s[0]) + values_cost(s.subrange(1, s.len() as int))
    }
}

/// Every path in `v` names something: none is empty.
pub open spec fn paths_ok(v: SValue) -> bool
    decreases v, 0int,
{
    match v {
        SValue::Object(SObject::New(values)) => pairs_ok(values),
        SValue::Object(SObject::Extension(base, Some(changes))) => base.path.len() > 0 && changes_ok(changes),
        SValue::Object(SObject::Extension(base, None)) => base.path.len() > 0,
        SValue::List(values) => values_ok(values),
        _ => true,
    }
}

pub open spec fn changes_ok(c: SExtension) -> bool
    decreases c, 0int,
{
    match c {
        SExtension::BlockStyle(values) => pairs_ok(values),
        SExtension::FunctionStyle(values) => values_ok(values),
    }
}

pub open spec fn pairs_ok(s: Seq<(SPath, SValue)>) -> bool
    decreases s, 0int,
{
    if s.len() == 0 {
        true
    } else {
        s[0].0.path.len() > 0 && paths_ok(s[0].1) && pairs_ok(s.subrange(1, s.len() as int))
    }
}

pub open spec fn values_ok(s: Seq<SValue>) -> bool
    decreases s, 0int,
{
    if s.len() == 0 {
        true
    } else {
        paths_ok(s[0]) && values_ok(s.subrange(1, s.len() as int))
    }
}

/// Giving node `c` a type that holds only indices of nodes keeps the tree whole, as long
/// as whatever hangs below `c` still can.
pub proof fn lemma_retype(nodes: Nodes, c: int, ty: SType)
    requires
        tree_wf(nodes),
        0 <= c < nodes.len(),
        refs_ok(nodes, ty),
        c == 0 ==> ty is Object,
        forall|i: int|
            0 < i < nodes.len() && nodes[i].parent == c ==> {
                &&& (ty is Object || ty is List)
                &&& (ty matches SType::List(items) ==> items.contains(i as usize))
            },
    ensures
        tree_wf(nodes.update(c, SNode { ty, parent: nodes[c].parent })),
{
    let n2 = nodes.update(c, SNode { ty, parent: nodes[c].parent });
    assert forall|i: int| 0 <= i < n2.len() implies #[trigger] refs_ok(n2, n2[i].ty) by {
        assert(refs_ok(nodes, nodes[i].ty));
        lemma_refs_same_len(nodes, n2, n2[i].ty);
    }
}

/// Whether indices name nodes depends only on how many nodes there are.
pub proof fn lemma_refs_same_len(a: Nodes, b: Nodes, ty: SType)
    requires
        a.len() <= b.len(),
        refs_ok(a, ty),
    ensures
        refs_ok(b, ty),
{
    match ty {
        SType::Object { base, children, .. } => {
            assert forall|i: int| 0 <= i < children.len() implies #[trigger] is_ref(
                b,
                children[i].1 as int,
            ) by {
                assert(is_ref(a, children[i].1 as int));
            }
        },
        SType::List(items) => {
            assert forall|i: int| 0 <= i < items.len() implies #[trigger] is_ref(
                b,
                items[i] as int,
            ) by {
                assert(is_ref(a, items[i] as int));
            }
        },
        _ => {},
    }
}

/// Adding a new child keeps the tree whole.
pub proof fn lemma_add_new_child(nodes: Nodes, obj: usize, key: Seq<char>, ty: SType)
    requires
        tree_wf(nodes),
        is_ref(nodes, obj as int),
        nodes[obj as int].ty matches SType::Object { children, .. } && lookup(children, key) is None,
        refs_ok(nodes, ty),
        fresh(ty),
        nodes.len() + 1 < usize::MAX,
    ensures
        tree_wf(add_child(nodes, obj, key, ty).1),
        grows(nodes, add_child(nodes, obj, key, ty).1),
        add_child(nodes, obj, key, ty).1.len() == nodes.len() + 1,
{
    let n2 = add_child(nodes, obj, key, ty).1;
    let id = nodes.len() as int;
    if let SType::Object { base, children, arguments } = nodes[obj as int].ty {
        let n1 = nodes.push(SNode { ty, parent: obj });
        assert(n2 == n1.update(
            obj as int,
            SNode { ty: SType::Object { base, children: children.push((key, id as usize)), arguments }, ..n1[obj as int] },
        ));
        assert forall|i: int| 0 <= i < n2.len() implies #[trigger] refs_ok(n2, n2[i].ty) by {
            if i == obj as int {
                assert(refs_ok(nodes, nodes[obj as int].ty));
                let nc = children.push((key, id as usize));
                assert forall|j: int| 0 <= j < nc.len() implies #[trigger] is_ref(n2, nc[j].1 as int) by {
                    if j < children.len() {
                        assert(is_ref(nodes, children[j].1 as int));
                    }
                }
            } else if i == id {
                lemma_refs_same_len(nodes, n2, ty);
            } else {
                assert(refs_ok(nodes, nodes[i].ty));
                lemma_refs_same_len(nodes, n2, n2[i].ty);
            }
        }
        assert forall|i: int| 0 < i < n2.len() implies {
            &&& #[trigger] n2[i].parent < i
            &&& (n2[n2[i].parent as int].ty is Object || n2[n2[i].parent as int].ty is List)
            &&& (n2[n2[i].parent as int].ty matches SType::List(items) ==> items.contains(i as usize))
        } by {
            if i < id {
                assert(nodes[i].parent < i);
            }
        }
    }
}

/// Adding an item to a list keeps the tree whole.
pub proof fn lemma_add_item(nodes: Nodes, list: usize, ty: SType)
    requires
        tree_wf(nodes),
        is_ref(nodes, list as int),
        nodes[list as int].ty is List,
        refs_ok(nodes, ty),
        fresh(ty),
        nodes.len() + 1 < usize::MAX,
    ensures
        tree_wf(add_item(nodes, list, ty).1),
        grows(nodes, add_item(nodes, list, ty).1),
        add_item(nodes, list, ty).1.len() == nodes.len() + 1,
        add_item(nodes, list, ty).0 == nodes.len(),
        add_item(nodes, list, ty).1[nodes.len() as int].ty == ty,
{
    let n2 = add_item(nodes, list, ty).1;
    let id = nodes.len() as int;
    if let SType::List(items) = nodes[list as int].ty {
        let n1 = nodes.push(SNode { ty, parent: list });
        let ni = items.push(id as usize);
        assert(n2 == n1.update(list as int, SNode { ty: SType::List(ni), ..n1[list as int] }));
        assert forall|i: int| 0 <= i < n2.len() implies #[trigger] refs_ok(n2, n2[i].ty) by {
            if i == list as int {
                assert(refs_ok(nodes, nodes[list as int].ty));
                assert forall|j: int| 0 <= j < ni.len() implies #[trigger] is_ref(n2, ni[j] as int) by {
                    if j < items.len() {
                        assert(is_ref(nodes, items[j] as int));
                    }
                }
            } else if i == id {
                lemma_refs_same_len(nodes, n2, ty);
            } else {
                assert(refs_ok(nodes, nodes[i].ty));
                lemma_refs_same_len(nodes, n2, n2[i].ty);
            }
        }
        assert forall|i: int| 0 < i < n2.len() implies {
            &&& #[trigger] n2[i].parent < i
            &&& (n2[n2[i].parent as int].ty is Object || n2[n2[i].parent as int].ty is List)
            &&& (n2[n2[i].parent as int].ty matches SType::List(items) ==> items.contains(i as usize))
        } by {
            if i < id {
                assert(nodes[i].parent < i);
                if nodes[i].parent == list {
                    assert(items.contains(i as usize));
                    let k = choose|k: int| 0 <= k < items.len() && items[k] == i as usize;
                    assert(ni[k] == i as usize);
                }
            } else {
                assert(ni[items.len() as int] == id as usize);
            }
        }
    }
}

/// Following links ends at a node that is no link, unless the steps ran out.
pub proof fn lemma_follow(nodes: Nodes, id: usize, fuel: nat)
    requires
        tree_wf(nodes),
        is_ref(nodes, id as int),
    ensures
        is_ref(nodes, follow(nodes, id, fuel) as int),
        !(nodes[id as int].ty is Link) && fuel > 0 ==> follow(nodes, id, fuel) == id,
    decreases fuel,
{
    if fuel > 0 {
        if let SType::Link(t) = nodes[id as int].ty {
            assert(refs_ok(nodes, nodes[id as int].ty));
            lemma_follow(nodes, t, (fuel - 1) as nat);
        }
    }
}

/// What inferring an object changes: at most the node that `id` stands for, from unknown
/// to an empty object; and `id` itself is then an object or a link.
pub proof fn lemma_infer_shape(nodes: Nodes, id: usize)
    requires
        tree_wf(nodes),
        is_ref(nodes, id as int),
    ensures
        infer_object(nodes, id).1.len() == nodes.len(),
        grows(nodes, infer_object(nodes, id).1),
        infer_object(nodes, id).0 ==> {
            ||| infer_object(nodes, id).1[id as int].ty is Object
            ||| infer_object(nodes, id).1[id as int].ty is Link
        },
        infer_object(nodes, id).0 && nodes[id as int].ty is Link ==> infer_object(nodes, id).1[id as int]
            == nodes[id as int],
        infer_object(nodes, id).0 && nodes[id as int].ty is Object ==> infer_object(nodes, id).1
            == nodes,
{
    lemma_follow(nodes, id, nodes.len());
}

/// Making an object of an object or a link that succeeds leaves an object.
pub proof fn lemma_make_object_shape(nodes: Nodes, id: usize)
    requires
        tree_wf(nodes),
        is_ref(nodes, id as int),
        nodes[id as int].ty is Object || nodes[id as int].ty is Link,
    ensures
        make_object(nodes, id).0 is Ok ==> make_object(nodes, id).1[id as int].ty is Object,
        make_object(nodes, id).1.len() == nodes.len(),
        grows(nodes, make_object(nodes, id).1),
{
    lemma_infer_shape(nodes, id);
}

/// The items of a list whose indices name nodes.
pub proof fn lemma_list_refs(nodes: Nodes, items: Seq<usize>)
    requires
        refs_ok(nodes, SType::List(items)),
    ensures
        forall|i: int| 0 <= i < items.len() ==> #[trigger] is_ref(nodes, items[i] as int),
{
    let ty = SType::List(items);
    assert(ty matches SType::List(its) && its == items);
    assert(forall|i: int| 0 <= i < items.len() ==> #[trigger] is_ref(nodes, items[i] as int));
}

/// The children of an object whose indices name nodes.
pub proof fn lemma_children_refs(nodes: Nodes, ty: SType)
    requires
        refs_ok(nodes, ty),
        ty is Object,
    ensures
        forall|i: int| 0 <= i < ty->children.len() ==> #[trigger] is_ref(nodes, ty->children[i].1 as int),
        ty->base matches Some(b) ==> is_ref(nodes, b as int),
{
}

/// The position of the first entry under `key`.
pub open spec fn key_index(entries: Seq<(Seq<char>, usize)>, key: Seq<char>) -> Option<int>
    decreases entries.len(),
{
    if entries.len() == 0 {
        None
    } else if entries[0].0 == key {
        Some(0)
    } else {
        match key_index(entries.subrange(1, entries.len() as int), key) {
            Some(i) => Some(i + 1),
            None => None,
        }
    }
}

/// The entries with `key` now naming `id`: the first entry under `key` is replaced, or a
/// new one is added at the end.
pub open spec fn put_entry(entries: Seq<(Seq<char>, usize)>, key: Seq<char>, id: usize) -> Seq<(Seq<char>, usize)> {
    match key_index(entries, key) {
        Some(k) => entries.update(k, (key, id)),
        None => entries.push((key, id)),
    }
}

/// A found position is in range and holds the key.
pub proof fn lemma_key_index(entries: Seq<(Seq<char>, usize)>, key: Seq<char>)
    ensures
        key_index(entries, key) matches Some(k) ==> 0 <= k < entries.len() && entries[k].0 == key,
    decreases entries.len(),
{
    if entries.len() > 0 && entries[0].0 != key {
        let rest = entries.subrange(1, entries.len() as int);
        lemma_key_index(rest, key);
    }
}

/// Adds a node of type `ty` below the object `obj` under `key`, replacing the entry that
/// was under that key.
pub open spec fn set_child(nodes: Nodes, obj: usize, key: Seq<char>, ty: SType) -> (usize, Nodes) {
    let id = nodes.len() as usize;
    let n1 = nodes.push(SNode { ty, parent: obj });
    match n1[obj as int].ty {
        SType::Object { base, children, arguments } => (
            id,
            n1.update(
                obj as int,
                SNode { ty: SType::Object { base, children: put_entry(children, key, id), arguments }, ..n1[obj as int] },
            ),
        ),
        _ => (id, n1),
    }
}

/// Setting a child keeps the tree whole.
pub proof fn lemma_set_child(nodes: Nodes, obj: usize, key: Seq<char>, ty: SType)
    requires
        tree_wf(nodes),
        is_ref(nodes, obj as int),
        nodes[obj as int].ty is Object,
        refs_ok(nodes, ty),
        fresh(ty),
        nodes.len() + 1 < usize::MAX,
    ensures
        tree_wf(set_child(nodes, obj, key, ty).1),
        grows(nodes, set_child(nodes, obj, key, ty).1),
        set_child(nodes, obj, key, ty).1.len() == nodes.len() + 1,
        set_child(nodes, obj, key, ty).0 == nodes.len(),
{
    let n2 = set_child(nodes, obj, key, ty).1;
    let id = nodes.len() as int;
    if let SType::Object { base, children, arguments } = nodes[obj as int].ty {
        let n1 = nodes.push(SNode { ty, parent: obj });
        let nc = put_entry(children, key, id as usize);
        assert(n2 == n1.update(obj as int, SNode { ty: SType::Object { base, children: nc, arguments }, ..n1[obj as int] }));
        lemma_key_index(children, key);
        assert forall|i: int| 0 <= i < n2.len() implies #[trigger] refs_ok(n2, n2[i].ty) by {
            if i == obj as int {
                lemma_children_refs(nodes, nodes[obj as int].ty);
                assert forall|j: int| 0 <= j < nc.len() implies #[trigger] is_ref(n2, nc[j].1 as int) by {
                    if j < children.len() && nc[j] == children[j] {
                        assert(is_ref(nodes, children[j].1 as int));
                    }
                }
            } else if i == id {
                lemma_refs_same_len(nodes, n2, ty);
            } else {
                assert(refs_ok(nodes, nodes[i].ty));
                lemma_refs_same_len(nodes, n2, n2[i].ty);
            }
        }
        assert forall|i: int| 0 < i < n2.len() implies {
            &&& #[trigger] n2[i].parent < i
            &&& (n2[n2[i].parent as int].ty is Object || n2[n2[i].parent as int].ty is List)
            &&& (n2[n2[i].parent as int].ty matches SType::List(items) ==> items.contains(i as usize))
        } by {
            if i < id {
                assert(nodes[i].parent < i);
            }
        }
    }
}

/// An entry added at the end is found under its key unless an earlier entry has that
/// key, and leaves the other keys as they were.
pub proof fn lemma_lookup_push(children: Seq<(Seq<char>, usize)>, key: Seq<char>, id: usize, other: Seq<char>)
    ensures
        lookup(children, key) is None ==> lookup(children.push((key, id)), key) == Some(id),
        other != key ==> lookup(children.push((key, id)), other) == lookup(children, other),
    decreases children.len(),
{
    let pushed = children.push((key, id));
    if children.len() > 0 {
        assert(pushed[0] == children[0]);
        let rest = children.subrange(1, children.len() as int);
        assert(pushed.subrange(1, pushed.len() as int) =~= rest.push((key, id)));
        lemma_lookup_push(rest, key, id, other);
    } else {
        assert(pushed[0] == (key, id));
        assert(pushed.subrange(1, pushed.len() as int) =~= Seq::<(Seq<char>, usize)>::empty());
        assert(lookup(Seq::<(Seq<char>, usize)>::empty(), other) is None);
    }
}

/// Putting an entry makes its key name the new node and leaves the other keys as they
/// were.
pub proof fn lemma_put_entry(entries: Seq<(Seq<char>, usize)>, key: Seq<char>, id: usize, other: Seq<char>)
    ensures
        lookup(put_entry(entries, key, id), key) == Some(id),
        other != key ==> lookup(put_entry(entries, key, id), other) == lookup(entries, other),
    decreases entries.len(),
{
    let put = put_entry(entries, key, id);
    if entries.len() == 0 {
        assert(put[0] == (key, id));
        assert(put.subrange(1, put.len() as int) =~= Seq::<(Seq<char>, usize)>::empty());
        assert(lookup(Seq::<(Seq<char>, usize)>::empty(), other) is None);
    } else if entries[0].0 == key {
        assert(put == entries.update(0, (key, id)));
        assert(put[0] == (key, id));
        assert(put.subrange(1, put.len() as int) =~= entries.subrange(1, entries.len() as int));
    } else {
        let rest = entries.subrange(1, entries.len() as int);
        lemma_put_entry(rest, key, id, other);
        lemma_key_index(rest, key);
        match key_index(rest, key) {
            Some(j) => {
                assert(put == entries.update(j + 1, (key, id)));
                assert(put[0] == entries[0]);
                assert(put.subrange(1, put.len() as int) =~= rest.update(j, (key, id)));
            },
            None => {
                assert(put == entries.push((key, id)));
                assert(put[0] == entries[0]);
                assert(put.subrange(1, put.len() as int) =~= rest.push((key, id)));
            },
        }
    }
}

/// The primitive that a number or a string value stands for.
pub open spec fn prim_of(v: SValue) -> SPrim {
    match v {
        SValue::String(s) => SPrim::String(s),
        SValue::Number(n) => SPrim::Number(n),
        _ => SPrim::Number(Number::Integer(0)),
    }
}

/// What a write gives a read: once a number or a string is assigned to a name of an
/// object, the name is found there and holds it.
pub proof fn lemma_assigned_value_is_found(
    nodes: Nodes,
    prelude: Seq<(Seq<char>, usize)>,
    obj: usize,
    root: usize,
    key: Seq<char>,
    v: SValue,
)
    requires
        tree_wf(nodes),
        is_ref(nodes, obj as int),
        nodes[obj as int].ty is Object,
        v is Number || v is String,
        assign(nodes, prelude, obj, root, seq![key], v).0 is Ok,
    ensures
        ({
            let after = assign(nodes, prelude, obj, root, seq![key], v).1;
            &&& after[obj as int].ty matches SType::Object { children, .. } && lookup(children, key) matches Some(id)
                && after[id as int].ty == SType::Value(prim_of(v)) && find_child_id(after, obj, key) == Some(id)
        }),
{
    let ty = SType::Value(prim_of(v));
    let path = seq![key];
    assert(path.last() == key);
    assert(put(nodes, obj, path, ty) == add_child(nodes, obj, key, ty));
    let n2 = add_child(nodes, obj, key, ty).1;
    assert(assign(nodes, prelude, obj, root, path, v).1 == n2);
    assert(add_child(nodes, obj, key, ty).0 is Ok);
    if let SType::Object { base, children, arguments } = nodes[obj as int].ty {
        match lookup(children, key) {
            Some(id) => {
                lemma_lookup_in(children, key);
                lemma_children_refs(nodes, nodes[obj as int].ty);
                assert(is_ref(nodes, id as int));
                assert(nodes[id as int].ty is Unknown);
                assert(id != obj);
                assert(n2 == nodes.update(id as int, SNode { ty, ..nodes[id as int] }));
                assert(n2[obj as int] == nodes[obj as int]);
                assert(find_child(n2, obj, key, n2.len()) == Some(id));
            },
            None => {
                lemma_lookup_push(children, key, nodes.len() as usize, key);
                assert(find_child(n2, obj, key, n2.len()) == Some(nodes.len() as usize));
            },
        }
    }
}

/// The object `o` has its own child under `key`, and that child holds the primitive `p`.
pub open spec fn holds_at(nodes: Nodes, o: usize, key: Seq<char>, p: SPrim) -> bool {
    nodes[o as int].ty matches SType::Object { children, .. } && lookup(children, key) matches Some(id)
        && is_ref(nodes, id as int) && nodes[id as int].ty == SType::Value(p)
}

/// `o` is an object whose children name nodes.
pub open spec fn object_at(nodes: Nodes, o: usize) -> bool {
    &&& is_ref(nodes, o as int)
    &&& nodes[o as int].ty is Object
    &&& refs_ok(nodes, nodes[o as int].ty)
}

/// Assigning a number or a string to a name of an object puts it there and leaves every
/// other primitive child of the object as it was.
pub proof fn lemma_assign_prim_frame(
    nodes: Nodes,
    prelude: Seq<(Seq<char>, usize)>,
    o: usize,
    root: usize,
    key: Seq<char>,
    v: SValue,
    other: Seq<char>,
    p: SPrim,
)
    requires
        object_at(nodes, o),
        nodes.len() < usize::MAX,
        v is Number || v is String,
        assign(nodes, prelude, o, root, seq![key], v).0 is Ok,
    ensures
        ({
            let after = assign(nodes, prelude, o, root, seq![key], v).1;
            &&& object_at(after, o)
            &&& after.len() <= nodes.len() + 1
            &&& holds_at(after, o, key, prim_of(v))
            &&& holds_at(nodes, o, other, p) ==> holds_at(after, o, other, p)
        }),
{
    let ty = SType::Value(prim_of(v));
    let path = seq![key];
    assert(path.last() == key);
    assert(put(nodes, o, path, ty) == add_child(nodes, o, key, ty));
    let n2 = add_child(nodes, o, key, ty).1;
    assert(assign(nodes, prelude, o, root, path, v).1 == n2);
    assert(add_child(nodes, o, key, ty).0 is Ok);
    if let SType::Object { base, children, arguments } = nodes[o as int].ty {
        lemma_children_refs(nodes, nodes[o as int].ty);
        match lookup(children, key) {
            Some(id) => {
                lemma_lookup_in(children, key);
                assert(is_ref(nodes, id as int));
                assert(nodes[id as int].ty is Unknown);
                assert(n2 == nodes.update(id as int, SNode { ty, ..nodes[id as int] }));
                assert(n2[o as int] == nodes[o as int]);
                lemma_refs_same_len(nodes, n2, nodes[o as int].ty);
                if holds_at(nodes, o, other, p) {
                    let id2 = lookup(children, other)->0;
                    assert(id2 != id);
                }
            },
            None => {
                let id = nodes.len() as usize;
                lemma_lookup_push(children, key, id, other);
                let nc = children.push((key, id));
                assert(n2[o as int].ty == SType::Object { base, children: nc, arguments });
                assert forall|j: int| 0 <= j < nc.len() implies #[trigger] is_ref(n2, nc[j].1 as int) by {
                    if j < children.len() {
                        assert(is_ref(nodes, children[j].1 as int));
                    }
                }
                if let Some(b) = base {
                    assert(is_ref(n2, b as int));
                }
                assert(refs_ok(n2, n2[o as int].ty));
                if holds_at(nodes, o, other, p) {
                    let id2 = lookup(children, other)->0;
                    assert(other != key);
                    assert(id2 != o);
                    assert(n2[id2 as int] == nodes[id2 as int]);
                }
            },
        }
    }
}

/// Values for arguments, numbers and strings only, leave every primitive child of the
/// object that they do not reach as it was.
pub proof fn lemma_assign_args_frame(
    nodes: Nodes,
    prelude: Seq<(Seq<char>, usize)>,
    o: usize,
    root: usize,
    args: Seq<Seq<char>>,
    values: Seq<SValue>,
    other: Seq<char>,
    p: SPrim,
)
    requires
        object_at(nodes, o),
        nodes.len() + values.len() < usize::MAX,
        forall|i: int| 0 <= i < values.len() ==> #[trigger] values[i] is Number || values[i] is String,
        assign_args(nodes, prelude, o, root, args, values).0 is Ok,
    ensures
        object_at(assign_args(nodes, prelude, o, root, args, values).1, o),
        assign_args(nodes, prelude, o, root, args, values).1.len() <= nodes.len() + values.len(),
        holds_at(nodes, o, other, p) ==> holds_at(assign_args(nodes, prelude, o, root, args, values).1, o, other, p),
    decreases values.len(),
{
    if values.len() > 0 && args.len() > 0 {
        assert(values[0] is Number || values[0] is String);
        lemma_assign_prim_frame(nodes, prelude, o, root, args[0], values[0], other, p);
        let n1 = assign(nodes, prelude, o, root, seq![args[0]], values[0]).1;
        let rest = values.subrange(1, values.len() as int);
        assert forall|i: int| 0 <= i < rest.len() implies #[trigger] rest[i] is Number || rest[i] is String by {
            assert(rest[i] == values[i + 1]);
        }
        lemma_assign_args_frame(n1, prelude, o, root, args.subrange(1, args.len() as int), rest, other, p);
    }
}

/// Values given to the arguments of an object, numbers and strings only, go to the
/// arguments in order: the first value is found under the first argument's name, the
/// second under the second, and so on.
pub proof fn lemma_values_follow_arguments(
    nodes: Nodes,
    prelude: Seq<(Seq<char>, usize)>,
    o: usize,
    root: usize,
    args: Seq<Seq<char>>,
    values: Seq<SValue>,
)
    requires
        object_at(nodes, o),
        nodes.len() + values.len() < usize::MAX,
        forall|i: int| 0 <= i < values.len() ==> #[trigger] values[i] is Number || values[i] is String,
        assign_args(nodes, prelude, o, root, args, values).0 is Ok,
    ensures
        forall|i: int|
            0 <= i < values.len() && i < args.len() ==> holds_at(
                assign_args(nodes, prelude, o, root, args, values).1,
                o,
                #[trigger] args[i],
                prim_of(values[i]),
            ),
    decreases values.len(),
{
    if values.len() > 0 && args.len() > 0 {
        let after = assign_args(nodes, prelude, o, root, args, values).1;
        assert(values[0] is Number || values[0] is String);
        lemma_assign_prim_frame(nodes, prelude, o, root, args[0], values[0], args[0], prim_of(values[0]));
        let n1 = assign(nodes, prelude, o, root, seq![args[0]], values[0]).1;
        let rest = values.subrange(1, values.len() as int);
        let rargs = args.subrange(1, args.len() as int);
        assert forall|i: int| 0 <= i < rest.len() implies #[trigger] rest[i] is Number || rest[i] is String by {
            assert(rest[i] == values[i + 1]);
        }
        lemma_values_follow_arguments(n1, prelude, o, root, rargs, rest);
        lemma_assign_args_frame(n1, prelude, o, root, rargs, rest, args[0], prim_of(values[0]));
        assert forall|i: int| 0 <= i < values.len() && i < args.len() implies holds_at(
            after,
            o,
            #[trigger] args[i],
            prim_of(values[i]),
        ) by {
            if i > 0 {
                assert(args[i] == rargs[i - 1]);
                assert(values[i] == rest[i - 1]);
            }
        }
    }
}

/// A single name given a number or a string.
pub open spec fn prim_pair(pair: (SPath, SValue)) -> bool {
    pair.0.path.len() == 1 && (pair.1 is Number || pair.1 is String)
}

/// Assignments of numbers and strings to single names leave every primitive child of the
/// object that they do not reach as it was.
pub proof fn lemma_assign_all_frame(
    nodes: Nodes,
    prelude: Seq<(Seq<char>, usize)>,
    o: usize,
    root: usize,
    values: Seq<(SPath, SValue)>,
    other: Seq<char>,
    p: SPrim,
)
    requires
        object_at(nodes, o),
        nodes.len() + values.len() < usize::MAX,
        forall|i: int| 0 <= i < values.len() ==> #[trigger] prim_pair(values[i]),
        assign_all(nodes, prelude, o, root, values).0 is Ok,
    ensures
        object_at(assign_all(nodes, prelude, o, root, values).1, o),
        assign_all(nodes, prelude, o, root, values).1.len() <= nodes.len() + values.len(),
        holds_at(nodes, o, other, p) ==> holds_at(assign_all(nodes, prelude, o, root, values).1, o, other, p),
    decreases values.len(),
{
    if values.len() > 0 {
        assert(prim_pair(values[0]));
        let key = values[0].0.path[0];
        assert(values[0].0.path =~= seq![key]);
        lemma_assign_prim_frame(nodes, prelude, o, root, key, values[0].1, other, p);
        let n1 = assign(nodes, prelude, o, root, seq![key], values[0].1).1;
        let rest = values.subrange(1, values.len() as int);
        assert forall|i: int| 0 <= i < rest.len() implies #[trigger] prim_pair(rest[i]) by {
            assert(rest[i] == values[i + 1]);
        }
        lemma_assign_all_frame(n1, prelude, o, root, rest, other, p);
    }
}

/// Once a block of assignments of numbers and strings to single names of an object
/// succeeds, each name is found in the object and holds the value given to it.
pub proof fn lemma_block_values_found(
    nodes: Nodes,
    prelude: Seq<(Seq<char>, usize)>,
    o: usize,
    root: usize,
    values: Seq<(SPath, SValue)>,
)
    requires
        tree_wf(nodes),
        is_ref(nodes, o as int),
        nodes[o as int].ty is Object,
        nodes.len() + values.len() < usize::MAX,
        forall|i: int| 0 <= i < values.len() ==> #[trigger] prim_pair(values[i]),
        assign_all(nodes, prelude, o, root, values).0 is Ok,
    ensures
        forall|i: int|
            0 <= i < values.len() ==> holds_at(
                assign_all(nodes, prelude, o, root, values).1,
                o,
                (#[trigger] values[i]).0.path[0],
                prim_of(values[i].1),
            ),
{
    assert(refs_ok(nodes, nodes[o as int].ty));
    lemma_block_found(nodes, prelude, o, root, values);
}

proof fn lemma_block_found(
    nodes: Nodes,
    prelude: Seq<(Seq<char>, usize)>,
    o: usize,
    root: usize,
    values: Seq<(SPath, SValue)>,
)
    requires
        object_at(nodes, o),
        nodes.len() + values.len() < usize::MAX,
        forall|i: int| 0 <= i < values.len() ==> #[trigger] prim_pair(values[i]),
        assign_all(nodes, prelude, o, root, values).0 is Ok,
    ensures
        forall|i: int|
            0 <= i < values.len() ==> holds_at(
                assign_all(nodes, prelude, o, root, values).1,
                o,
                (#[trigger] values[i]).0.path[0],
                prim_of(values[i].1),
            ),
    decreases values.len(),
{
    if values.len() > 0 {
        let after = assign_all(nodes, prelude, o, root, values).1;
        assert(prim_pair(values[0]));
        let key = values[0].0.path[0];
        let v0 = values[0].1;
        assert(values[0].0.path =~= seq![key]);
        lemma_assign_prim_frame(nodes, prelude, o, root, key, v0, key, prim_of(v0));
        let n1 = assign(nodes, prelude, o, root, seq![key], v0).1;
        let rest = values.subrange(1, values.len() as int);
        assert forall|i: int| 0 <= i < rest.len() implies #[trigger] prim_pair(rest[i]) by {
            assert(rest[i] == values[i + 1]);
        }
        lemma_block_found(n1, prelude, o, root, rest);
        lemma_assign_all_frame(n1, prelude, o, root, rest, key, prim_of(v0));
        assert forall|i: int| 0 <= i < values.len() implies holds_at(
            after,
            o,
            (#[trigger] values[i]).0.path[0],
            prim_of(values[i].1),
        ) by {
            if i > 0 {
                assert(values[i] == rest[i - 1]);
            }
        }
    }
}

/// After a function-style extension of an object that has an argument list succeeds,
/// there were no more values than arguments, and each value given, a number or a string,
/// is found under the argument in the same place of that list.
pub proof fn lemma_function_style_in_order(
    nodes: Nodes,
    prelude: Seq<(Seq<char>, usize)>,
    o: usize,
    root: usize,
    values: Seq<SValue>,
)
    requires
        tree_wf(nodes),
        is_ref(nodes, o as int),
        nodes[o as int].ty is Object,
        nodes.len() + values.len() < usize::MAX,
        forall|i: int| 0 <= i < values.len() ==> #[trigger] values[i] is Number || values[i] is String,
        extend(nodes, prelude, o, root, SExtension::FunctionStyle(values)).0 is Ok,
    ensures
        cloned_arguments(nodes, o) matches Some(args) ==> (values.len() <= args.len() && forall|i: int|
            0 <= i < values.len() ==> holds_at(
                extend(nodes, prelude, o, root, SExtension::FunctionStyle(values)).1,
                o,
                #[trigger] args[i],
                prim_of(values[i]),
            )),
{
    if let Some(args) = cloned_arguments(nodes, o) {
        assert(refs_ok(nodes, nodes[o as int].ty));
        lemma_values_follow_arguments(nodes, prelude, o, root, args, values);
    }
}

/// A name that holds something other than an unknown node cannot be given a number or a
/// string: the assignment is refused as a reassignment, and the tree stays as it was.
pub proof fn lemma_reassign_refused(
    nodes: Nodes,
    prelude: Seq<(Seq<char>, usize)>,
    obj: usize,
    root: usize,
    key: Seq<char>,
    v: SValue,
)
    requires
        tree_wf(nodes),
        is_ref(nodes, obj as int),
        v is Number || v is String,
        nodes[obj as int].ty matches SType::Object { children, .. } && lookup(children, key) matches Some(id)
            && !(nodes[id as int].ty is Unknown),
    ensures
        nodes[obj as int].ty matches SType::Object { children, .. } && lookup(children, key) matches Some(id)
            && assign(nodes, prelude, obj, root, seq![key], v) == (
            Err::<(), SConfigError>(SConfigError::Reassign(trace(nodes, id))),
            nodes,
        ),
{
    let path = seq![key];
    assert(path.last() == key);
}

/// A link to something that leads back to the name it is given is refused, and the tree
/// stays as it was.
pub proof fn lemma_circular_link_refused(nodes: Nodes, obj: usize, key: Seq<char>, target: usize)
    requires
        tree_wf(nodes),
        is_ref(nodes, obj as int),
        nodes[obj as int].ty matches SType::Object { children, .. } && lookup(children, key) matches Some(id)
            && links_to(nodes, target, id),
    ensures
        nodes[obj as int].ty matches SType::Object { children, .. } && lookup(children, key) matches Some(id)
            && put(nodes, obj, seq![key], SType::Link(target)) == (
            Err::<usize, SConfigError>(SConfigError::CircularReference(trace(nodes, id))),
            nodes,
        ),
{
    let path = seq![key];
    assert(path.last() == key);
}

/// Growing is transitive.
pub proof fn lemma_grows_trans(a: Nodes, b: Nodes, c: Nodes)
    requires
        grows(a, b),
        grows(b, c),
    ensures
        grows(a, c),
{
    assert forall|j: int| 0 <= j < a.len() implies {
        &&& (#[trigger] a[j].ty is Object ==> c[j].ty is Object)
        &&& (a[j].ty is List ==> c[j].ty is List)
    } by {
        assert(a[j].ty is Object ==> b[j].ty is Object);
        assert(b[j].ty is Object ==> c[j].ty is Object);
    }
}

/// A node whose type is neither an object nor a list has nothing below it.
pub proof fn lemma_leaf(nodes: Nodes, c: int)
    requires
        tree_wf(nodes),
        0 <= c < nodes.len(),
        !(nodes[c].ty is Object || nodes[c].ty is List),
    ensures
        forall|i: int| 0 < i < nodes.len() ==> #[trigger] nodes[i].parent != c,
{
}

/// A child that is found is one of the entries.
pub proof fn lemma_lookup_in(children: Seq<(Seq<char>, usize)>, key: Seq<char>)
    ensures
        lookup(children, key) matches Some(c) ==> exists|i: int|
            0 <= i < children.len() && #[trigger] children[i].1 == c,
    decreases children.len(),
{
    if children.len() > 0 && children[0].0 != key {
        let rest = children.subrange(1, children.len() as int);
        lemma_lookup_in(rest, key);
        if lookup(rest, key) is Some {
            let i = choose|i: int| 0 <= i < rest.len() && #[trigger] rest[i].1 == lookup(rest, key)->0;
            assert(children[i + 1].1 == rest[i].1);
        }
    } else if children.len() > 0 {
        assert(children[0].1 == lookup(children, key)->0);
    }
}

} // verus!
