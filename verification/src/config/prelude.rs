//! Values, objects, lists and argument lists that a configuration can refer to by name
//! without defining them.
use vstd::prelude::*;

use super::model::{Nodes, SNode, SType, add_child, add_item, empty_object, grows, is_ref, lookup, put_entry, set_child, lemma_lookup_in, lemma_key_index};
use super::{NodeType, Parser, Value, entries_view, find_key, names_view, new_object, prim_view, put_key, type_view, node_view};

verus! {

/// Builds the predefined part of a configuration, then becomes its parser.
pub struct Prelude(Parser);

/// An object in a prelude, by its node.
#[derive(Clone, Copy)]
pub struct Object {
    id: usize,
}

/// A list in a prelude, by its node.
#[derive(Clone, Copy)]
pub struct List {
    id: usize,
}

impl Object {
    pub closed spec fn node(&self) -> usize {
        self.id
    }
}

impl List {
    pub closed spec fn node(&self) -> usize {
        self.id
    }
}

impl Prelude {
    /// The tree built so far.
    pub closed spec fn tree(&self) -> Nodes {
        self.0.tree()
    }

    /// The names defined so far.
    pub closed spec fn predefined(&self) -> Seq<(Seq<char>, usize)> {
        self.0.predefined()
    }

    pub closed spec fn wf(&self) -> bool {
        self.0.wf()
    }

    /// `o` names an object of this prelude.
    pub open spec fn holds_object(&self, o: Object) -> bool {
        is_ref(self.tree(), o.node() as int) && self.tree()[o.node() as int].ty is Object
    }

    /// `l` names a list of this prelude.
    pub open spec fn holds_list(&self, l: List) -> bool {
        is_ref(self.tree(), l.node() as int) && self.tree()[l.node() as int].ty is List
    }

    /// An empty prelude.
    pub fn new() -> (p: Prelude)
        ensures
            p.wf(),
            p.tree() == seq![SNode { ty: empty_object(), parent: 0 }],
            p.predefined() == Seq::<(Seq<char>, usize)>::empty(),
    {
        Prelude(Parser::new())
    }

    /// Adds a node of type `ty` below the root, without a key there.
    fn add_predefined(&mut self, ty: NodeType) -> (id: usize)
        requires
            old(self).wf(),
            super::model::refs_ok(old(self).tree(), type_view(ty)),
            super::model::fresh(type_view(ty)),
            old(self).tree().len() + 1 < usize::MAX,
        ensures
            final(self).wf(),
            id == old(self).tree().len(),
            final(self).tree() == old(self).tree().push(SNode { ty: type_view(ty), parent: 0 }),
            final(self).predefined() == old(self).predefined(),
    {
        let ghost t0 = self.tree();
        let ghost tv = type_view(ty);
        let id = self.0.nodes.len();
        self.0.nodes.push(super::Node { ty, parent: 0 });
        proof {
            let t1 = self.tree();
            assert(t1 =~= t0.push(SNode { ty: tv, parent: 0 }));
            assert forall|i: int| 0 <= i < t1.len() implies #[trigger] super::model::refs_ok(t1, t1[i].ty) by {
                if i < t0.len() {
                    assert(super::model::refs_ok(t0, t0[i].ty));
                }
                super::model::lemma_refs_same_len(t0, t1, t1[i].ty);
            }
            assert forall|i: int| 0 < i < t1.len() implies {
                &&& #[trigger] t1[i].parent < i
                &&& (t1[t1[i].parent as int].ty is Object || t1[t1[i].parent as int].ty is List)
                &&& (t1[t1[i].parent as int].ty matches SType::List(items) ==> items.contains(i as usize))
            } by {
                if i < t0.len() {
                    assert(t0[i].parent < i);
                }
            }
            assert(self.predefined() == old(self).predefined());
            self.0.lemma_predefined_kept(t0);
        }
        id
    }

    /// The object named `ident`, made if the name is new.
    pub fn object(&mut self, ident: String) -> (o: Object)
        requires
            old(self).wf(),
            old(self).tree().len() + 1 < usize::MAX,
        ensures
            final(self).wf(),
            lookup(old(self).predefined(), ident@) matches Some(id) ==> o.node() == id && final(self).tree()
                == old(self).tree() && final(self).predefined() == old(self).predefined(),
            lookup(old(self).predefined(), ident@) is None ==> o.node() == old(self).tree().len() && final(self).tree() == old(self).tree().push(SNode { ty: empty_object(), parent: 0 }) && final(self).predefined()
                == old(self).predefined().push((ident@, o.node())),
            lookup(final(self).predefined(), ident@) == Some(o.node()),
    {
        proof {
            super::model::lemma_lookup_push(old(self).predefined(), ident@, old(self).tree().len() as usize, ident@);
        }
        if let Some(id) = find_key(&self.0.prelude, ident.as_str()) {
            return Object { id };
        }
        let id = self.add_predefined(new_object());
        self.add_name(ident, id);
        Object { id }
    }

    /// The list named `ident`, made if the name is new.
    pub fn list(&mut self, ident: String) -> (l: List)
        requires
            old(self).wf(),
            old(self).tree().len() + 1 < usize::MAX,
        ensures
            final(self).wf(),
            lookup(old(self).predefined(), ident@) matches Some(id) ==> l.node() == id && final(self).tree()
                == old(self).tree() && final(self).predefined() == old(self).predefined(),
            lookup(old(self).predefined(), ident@) is None ==> l.node() == old(self).tree().len() && final(self).tree() == old(self).tree().push(SNode { ty: SType::List(Seq::empty()), parent: 0 })
                && final(self).predefined() == old(self).predefined().push((ident@, l.node())),
            lookup(final(self).predefined(), ident@) == Some(l.node()),
    {
        proof {
            super::model::lemma_lookup_push(old(self).predefined(), ident@, old(self).tree().len() as usize, ident@);
        }
        if let Some(id) = find_key(&self.0.prelude, ident.as_str()) {
            return List { id };
        }
        let empty = NodeType::List(Vec::new());
        proof {
            assert(type_view(empty) =~= SType::List(Seq::empty()));
        }
        let id = self.add_predefined(empty);
        self.add_name(ident, id);
        List { id }
    }

    /// Defines `ident` as the value `value`; an earlier definition of the name is replaced.
    pub fn value(&mut self, ident: String, value: Value)
        requires
            old(self).wf(),
            old(self).tree().len() + 1 < usize::MAX,
        ensures
            final(self).wf(),
            final(self).tree() == old(self).tree().push(SNode { ty: SType::Value(prim_view(value)), parent: 0 }),
            final(self).predefined() == put_entry(old(self).predefined(), ident@, old(self).tree().len() as usize),
    {
        let id = self.add_predefined(NodeType::Value(value));
        self.put_name(ident, id);
    }

    /// Names `id` by `ident`, which is new.
    fn add_name(&mut self, ident: String, id: usize)
        requires
            old(self).wf(),
            is_ref(old(self).tree(), id as int),
            lookup(old(self).predefined(), ident@) is None,
        ensures
            final(self).wf(),
            final(self).tree() == old(self).tree(),
            final(self).predefined() == old(self).predefined().push((ident@, id)),
    {
        let ghost k = ident@;
        let ghost before = self.predefined();
        self.0.prelude.push((ident, id));
        proof {
            assert(self.predefined() =~= before.push((k, id)));
            assert forall|i: int| 0 <= i < self.predefined().len() implies #[trigger] is_ref(
                self.tree(),
                self.predefined()[i].1 as int,
            ) by {
                if i < before.len() {
                    assert(is_ref(self.tree(), before[i].1 as int));
                }
            }
        }
    }

    /// Names `id` by `ident`, replacing what the name stood for.
    fn put_name(&mut self, ident: String, id: usize)
        requires
            old(self).wf(),
            is_ref(old(self).tree(), id as int),
        ensures
            final(self).wf(),
            final(self).tree() == old(self).tree(),
            final(self).predefined() == put_entry(old(self).predefined(), ident@, id),
    {
        let ghost k = ident@;
        let ghost before = self.predefined();
        put_key(&mut self.0.prelude, ident, id);
        proof {
            lemma_key_index(before, k);
            assert forall|i: int| 0 <= i < self.predefined().len() implies #[trigger] is_ref(
                self.tree(),
                self.predefined()[i].1 as int,
            ) by {
                if i < before.len() && self.predefined()[i] == before[i] {
                    assert(is_ref(self.tree(), before[i].1 as int));
                }
            }
        }
    }

    /// The parser that reads configurations against this prelude.
    pub fn into_parser(self) -> (p: Parser)
        requires
            self.wf(),
        ensures
            p.wf(),
            p.tree() == self.tree(),
            p.predefined() == self.predefined(),
    {
        self.0
    }

    /// The child under `ident` of the object `parent`, made with type `ty` if the name is new
    /// there.
    fn child_in(&mut self, parent: usize, ident: String, ty: NodeType) -> (id: usize)
        requires
            old(self).wf(),
            is_ref(old(self).tree(), parent as int),
            old(self).tree()[parent as int].ty is Object,
            super::model::refs_ok(old(self).tree(), type_view(ty)),
            super::model::fresh(type_view(ty)),
            old(self).tree().len() + 1 < usize::MAX,
        ensures
            final(self).wf(),
            final(self).predefined() == old(self).predefined(),
            grows(old(self).tree(), final(self).tree()),
            is_ref(final(self).tree(), id as int),
            old(self).tree()[parent as int].ty matches SType::Object { children, .. } && (lookup(children, ident@) matches Some(
                c,
            ) ==> id == c && final(self).tree() == old(self).tree()) && (lookup(children, ident@) is None ==> (Ok::<usize, super::model::SConfigError>(id), final(self).tree()) == add_child(
                old(self).tree(),
                parent,
                ident@,
                type_view(ty),
            )),
    {
        let ghost t0 = self.tree();
        proof {
            assert(t0[parent as int] == node_view(self.0.nodes@[parent as int]));
        }
        let existing = match &self.0.nodes[parent].ty {
            NodeType::Object { children, .. } => {
                let c = find_key(children, ident.as_str());
                proof {
                    let es = entries_view(children@);
                    lemma_lookup_in(es, ident@);
                    super::model::lemma_children_refs(t0, t0[parent as int].ty);
                    if let Some(c) = c {
                        let k = choose|k: int| 0 <= k < es.len() && #[trigger] es[k].1 == c;
                        assert(is_ref(t0, es[k].1 as int));
                    }
                }
                c
            },
            _ => None,
        };
        if let Some(id) = existing {
            return id;
        }
        match self.0.add_child(parent, ident, ty) {
            Ok(id) => id,
            Err(_) => {
                proof {
                    assert(false);
                }
                0
            },
        }
    }

    /// Adds a node with `value` under `ident` in the object `parent`, replacing the entry
    /// that was under that name.
    fn value_in(&mut self, parent: usize, ident: String, value: Value) -> (id: usize)
        requires
            old(self).wf(),
            is_ref(old(self).tree(), parent as int),
            old(self).tree()[parent as int].ty is Object,
            old(self).tree().len() + 1 < usize::MAX,
        ensures
            final(self).wf(),
            final(self).predefined() == old(self).predefined(),
            grows(old(self).tree(), final(self).tree()),
            (id, final(self).tree()) == set_child(old(self).tree(), parent, ident@, SType::Value(prim_view(value))),
    {
        self.0.set_child(parent, ident, NodeType::Value(value))
    }

    /// Gives the object `obj` the argument names `args`.
    fn arguments_of(&mut self, obj: usize, args: Vec<String>)
        requires
            old(self).wf(),
            is_ref(old(self).tree(), obj as int),
            old(self).tree()[obj as int].ty is Object,
        ensures
            final(self).wf(),
            final(self).predefined() == old(self).predefined(),
            grows(old(self).tree(), final(self).tree()),
            old(self).tree()[obj as int].ty matches SType::Object { base, children, .. } && final(self).tree()
                == old(self).tree().update(
                obj as int,
                SNode {
                    ty: SType::Object { base, children, arguments: names_view(args@) },
                    ..old(self).tree()[obj as int]
                },
            ),
    {
        let ghost t0 = self.tree();
        let mut old_ty = NodeType::Unknown;
        std::mem::swap(&mut self.0.nodes[obj].ty, &mut old_ty);
        let ghost before = type_view(old_ty);
        let mut new_ty = match old_ty {
            NodeType::Object { base, children, .. } => NodeType::Object { base, children, arguments: args },
            other => other,
        };
        let ghost after = type_view(new_ty);
        proof {
            assert(t0[obj as int].ty == before);
            assert(super::model::refs_ok(t0, before));
            assert(super::model::refs_ok(t0, after));
            super::model::lemma_retype(t0, obj as int, after);
        }
        std::mem::swap(&mut self.0.nodes[obj].ty, &mut new_ty);
        proof {
            assert(self.tree() =~= t0.update(obj as int, SNode { ty: after, ..t0[obj as int] }));
            assert(self.predefined() == old(self).predefined());
            self.0.lemma_predefined_kept(t0);
        }
    }

    /// Adds a node of type `ty` as the last item of the list `list`.
    fn item_in(&mut self, list: usize, ty: NodeType) -> (id: usize)
        requires
            old(self).wf(),
            is_ref(old(self).tree(), list as int),
            old(self).tree()[list as int].ty is List,
            super::model::refs_ok(old(self).tree(), type_view(ty)),
            super::model::fresh(type_view(ty)),
            old(self).tree().len() + 1 < usize::MAX,
        ensures
            final(self).wf(),
            final(self).predefined() == old(self).predefined(),
            grows(old(self).tree(), final(self).tree()),
            (id, final(self).tree()) == add_item(old(self).tree(), list, type_view(ty)),
            final(self).tree()[id as int].ty == type_view(ty),
            is_ref(final(self).tree(), id as int),
    {
        self.0.add_item(list, ty)
    }
}

impl Object {
    /// The object under `ident` in this object, made if the name is new here.
    pub fn object(&self, prelude: &mut Prelude, ident: String) -> (o: Object)
        requires
            old(prelude).wf(),
            old(prelude).holds_object(*self),
            old(prelude).tree().len() + 1 < usize::MAX,
        ensures
            final(prelude).wf(),
            final(prelude).predefined() == old(prelude).predefined(),
            grows(old(prelude).tree(), final(prelude).tree()),
            old(prelude).tree()[self.node() as int].ty matches SType::Object { children, .. } && (lookup(
                children,
                ident@,
            ) matches Some(c) ==> o.node() == c && final(prelude).tree() == old(prelude).tree()) && (lookup(
                children,
                ident@,
            ) is None ==> (Ok::<usize, super::model::SConfigError>(o.node()), final(prelude).tree()) == add_child(
                old(prelude).tree(),
                self.node(),
                ident@,
                empty_object(),
            )),
    {
        Object { id: prelude.child_in(self.id, ident, new_object()) }
    }

    /// The list under `ident` in this object, made if the name is new here.
    pub fn list(&self, prelude: &mut Prelude, ident: String) -> (l: List)
        requires
            old(prelude).wf(),
            old(prelude).holds_object(*self),
            old(prelude).tree().len() + 1 < usize::MAX,
        ensures
            final(prelude).wf(),
            final(prelude).predefined() == old(prelude).predefined(),
            grows(old(prelude).tree(), final(prelude).tree()),
            old(prelude).tree()[self.node() as int].ty matches SType::Object { children, .. } && (lookup(
                children,
                ident@,
            ) matches Some(c) ==> l.node() == c && final(prelude).tree() == old(prelude).tree()) && (lookup(
                children,
                ident@,
            ) is None ==> (Ok::<usize, super::model::SConfigError>(l.node()), final(prelude).tree()) == add_child(
                old(prelude).tree(),
                self.node(),
                ident@,
                SType::List(Seq::empty()),
            )),
    {
        let empty = NodeType::List(Vec::new());
        proof {
            assert(type_view(empty) =~= SType::List(Seq::empty()));
        }
        List { id: prelude.child_in(self.id, ident, empty) }
    }

    /// Puts `value` under `ident` in this object, replacing what was there.
    pub fn value(&self, prelude: &mut Prelude, ident: String, value: Value)
        requires
            old(prelude).wf(),
            old(prelude).holds_object(*self),
            old(prelude).tree().len() + 1 < usize::MAX,
        ensures
            final(prelude).wf(),
            final(prelude).predefined() == old(prelude).predefined(),
            grows(old(prelude).tree(), final(prelude).tree()),
            final(prelude).tree() == set_child(
                old(prelude).tree(),
                self.node(),
                ident@,
                SType::Value(prim_view(value)),
            ).1,
    {
        prelude.value_in(self.id, ident, value);
    }

    /// Gives this object the argument names `args`, which values passed in order are
    /// assigned to.
    pub fn arguments(&self, prelude: &mut Prelude, args: Vec<String>)
        requires
            old(prelude).wf(),
            old(prelude).holds_object(*self),
        ensures
            final(prelude).wf(),
            final(prelude).predefined() == old(prelude).predefined(),
            grows(old(prelude).tree(), final(prelude).tree()),
            old(prelude).tree()[self.node() as int].ty matches SType::Object { base, children, .. } && final(prelude).tree() == old(prelude).tree().update(
                self.node() as int,
                SNode {
                    ty: SType::Object { base, children, arguments: names_view(args@) },
                    ..old(prelude).tree()[self.node() as int]
                },
            ),
    {
        prelude.arguments_of(self.id, args);
    }
}

impl List {
    /// Adds an empty object at the end of this list.
    pub fn object(&self, prelude: &mut Prelude) -> (o: Object)
        requires
            old(prelude).wf(),
            old(prelude).holds_list(*self),
            old(prelude).tree().len() + 1 < usize::MAX,
        ensures
            final(prelude).wf(),
            final(prelude).predefined() == old(prelude).predefined(),
            grows(old(prelude).tree(), final(prelude).tree()),
            (o.node(), final(prelude).tree()) == add_item(old(prelude).tree(), self.node(), empty_object()),
            final(prelude).holds_object(o),
    {
        Object { id: prelude.item_in(self.id, new_object()) }
    }

    /// Adds an empty list at the end of this list.
    pub fn list(&self, prelude: &mut Prelude) -> (l: List)
        requires
            old(prelude).wf(),
            old(prelude).holds_list(*self),
            old(prelude).tree().len() + 1 < usize::MAX,
        ensures
            final(prelude).wf(),
            final(prelude).predefined() == old(prelude).predefined(),
            grows(old(prelude).tree(), final(prelude).tree()),
            (l.node(), final(prelude).tree()) == add_item(old(prelude).tree(), self.node(), SType::List(Seq::empty())),
            final(prelude).holds_list(l),
    {
        let empty = NodeType::List(Vec::new());
        proof {
            assert(type_view(empty) =~= SType::List(Seq::empty()));
        }
        List { id: prelude.item_in(self.id, empty) }
    }

    /// Adds `value` at the end of this list.
    pub fn value(&self, prelude: &mut Prelude, value: Value)
        requires
            old(prelude).wf(),
            old(prelude).holds_list(*self),
            old(prelude).tree().len() + 1 < usize::MAX,
        ensures
            final(prelude).wf(),
            final(prelude).predefined() == old(prelude).predefined(),
            grows(old(prelude).tree(), final(prelude).tree()),
            final(prelude).tree() == add_item(old(prelude).tree(), self.node(), SType::Value(prim_view(value))).1,
    {
        prelude.item_in(self.id, NodeType::Value(value));
    }
}

} // verus!
