//! Reading a finished configuration: entries, lists and objects, and decoding them.
use vstd::prelude::*;

use super::model::{Nodes, SPrim, SType, concrete, is_ref, lookup, lookup_from, refs_ok, lemma_follow, lemma_lookup_in,
    lemma_list_refs, lemma_children_refs};
use super::{Parser, NodeType, Value, entries_view, prim_view, find_key};
use crate::syntax::Number;

verus! {

/// An entry in a parsed configuration.
#[derive(Clone, Copy)]
pub struct Entry<'a> {
    cfg: &'a Parser,
    id: usize,
}

/// A list in a parsed configuration.
#[derive(Clone, Copy)]
pub struct List<'a> {
    cfg: &'a Parser,
    list: &'a Vec<usize>,
}

/// An object in a parsed configuration.
#[derive(Clone, Copy)]
pub struct Object<'a> {
    cfg: &'a Parser,
    template: Option<usize>,
    children: &'a Vec<(String, usize)>,
}

impl<'a> Entry<'a> {
    /// The tree that the entry belongs to.
    pub closed spec fn tree(&self) -> Nodes {
        self.cfg.tree()
    }

    /// The node of the entry.
    pub closed spec fn node(&self) -> usize {
        self.id
    }

    /// The entry names a node of a whole tree.
    pub closed spec fn valid(&self) -> bool {
        self.cfg.wf() && is_ref(self.cfg.tree(), self.id as int)
    }

    /// The entry of the node `id` in the same configuration.
    pub closed spec fn at(&self, id: usize) -> Entry<'a> {
        Entry { cfg: self.cfg, id }
    }

    /// An entry of the same configuration has that configuration's tree and its node.
    pub proof fn lemma_at(&self, id: usize)
        ensures
            self.at(id).tree() == self.tree(),
            self.at(id).node() == id,
            self.valid() && is_ref(self.tree(), id as int) ==> self.at(id).valid(),
    {
    }

    /// The node that the entry stands for once its links are followed.
    pub open spec fn target(&self) -> usize {
        concrete(self.tree(), self.node())
    }

    /// The root entry of a parser.
    pub fn root_of(cfg: &'a Parser) -> (e: Entry<'a>)
        ensures
            e.tree() == cfg.tree(),
            e.node() == 0,
            cfg.wf() ==> e.valid(),
    {
        Entry { cfg, id: 0 }
    }

    /// This entry as a primitive value, if it is one.
    pub fn as_value(&self) -> (r: Option<&'a Value>)
        requires
            self.valid(),
        ensures
            r matches Some(v) ==> self.tree()[self.target() as int].ty == SType::Value(prim_view(*v)),
            r is None ==> !(self.tree()[self.target() as int].ty is Value),
    {
        let c = self.cfg.concrete_id(self.id);
        proof {
            assert(self.tree()[c as int] == super::node_view(self.cfg.nodes@[c as int]));
        }
        match &self.cfg.nodes[c].ty {
            NodeType::Value(v) => Some(v),
            _ => None,
        }
    }

    /// This entry as a list, if it is one.
    pub fn as_list(&self) -> (r: Option<List<'a>>)
        requires
            self.valid(),
        ensures
            r matches Some(l) ==> l.valid() && l.tree() == self.tree() && self.tree()[self.target() as int].ty
                == SType::List(l.items()),
            r matches Some(l) ==> forall|id: usize| #[trigger] l.entry(id) == self.at(id),
            r is None ==> !(self.tree()[self.target() as int].ty is List),
    {
        let c = self.cfg.concrete_id(self.id);
        proof {
            assert(self.tree()[c as int] == super::node_view(self.cfg.nodes@[c as int]));
            assert(refs_ok(self.tree(), self.tree()[c as int].ty));
        }
        match &self.cfg.nodes[c].ty {
            NodeType::List(list) => {
                let l = List { cfg: self.cfg, list };
                proof {
                    assert(self.tree()[c as int].ty == SType::List(list@));
                    lemma_list_refs(self.tree(), list@);
                }
                Some(l)
            },
            _ => None,
        }
    }

    /// This entry as an object, if it is one.
    pub fn as_object(&self) -> (r: Option<Object<'a>>)
        requires
            self.valid(),
        ensures
            r matches Some(o) ==> o.valid() && o.tree() == self.tree() && (self.tree()[self.target() as int].ty
                matches SType::Object { base, children, .. } && o.template() == base && o.children()
                == children),
            r is None ==> !(self.tree()[self.target() as int].ty is Object),
    {
        let c = self.cfg.concrete_id(self.id);
        proof {
            assert(self.tree()[c as int] == super::node_view(self.cfg.nodes@[c as int]));
            assert(refs_ok(self.tree(), self.tree()[c as int].ty));
        }
        match &self.cfg.nodes[c].ty {
            NodeType::Object { base, children, .. } => {
                let o = Object { cfg: self.cfg, template: *base, children };
                proof {
                    lemma_children_refs(self.tree(), self.tree()[c as int].ty);
                    assert forall|i: int| 0 <= i < children@.len() implies #[trigger] is_ref(self.cfg.tree(), children@[i].1 as int) by {
                        assert(entries_view(children@)[i].1 == children@[i].1);
                    }
                }
                Some(o)
            },
            _ => None,
        }
    }

    /// The entry under `key` of this entry, which is an object that has such an entry.
    pub fn get(&self, key: &str) -> (e: Entry<'a>)
        requires
            self.valid(),
            self.tree()[self.target() as int].ty matches SType::Object { base, children, .. } && lookup_from(
                self.tree(),
                children,
                base,
                key@,
                self.tree().len(),
            ) is Some,
        ensures
            e.valid(),
            e.tree() == self.tree(),
            self.tree()[self.target() as int].ty matches SType::Object { base, children, .. } && lookup_from(
                self.tree(),
                children,
                base,
                key@,
                self.tree().len(),
            ) == Some(e.node()),
    {
        let o = self.as_object().unwrap();
        o.get(key).unwrap()
    }

    /// The item at `index` of this entry, which is a list that long.
    pub fn index(&self, index: usize) -> (e: Entry<'a>)
        requires
            self.valid(),
            self.tree()[self.target() as int].ty matches SType::List(items) && index < items.len(),
        ensures
            e.valid(),
            e.tree() == self.tree(),
            self.tree()[self.target() as int].ty matches SType::List(items) && items[index as int] == e.node(),
    {
        let l = self.as_list().unwrap();
        l.get(index).unwrap()
    }

    /// Decodes this entry as a `T`: what `T::from_entry` gives for it.
    pub fn decode<T: FromEntry<'a>>(&self) -> (r: Result<T, String>)
        requires
            self.valid(),
        ensures
            call_ensures(T::from_entry, (*self,), r),
    {
        T::from_entry(*self)
    }
}

impl<'a> List<'a> {
    pub closed spec fn tree(&self) -> Nodes {
        self.cfg.tree()
    }

    /// The entry of the node `id` in the list's configuration.
    pub closed spec fn entry(&self, id: usize) -> Entry<'a> {
        Entry { cfg: self.cfg, id }
    }

    /// The nodes of the items, in order.
    pub closed spec fn items(&self) -> Seq<usize> {
        self.list@
    }

    pub closed spec fn valid(&self) -> bool {
        &&& self.cfg.wf()
        &&& forall|i: int| 0 <= i < self.list@.len() ==> #[trigger] is_ref(self.cfg.tree(), self.list@[i] as int)
    }

    /// The item at `index`, if the list is that long.
    pub fn get(&self, index: usize) -> (r: Option<Entry<'a>>)
        requires
            self.valid(),
        ensures
            index < self.items().len() ==> (r matches Some(e) && e.valid() && e.tree() == self.tree() && e.node()
                == self.items()[index as int]),
            index >= self.items().len() ==> r is None,
    {
        if index < self.list.len() {
            proof {
                assert(is_ref(self.cfg.tree(), self.list@[index as int] as int));
            }
            Some(Entry { cfg: self.cfg, id: self.list[index] })
        } else {
            None
        }
    }

    /// The items, in order.
    pub fn iter(&self) -> (r: Vec<Entry<'a>>)
        requires
            self.valid(),
        ensures
            r@.len() == self.items().len(),
            forall|i: int|
                0 <= i < r@.len() ==> #[trigger] r@[i].node() == self.items()[i] && r@[i].valid() && r@[i].tree()
                    == self.tree(),
            forall|i: int| 0 <= i < r@.len() ==> #[trigger] r@[i] == self.entry(self.items()[i]),
    {
        let mut out: Vec<Entry<'a>> = Vec::new();
        let mut i: usize = 0;
        while i < self.list.len()
            invariant
                self.valid(),
                0 <= i <= self.list@.len(),
                out@.len() == i,
                forall|k: int|
                    0 <= k < i ==> #[trigger] out@[k].node() == self.items()[k] && out@[k].valid() && out@[k].tree()
                        == self.tree(),
                forall|k: int| 0 <= k < i ==> #[trigger] out@[k] == self.entry(self.items()[k]),
            decreases self.list@.len() - i,
        {
            proof {
                assert(is_ref(self.cfg.tree(), self.list@[i as int] as int));
            }
            out.push(Entry { cfg: self.cfg, id: self.list[i] });
            i = i + 1;
        }
        out
    }

    /// The number of items.
    pub fn len(&self) -> (n: usize)
        ensures
            n == self.items().len(),
    {
        self.list.len()
    }
}

impl<'a> Object<'a> {
    pub closed spec fn tree(&self) -> Nodes {
        self.cfg.tree()
    }

    /// The object's own entries.
    pub closed spec fn children(&self) -> Seq<(Seq<char>, usize)> {
        entries_view(self.children@)
    }

    /// The object that this one extends, if any.
    pub closed spec fn template(&self) -> Option<usize> {
        self.template
    }

    pub closed spec fn valid(&self) -> bool {
        &&& self.cfg.wf()
        &&& (self.template matches Some(t) ==> is_ref(self.cfg.tree(), t as int))
        &&& forall|i: int|
            0 <= i < self.children@.len() ==> #[trigger] is_ref(self.cfg.tree(), self.children@[i].1 as int)
    }

    /// The entry under `key`, looked up in the object and then along its bases.
    pub fn get(&self, key: &str) -> (r: Option<Entry<'a>>)
        requires
            self.valid(),
        ensures
            r matches Some(e) ==> e.valid() && e.tree() == self.tree() && Some(e.node()) == lookup_from(
                self.tree(),
                self.children(),
                self.template(),
                key@,
                self.tree().len(),
            ),
            r is None ==> lookup_from(self.tree(), self.children(), self.template(), key@, self.tree().len()) is None,
    {
        let ghost t = self.tree();
        let mut children = self.children;
        let mut template = self.template;
        let mut fuel: usize = self.cfg.nodes.len();
        proof {
            assert(self.cfg.nodes@.len() == t.len());
        }
        loop
            invariant
                self.valid(),
                t == self.tree(),
                fuel <= t.len(),
                template matches Some(b) ==> is_ref(t, b as int),
                forall|i: int| 0 <= i < children@.len() ==> #[trigger] is_ref(t, children@[i].1 as int),
                lookup_from(t, self.children(), self.template(), key@, t.len()) == lookup_from(
                    t,
                    entries_view(children@),
                    template,
                    key@,
                    fuel as nat,
                ),
            decreases fuel,
        {
            if let Some(child) = find_key(children, key) {
                proof {
                    let es = entries_view(children@);
                    lemma_lookup_in(es, key@);
                    let k = choose|k: int| 0 <= k < es.len() && #[trigger] es[k].1 == child;
                    assert(is_ref(t, children@[k].1 as int));
                }
                return Some(Entry { cfg: self.cfg, id: child });
            }
            match template {
                None => {
                    return None;
                },
                Some(b) => {
                    if fuel == 0 {
                        return None;
                    }
                    let c = self.cfg.concrete_id(b);
                    proof {
                        assert(t[c as int] == super::node_view(self.cfg.nodes@[c as int]));
                        assert(refs_ok(t, t[c as int].ty));
                    }
                    match &self.cfg.nodes[c].ty {
                        NodeType::Object { base, children: c2, .. } => {
                            proof {
                                lemma_children_refs(t, t[c as int].ty);
                                assert forall|i: int| 0 <= i < c2@.len() implies #[trigger] is_ref(t, c2@[i].1 as int) by {
                                    assert(entries_view(c2@)[i].1 == c2@[i].1);
                                }
                            }
                            children = c2;
                            template = *base;
                        },
                        _ => {
                            return None;
                        },
                    }
                },
            }
            fuel = fuel - 1;
        }
    }

    /// The object's own entries, with their keys.
    pub fn iter(&self) -> (r: Vec<(&'a str, Entry<'a>)>)
        requires
            self.valid(),
        ensures
            r@.len() == self.children().len(),
            forall|i: int|
                0 <= i < r@.len() ==> #[trigger] r@[i].0@ == self.children()[i].0 && r@[i].1.node()
                    == self.children()[i].1 && r@[i].1.valid() && r@[i].1.tree() == self.tree(),
    {
        let mut out: Vec<(&'a str, Entry<'a>)> = Vec::new();
        let mut i: usize = 0;
        while i < self.children.len()
            invariant
                self.valid(),
                0 <= i <= self.children@.len(),
                out@.len() == i,
                forall|k: int|
                    0 <= k < i ==> #[trigger] out@[k].0@ == self.children()[k].0 && out@[k].1.node()
                        == self.children()[k].1 && out@[k].1.valid() && out@[k].1.tree() == self.tree(),
            decreases self.children@.len() - i,
        {
            proof {
                assert(is_ref(self.cfg.tree(), self.children@[i as int].1 as int));
            }
            let (key, id) = &self.children[i];
            out.push((key.as_str(), Entry { cfg: self.cfg, id: *id }));
            i = i + 1;
        }
        out
    }
}

/// Types that can be read from an entry.
pub trait FromEntry<'a>: Sized {
    /// Reads a value of this type from `entry`, or says why it cannot.
    fn from_entry(entry: Entry<'a>) -> Result<Self, String>
        requires
            entry.valid(),
    ;
}

/// One of the items `items` of the list that `entry` stands for fails to decode as a
/// `T`, with the error `e`.
pub open spec fn item_fails<'a, T: FromEntry<'a>>(entry: Entry<'a>, items: Seq<usize>, e: String) -> bool {
    exists|k: int|
        0 <= k < items.len() && #[trigger] call_ensures(T::from_entry, (entry.at(items[k]),), Err::<T, String>(e))
}

/// The entry stands for a node that holds the integer `i`.
pub open spec fn holds_integer(entry: Entry, i: i64) -> bool {
    entry.tree()[entry.target() as int].ty == SType::Value(SPrim::Number(Number::Integer(i)))
}

/// The integer that `entry` holds.
fn integer_of(entry: Entry) -> (r: Result<i64, String>)
    requires
        entry.valid(),
    ensures
        r matches Ok(i) ==> holds_integer(entry, i),
        r is Err ==> !(entry.tree()[entry.target() as int].ty matches SType::Value(SPrim::Number(Number::Integer(_)))),
{
    match entry.as_value() {
        Some(Value::Number(Number::Integer(i))) => Ok(*i),
        Some(_) => Err("expected an integer".to_owned()),
        None => Err("expected a value".to_owned()),
    }
}

impl<'a> FromEntry<'a> for i64 {
    fn from_entry(entry: Entry<'a>) -> (r: Result<i64, String>)
        ensures
            r matches Ok(i) ==> holds_integer(entry, i),
            r is Err ==> !(entry.tree()[entry.target() as int].ty matches SType::Value(SPrim::Number(Number::Integer(_)))),
    {
        integer_of(entry)
    }
}

impl<'a> FromEntry<'a> for i32 {
    fn from_entry(entry: Entry<'a>) -> (r: Result<i32, String>)
        ensures
            r matches Ok(x) ==> exists|i: i64| holds_integer(entry, i) && x == i as i32,
            r is Err ==> !(entry.tree()[entry.target() as int].ty matches SType::Value(SPrim::Number(Number::Integer(_)))),
    {
        match integer_of(entry) {
            Ok(i) => Ok(i as i32),
            Err(e) => Err(e),
        }
    }
}

impl<'a> FromEntry<'a> for u32 {
    fn from_entry(entry: Entry<'a>) -> (r: Result<u32, String>)
        ensures
            r matches Ok(x) ==> exists|i: i64| holds_integer(entry, i) && x == i as u32,
            r is Err ==> !(entry.tree()[entry.target() as int].ty matches SType::Value(SPrim::Number(Number::Integer(_)))),
    {
        match integer_of(entry) {
            Ok(i) => Ok(i as u32),
            Err(e) => Err(e),
        }
    }
}

impl<'a> FromEntry<'a> for u64 {
    fn from_entry(entry: Entry<'a>) -> (r: Result<u64, String>)
        ensures
            r matches Ok(x) ==> exists|i: i64| holds_integer(entry, i) && x == i as u64,
            r is Err ==> !(entry.tree()[entry.target() as int].ty matches SType::Value(SPrim::Number(Number::Integer(_)))),
    {
        match integer_of(entry) {
            Ok(i) => Ok(i as u64),
            Err(e) => Err(e),
        }
    }
}

impl<'a> FromEntry<'a> for usize {
    fn from_entry(entry: Entry<'a>) -> (r: Result<usize, String>)
        ensures
            r matches Ok(x) ==> exists|i: i64| holds_integer(entry, i) && x == i as usize,
            r is Err ==> !(entry.tree()[entry.target() as int].ty matches SType::Value(SPrim::Number(Number::Integer(_)))),
    {
        match integer_of(entry) {
            Ok(i) => Ok(i as usize),
            Err(e) => Err(e),
        }
    }
}

impl<'a> FromEntry<'a> for Number {
    fn from_entry(entry: Entry<'a>) -> (r: Result<Number, String>)
        ensures
            r matches Ok(n) ==> entry.tree()[entry.target() as int].ty == SType::Value(SPrim::Number(n)),
            r is Err ==> !(entry.tree()[entry.target() as int].ty matches SType::Value(SPrim::Number(_))),
    {
        match entry.as_value() {
            Some(Value::Number(n)) => Ok(*n),
            Some(_) => Err("expected a number".to_owned()),
            None => Err("expected a value".to_owned()),
        }
    }
}

impl<'a> FromEntry<'a> for &'a str {
    fn from_entry(entry: Entry<'a>) -> (r: Result<&'a str, String>)
        ensures
            r matches Ok(s) ==> entry.tree()[entry.target() as int].ty == SType::Value(SPrim::String(s@)),
            r is Err ==> !(entry.tree()[entry.target() as int].ty matches SType::Value(SPrim::String(_))),
    {
        match entry.as_value() {
            Some(Value::String(s)) => Ok(s.as_str()),
            Some(_) => Err("expected a string".to_owned()),
            None => Err("expected a value".to_owned()),
        }
    }
}

impl<'a> FromEntry<'a> for String {
    fn from_entry(entry: Entry<'a>) -> (r: Result<String, String>)
        ensures
            r matches Ok(s) ==> entry.tree()[entry.target() as int].ty == SType::Value(SPrim::String(s@)),
            r is Err ==> !(entry.tree()[entry.target() as int].ty matches SType::Value(SPrim::String(_))),
    {
        match entry.as_value() {
            Some(Value::String(s)) => Ok(s.clone()),
            Some(_) => Err("expected a string".to_owned()),
            None => Err("expected a value".to_owned()),
        }
    }
}

impl<'a, T: FromEntry<'a>> FromEntry<'a> for Vec<T> {
    fn from_entry(entry: Entry<'a>) -> (r: Result<Vec<T>, String>)
        ensures
            !(entry.tree()[entry.target() as int].ty is List) ==> r is Err,
            r matches Ok(v) ==> (entry.tree()[entry.target() as int].ty matches SType::List(items) && v@.len()
                == items.len() && forall|k: int|
                0 <= k < items.len() ==> call_ensures(
                    T::from_entry,
                    (entry.at(items[k]),),
                    Ok::<T, String>(#[trigger] v@[k]),
                )),
            r matches Err(e) ==> (entry.tree()[entry.target() as int].ty matches SType::List(items) ==> item_fails::<T>(
                entry,
                items,
                e,
            )),
    {
        match entry.as_list() {
            Some(list) => {
                let items = list.iter();
                proof {
                    assert forall|k: int| 0 <= k < items@.len() implies #[trigger] items@[k] == entry.at(list.items()[k]) by {
                        assert(items@[k] == list.entry(list.items()[k]));
                    }
                    assert forall|k: int| 0 <= k < items@.len() implies #[trigger] items@[k].valid() by {
                        assert(items@[k].node() == list.items()[k]);
                    }
                }
                let mut out: Vec<T> = Vec::new();
                let mut i: usize = 0;
                while i < items.len()
                    invariant
                        0 <= i <= items@.len(),
                        out@.len() == i,
                        forall|k: int| 0 <= k < items@.len() ==> #[trigger] items@[k].valid(),
                        items@.len() == list.items().len(),
                        entry.tree()[entry.target() as int].ty == SType::List(list.items()),
                        forall|k: int| 0 <= k < items@.len() ==> #[trigger] items@[k] == entry.at(list.items()[k]),
                        forall|k: int|
                            0 <= k < i ==> call_ensures(
                                T::from_entry,
                                (entry.at(list.items()[k]),),
                                Ok::<T, String>(#[trigger] out@[k]),
                            ),
                    decreases items@.len() - i,
                {
                    match items[i].decode::<T>() {
                        Ok(v) => {
                            let ghost before = out@;
                            out.push(v);
                            proof {
                                assert forall|k: int| 0 <= k < i + 1 implies call_ensures(
                                    T::from_entry,
                                    (entry.at(list.items()[k]),),
                                    Ok::<T, String>(#[trigger] out@[k]),
                                ) by {
                                    if k < i {
                                        assert(out@[k] == before[k]);
                                    }
                                }
                            }
                        },
                        Err(e) => {
                            proof {
                                let ls = list.items();
                                assert(items@[i as int] == entry.at(ls[i as int]));
                                assert(call_ensures(T::from_entry, (entry.at(ls[i as int]),), Err::<T, String>(e)));
                                assert(item_fails::<T>(entry, ls, e));
                            }
                            return Err(e);
                        },
                    }
                    i = i + 1;
                }
                Ok(out)
            },
            None => Err("expected a list".to_owned()),
        }
    }
}

} // verus!
