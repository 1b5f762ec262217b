//! Reaching into a value by position or by key.

use crate::grammar::Tree;
use crate::order::{lookup, slot};
use crate::value::{lemma_view_dict, lemma_view_list, trees_of, Dict, Value};
use vstd::prelude::*;
use vstd::string::StringSliceAdditionalSpecFns;
use vstd::utf8::encode_utf8;

verus! {

/// Something that picks a value out of another: a position in a list, a key
/// in a dictionary.
pub trait Index {
    /// What the index picks out of `t`.
    spec fn pick(&self, t: Tree) -> Option<Tree>;

    /// The value that the index picks out of `v`.
    fn index<'a>(&self, v: &'a Value) -> (r: Option<&'a Value>)
        ensures
            match r {
                Some(x) => self.pick(v@) == Some(x@),
                None => self.pick(v@) is None,
            },
    ;

    /// `t` with `x` in the place of what the index picks out of it.
    spec fn put_back(&self, t: Tree, x: Tree) -> Tree;

    /// The value that the index picks out of `v`, to be changed in place:
    /// what it is changed to takes its place in `v`.
    fn index_mut<'a>(&self, v: &'a mut Value) -> (r: Option<&'a mut Value>)
        ensures
            match r {
                Some(x) => self.pick(old(v)@) == Some(x@) && final(v)@ == self.put_back(
                    old(v)@,
                    final(x)@,
                ),
                None => self.pick(old(v)@) is None && *final(v) == *old(v),
            },
    ;
}

impl Index for usize {
    open spec fn pick(&self, t: Tree) -> Option<Tree> {
        match t {
            Tree::List(items) => if *self < items.len() {
                Some(items[*self as int])
            } else {
                None
            },
            _ => None,
        }
    }

    fn index<'a>(&self, v: &'a Value) -> (r: Option<&'a Value>) {
        match v {
            Value::List(items) => if *self < items.len() {
                Some(&items[*self])
            } else {
                None
            },
            _ => None,
        }
    }

    open spec fn put_back(&self, t: Tree, x: Tree) -> Tree {
        match t {
            Tree::List(items) => Tree::List(items.update(*self as int, x)),
            _ => t,
        }
    }

    fn index_mut<'a>(&self, v: &'a mut Value) -> (r: Option<&'a mut Value>) {
        match v {
            Value::List(items) => if *self < items.len() {
                let ghost before = *items;
                let item: &mut Value = &mut items[*self];
                proof {
                    lemma_view_list(before);
                    assert forall|after: Vec<Value>|
                        after@ == before@.update(
                            *self as int,
                            *final(item),
                        ) implies #[trigger] Value::List(after)@ == Tree::List(
                        trees_of(before@).update(*self as int, final(item)@),
                    ) by {
                        lemma_view_list(after);
                        assert(trees_of(after@) =~= trees_of(before@).update(
                            *self as int,
                            final(item)@,
                        ));
                    }
                }
                Some(item)
            } else {
                None
            },
            _ => None,
        }
    }
}

impl Index for str {
    open spec fn pick(&self, t: Tree) -> Option<Tree> {
        match t {
            Tree::Dict(entries) => lookup(entries, self.spec_bytes()),
            _ => None,
        }
    }

    fn index<'a>(&self, v: &'a Value) -> (r: Option<&'a Value>) {
        match v {
            Value::Dict(d) => {
                proof {
                    lemma_view_dict(*d);
                }
                d.get(self.as_bytes())
            },
            _ => None,
        }
    }

    open spec fn put_back(&self, t: Tree, x: Tree) -> Tree {
        match t {
            Tree::Dict(entries) => Tree::Dict(
                entries.update(slot(entries, self.spec_bytes()), (self.spec_bytes(), x)),
            ),
            _ => t,
        }
    }

    fn index_mut<'a>(&self, v: &'a mut Value) -> (r: Option<&'a mut Value>) {
        match v {
            Value::Dict(d) => {
                proof {
                    lemma_view_dict(*d);
                    assert forall|after: Dict| #[trigger] Value::Dict(after)@ == Tree::Dict(
                        after@,
                    ) by {
                        lemma_view_dict(after);
                    }
                }
                d.get_mut(self.as_bytes())
            },
            _ => None,
        }
    }
}

impl Index for String {
    open spec fn pick(&self, t: Tree) -> Option<Tree> {
        match t {
            Tree::Dict(entries) => lookup(entries, encode_utf8(self@)),
            _ => None,
        }
    }

    fn index<'a>(&self, v: &'a Value) -> (r: Option<&'a Value>) {
        self.as_str().index(v)
    }

    open spec fn put_back(&self, t: Tree, x: Tree) -> Tree {
        match t {
            Tree::Dict(entries) => Tree::Dict(
                entries.update(slot(entries, encode_utf8(self@)), (encode_utf8(self@), x)),
            ),
            _ => t,
        }
    }

    fn index_mut<'a>(&self, v: &'a mut Value) -> (r: Option<&'a mut Value>) {
        self.as_str().index_mut(v)
    }
}

impl<'s, T: Index + ?Sized> Index for &'s T {
    open spec fn pick(&self, t: Tree) -> Option<Tree> {
        (**self).pick(t)
    }

    fn index<'a>(&self, v: &'a Value) -> (r: Option<&'a Value>) {
        (**self).index(v)
    }

    open spec fn put_back(&self, t: Tree, x: Tree) -> Tree {
        (**self).put_back(t, x)
    }

    fn index_mut<'a>(&self, v: &'a mut Value) -> (r: Option<&'a mut Value>) {
        (**self).index_mut(v)
    }
}

impl Value {
    /// The value that `index` picks out of this one: the item at a position
    /// of a list, the value under a key of a dictionary.
    pub fn get<I: Index>(&self, index: I) -> (r: Option<&Value>)
        ensures
            match r {
                Some(x) => index.pick(self@) == Some(x@),
                None => index.pick(self@) is None,
            },
    {
        index.index(self)
    }

    /// The value that `index` picks out of this one, to be changed in place:
    /// what it is changed to takes its place in this value.
    pub fn get_mut<I: Index>(&mut self, index: I) -> (r: Option<&mut Value>)
        ensures
            match r {
                Some(x) => index.pick(old(self)@) == Some(x@) && final(self)@ == index.put_back(
                    old(self)@,
                    final(x)@,
                ),
                None => index.pick(old(self)@) is None && *final(self) == *old(self),
            },
    {
        index.index_mut(self)
    }
}

} // verus!
