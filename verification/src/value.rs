//! Values whose shape is not known before they are decoded.

use crate::bstring::ByteString;
use crate::grammar::Tree;
use crate::order::{
    bytes_before, bytes_equal, bytes_lt, lemma_lt_total, lemma_lt_transitive, lemma_slot, lookup,
    put, slot, slot_from, sorted,
};
use vstd::prelude::*;
use vstd::std_specs::cmp::PartialEqSpecImpl;
use vstd::string::StringSliceAdditionalSpecFns;
use vstd::utf8::valid_utf8;

mod convert;
mod index;
pub mod ser;

pub use index::Index;

verus! {

/// An integer, signed or unsigned. The grammar writes both alike; the tag
/// keeps whether the text had a `-` before it.
#[derive(Clone, Copy, Debug, PartialEq, Eq, Structural)]
pub enum Number {
    /// A signed integer.
    Signed(i64),
    /// An unsigned integer.
    Unsigned(u64),
}

impl Number {
    /// The integer that the number stands for.
    pub open spec fn value(self) -> int {
        match self {
            Number::Signed(i) => i as int,
            Number::Unsigned(u) => u as int,
        }
    }

    /// The number as an `i64`, if it fits.
    pub fn to_i64(self) -> (r: Option<i64>)
        ensures
            match r {
                Some(i) => i as int == self.value(),
                None => self.value() > i64::MAX,
            },
    {
        match self {
            Number::Signed(i) => Some(i),
            Number::Unsigned(u) => if u <= 0x7fff_ffff_ffff_ffff {
                Some(u as i64)
            } else {
                None
            },
        }
    }

    /// The number as a `u64`, if it is not negative.
    pub fn to_u64(self) -> (r: Option<u64>)
        ensures
            match r {
                Some(u) => u as int == self.value(),
                None => self.value() < 0,
            },
    {
        match self {
            Number::Signed(i) => if i >= 0 {
                Some(i as u64)
            } else {
                None
            },
            Number::Unsigned(u) => Some(u),
        }
    }
}

/// A dictionary: byte-string keys bound to values, held in ascending key
/// order, each key once.
#[derive(Debug)]
pub struct Dict {
    entries: Vec<(ByteString, Value)>,
}

/// A value: a byte string, an integer, a list or a dictionary. It owns all
/// that it holds.
#[derive(Debug)]
pub enum Value {
    /// A byte string.
    ByteStr(ByteString),
    /// An integer.
    Int(Number),
    /// A list of values.
    List(Vec<Value>),
    /// A dictionary of values.
    Dict(Dict),
}

/// The mathematical value of `v`.
pub open spec fn tree_of(v: Value) -> Tree
    decreases v,
{
    match v {
        Value::ByteStr(b) => Tree::ByteStr(b@),
        Value::Int(n) => Tree::Int(n),
        Value::List(items) => Tree::List(
            Seq::new(
                items@.len(),
                |i: int|
                    if 0 <= i < items@.len() {
                        tree_of(items@[i])
                    } else {
                        Tree::Int(Number::Unsigned(0))
                    },
            ),
        ),
        Value::Dict(d) => Tree::Dict(
            Seq::new(
                d.items().len(),
                |i: int|
                    if 0 <= i < d.items().len() {
                        (d.items()[i].0@, tree_of(d.items()[i].1))
                    } else {
                        (Seq::empty(), Tree::Int(Number::Unsigned(0)))
                    },
            ),
        ),
    }
}

/// The mathematical values of a sequence of values.
pub open spec fn trees_of(items: Seq<Value>) -> Seq<Tree> {
    Seq::new(items.len(), |i: int| tree_of(items[i]))
}

/// The mathematical entries of a sequence of entries.
pub open spec fn entries_of(entries: Seq<(ByteString, Value)>) -> Seq<(Seq<u8>, Tree)> {
    Seq::new(entries.len(), |i: int| (entries[i].0@, tree_of(entries[i].1)))
}

impl View for Value {
    type V = Tree;

    open spec fn view(&self) -> Tree {
        tree_of(*self)
    }
}

impl View for Dict {
    type V = Seq<(Seq<u8>, Tree)>;

    closed spec fn view(&self) -> Seq<(Seq<u8>, Tree)> {
        entries_of(self.entries@)
    }
}

/// The view of a list is the views of its items.
pub proof fn lemma_view_list(items: Vec<Value>)
    ensures
        Value::List(items)@ == Tree::List(trees_of(items@)),
{
    assert(tree_of(Value::List(items))->List_0 =~= trees_of(items@));
}

/// The view of a dictionary value is the view of the dictionary.
pub proof fn lemma_view_dict(d: Dict)
    ensures
        Value::Dict(d)@ == Tree::Dict(d@),
{
    assert(tree_of(Value::Dict(d))->Dict_0 =~= entries_of(d.entries@));
}

impl Dict {
    /// The entries as they are stored.
    pub closed spec fn items(&self) -> Seq<(ByteString, Value)> {
        self.entries@
    }

    /// Whether the keys ascend strictly. Every dictionary that was made by
    /// `new` and `insert`, or decoded, is so.
    pub open spec fn wf(&self) -> bool {
        sorted(self@)
    }

    /// An empty dictionary.
    pub fn new() -> (r: Self)
        ensures
            r@ == Seq::<(Seq<u8>, Tree)>::empty(),
            r.wf(),
    {
        let r = Dict { entries: Vec::new() };
        assert(entries_of(r.entries@) =~= Seq::empty());
        r
    }

    /// The number of entries.
    pub fn len(&self) -> (r: usize)
        ensures
            r == self@.len(),
    {
        self.entries.len()
    }

    /// Whether there are no entries.
    pub fn is_empty(&self) -> (r: bool)
        ensures
            r == (self@.len() == 0),
    {
        self.entries.len() == 0
    }

    /// Where `key` belongs among the entries.
    fn find(&self, key: &[u8]) -> (r: usize)
        ensures
            r == slot(self@, key@),
            r <= self@.len(),
    {
        let mut i: usize = 0;
        proof {
            lemma_slot(self@, key@, 0);
        }
        while i < self.entries.len() && bytes_before(self.entries[i].0.as_slice(), key)
            invariant
                i <= self.entries@.len(),
                self@.len() == self.entries@.len(),
                slot_from(self@, key@, 0) == slot_from(self@, key@, i as int),
            decreases self.entries@.len() - i,
        {
            i += 1;
        }
        i
    }

    /// The value that `key` is bound to.
    pub fn get(&self, key: &[u8]) -> (r: Option<&Value>)
        ensures
            match r {
                Some(v) => lookup(self@, key@) == Some(v@),
                None => lookup(self@, key@) is None,
            },
    {
        let i: usize = self.find(key);
        if i < self.entries.len() && bytes_equal(self.entries[i].0.as_slice(), key) {
            Some(&self.entries[i].1)
        } else {
            None
        }
    }

    /// The value that `key` is bound to, to be changed in place.
    pub fn get_mut(&mut self, key: &[u8]) -> (r: Option<&mut Value>)
        ensures
            match r {
                Some(v) => lookup(old(self)@, key@) == Some(v@) && final(self)@
                    == old(self)@.update(slot(old(self)@, key@), (key@, final(v)@)),
                None => lookup(old(self)@, key@) is None && *final(self) == *old(self),
            },
    {
        let i: usize = self.find(key);
        if i < self.entries.len() && bytes_equal(self.entries[i].0.as_slice(), key) {
            let ghost before = self.entries@;
            let item: &mut Value = &mut self.entries[i].1;
            proof {
                assert(entries_of(before.update(i as int, (before[i as int].0, *final(item))))
                    =~= entries_of(before).update(i as int, (key@, final(item)@)));
            }
            Some(item)
        } else {
            None
        }
    }

    /// The entry at `index`, counted in key order.
    pub fn entry(&self, index: usize) -> (r: Option<(&ByteString, &Value)>)
        ensures
            match r {
                Some((k, v)) => index < self@.len() && self@[index as int] == (k@, v@),
                None => index >= self@.len(),
            },
    {
        if index < self.entries.len() {
            Some((&self.entries[index].0, &self.entries[index].1))
        } else {
            None
        }
    }

    /// Gives up the dictionary for its entries, in key order.
    pub fn into_entries(self) -> (r: Vec<(ByteString, Value)>)
        ensures
            entries_of(r@) == self@,
    {
        self.entries
    }

    /// Binds `key` to `value`. An entry with the same key gives way;
    /// otherwise the entry goes where the order of keys puts it.
    pub fn insert(&mut self, key: ByteString, value: Value)
        ensures
            final(self)@ == put(old(self)@, key@, value@),
            old(self).wf() ==> final(self).wf(),
    {
        let i: usize = self.find(key.as_slice());
        let ghost before = self@;
        if i < self.entries.len() && bytes_equal(self.entries[i].0.as_slice(), key.as_slice()) {
            proof {
                if sorted(before) {
                    lemma_put_sorted(before, key@, value@);
                }
                assert(entries_of(self.entries@.update(i as int, (key, value))) =~= before.update(
                    i as int,
                    (key@, value@),
                ));
            }
            self.entries[i] = (key, value);
        } else {
            proof {
                if sorted(before) {
                    lemma_put_sorted(before, key@, value@);
                }
                assert(entries_of(self.entries@.insert(i as int, (key, value))) =~= before.insert(
                    i as int,
                    (key@, value@),
                ));
            }
            self.entries.insert(i, (key, value));
        }
    }
}

/// Binding a key in a sorted sequence of entries leaves it sorted.
pub proof fn lemma_put_sorted<V>(d: Seq<(Seq<u8>, V)>, k: Seq<u8>, v: V)
    requires
        sorted(d),
    ensures
        sorted(put(d, k, v)),
{
    let i: int = slot(d, k);
    lemma_slot(d, k, 0);
    let r = put(d, k, v);
    if i < d.len() && d[i].0 == k {
        assert forall|a: int, b: int| 0 <= a < b < r.len() implies bytes_lt(
            #[trigger] r[a].0,
            #[trigger] r[b].0,
        ) by {
            assert(bytes_lt(d[a].0, d[b].0));
        }
    } else {
        assert forall|a: int, b: int| 0 <= a < b < r.len() implies bytes_lt(
            #[trigger] r[a].0,
            #[trigger] r[b].0,
        ) by {
            if b < i {
                assert(bytes_lt(d[a].0, d[b].0));
            } else if b == i {
                assert(bytes_lt(d[a].0, k));
            } else if a < i {
                assert(bytes_lt(d[a].0, d[b - 1].0));
            } else if a == i {
                // k comes before the entry at the slot, and so before all after it
                if !bytes_lt(k, d[i].0) {
                    lemma_lt_total(k, d[i].0, 0);
                }
                if b - 1 > i {
                    assert(bytes_lt(d[i].0, d[b - 1].0));
                    lemma_lt_transitive(k, d[i].0, d[b - 1].0, 0);
                }
            } else {
                assert(bytes_lt(d[a - 1].0, d[b - 1].0));
            }
        }
    }
}

/// Calls `core::str::from_utf8`, which reads bytes as text. Trusted: it
/// gives text exactly when the bytes are valid UTF-8, and the text has those
/// bytes.
#[verifier::external_body]
fn utf8_text(bytes: &[u8]) -> (r: Option<&str>)
    ensures
        r is Some <==> valid_utf8(bytes@),
        r matches Some(text) ==> text.spec_bytes() == bytes@,
{
    core::str::from_utf8(bytes).ok()
}

/// Calls `core::str::from_utf8_mut`, which reads bytes as text that can be
/// changed in place. Trusted: it gives text exactly when the bytes are valid
/// UTF-8; the text has those bytes, and the bytes become those of the text
/// as it is left.
#[verifier::external_body]
fn utf8_text_mut(bytes: &mut [u8]) -> (r: Option<&mut str>)
    ensures
        r is Some <==> valid_utf8(old(bytes)@),
        match r {
            Some(text) => text.spec_bytes() == old(bytes)@ && final(bytes)@
                == final(text).spec_bytes(),
            None => final(bytes)@ == old(bytes)@,
        },
{
    core::str::from_utf8_mut(bytes).ok()
}

impl Value {
    /// The byte string, if the value is one.
    pub fn as_byte_str(&self) -> (r: Option<&ByteString>)
        ensures
            match r {
                Some(b) => *self == Value::ByteStr(*b),
                None => !(self is ByteStr),
            },
    {
        match self {
            Value::ByteStr(b) => Some(b),
            _ => None,
        }
    }

    /// The byte string, to be changed in place, if the value is one.
    pub fn as_byte_str_mut(&mut self) -> (r: Option<&mut ByteString>)
        ensures
            match r {
                Some(b) => *old(self) == Value::ByteStr(*b) && *final(self) == Value::ByteStr(
                    *final(b),
                ),
                None => !(*old(self) is ByteStr) && *final(self) == *old(self),
            },
    {
        match self {
            Value::ByteStr(b) => Some(b),
            _ => None,
        }
    }

    /// The text, if the value is a byte string that holds valid UTF-8.
    pub fn as_str(&self) -> (r: Option<&str>)
        ensures
            match r {
                Some(text) => self@ == Tree::ByteStr(text.spec_bytes()) && valid_utf8(
                    text.spec_bytes(),
                ),
                None => self@ matches Tree::ByteStr(b) ==> !valid_utf8(b),
            },
    {
        match self {
            Value::ByteStr(b) => utf8_text(b.as_slice()),
            _ => None,
        }
    }

    /// The text, to be changed in place, if the value is a byte string that
    /// holds valid UTF-8.
    pub fn as_str_mut(&mut self) -> (r: Option<&mut str>)
        ensures
            match r {
                Some(text) => old(self)@ == Tree::ByteStr(text.spec_bytes()) && valid_utf8(
                    text.spec_bytes(),
                ) && final(self)@ == Tree::ByteStr(final(text).spec_bytes()),
                None => !(old(self)@ matches Tree::ByteStr(b) && valid_utf8(b)) && final(self)@
                    == old(self)@,
            },
    {
        match self {
            Value::ByteStr(b) => utf8_text_mut(b.as_mut_vec().as_mut_slice()),
            _ => None,
        }
    }

    /// The number, if the value is one.
    pub fn as_number(&self) -> (r: Option<&Number>)
        ensures
            match r {
                Some(n) => *self == Value::Int(*n),
                None => !(self is Int),
            },
    {
        match self {
            Value::Int(n) => Some(n),
            _ => None,
        }
    }

    /// The number, if the value is an unsigned one.
    pub fn as_u64(&self) -> (r: Option<u64>)
        ensures
            match r {
                Some(u) => *self == Value::Int(Number::Unsigned(u)),
                None => !(self matches Value::Int(Number::Unsigned(_))),
            },
    {
        match self {
            Value::Int(Number::Unsigned(n)) => Some(*n),
            _ => None,
        }
    }

    /// The number, if the value is a signed one.
    pub fn as_i64(&self) -> (r: Option<i64>)
        ensures
            match r {
                Some(i) => *self == Value::Int(Number::Signed(i)),
                None => !(self matches Value::Int(Number::Signed(_))),
            },
    {
        match self {
            Value::Int(Number::Signed(n)) => Some(*n),
            _ => None,
        }
    }

    /// The items, if the value is a list.
    pub fn as_array(&self) -> (r: Option<&Vec<Value>>)
        ensures
            match r {
                Some(items) => *self == Value::List(*items),
                None => !(self is List),
            },
    {
        match self {
            Value::List(l) => Some(l),
            _ => None,
        }
    }

    /// The items, to be changed in place, if the value is a list.
    pub fn as_array_mut(&mut self) -> (r: Option<&mut Vec<Value>>)
        ensures
            match r {
                Some(items) => *old(self) == Value::List(*items) && *final(self) == Value::List(
                    *final(items),
                ),
                None => !(*old(self) is List) && *final(self) == *old(self),
            },
    {
        match self {
            Value::List(l) => Some(l),
            _ => None,
        }
    }

    /// The dictionary, if the value is one.
    pub fn as_dict(&self) -> (r: Option<&Dict>)
        ensures
            match r {
                Some(d) => *self == Value::Dict(*d),
                None => !(self is Dict),
            },
    {
        match self {
            Value::Dict(d) => Some(d),
            _ => None,
        }
    }

    /// The dictionary, to be changed in place, if the value is one.
    pub fn as_dict_mut(&mut self) -> (r: Option<&mut Dict>)
        ensures
            match r {
                Some(d) => *old(self) == Value::Dict(*d) && *final(self) == Value::Dict(
                    *final(d),
                ),
                None => !(*old(self) is Dict) && *final(self) == *old(self),
            },
    {
        match self {
            Value::Dict(d) => Some(d),
            _ => None,
        }
    }

    /// Whether the value is a byte string.
    pub fn is_byte_str(&self) -> (r: bool)
        ensures
            r == (self is ByteStr),
    {
        self.as_byte_str().is_some()
    }

    /// Whether the value is a byte string that holds valid UTF-8.
    pub fn is_string(&self) -> (r: bool)
        ensures
            r == (self@ matches Tree::ByteStr(b) && valid_utf8(b)),
    {
        self.as_str().is_some()
    }

    /// Whether the value is an unsigned number.
    pub fn is_u64(&self) -> (r: bool)
        ensures
            r == (self matches Value::Int(Number::Unsigned(_))),
    {
        self.as_u64().is_some()
    }

    /// Whether the value is a signed number.
    pub fn is_i64(&self) -> (r: bool)
        ensures
            r == (self matches Value::Int(Number::Signed(_))),
    {
        self.as_i64().is_some()
    }

    /// Whether the value is a list.
    pub fn is_array(&self) -> (r: bool)
        ensures
            r == (self is List),
    {
        self.as_array().is_some()
    }

    /// Whether the value is a dictionary.
    pub fn is_dict(&self) -> (r: bool)
        ensures
            r == (self is Dict),
    {
        self.as_dict().is_some()
    }
}

/// A copy of a value.
fn copy_value(v: &Value) -> (r: Value)
    ensures
        r@ == v@,
    decreases v@,
{
    match v {
        Value::ByteStr(b) => Value::ByteStr(ByteString::from_slice(b.as_slice())),
        Value::Int(n) => Value::Int(*n),
        Value::List(items) => {
            proof {
                lemma_view_list(*items);
            }
            let mut copy: Vec<Value> = Vec::new();
            let mut i: usize = 0;
            while i < items.len()
                invariant
                    i <= items@.len(),
                    v@ == Tree::List(trees_of(items@)),
                    trees_of(copy@) == trees_of(items@).take(i as int),
                decreases items@.len() - i,
            {
                proof {
                    assert(trees_of(items@)[i as int] == items@[i as int]@);
                    assert(decreases_to!(v@ => v@->List_0));
                    assert(decreases_to!(trees_of(items@) => trees_of(items@)[i as int]));
                }
                let ghost before = copy@;
                let item = copy_value(&items[i]);
                copy.push(item);
                proof {
                    assert(trees_of(copy@) =~= trees_of(before).push(item@));
                    assert(trees_of(items@).take(i + 1) =~= trees_of(items@).take(i as int).push(
                        items@[i as int]@,
                    ));
                }
                i += 1;
            }
            proof {
                assert(trees_of(items@).take(items@.len() as int) =~= trees_of(items@));
                lemma_view_list(copy);
            }
            Value::List(copy)
        },
        Value::Dict(d) => {
            proof {
                lemma_view_dict(*d);
                assert(decreases_to!(v@ => v@->Dict_0));
            }
            let copied = Dict { entries: copy_entries(&d.entries) };
            proof {
                lemma_view_dict(copied);
            }
            Value::Dict(copied)
        },
    }
}

/// A copy of the entries of a dictionary.
fn copy_entries(entries: &Vec<(ByteString, Value)>) -> (r: Vec<(ByteString, Value)>)
    ensures
        entries_of(r@) == entries_of(entries@),
    decreases entries_of(entries@),
{
    let ghost all = entries_of(entries@);
    let mut copy: Vec<(ByteString, Value)> = Vec::new();
    let mut i: usize = 0;
    while i < entries.len()
        invariant
            i <= entries@.len(),
            all == entries_of(entries@),
            entries_of(copy@) == all.take(i as int),
        decreases entries@.len() - i,
    {
        proof {
            assert(all[i as int].1 == entries@[i as int].1@);
            assert(decreases_to!(all => all[i as int]));
            assert(decreases_to!(all[i as int] => all[i as int].1));
        }
        let ghost before = copy@;
        let key = ByteString::from_slice(entries[i].0.as_slice());
        let item = copy_value(&entries[i].1);
        copy.push((key, item));
        proof {
            assert(entries_of(copy@) =~= entries_of(before).push((key@, item@)));
            assert(all.take(i + 1) =~= all.take(i as int).push(all[i as int]));
        }
        i += 1;
    }
    proof {
        assert(all.take(entries@.len() as int) =~= all);
    }
    copy
}

impl Clone for Value {
    fn clone(&self) -> (r: Self)
        ensures
            r@ == self@,
    {
        copy_value(self)
    }
}

impl Clone for Dict {
    fn clone(&self) -> (r: Self)
        ensures
            r@ == self@,
    {
        Dict { entries: copy_entries(&self.entries) }
    }
}

/// Whether two values are the same value.
fn same_value(a: &Value, b: &Value) -> (r: bool)
    ensures
        r == (a@ == b@),
    decreases a@,
{
    match (a, b) {
        (Value::ByteStr(x), Value::ByteStr(y)) => bytes_equal(x.as_slice(), y.as_slice()),
        (Value::Int(m), Value::Int(n)) => *m == *n,
        (Value::List(x), Value::List(y)) => {
            proof {
                lemma_view_list(*x);
                lemma_view_list(*y);
            }
            if x.len() != y.len() {
                proof {
                    assert(trees_of(x@).len() != trees_of(y@).len());
                }
                return false;
            }
            let mut i: usize = 0;
            while i < x.len()
                invariant
                    i <= x@.len(),
                    x@.len() == y@.len(),
                    a@ == Tree::List(trees_of(x@)),
                    b@ == Tree::List(trees_of(y@)),
                    forall|k: int| 0 <= k < i ==> trees_of(x@)[k] == trees_of(y@)[k],
                decreases x@.len() - i,
            {
                proof {
                    assert(trees_of(x@)[i as int] == x@[i as int]@);
                    assert(trees_of(y@)[i as int] == y@[i as int]@);
                    assert(decreases_to!(a@ => a@->List_0));
                    assert(decreases_to!(trees_of(x@) => trees_of(x@)[i as int]));
                }
                if !same_value(&x[i], &y[i]) {
                    return false;
                }
                i += 1;
            }
            proof {
                assert(trees_of(x@) =~= trees_of(y@));
            }
            true
        },
        (Value::Dict(x), Value::Dict(y)) => {
            proof {
                lemma_view_dict(*x);
                lemma_view_dict(*y);
                assert(decreases_to!(a@ => a@->Dict_0));
            }
            same_entries(&x.entries, &y.entries)
        },
        _ => false,
    }
}

/// Whether two sequences of entries are the same sequence.
fn same_entries(x: &Vec<(ByteString, Value)>, y: &Vec<(ByteString, Value)>) -> (r: bool)
    ensures
        r == (entries_of(x@) == entries_of(y@)),
    decreases entries_of(x@),
{
    let ghost left = entries_of(x@);
    let ghost right = entries_of(y@);
    if x.len() != y.len() {
        proof {
            assert(left.len() != right.len());
        }
        return false;
    }
    let mut i: usize = 0;
    while i < x.len()
        invariant
            i <= x@.len(),
            x@.len() == y@.len(),
            left == entries_of(x@),
            right == entries_of(y@),
            forall|k: int| 0 <= k < i ==> left[k] == right[k],
        decreases x@.len() - i,
    {
        proof {
            assert(left[i as int] == (x@[i as int].0@, x@[i as int].1@));
            assert(right[i as int] == (y@[i as int].0@, y@[i as int].1@));
            assert(decreases_to!(left => left[i as int]));
            assert(decreases_to!(left[i as int] => left[i as int].1));
        }
        if !bytes_equal(x[i].0.as_slice(), y[i].0.as_slice()) {
            return false;
        }
        if !same_value(&x[i].1, &y[i].1) {
            return false;
        }
        i += 1;
    }
    proof {
        assert(left =~= right);
    }
    true
}

impl PartialEq for Value {
    fn eq(&self, other: &Value) -> (r: bool) {
        same_value(self, other)
    }
}

impl PartialEqSpecImpl for Value {
    open spec fn obeys_eq_spec() -> bool {
        true
    }

    open spec fn eq_spec(&self, other: &Value) -> bool {
        self@ == other@
    }
}

impl PartialEq for Dict {
    fn eq(&self, other: &Dict) -> (r: bool) {
        same_entries(&self.entries, &other.entries)
    }
}

impl PartialEqSpecImpl for Dict {
    open spec fn obeys_eq_spec() -> bool {
        true
    }

    open spec fn eq_spec(&self, other: &Dict) -> bool {
        self@ == other@
    }
}

} // verus!
