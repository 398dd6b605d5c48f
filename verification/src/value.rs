//! The value model: every unit that crosses the protocol boundary.

use vstd::pervasive::unreached;
use vstd::prelude::*;
use crate::text::{lossy_text, text_of_bytes};

verus! {

/// The mathematical content of a [`Value`].
pub enum ValueView {
    /// A line of text.
    Str(Seq<char>),
    /// A signed 32-bit integer.
    Num(i32),
    /// A byte string of explicit length.
    Bulk(Seq<u8>),
    /// An ordered sequence of values.
    Array(Seq<ValueView>),
    /// An error message.
    Error(Seq<char>),
    /// The absent value.
    Null,
}

impl ValueView {
    /// Whether the value carries a string payload.
    pub open spec fn is_text(self) -> bool {
        self is Str || self is Bulk || self is Error
    }

    /// The string payload of a value, read as text.
    pub open spec fn text(self) -> Seq<char>
        recommends
            self.is_text(),
    {
        match self {
            ValueView::Str(s) => s,
            ValueView::Bulk(b) => lossy_text(b),
            ValueView::Error(e) => e,
            _ => Seq::empty(),
        }
    }
}

/// A unit of the protocol.
#[derive(Debug, PartialEq, Eq)]
pub enum Value {
    /// A simple string: one line of text.
    Str(String),
    /// An integer.
    Num(i32),
    /// A bulk string: any bytes, with their count.
    Bulk(Vec<u8>),
    /// An array of values.
    Array(Vec<Value>),
    /// An error reply.
    Error(String),
    /// The null reply.
    Null,
}

/// The contents of a sequence of values.
pub open spec fn views(items: Seq<Value>) -> Seq<ValueView>
    decreases items,
{
    Seq::new(
        items.len(),
        |i: int|
            if 0 <= i < items.len() {
                items[i]@
            } else {
                ValueView::Null
            },
    )
}

impl View for Value {
    type V = ValueView;

    open spec fn view(&self) -> ValueView
        decreases self,
    {
        match self {
            Value::Str(s) => ValueView::Str(s@),
            Value::Num(n) => ValueView::Num(*n),
            Value::Bulk(b) => ValueView::Bulk(b@),
            Value::Array(a) => ValueView::Array(views(a@)),
            Value::Error(e) => ValueView::Error(e@),
            Value::Null => ValueView::Null,
        }
    }
}

/// A copy of `items`.
fn clone_items(items: &Vec<Value>) -> (copy: Vec<Value>)
    ensures
        views(copy@) == views(items@),
    decreases items,
{
    let mut copy: Vec<Value> = Vec::new();
    let mut i: usize = 0;
    while i < items.len()
        invariant
            i <= items@.len(),
            copy@.len() == i,
            forall|j: int| 0 <= j < i ==> (#[trigger] copy@[j])@ == items@[j]@,
        decreases items@.len() - i,
    {
        copy.push(items[i].clone());
        i += 1;
    }
    assert(views(copy@) =~= views(items@));
    copy
}

impl Clone for Value {
    fn clone(&self) -> (copy: Self)
        ensures
            copy@ == self@,
        decreases self,
    {
        match self {
            Value::Str(s) => Value::Str(s.clone()),
            Value::Num(n) => Value::Num(*n),
            Value::Bulk(b) => Value::Bulk(b.clone()),
            Value::Array(a) => Value::Array(clone_items(a)),
            Value::Error(e) => Value::Error(e.clone()),
            Value::Null => Value::Null,
        }
    }
}

impl Value {
    /// Tells whether the value carries a string payload, that is, whether
    /// `unwrap_str` can be called on it.
    pub fn is_text(&self) -> (text: bool)
        ensures
            text == self@.is_text(),
    {
        match self {
            Value::Str(_) => true,
            Value::Bulk(_) => true,
            Value::Error(_) => true,
            _ => false,
        }
    }

    /// The string payload of a simple string, a bulk string or an error.
    pub fn unwrap_str(&self) -> (text: String)
        requires
            self@.is_text(),
        ensures
            text@ == self@.text(),
    {
        match self {
            Value::Str(s) => s.clone(),
            Value::Bulk(b) => {
                assert(b@.subrange(0, b@.len() as int) =~= b@);
                text_of_bytes(b.as_slice(), 0, b.len())
            },
            Value::Error(e) => e.clone(),
            _ => unreached(),
        }
    }

    /// The number that an integer holds.
    pub fn unwrap_num(&self) -> (n: i32)
        requires
            self@ is Num,
        ensures
            self@ == ValueView::Num(n),
    {
        match self {
            Value::Num(n) => *n,
            _ => unreached(),
        }
    }

    /// A copy of the items of an array.
    pub fn unwrap_arr(&self) -> (items: Vec<Value>)
        requires
            self@ is Array,
        ensures
            self@ == ValueView::Array(views(items@)),
    {
        match self {
            Value::Array(a) => clone_items(a),
            _ => unreached(),
        }
    }
}

} // verus!
