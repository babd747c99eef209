//! The values that a setting can take, and the kinds that describe them.

use vstd::prelude::*;

verus! {

/// A value of a setting, or of an entry of a settings document.
pub enum Value {
    /// A number, held as the 64 bits of its IEEE 754 double-precision form.
    Number(u64),
    Boolean(bool),
    Text(String),
    /// What a document may hold and no setting can: nothing, a list, a
    /// nested mapping.
    Other,
}

/// A value as a plain value.
pub enum ValueView {
    Number(u64),
    Boolean(bool),
    Text(Seq<char>),
    Other,
}

impl View for Value {
    type V = ValueView;

    open spec fn view(&self) -> ValueView {
        match self {
            Value::Number(bits) => ValueView::Number(*bits),
            Value::Boolean(b) => ValueView::Boolean(*b),
            Value::Text(s) => ValueView::Text(s@),
            Value::Other => ValueView::Other,
        }
    }
}

/// The values of `values` as plain values.
pub open spec fn value_views(values: Seq<Value>) -> Seq<ValueView> {
    values.map_values(|v: Value| v@)
}

impl Clone for Value {
    fn clone(&self) -> (r: Value)
        ensures
            r@ == self@,
    {
        match self {
            Value::Number(bits) => Value::Number(*bits),
            Value::Boolean(b) => Value::Boolean(*b),
            Value::Text(s) => Value::Text(s.clone()),
            Value::Other => Value::Other,
        }
    }
}

/// The kind of a setting: which values it can take.
pub enum Kind {
    Number,
    Boolean,
    Text,
    /// One of the listed names.
    Choice(Vec<String>),
}

/// A kind as a plain value.
pub enum KindView {
    Number,
    Boolean,
    Text,
    Choice(Seq<Seq<char>>),
}

/// The strings of `strings` as plain values.
pub open spec fn string_views(strings: Seq<String>) -> Seq<Seq<char>> {
    strings.map_values(|s: String| s@)
}

impl View for Kind {
    type V = KindView;

    open spec fn view(&self) -> KindView {
        match self {
            Kind::Number => KindView::Number,
            Kind::Boolean => KindView::Boolean,
            Kind::Text => KindView::Text,
            Kind::Choice(options) => KindView::Choice(string_views(options@)),
        }
    }
}

/// Whether a setting of kind `kind` can take the value `value`. A choice
/// takes a text that is one of its names.
pub open spec fn admits(kind: KindView, value: ValueView) -> bool {
    match (kind, value) {
        (KindView::Number, ValueView::Number(_)) => true,
        (KindView::Boolean, ValueView::Boolean(_)) => true,
        (KindView::Text, ValueView::Text(_)) => true,
        (KindView::Choice(options), ValueView::Text(s)) => options.contains(s),
        _ => false,
    }
}

/// Whether `options` holds a string equal to `s`.
fn holds_string(options: &Vec<String>, s: &String) -> (r: bool)
    ensures
        r == string_views(options@).contains(s@),
{
    let mut i: usize = 0;
    while i < options.len()
        invariant
            i <= options.len(),
            forall|j: int| 0 <= j < i ==> string_views(options@)[j] != s@,
        decreases options.len() - i,
    {
        if options[i] == *s {
            assert(string_views(options@)[i as int] == s@);
            return true;
        }
        i = i + 1;
    }
    false
}

impl Kind {
    /// Whether a setting of this kind can take `value`.
    pub fn admits(&self, value: &Value) -> (r: bool)
        ensures
            r == admits(self@, value@),
    {
        match self {
            Kind::Number => match value {
                Value::Number(_) => true,
                _ => false,
            },
            Kind::Boolean => match value {
                Value::Boolean(_) => true,
                _ => false,
            },
            Kind::Text => match value {
                Value::Text(_) => true,
                _ => false,
            },
            Kind::Choice(options) => match value {
                Value::Text(s) => holds_string(options, s),
                _ => false,
            },
        }
    }
}

} // verus!
