use vstd::prelude::*;

verus! {

/// The mathematical model of a protocol value: a text is a sequence of
/// characters and an array is a sequence of models.
pub enum SpecValue {
    Null,
    Number(i64),
    Error(Seq<char>),
    String(Seq<char>),
    Array(Seq<SpecValue>),
}

/// One protocol element, as held in memory.
#[derive(Debug, PartialEq, Eq)]
pub enum Value {
    /// Absence of a value.
    Null,
    /// A signed integer.
    Number(i64),
    /// An error message.
    Error(String),
    /// A text, which may hold any character.
    String(String),
    /// An ordered sequence of values.
    Array(Vec<Value>),
}

/// The model of a value: the same tree, with each text and each array seen
/// as a sequence.
pub open spec fn model(v: Value) -> SpecValue
    decreases v,
{
    match v {
        Value::Null => SpecValue::Null,
        Value::Number(n) => SpecValue::Number(n),
        Value::Error(text) => SpecValue::Error(text@),
        Value::String(text) => SpecValue::String(text@),
        Value::Array(items) => SpecValue::Array(
            Seq::new(
                items@.len(),
                |i: int|
                    if 0 <= i < items@.len() {
                        model(items@[i])
                    } else {
                        SpecValue::Null
                    },
            ),
        ),
    }
}

impl View for Value {
    type V = SpecValue;

    open spec fn view(&self) -> SpecValue {
        model(*self)
    }
}

/// The models of a sequence of values, in order.
pub open spec fn views(items: Seq<Value>) -> Seq<SpecValue> {
    Seq::new(items.len(), |i: int| items[i]@)
}

/// The model of an array is the array of the models of its items.
pub proof fn lemma_array_view(items: Vec<Value>)
    ensures
        Value::Array(items)@ == SpecValue::Array(views(items@)),
{
    assert(Value::Array(items)@->Array_0 =~= views(items@));
}

} // verus!
