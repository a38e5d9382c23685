//! The structured value that one invocation carries, and its mathematical
//! model. `JsonValue` is the executable type the formatter works on;
//! `JsonModel` is the ghost view the contracts speak of.

use vstd::prelude::*;

verus! {

/// Mathematical model of a structured value: the shape the contracts
/// and the rendering rules are stated over.
#[verifier::ext_equal]
pub enum JsonModel {
    Null,
    Bool(bool),
    Int(int),
    Str(Seq<char>),
    Array(Seq<JsonModel>),
    Object(Seq<(Seq<char>, JsonModel)>),
}

/// A structured value as one invocation hands it over: an object, an
/// array, a string, an integer, a boolean, or null. Object entries keep
/// the order in which they appeared in the input.
#[derive(Debug, PartialEq)]
pub enum JsonValue {
    Null,
    Bool(bool),
    Int(i64),
    Str(String),
    Array(Vec<JsonValue>),
    Object(Vec<(String, JsonValue)>),
}

impl JsonValue {
    /// The mathematical model of this value.
    pub open spec fn model(self) -> JsonModel
        decreases self,
        via Self::model_decreases
    {
        match self {
            JsonValue::Null => JsonModel::Null,
            JsonValue::Bool(b) => JsonModel::Bool(b),
            JsonValue::Int(n) => JsonModel::Int(n as int),
            JsonValue::Str(s) => JsonModel::Str(s@),
            JsonValue::Array(items) => JsonModel::Array(
                Seq::new(
                    items@.len(),
                    |i: int|
                        if 0 <= i < items@.len() {
                            items@[i].model()
                        } else {
                            JsonModel::Null
                        },
                ),
            ),
            JsonValue::Object(entries) => JsonModel::Object(
                Seq::new(
                    entries@.len(),
                    |i: int|
                        if 0 <= i < entries@.len() {
                            (entries@[i].0@, entries@[i].1.model())
                        } else {
                            (Seq::empty(), JsonModel::Null)
                        },
                ),
            ),
        }
    }

    /// The models of the values, the model of this value's array field
    /// among them.
    pub open spec fn models_of(vs: Seq<JsonValue>) -> Seq<JsonModel> {
        Seq::new(
            vs.len(),
            |k: int|
                if 0 <= k < vs.len() {
                    vs[k].model()
                } else {
                    JsonModel::Null
                },
        )
    }

    /// The models of the entries, the model of this value's object field
    /// among them.
    pub open spec fn entries_of(vs: Seq<(String, JsonValue)>) -> Seq<(Seq<char>, JsonModel)> {
        Seq::new(
            vs.len(),
            |k: int|
                if 0 <= k < vs.len() {
                    (vs[k].0@, vs[k].1.model())
                } else {
                    (Seq::empty(), JsonModel::Null)
                },
        )
    }

    #[via_fn]
    proof fn model_decreases(self) {
        broadcast use vstd::std_specs::vec::group_vec_axioms;
        broadcast use vstd::seq::group_seq_axioms;
        match self {
            JsonValue::Array(items) => {
                assert forall|i: int| 0 <= i < items@.len() implies (decreases_to!(self =>
                items@[i])) by {
                    assert(decreases_to!(self => items));
                    assert(decreases_to!(items => items@));
                    assert(decreases_to!(items@ => items@[i]));
                }
            },
            JsonValue::Object(entries) => {
                assert forall|i: int| 0 <= i < entries@.len() implies (decreases_to!(self =>
                entries@[i].1)) by {
                    assert(decreases_to!(self => entries));
                    assert(decreases_to!(entries => entries@));
                    assert(decreases_to!(entries@ => entries@[i]));
                    assert(decreases_to!(entries@[i] => entries@[i].1));
                }
            },
            _ => {},
        }
    }
}

} // verus!
