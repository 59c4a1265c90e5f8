use vstd::prelude::*;

verus! {

broadcast use vstd::std_specs::vec::axiom_vec_index_decreases;

/// A parsed JSON value. String and number literals keep their source text;
/// a string keeps its surrounding quotes.
#[derive(Debug, PartialEq)]
pub enum JSONValue {
    Object(Vec<(String, JSONValue)>),
    Array(Vec<JSONValue>),
    StringLiteral(String),
    NumericLiteral(String),
    True,
    False,
    Null,
}

/// The mathematical form of a `JSONValue`.
pub enum Json {
    Object(Seq<(Seq<char>, Json)>),
    Array(Seq<Json>),
    Str(Seq<char>),
    Num(Seq<char>),
    True,
    False,
    Null,
}

impl JSONValue {
    pub open spec fn model(&self) -> Json
        decreases self,
    {
        match self {
            JSONValue::Object(v) => Json::Object(
                Seq::new(
                    v@.len(),
                    |i: int|
                        if 0 <= i < v.len() {
                            (v[i].0@, v[i].1.model())
                        } else {
                            (Seq::empty(), Json::Null)
                        },
                ),
            ),
            JSONValue::Array(v) => Json::Array(
                Seq::new(
                    v@.len(),
                    |i: int|
                        if 0 <= i < v.len() {
                            v[i].model()
                        } else {
                            Json::Null
                        },
                ),
            ),
            JSONValue::StringLiteral(s) => Json::Str(s@),
            JSONValue::NumericLiteral(s) => Json::Num(s@),
            JSONValue::True => Json::True,
            JSONValue::False => Json::False,
            JSONValue::Null => Json::Null,
        }
    }
}

pub open spec fn models(vs: Seq<JSONValue>) -> Seq<Json> {
    vs.map_values(|v: JSONValue| v.model())
}

pub open spec fn member_models(vs: Seq<(String, JSONValue)>) -> Seq<(Seq<char>, Json)> {
    vs.map_values(|p: (String, JSONValue)| (p.0@, p.1.model()))
}

pub proof fn lemma_array_model(v: Vec<JSONValue>)
    ensures
        JSONValue::Array(v).model() == Json::Array(models(v@)),
{
    let m = JSONValue::Array(v).model();
    assert(m->Array_0 =~= models(v@));
}

pub proof fn lemma_object_model(v: Vec<(String, JSONValue)>)
    ensures
        JSONValue::Object(v).model() == Json::Object(member_models(v@)),
{
    let m = JSONValue::Object(v).model();
    assert(m->Object_0 =~= member_models(v@));
}

} // verus!
