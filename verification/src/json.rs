//! The JSON payload tree.
//!
//! Packets of kind `Event`, `Error` and `BinaryEvent` carry one JSON
//! value. The tree is a closed tagged union over the JSON node kinds,
//! extended with a binary-buffer node that holds raw attachment bytes
//! spliced in by reconstruction. Numbers are signed 64-bit integers:
//! the protocol's own fields (placeholder indices, ack ids) are
//! integral, and payload numbers are kept losslessly in that range.

use vstd::prelude::*;

verus! {

broadcast use vstd::std_specs::vec::group_vec_axioms, vstd::seq::group_seq_axioms;

/// One member of a JSON object: a key and the value behind it.
#[derive(Debug, PartialEq)]
pub struct Member {
    pub key: String,
    pub value: Json,
}

/// One JSON value as it travels through the codec.
#[derive(Debug, PartialEq)]
pub enum Json {
    /// The JSON literal `null`.
    Null,
    /// A JSON boolean.
    Bool(bool),
    /// A JSON number; only integral values in the `i64` range occur.
    Num(i64),
    /// A JSON string.
    Str(String),
    /// A JSON array, in order.
    Arr(Vec<Json>),
    /// A JSON object: members in textual order, keys may repeat.
    Obj(Vec<Member>),
    /// Raw attachment bytes spliced in by reconstruction; never the
    /// result of parsing wire text.
    Bin(Vec<u8>),
}

/// The mathematical model of a [`Json`] value.
pub enum JsonV {
    Null,
    Bool(bool),
    Num(int),
    Str(Seq<char>),
    Arr(Seq<JsonV>),
    Obj(Seq<(Seq<char>, JsonV)>),
    Bin(Seq<u8>),
}

impl Clone for Member {
    fn clone(&self) -> (r: Self)
        ensures
            r.key@ == self.key@ && r.value@ == self.value@,
        decreases self,
    {
        Member { key: self.key.clone(), value: self.value.clone() }
    }
}

impl Clone for Json {
    fn clone(&self) -> (r: Self)
        ensures
            r@ == self@,
        decreases self,
    {
        match self {
            Json::Null => Json::Null,
            Json::Bool(b) => Json::Bool(*b),
            Json::Num(n) => Json::Num(*n),
            Json::Str(s) => Json::Str(s.clone()),
            Json::Arr(v) => {
                let mut out: Vec<Json> = Vec::new();
                let mut i: usize = 0;
                while i < v.len()
                    invariant
                        self is Arr && self->Arr_0 == *v,
                        i <= v.len(),
                        out@.len() == i,
                        forall|k: int| 0 <= k < i ==> out@[k]@ == v@[k]@,
                    decreases v.len() - i,
                {
                    proof {
                        assert(decreases_to!(*self => self->Arr_0@[i as int]));
                    }
                    out.push(v[i].clone());
                    i = i + 1;
                }
                let r = Json::Arr(out);
                proof {
                    assert(views_of(out@) =~= views_of(v@));
                }
                r
            },
            Json::Obj(v) => {
                let mut out: Vec<Member> = Vec::new();
                let mut i: usize = 0;
                while i < v.len()
                    invariant
                        self is Obj && self->Obj_0 == *v,
                        i <= v.len(),
                        out@.len() == i,
                        forall|k: int| 0 <= k < i
                            ==> out@[k].key@ == v@[k].key@ && out@[k].value@ == v@[k].value@,
                    decreases v.len() - i,
                {
                    proof {
                        assert(decreases_to!(*self => self->Obj_0@[i as int]));
                    }
                    out.push(v[i].clone());
                    i = i + 1;
                }
                let r = Json::Obj(out);
                proof {
                    assert(member_views(out@) =~= member_views(v@));
                }
                r
            },
            Json::Bin(b) => Json::Bin(b.clone()),
        }
    }
}

/// The models of the values of a sequence of JSON trees.
pub open spec fn views_of(s: Seq<Json>) -> Seq<JsonV>
    decreases s,
{
    Seq::new(s.len(), |i: int| if 0 <= i < s.len() { s[i]@ } else { JsonV::Null })
}

/// The models of the members of a JSON object.
pub open spec fn member_views(s: Seq<Member>) -> Seq<(Seq<char>, JsonV)>
    decreases s,
{
    Seq::new(
        s.len(),
        |i: int| if 0 <= i < s.len() {
            (s[i].key@, s[i].value@)
        } else {
            (Seq::<char>::empty(), JsonV::Null)
        },
    )
}

impl View for Json {
    type V = JsonV;

    open spec fn view(&self) -> JsonV
        decreases self,
    {
        match self {
            Json::Null => JsonV::Null,
            Json::Bool(b) => JsonV::Bool(*b),
            Json::Num(n) => JsonV::Num(*n as int),
            Json::Str(s) => JsonV::Str(s@),
            Json::Arr(v) => JsonV::Arr(views_of(v@)),
            Json::Obj(v) => JsonV::Obj(member_views(v@)),
            Json::Bin(b) => JsonV::Bin(b@),
        }
    }
}

} // verus!
