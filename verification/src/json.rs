//! A JSON tree held as plain values.
//!
//! The gateway hands this layer one JSON document per invocation and takes
//! one back. The document itself is parsed and printed outside this crate;
//! here the tree is data: strings are UTF-8 byte vectors, objects are
//! ordered lists of fields (first occurrence wins on lookup). Numbers are
//! carried only as far as the schemas need them: every numeric field a
//! schema reads fits in `u64`, so any other number is kept as an opaque
//! `NumOther`.

use vstd::prelude::*;

verus! {

/// One JSON value, with strings as UTF-8 bytes and objects as ordered
/// field lists.
#[derive(Debug, PartialEq, Eq)]
pub enum JsonValue {
    Null,
    Bool(bool),
    /// A number that fits in `u64`; the only numbers this layer ever emits.
    Num(u64),
    /// A number that does not fit in `u64`; no schema reads such a field.
    NumOther,
    Str(Vec<u8>),
    Arr(Vec<JsonValue>),
    Obj(Vec<(Vec<u8>, JsonValue)>),
}

/// The mathematical shape of a `JsonValue`.
pub enum JVal {
    Null,
    Bool(bool),
    Num(u64),
    NumOther,
    Str(Seq<u8>),
    Arr(Seq<JVal>),
    Obj(Seq<(Seq<u8>, JVal)>),
}

/// The view of a `JsonValue`: the same tree over `Seq`.
pub open spec fn jview(v: JsonValue) -> JVal
    decreases v,
{
    match v {
        JsonValue::Null => JVal::Null,
        JsonValue::Bool(b) => JVal::Bool(b),
        JsonValue::Num(n) => JVal::Num(n),
        JsonValue::NumOther => JVal::NumOther,
        JsonValue::Str(s) => JVal::Str(s@),
        JsonValue::Arr(items) => JVal::Arr(jview_seq(items@)),
        JsonValue::Obj(fields) => JVal::Obj(jview_fields(fields@)),
    }
}

/// Element-wise view of an array's items.
pub open spec fn jview_seq(s: Seq<JsonValue>) -> Seq<JVal>
    decreases s,
{
    if s.len() == 0 {
        Seq::empty()
    } else {
        seq![jview(s[0])] + jview_seq(s.subrange(1, s.len() as int))
    }
}

/// Element-wise view of an object's fields.
pub open spec fn jview_fields(fs: Seq<(Vec<u8>, JsonValue)>) -> Seq<(Seq<u8>, JVal)>
    decreases fs,
{
    if fs.len() == 0 {
        Seq::empty()
    } else {
        seq![(fs[0].0@, jview(fs[0].1))] + jview_fields(fs.subrange(1, fs.len() as int))
    }
}

/// The viewed items are the views of the items, position by position.
pub proof fn lemma_jview_seq(s: Seq<JsonValue>)
    ensures
        jview_seq(s).len() == s.len(),
        forall|i: int| 0 <= i < s.len() ==> jview_seq(s)[i] == jview(#[trigger] s[i]),
    decreases s.len(),
{
    if s.len() != 0 {
        let t = s.subrange(1, s.len() as int);
        lemma_jview_seq(t);
        assert forall|i: int| 0 <= i < s.len() implies jview_seq(s)[i] == jview(#[trigger] s[i]) by {
            if i > 0 {
                assert(t[i - 1] == s[i]);
                assert(jview_seq(s)[i] == jview_seq(t)[i - 1]);
            }
        }
    }
}

/// The viewed fields are the views of the fields, position by position.
pub proof fn lemma_jview_fields(fs: Seq<(Vec<u8>, JsonValue)>)
    ensures
        jview_fields(fs).len() == fs.len(),
        forall|i: int|
            0 <= i < fs.len() ==> jview_fields(fs)[i] == ((#[trigger] fs[i]).0@, jview(fs[i].1)),
    decreases fs.len(),
{
    if fs.len() != 0 {
        let t = fs.subrange(1, fs.len() as int);
        lemma_jview_fields(t);
        assert forall|i: int|
            0 <= i < fs.len() implies jview_fields(fs)[i] == ((#[trigger] fs[i]).0@, jview(
            fs[i].1,
        )) by {
            if i > 0 {
                assert(t[i - 1] == fs[i]);
                assert(jview_fields(fs)[i] == jview_fields(t)[i - 1]);
            }
        }
    }
}

/// First field with the given name, if any.
pub open spec fn obj_lookup(fields: Seq<(Seq<u8>, JVal)>, key: Seq<u8>) -> Option<JVal>
    decreases fields.len(),
{
    if fields.len() == 0 {
        None
    } else if fields[0].0 == key {
        Some(fields[0].1)
    } else {
        obj_lookup(fields.skip(1), key)
    }
}

/// The field list of an object value, empty for any other value.
pub open spec fn jfields(j: JVal) -> Seq<(Seq<u8>, JVal)> {
    match j {
        JVal::Obj(fields) => fields,
        _ => Seq::empty(),
    }
}

/// Lookup of `key` in `j`, provided `j` is an object.
pub open spec fn jget(j: JVal, key: Seq<u8>) -> Option<JVal> {
    if j is Obj {
        obj_lookup(jfields(j), key)
    } else {
        None
    }
}

/// Byte-vector equality, decided element by element.
pub fn bytes_eq(a: &Vec<u8>, b: &Vec<u8>) -> (r: bool)
    ensures
        r == (a@ == b@),
{
    if a.len() != b.len() {
        proof {
            assert(a@ != b@);
        }
        return false;
    }
    let mut i: usize = 0;
    while i < a.len()
        invariant
            i <= a.len(),
            a.len() == b.len(),
            forall|j: int| 0 <= j < i ==> a@[j] == b@[j],
        decreases a.len() - i,
    {
        if a[i] != b[i] {
            proof {
                assert(a@[i as int] != b@[i as int]);
            }
            return false;
        }
        i = i + 1;
    }
    proof {
        assert(a@ =~= b@);
    }
    true
}

impl JsonValue {
    /// The first field named `key`, if this value is an object that has one.
    pub fn get<'a>(&'a self, key: &Vec<u8>) -> (r: Option<&'a JsonValue>)
        ensures
            match r {
                Some(x) => jget(jview(*self), key@) == Some(jview(*x)),
                None => jget(jview(*self), key@) is None,
            },
    {
        match self {
            JsonValue::Obj(fields) => {
                let ghost fs = jfields(jview(*self));
                let mut i: usize = 0;
                proof {
                    lemma_jview_fields(fields@);
                    assert(fs.skip(0) =~= fs);
                }
                while i < fields.len()
                    invariant
                        i <= fields.len(),
                        fs == jfields(jview(*self)),
                        *self is Obj,
                        fs.len() == fields@.len(),
                        forall|j: int|
                            0 <= j < fields@.len() ==> #[trigger] fs[j] == (
                            fields@[j].0@,
                            jview(fields@[j].1),
                            ),
                        obj_lookup(fs, key@) == obj_lookup(fs.skip(i as int), key@),
                    decreases fields.len() - i,
                {
                    if bytes_eq(&fields[i].0, key) {
                        return Some(&fields[i].1);
                    }
                    proof {
                        assert(fs.skip(i as int).skip(1) =~= fs.skip(i as int + 1));
                    }
                    i = i + 1;
                }
                proof {
                    assert(fs.skip(fs.len() as int) =~= Seq::empty());
                }
                None
            },
            _ => None,
        }
    }

    /// The string bytes, if this value is a string.
    pub fn as_str_bytes<'a>(&'a self) -> (r: Option<&'a Vec<u8>>)
        ensures
            match r {
                Some(s) => jview(*self) == JVal::Str(s@),
                None => !(jview(*self) is Str),
            },
    {
        match self {
            JsonValue::Str(s) => Some(s),
            _ => None,
        }
    }

    /// The boolean, if this value is one.
    pub fn as_bool(&self) -> (r: Option<bool>)
        ensures
            match r {
                Some(b) => jview(*self) == JVal::Bool(b),
                None => !(jview(*self) is Bool),
            },
    {
        match self {
            JsonValue::Bool(b) => Some(*b),
            _ => None,
        }
    }

    /// The elements, if this value is an array.
    pub fn as_array<'a>(&'a self) -> (r: Option<&'a Vec<JsonValue>>)
        ensures
            match r {
                Some(items) => jview(*self) == JVal::Arr(jview_seq(items@)),
                None => !(jview(*self) is Arr),
            },
    {
        match self {
            JsonValue::Arr(items) => Some(items),
            _ => None,
        }
    }
}

} // verus!
