//! A JSON-like document tree.
//!
//! The three patched archive entries carry JSON documents.  The library holds
//! them in its own tree type [`Json`], whose mathematical model is [`JVal`];
//! the patchers are verified against that model.  Only the translation
//! between raw bytes and `Json` goes through an outside JSON library.
//!
//! Numbers keep the distinction the patch logic depends on: a number that is
//! a `u64` is held as [`Json::UInt`]; any other number (negative or
//! fractional) is held as [`Json::NumStr`], its decimal text carried through
//! unchanged.

use vstd::prelude::*;

verus! {

/// An owned JSON document.
#[derive(Debug)]
pub enum Json {
    Null,
    Bool(bool),
    /// a number representable as a `u64`
    UInt(u64),
    /// any other number, kept as its decimal text
    NumStr(String),
    Str(String),
    Arr(Vec<Json>),
    /// object members in document order
    Obj(Vec<(String, Json)>),
}

/// The mathematical model of a [`Json`] document.
#[verifier::ext_equal]
pub enum JVal {
    Null,
    Bool(bool),
    UInt(u64),
    NumStr(Seq<char>),
    Str(Seq<char>),
    Arr(Seq<JVal>),
    Obj(Seq<(Seq<char>, JVal)>),
}

/// The model of a document: every `Vec` becomes a `Seq`, every `String` a
/// `Seq<char>`.
pub open spec fn jval_of(j: Json) -> JVal
    decreases j,
{
    match j {
        Json::Null => JVal::Null,
        Json::Bool(b) => JVal::Bool(b),
        Json::UInt(n) => JVal::UInt(n),
        Json::NumStr(s) => JVal::NumStr(s@),
        Json::Str(s) => JVal::Str(s@),
        Json::Arr(v) => JVal::Arr(jvals_of(v@)),
        Json::Obj(v) => JVal::Obj(jpairs_of(v@)),
    }
}

/// The element-wise model of a sequence of documents.
pub open spec fn jvals_of(s: Seq<Json>) -> Seq<JVal>
    decreases s,
{
    if s.len() == 0 {
        Seq::empty()
    } else {
        seq![jval_of(s[0])] + jvals_of(s.subrange(1, s.len() as int))
    }
}

/// The member-wise model of a sequence of object members.
pub open spec fn jpairs_of(s: Seq<(String, Json)>) -> Seq<(Seq<char>, JVal)>
    decreases s,
{
    if s.len() == 0 {
        Seq::empty()
    } else {
        seq![jpair_of(s[0])] + jpairs_of(s.subrange(1, s.len() as int))
    }
}

/// The model of one object member.
pub open spec fn jpair_of(p: (String, Json)) -> (Seq<char>, JVal)
    decreases p,
{
    (p.0@, jval_of(p.1))
}

impl DeepView for Json {
    type V = JVal;

    open spec fn deep_view(&self) -> JVal {
        jval_of(*self)
    }
}

/// `jvals_of` maps each element to its model.
pub broadcast proof fn lemma_jvals_of(s: Seq<Json>)
    ensures
        (#[trigger] jvals_of(s)).len() == s.len(),
        forall|i: int| 0 <= i < s.len() ==> jvals_of(s)[i] == jval_of(s[i]),
    decreases s.len(),
{
    if s.len() > 0 {
        lemma_jvals_of(s.subrange(1, s.len() as int));
    }
}

/// `jpairs_of` maps each member to its model.
pub broadcast proof fn lemma_jpairs_of(s: Seq<(String, Json)>)
    ensures
        (#[trigger] jpairs_of(s)).len() == s.len(),
        forall|i: int| 0 <= i < s.len() ==> jpairs_of(s)[i] == jpair_of(s[i]),
    decreases s.len(),
{
    if s.len() > 0 {
        lemma_jpairs_of(s.subrange(1, s.len() as int));
    }
}

/// A vector's deep view is the element-wise deep view, of the same length.
pub broadcast proof fn lemma_vec_deep_view<T: DeepView>(v: Vec<T>)
    ensures
        (#[trigger] v.deep_view()).len() == v@.len(),
        forall|i: int| 0 <= i < v@.len() ==> v.deep_view()[i] == v@[i].deep_view(),
{
}

/// On an array node, the model is the element-wise model of the vector.
pub broadcast proof fn lemma_jval_of_arr(v: Vec<Json>)
    ensures
        #[trigger] jval_of(Json::Arr(v)) == JVal::Arr(v.deep_view()),
{
    lemma_jvals_of(v@);
    assert(jvals_of(v@) =~= v.deep_view());
}

/// On an object node, the model is the member-wise model of the vector.
pub broadcast proof fn lemma_jval_of_obj(v: Vec<(String, Json)>)
    ensures
        #[trigger] jval_of(Json::Obj(v)) == JVal::Obj(v.deep_view()),
{
    lemma_jpairs_of(v@);
    assert(jpairs_of(v@) =~= v.deep_view());
}

/// The value under `key` in an object's member list: the first member whose
/// key matches, as a lookup on a JSON object returns.
pub open spec fn obj_get(pairs: Seq<(Seq<char>, JVal)>, key: Seq<char>) -> Option<JVal>
    decreases pairs.len(),
{
    if pairs.len() == 0 {
        None
    } else if pairs[0].0 == key {
        Some(pairs[0].1)
    } else {
        obj_get(pairs.drop_first(), key)
    }
}

/// The member list with the value of the first member named `key` replaced by
/// `v`; all other members, and the member order, are untouched.
pub open spec fn obj_set(pairs: Seq<(Seq<char>, JVal)>, key: Seq<char>, v: JVal) -> Seq<
    (Seq<char>, JVal),
>
    decreases pairs.len(),
{
    if pairs.len() == 0 {
        pairs
    } else if pairs[0].0 == key {
        pairs.update(0, (pairs[0].0, v))
    } else {
        seq![pairs[0]] + obj_set(pairs.drop_first(), key, v)
    }
}

/// Replacing the value under the first member named `key` is an update at the
/// index that `obj_find` returns.
pub proof fn lemma_obj_set_at(pairs: Seq<(Seq<char>, JVal)>, key: Seq<char>, v: JVal, i: int)
    requires
        0 <= i < pairs.len(),
        pairs[i].0 == key,
        forall|j: int| 0 <= j < i ==> (#[trigger] pairs[j]).0 != key,
    ensures
        obj_set(pairs, key, v) == pairs.update(i, (pairs[i].0, v)),
    decreases i,
{
    if i == 0 {
    } else {
        lemma_obj_set_at(pairs.drop_first(), key, v, i - 1);
        assert(seq![pairs[0]] + pairs.drop_first().update(i - 1, (pairs[i].0, v)) =~= pairs.update(
            i,
            (pairs[i].0, v),
        ));
    }
}

/// `obj_get` ignores a prefix that holds no member named `key`.
pub proof fn lemma_obj_get_skip(pairs: Seq<(Seq<char>, JVal)>, key: Seq<char>, i: int)
    requires
        0 <= i <= pairs.len(),
        forall|j: int| 0 <= j < i ==> (#[trigger] pairs[j]).0 != key,
    ensures
        obj_get(pairs, key) == obj_get(pairs.skip(i), key),
    decreases i,
{
    if i > 0 {
        lemma_obj_get_skip(pairs.drop_first(), key, i - 1);
        assert(pairs.drop_first().skip(i - 1) =~= pairs.skip(i));
    } else {
        assert(pairs.skip(0) =~= pairs);
    }
}

/// Setting a key twice is the same as setting it once with the later value.
pub proof fn lemma_obj_set_set(pairs: Seq<(Seq<char>, JVal)>, key: Seq<char>, v1: JVal, v2: JVal)
    ensures
        obj_set(obj_set(pairs, key, v1), key, v2) == obj_set(pairs, key, v2),
    decreases pairs.len(),
{
    if pairs.len() > 0 {
        if pairs[0].0 == key {
            assert(obj_set(pairs, key, v1)[0] == (pairs[0].0, v1));
            assert(obj_set(obj_set(pairs, key, v1), key, v2) =~= obj_set(pairs, key, v2));
        } else {
            lemma_obj_set_set(pairs.drop_first(), key, v1, v2);
            assert(obj_set(pairs, key, v1)[0] == pairs[0]);
            assert(obj_set(pairs, key, v1).drop_first() =~= obj_set(pairs.drop_first(), key, v1));
            assert(obj_set(obj_set(pairs, key, v1), key, v2) =~= obj_set(pairs, key, v2));
        }
    }
}

/// Looking up a key after `obj_set` gives the new value exactly where the key
/// was present before.
pub proof fn lemma_obj_get_set(pairs: Seq<(Seq<char>, JVal)>, key: Seq<char>, v: JVal)
    ensures
        obj_get(pairs, key) is Some ==> obj_get(obj_set(pairs, key, v), key) == Some(v),
        obj_get(pairs, key) is None ==> obj_get(obj_set(pairs, key, v), key) is None,
    decreases pairs.len(),
{
    if pairs.len() > 0 {
        lemma_obj_get_set(pairs.drop_first(), key, v);
        if pairs[0].0 == key {
            assert(obj_set(pairs, key, v)[0] == (pairs[0].0, v));
        } else {
            assert(obj_set(pairs, key, v).drop_first() =~= obj_set(pairs.drop_first(), key, v));
            assert(obj_set(pairs, key, v)[0] == pairs[0]);
        }
    }
}

impl Json {
    /// The index of the first object member named `key`, if the value is an
    /// object holding one.
    pub fn obj_find(pairs: &Vec<(String, Json)>, key: &str) -> (r: Option<usize>)
        ensures
            match r {
                Some(i) => {
                    &&& i < pairs@.len()
                    &&& pairs@[i as int].0@ == key@
                    &&& obj_get(pairs.deep_view(), key@) == Some(pairs.deep_view()[i as int].1)
                    &&& forall|j: int| 0 <= j < i ==> (#[trigger] pairs.deep_view()[j]).0 != key@
                },
                None => obj_get(pairs.deep_view(), key@) is None,
            },
    {
        let ghost model = pairs.deep_view();
        let mut i: usize = 0;
        while i < pairs.len()
            invariant
                i <= pairs@.len(),
                model == pairs.deep_view(),
                forall|j: int| 0 <= j < i ==> (#[trigger] model[j]).0 != key@,
            decreases pairs@.len() - i,
        {
            if str_eq(pairs[i].0.as_str(), key) {
                proof {
                    lemma_obj_get_skip(model, key@, i as int);
                    assert(model.skip(i as int)[0] == model[i as int]);
                    assert(model.skip(i as int).len() > 0);
                }
                return Some(i);
            }
            i = i + 1;
        }
        proof {
            lemma_obj_get_skip(model, key@, pairs@.len() as int);
        }
        None
    }
}

/// Whether two string slices hold the same characters.
pub fn str_eq(a: &str, b: &str) -> (r: bool)
    ensures
        r == (a@ == b@),
{
    let a_len = a.unicode_len();
    let b_len = b.unicode_len();
    if a_len != b_len {
        return false;
    }
    let mut i: usize = 0;
    while i < a_len
        invariant
            a_len == a@.len(),
            b_len == b@.len(),
            a_len == b_len,
            i <= a_len,
            forall|j: int| 0 <= j < i ==> a@[j] == b@[j],
        decreases a_len - i,
    {
        if a.get_char(i) != b.get_char(i) {
            return false;
        }
        i = i + 1;
    }
    proof {
        assert(a@ =~= b@);
    }
    true
}

} // verus!
