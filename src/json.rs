//! The dynamic JSON value that conditions and overrides are made of, with its
//! mathematical model.

use vstd::prelude::*;
use vstd::string::*;

verus! {

/// Model of a JSON value: numbers are integers, object entries keep their order.
pub enum JVal {
    Null,
    Bool(bool),
    Num(int),
    Str(Seq<char>),
    Arr(Seq<JVal>),
    Obj(Seq<Seq<char>>, Seq<JVal>),
}

/// A JSON value. Objects are kept as ordered lists of entries.
#[derive(Debug, PartialEq)]
pub enum JsonValue {
    Null,
    Bool(bool),
    Number(i64),
    Str(String),
    Array(Vec<JsonValue>),
    Object(Vec<Member>),
}

/// One entry of a JSON object.
#[derive(Debug, PartialEq)]
pub struct Member {
    pub key: String,
    pub value: JsonValue,
}

impl View for JsonValue {
    type V = JVal;

    open spec fn view(&self) -> JVal
        decreases self,
    {
        match self {
            JsonValue::Null => JVal::Null,
            JsonValue::Bool(b) => JVal::Bool(*b),
            JsonValue::Number(n) => JVal::Num(*n as int),
            JsonValue::Str(s) => JVal::Str(s@),
            JsonValue::Array(v) => JVal::Arr(
                Seq::new(
                    v.len() as nat,
                    |i: int|
                        if 0 <= i < v.len() {
                            v[i].view()
                        } else {
                            JVal::Null
                        },
                ),
            ),
            JsonValue::Object(v) => JVal::Obj(
                Seq::new(v.len() as nat, |i: int| v[i].key@),
                Seq::new(
                    v.len() as nat,
                    |i: int|
                        if 0 <= i < v.len() {
                            v[i].value.view()
                        } else {
                            JVal::Null
                        },
                ),
            ),
        }
    }
}

/// The keys of a list of object entries.
pub open spec fn keys_of(v: Seq<Member>) -> Seq<Seq<char>> {
    Seq::new(v.len(), |i: int| v[i].key@)
}

/// The values of a list of object entries.
pub open spec fn values_of(v: Seq<Member>) -> Seq<JVal> {
    Seq::new(v.len(), |i: int| v[i].value@)
}

/// The index of the first key equal to `k`, or the length when there is none.
pub open spec fn first_index(keys: Seq<Seq<char>>, k: Seq<char>) -> int
    decreases keys.len(),
{
    if keys.len() == 0 {
        0
    } else if keys[0] == k {
        0
    } else {
        1 + first_index(keys.drop_first(), k)
    }
}

pub proof fn lemma_first_index(keys: Seq<Seq<char>>, k: Seq<char>)
    ensures
        0 <= first_index(keys, k) <= keys.len(),
        forall|j: int| 0 <= j < first_index(keys, k) ==> keys[j] != k,
        first_index(keys, k) < keys.len() ==> keys[first_index(keys, k)] == k,
        keys.contains(k) <==> first_index(keys, k) < keys.len(),
    decreases keys.len(),
{
    if keys.len() > 0 && keys[0] != k {
        lemma_first_index(keys.drop_first(), k);
        assert forall|j: int| 0 <= j < first_index(keys, k) implies keys[j] != k by {
            if j > 0 {
                assert(keys[j] == keys.drop_first()[j - 1]);
            }
        }
        if keys.contains(k) {
            let j = choose|j: int| 0 <= j < keys.len() && keys[j] == k;
            assert(keys.drop_first()[j - 1] == k);
        }
    }
}

/// The value under the first key equal to `k`, if any.
pub open spec fn lookup(keys: Seq<Seq<char>>, vals: Seq<JVal>, k: Seq<char>) -> Option<JVal> {
    if first_index(keys, k) < keys.len() {
        Some(vals[first_index(keys, k)])
    } else {
        None
    }
}

/// Equality of two texts, character by character.
pub fn text_eq(a: &str, b: &str) -> (r: bool)
    ensures
        r == (a@ == b@),
{
    let n = a.unicode_len();
    let m = b.unicode_len();
    if n != m {
        return false;
    }
    let mut i: usize = 0;
    while i < n
        invariant
            n == a@.len(),
            m == b@.len(),
            n == m,
            i <= n,
            a@.subrange(0, i as int) == b@.subrange(0, i as int),
        decreases n - i,
    {
        if a.get_char(i) != b.get_char(i) {
            return false;
        }
        assert(a@.subrange(0, i + 1) =~= a@.subrange(0, i as int).push(a@[i as int]));
        assert(b@.subrange(0, i + 1) =~= b@.subrange(0, i as int).push(b@[i as int]));
        i += 1;
    }
    assert(a@ =~= a@.subrange(0, n as int));
    assert(b@ =~= b@.subrange(0, n as int));
    true
}

impl JsonValue {
    /// A copy of the whole value.
    pub fn deep_clone(&self) -> (r: JsonValue)
        ensures
            r@ == self@,
        decreases self,
    {
        match self {
            JsonValue::Null => JsonValue::Null,
            JsonValue::Bool(b) => JsonValue::Bool(*b),
            JsonValue::Number(n) => JsonValue::Number(*n),
            JsonValue::Str(s) => JsonValue::Str(s.clone()),
            JsonValue::Array(v) => {
                let mut out: Vec<JsonValue> = Vec::new();
                let mut i: usize = 0;
                while i < v.len()
                    invariant
                        *self == JsonValue::Array(*v),
                        i <= v.len(),
                        out.len() == i,
                        forall|j: int| 0 <= j < i ==> (#[trigger] out[j])@ == v[j]@,
                    decreases v.len() - i,
                {
                    proof {
                        assert(decreases_to!(*self => self->Array_0));
                        assert(decreases_to!(*v => v[i as int]));
                    }
                    let c = v[i].deep_clone();
                    out.push(c);
                    i += 1;
                }
                let r = JsonValue::Array(out);
                assert(r@ == self@) by {
                    if let JVal::Arr(a) = r@ {
                        if let JVal::Arr(b) = self@ {
                            assert(a =~= b);
                        }
                    }
                }
                r
            },
            JsonValue::Object(v) => {
                let mut out: Vec<Member> = Vec::new();
                let mut i: usize = 0;
                while i < v.len()
                    invariant
                        *self == JsonValue::Object(*v),
                        i <= v.len(),
                        out.len() == i,
                        forall|j: int|
                            0 <= j < i ==> (#[trigger] out[j]).key@ == v[j].key@ && out[j].value@ == v[j].value@,
                    decreases v.len() - i,
                {
                    proof {
                        assert(decreases_to!(*self => self->Object_0));
                        assert(decreases_to!(*v => v[i as int]));
                        assert(decreases_to!(v[i as int] => v[i as int].value));
                    }
                    let key = v[i].key.clone();
                    let value = v[i].value.deep_clone();
                    out.push(Member { key, value });
                    i += 1;
                }
                let r = JsonValue::Object(out);
                assert(r@ == self@) by {
                    if let JVal::Obj(ka, va) = r@ {
                        if let JVal::Obj(kb, vb) = self@ {
                            assert(ka =~= kb);
                            assert(va =~= vb);
                        }
                    }
                }
                r
            },
        }
    }
}

/// The index of the first entry named `key`, if any.
pub fn find_member(entries: &Vec<Member>, key: &str) -> (r: Option<usize>)
    ensures
        ({
            let i = first_index(keys_of(entries@), key@);
            &&& r.is_some() <==> i < entries.len()
            &&& r.is_some() ==> r.unwrap() == i
        }),
{
    let ghost ks = keys_of(entries@);
    proof {
        lemma_first_index(ks, key@);
    }
    let mut i: usize = 0;
    while i < entries.len()
        invariant
            i <= entries.len(),
            ks == keys_of(entries@),
            0 <= first_index(ks, key@) <= ks.len(),
            forall|j: int| 0 <= j < first_index(ks, key@) ==> ks[j] != key@,
            first_index(ks, key@) < ks.len() ==> ks[first_index(ks, key@)] == key@,
            i <= first_index(ks, key@),
        decreases entries.len() - i,
    {
        assert(ks[i as int] == entries[i as int].key@);
        if text_eq(entries[i].key.as_str(), key) {
            return Some(i);
        }
        i += 1;
    }
    None
}

/// Structural equality of two values.
pub fn json_eq(a: &JsonValue, b: &JsonValue) -> (r: bool)
    ensures
        r == (a@ == b@),
    decreases a,
{
    match (a, b) {
        (JsonValue::Null, JsonValue::Null) => true,
        (JsonValue::Bool(x), JsonValue::Bool(y)) => *x == *y,
        (JsonValue::Number(x), JsonValue::Number(y)) => *x == *y,
        (JsonValue::Str(x), JsonValue::Str(y)) => text_eq(x.as_str(), y.as_str()),
        (JsonValue::Array(x), JsonValue::Array(y)) => {
            if x.len() != y.len() {
                assert(a@->Arr_0.len() != b@->Arr_0.len());
                return false;
            }
            let mut i: usize = 0;
            while i < x.len()
                invariant
                    *a == JsonValue::Array(*x),
                    *b == JsonValue::Array(*y),
                    x.len() == y.len(),
                    i <= x.len(),
                    forall|j: int| 0 <= j < i ==> (#[trigger] x[j])@ == y[j]@,
                decreases x.len() - i,
            {
                proof {
                    assert(decreases_to!(*a => a->Array_0));
                    assert(decreases_to!(*x => x[i as int]));
                }
                if !json_eq(&x[i], &y[i]) {
                    assert(a@->Arr_0[i as int] == x[i as int]@);
                    assert(b@->Arr_0[i as int] == y[i as int]@);
                    return false;
                }
                i += 1;
            }
            assert(a@->Arr_0 =~= b@->Arr_0) by {
                assert forall|j: int| 0 <= j < x.len() implies a@->Arr_0[j] == b@->Arr_0[j] by {
                    assert(a@->Arr_0[j] == x[j]@);
                    assert(b@->Arr_0[j] == y[j]@);
                }
            }
            true
        },
        (JsonValue::Object(x), JsonValue::Object(y)) => {
            if x.len() != y.len() {
                assert(a@->Obj_0.len() != b@->Obj_0.len());
                return false;
            }
            let mut i: usize = 0;
            while i < x.len()
                invariant
                    *a == JsonValue::Object(*x),
                    *b == JsonValue::Object(*y),
                    x.len() == y.len(),
                    i <= x.len(),
                    forall|j: int| 0 <= j < i ==> (#[trigger] x[j]).value@ == y[j].value@ && x[j].key@ == y[j].key@,
                decreases x.len() - i,
            {
                proof {
                    assert(decreases_to!(*a => a->Object_0));
                    assert(decreases_to!(*x => x[i as int]));
                    assert(decreases_to!(x[i as int] => x[i as int].value));
                }
                assert(a@->Obj_0[i as int] == x[i as int].key@);
                assert(b@->Obj_0[i as int] == y[i as int].key@);
                assert(a@->Obj_1[i as int] == x[i as int].value@);
                assert(b@->Obj_1[i as int] == y[i as int].value@);
                if !text_eq(x[i].key.as_str(), y[i].key.as_str()) {
                    return false;
                }
                if !json_eq(&x[i].value, &y[i].value) {
                    return false;
                }
                i += 1;
            }
            assert(a@->Obj_0 =~= b@->Obj_0) by {
                assert forall|j: int| 0 <= j < x.len() implies a@->Obj_0[j] == b@->Obj_0[j] by {
                    assert(a@->Obj_0[j] == x[j].key@);
                    assert(b@->Obj_0[j] == y[j].key@);
                }
            }
            assert(a@->Obj_1 =~= b@->Obj_1) by {
                assert forall|j: int| 0 <= j < x.len() implies a@->Obj_1[j] == b@->Obj_1[j] by {
                    assert(a@->Obj_1[j] == x[j].value@);
                    assert(b@->Obj_1[j] == y[j].value@);
                }
            }
            true
        },
        _ => false,
    }
}

/// No object inside `v`, at any depth, has an entry named `k`.
pub open spec fn free_of_key(v: JVal, k: Seq<char>) -> bool
    decreases v,
{
    match v {
        JVal::Arr(a) => forall|i: int| 0 <= i < a.len() ==> free_of_key(#[trigger] a[i], k),
        JVal::Obj(ks, vs) => !ks.contains(k) && forall|i: int| 0 <= i < vs.len() ==> free_of_key(#[trigger] vs[i], k),
        _ => true,
    }
}

/// Whether no object inside `v` has an entry named `k`.
pub fn is_free_of_key(v: &JsonValue, k: &str) -> (r: bool)
    ensures
        r == free_of_key(v@, k@),
    decreases v,
{
    match v {
        JsonValue::Array(items) => {
            let mut i: usize = 0;
            while i < items.len()
                invariant
                    *v == JsonValue::Array(*items),
                    i <= items.len(),
                    forall|j: int| 0 <= j < i ==> free_of_key(#[trigger] v@->Arr_0[j], k@),
                decreases items.len() - i,
            {
                proof {
                    assert(decreases_to!(*v => v->Array_0));
                    assert(decreases_to!(*items => items[i as int]));
                }
                assert(v@->Arr_0[i as int] == items[i as int]@);
                if !is_free_of_key(&items[i], k) {
                    return false;
                }
                i += 1;
            }
            assert(v@->Arr_0.len() == items.len());
            true
        },
        JsonValue::Object(ms) => {
            assert(v@->Obj_0 =~= keys_of(ms@));
            proof {
                lemma_first_index(keys_of(ms@), k@);
            }
            if find_member(ms, k).is_some() {
                return false;
            }
            let mut i: usize = 0;
            while i < ms.len()
                invariant
                    *v == JsonValue::Object(*ms),
                    i <= ms.len(),
                    forall|j: int| 0 <= j < i ==> free_of_key(#[trigger] v@->Obj_1[j], k@),
                decreases ms.len() - i,
            {
                proof {
                    assert(decreases_to!(*v => v->Object_0));
                    assert(decreases_to!(*ms => ms[i as int]));
                    assert(decreases_to!(ms[i as int] => ms[i as int].value));
                }
                assert(v@->Obj_1[i as int] == ms[i as int].value@);
                if !is_free_of_key(&ms[i].value, k) {
                    return false;
                }
                i += 1;
            }
            assert(v@->Obj_1.len() == ms.len());
            true
        },
        _ => true,
    }
}

} // verus!
