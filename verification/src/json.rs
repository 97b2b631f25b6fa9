//! A JSON document as plain values, with its mathematical view.
//!
//! `serde_json`'s values are opaque to verified code, so the library holds a
//! document in a type of its own. An object is held as its list of members;
//! where a key occurs more than once, the first occurrence is the one that
//! counts, as a lookup finds it. A document that `serde_json` parses has
//! sorted, unique keys, so its view loses nothing of it.
use vstd::prelude::*;
use crate::text::str_eq;

verus! {

/// A JSON value. A number is held as its decimal text.
#[derive(Debug, PartialEq, Eq)]
pub enum Json {
    Null,
    Bool(bool),
    Number(String),
    Str(String),
    Array(Vec<Json>),
    Object(Vec<(String, Json)>),
}

/// The mathematical view of a JSON value: an object is a map from keys to
/// values.
pub enum JsonView {
    Null,
    Bool(bool),
    Number(Seq<char>),
    Str(Seq<char>),
    Array(Seq<JsonView>),
    Object(Map<Seq<char>, JsonView>),
}

/// The view of a JSON value.
pub open spec fn json_view(j: Json) -> JsonView
    decreases j,
{
    match j {
        Json::Null => JsonView::Null,
        Json::Bool(b) => JsonView::Bool(b),
        Json::Number(n) => JsonView::Number(n@),
        Json::Str(s) => JsonView::Str(s@),
        Json::Array(a) => JsonView::Array(array_view(a@)),
        Json::Object(m) => JsonView::Object(members_view(m@)),
    }
}

/// The views of the elements of an array.
pub open spec fn array_view(s: Seq<Json>) -> Seq<JsonView>
    decreases s,
{
    if s.len() == 0 {
        Seq::empty()
    } else {
        seq![json_view(s[0])] + array_view(s.subrange(1, s.len() as int))
    }
}

/// The map that a list of members denotes: the first occurrence of a key
/// gives its value.
pub open spec fn members_view(s: Seq<(String, Json)>) -> Map<Seq<char>, JsonView>
    decreases s,
{
    if s.len() == 0 {
        Map::empty()
    } else {
        members_view(s.subrange(1, s.len() as int)).insert(s[0].0@, json_view(s[0].1))
    }
}

/// The position of the first member with key `k`, or -1 where there is none.
pub open spec fn key_index(s: Seq<(String, Json)>, k: Seq<char>) -> int
    decreases s.len(),
{
    if s.len() == 0 {
        -1
    } else if s[0].0@ == k {
        0
    } else {
        let r = key_index(s.subrange(1, s.len() as int), k);
        if r < 0 {
            -1
        } else {
            r + 1
        }
    }
}

impl View for Json {
    type V = JsonView;

    open spec fn view(&self) -> JsonView {
        json_view(*self)
    }
}

/// The view of an array has one element view per element, in order.
pub proof fn lemma_array_view(s: Seq<Json>)
    ensures
        array_view(s).len() == s.len(),
        forall|i: int| 0 <= i < s.len() ==> #[trigger] array_view(s)[i] == json_view(s[i]),
    decreases s.len(),
{
    if s.len() > 0 {
        let t = s.subrange(1, s.len() as int);
        lemma_array_view(t);
        assert forall|i: int| 0 <= i < s.len() implies #[trigger] array_view(s)[i] == json_view(s[i]) by {
            if i > 0 {
                assert(array_view(s)[i] == array_view(t)[i - 1]);
                assert(t[i - 1] == s[i]);
            }
        }
    }
}

/// The view of an array after a push is the old view with the new element's
/// view appended.
pub proof fn lemma_array_view_push(s: Seq<Json>, x: Json)
    ensures
        array_view(s.push(x)) == array_view(s).push(json_view(x)),
{
    lemma_array_view(s);
    lemma_array_view(s.push(x));
    assert(array_view(s.push(x)) =~= array_view(s).push(json_view(x)));
}

/// `key_index` finds the first member with the key, or reports that none has it.
pub proof fn lemma_key_index(s: Seq<(String, Json)>, k: Seq<char>)
    ensures
        -1 <= key_index(s, k) < s.len(),
        key_index(s, k) >= 0 ==> s[key_index(s, k)].0@ == k,
        forall|j: int| 0 <= j < s.len() && (key_index(s, k) < 0 || j < key_index(s, k))
            ==> #[trigger] s[j].0@ != k,
    decreases s.len(),
{
    if s.len() > 0 && s[0].0@ != k {
        let t = s.subrange(1, s.len() as int);
        lemma_key_index(t, k);
        assert forall|j: int| 0 <= j < s.len() && (key_index(s, k) < 0 || j < key_index(s, k))
            implies #[trigger] s[j].0@ != k by {
            if j > 0 {
                assert(s[j] == t[j - 1]);
            }
        }
    }
}

/// A member at position `i` whose key occurs at no earlier position is the
/// first occurrence.
pub proof fn lemma_key_index_at(s: Seq<(String, Json)>, k: Seq<char>, i: int)
    requires
        0 <= i < s.len(),
        s[i].0@ == k,
        forall|j: int| 0 <= j < i ==> #[trigger] s[j].0@ != k,
    ensures
        key_index(s, k) == i,
{
    lemma_key_index(s, k);
}

/// A key that no member has is at no position.
pub proof fn lemma_key_index_none(s: Seq<(String, Json)>, k: Seq<char>)
    requires
        forall|j: int| 0 <= j < s.len() ==> #[trigger] s[j].0@ != k,
    ensures
        key_index(s, k) == -1,
{
    lemma_key_index(s, k);
    if key_index(s, k) >= 0 {
        assert(s[key_index(s, k)].0@ == k);
    }
}

/// The map that a member list denotes holds a key exactly where a member has
/// it, with the value of the first such member.
pub proof fn lemma_members_lookup(s: Seq<(String, Json)>, k: Seq<char>)
    ensures
        members_view(s).contains_key(k) <==> key_index(s, k) >= 0,
        key_index(s, k) >= 0 ==> members_view(s)[k] == json_view(s[key_index(s, k)].1),
    decreases s.len(),
{
    if s.len() > 0 {
        let t = s.subrange(1, s.len() as int);
        lemma_members_lookup(t, k);
        lemma_key_index(t, k);
        if s[0].0@ != k {
            let r = key_index(t, k);
            if r >= 0 {
                assert(s[r + 1] == t[r]);
            }
        }
    }
}

/// Two member lists that agree on every key denote the same map.
pub proof fn lemma_members_ext(s: Seq<(String, Json)>, m: Map<Seq<char>, JsonView>)
    requires
        forall|k: Seq<char>| #![trigger m.contains_key(k)]
            (key_index(s, k) >= 0 <==> m.contains_key(k))
            && (key_index(s, k) >= 0 ==> m[k] == json_view(s[key_index(s, k)].1)),
    ensures
        members_view(s) == m,
{
    assert forall|k: Seq<char>| #[trigger] members_view(s).contains_key(k) == m.contains_key(k) by {
        lemma_members_lookup(s, k);
    }
    assert forall|k: Seq<char>| #[trigger] members_view(s).contains_key(k) implies members_view(s)[k] == m[k] by {
        lemma_members_lookup(s, k);
    }
    assert(members_view(s) =~= m);
}

/// Replacing the first member with a key by a member with the same key sets
/// that key's value.
pub proof fn lemma_members_update(s: Seq<(String, Json)>, i: int, x: (String, Json))
    requires
        0 <= i < s.len(),
        key_index(s, s[i].0@) == i,
        x.0@ == s[i].0@,
    ensures
        members_view(s.update(i, x)) == members_view(s).insert(x.0@, json_view(x.1)),
{
    let u = s.update(i, x);
    let m = members_view(s).insert(x.0@, json_view(x.1));
    lemma_key_index(s, x.0@);
    assert forall|k: Seq<char>| #![trigger m.contains_key(k)]
        (key_index(u, k) >= 0 <==> m.contains_key(k))
        && (key_index(u, k) >= 0 ==> m[k] == json_view(u[key_index(u, k)].1)) by {
        lemma_key_index(s, k);
        lemma_key_index(u, k);
        lemma_members_lookup(s, k);
        if k == x.0@ {
            lemma_key_index_at(u, k, i);
        } else {
            if key_index(s, k) >= 0 {
                lemma_key_index_at(u, k, key_index(s, k));
            } else {
                lemma_key_index_none(u, k);
            }
        }
    }
    lemma_members_ext(u, m);
}

/// Appending a member whose key is new adds that key; appending one whose key
/// is present changes nothing.
pub proof fn lemma_members_push(s: Seq<(String, Json)>, x: (String, Json))
    ensures
        key_index(s, x.0@) < 0 ==> members_view(s.push(x)) == members_view(s).insert(x.0@, json_view(x.1)),
        key_index(s, x.0@) >= 0 ==> members_view(s.push(x)) == members_view(s),
{
    let u = s.push(x);
    let m = if key_index(s, x.0@) < 0 {
        members_view(s).insert(x.0@, json_view(x.1))
    } else {
        members_view(s)
    };
    lemma_key_index(s, x.0@);
    assert forall|k: Seq<char>| #![trigger m.contains_key(k)]
        (key_index(u, k) >= 0 <==> m.contains_key(k))
        && (key_index(u, k) >= 0 ==> m[k] == json_view(u[key_index(u, k)].1)) by {
        lemma_key_index(s, k);
        lemma_members_lookup(s, k);
        if key_index(s, k) >= 0 {
            lemma_key_index_at(u, k, key_index(s, k));
        } else if k == x.0@ {
            lemma_key_index_at(u, k, s.len() as int);
        } else {
            lemma_key_index_none(u, k);
        }
    }
    lemma_members_ext(u, m);
}

/// The position of the first member with key `k`.
pub fn find_key(m: &Vec<(String, Json)>, k: &str) -> (r: Option<usize>)
    ensures
        match r {
            Some(i) => key_index(m@, k@) == i && i < m@.len(),
            None => key_index(m@, k@) < 0,
        },
{
    let mut i: usize = 0;
    while i < m.len()
        invariant
            i <= m@.len(),
            forall|j: int| 0 <= j < i ==> #[trigger] m@[j].0@ != k@,
        decreases m@.len() - i,
    {
        if str_eq(m[i].0.as_str(), k) {
            proof {
                lemma_key_index_at(m@, k@, i as int);
            }
            return Some(i);
        }
        i = i + 1;
    }
    proof {
        lemma_key_index_none(m@, k@);
    }
    None
}

/// Whether no object anywhere in a document has a key twice.
pub open spec fn keys_unique(j: Json) -> bool
    decreases j,
{
    match j {
        Json::Array(a) => elements_keys_unique(a@),
        Json::Object(m) => members_unique(m@),
        _ => true,
    }
}

/// Whether no object in any of the elements has a key twice.
pub open spec fn elements_keys_unique(s: Seq<Json>) -> bool
    decreases s,
{
    if s.len() == 0 {
        true
    } else {
        keys_unique(s[0]) && elements_keys_unique(s.subrange(1, s.len() as int))
    }
}

/// Whether no two members share a key and no object in their values has a
/// key twice.
pub open spec fn members_unique(s: Seq<(String, Json)>) -> bool
    decreases s,
{
    if s.len() == 0 {
        true
    } else {
        let t = s.subrange(1, s.len() as int);
        key_index(t, s[0].0@) < 0 && keys_unique(s[0].1) && members_unique(t)
    }
}

/// The elements' keys are unique where each element's are.
pub proof fn lemma_elements_keys_unique(s: Seq<Json>)
    ensures
        elements_keys_unique(s) == (forall|i: int| 0 <= i < s.len() ==> #[trigger] keys_unique(s[i])),
    decreases s.len(),
{
    if s.len() > 0 {
        let t = s.subrange(1, s.len() as int);
        lemma_elements_keys_unique(t);
        assert(elements_keys_unique(s) == (keys_unique(s[0]) && elements_keys_unique(t)));
        if forall|i: int| 0 <= i < s.len() ==> #[trigger] keys_unique(s[i]) {
            assert forall|i: int| 0 <= i < t.len() implies #[trigger] keys_unique(t[i]) by {
                assert(t[i] == s[i + 1]);
            }
        }
        if elements_keys_unique(s) {
            assert forall|i: int| 0 <= i < s.len() implies #[trigger] keys_unique(s[i]) by {
                if i > 0 {
                    assert(t[i - 1] == s[i]);
                }
            }
        }
    }
}

/// The members are unique where no two share a key and each value's keys are
/// unique.
pub proof fn lemma_members_unique(s: Seq<(String, Json)>)
    ensures
        members_unique(s) == ((forall|i: int, l: int| 0 <= i < l < s.len() ==> #[trigger] s[i].0@ != #[trigger] s[l].0@)
            && (forall|i: int| 0 <= i < s.len() ==> #[trigger] keys_unique(s[i].1))),
    decreases s.len(),
{
    if s.len() > 0 {
        let t = s.subrange(1, s.len() as int);
        lemma_members_unique(t);
        assert(members_unique(s) == (key_index(t, s[0].0@) < 0 && keys_unique(s[0].1) && members_unique(t)));
        lemma_key_index(t, s[0].0@);
        let distinct = forall|i: int, l: int| 0 <= i < l < s.len() ==> #[trigger] s[i].0@ != #[trigger] s[l].0@;
        let values = forall|i: int| 0 <= i < s.len() ==> #[trigger] keys_unique(s[i].1);
        if distinct && values {
            assert forall|i: int, l: int| 0 <= i < l < t.len() implies #[trigger] t[i].0@ != #[trigger] t[l].0@ by {
                assert(t[i] == s[i + 1] && t[l] == s[l + 1]);
            }
            assert forall|i: int| 0 <= i < t.len() implies #[trigger] keys_unique(t[i].1) by {
                assert(t[i] == s[i + 1]);
            }
            assert forall|l: int| 0 <= l < t.len() implies #[trigger] t[l].0@ != s[0].0@ by {
                assert(t[l] == s[l + 1]);
            }
            lemma_key_index_none(t, s[0].0@);
        }
        if members_unique(s) {
            assert forall|i: int, l: int| 0 <= i < l < s.len() implies #[trigger] s[i].0@ != #[trigger] s[l].0@ by {
                assert(t[l - 1] == s[l]);
                if i > 0 {
                    assert(t[i - 1] == s[i]);
                }
            }
            assert forall|i: int| 0 <= i < s.len() implies #[trigger] keys_unique(s[i].1) by {
                if i > 0 {
                    assert(t[i - 1] == s[i]);
                }
            }
        }
    }
}

/// The document with every shadowed member removed, at every depth: of the
/// members of an object that share a key, only the first is kept, so the
/// document's view is unchanged and no object has a key twice.
pub fn drop_shadowed(j: Json) -> (r: Json)
    ensures
        r@ == j@,
        keys_unique(r),
    decreases j,
{
    let ghost j0 = j;
    match j {
        Json::Array(a) => {
            let ghost a0 = a;
            let ghost orig = a@;
            let mut a = a;
            let mut out: Vec<Json> = Vec::new();
            let n = a.len();
            let mut i: usize = 0;
            proof {
                assert(orig.take(0) =~= Seq::<Json>::empty());
            }
            while i < n
                invariant
                    j0 == j,
                    j0 == Json::Array(a0),
                    orig == a0@,
                    n == orig.len(),
                    i <= n,
                    a@ == orig.skip(i as int),
                    array_view(out@) == array_view(orig.take(i as int)),
                    forall|l: int| 0 <= l < out@.len() ==> #[trigger] keys_unique(out@[l]),
                decreases n - i,
            {
                let x = a.remove(0);
                proof {
                    assert(x == orig[i as int]);
                    assert(decreases_to!(j0 => j0->Array_0));
                    assert(decreases_to!(j0->Array_0 => j0->Array_0@));
                    assert(decreases_to!(j0->Array_0@ => j0->Array_0@[i as int]));
                    assert(decreases_to!(j0 => x));
                }
                let y = drop_shadowed(x);
                proof {
                    assert(orig.take(i + 1) =~= orig.take(i as int).push(x));
                    assert(a@ =~= orig.skip(i + 1));
                    lemma_array_view_push(orig.take(i as int), x);
                    lemma_array_view_push(out@, y);
                }
                out.push(y);
                i = i + 1;
            }
            proof {
                assert(orig.take(n as int) =~= orig);
            }
            proof {
                lemma_elements_keys_unique(out@);
            }
            Json::Array(out)
        },
        Json::Object(m) => {
            let ghost m0 = m;
            let ghost orig = m@;
            let mut m = m;
            let mut out: Vec<(String, Json)> = Vec::new();
            let n = m.len();
            let mut i: usize = 0;
            proof {
                assert(orig.take(0) =~= Seq::<(String, Json)>::empty());
            }
            while i < n
                invariant
                    j0 == j,
                    j0 == Json::Object(m0),
                    orig == m0@,
                    n == orig.len(),
                    i <= n,
                    m@ == orig.skip(i as int),
                    members_view(out@) == members_view(orig.take(i as int)),
                    forall|p: int, l: int| 0 <= p < l < out@.len() ==> #[trigger] out@[p].0@ != #[trigger] out@[l].0@,
                    forall|l: int| 0 <= l < out@.len() ==> #[trigger] keys_unique(out@[l].1),
                decreases n - i,
            {
                let (k, v) = m.remove(0);
                let ghost p = orig.take(i as int);
                proof {
                    assert((k, v) == orig[i as int]);
                    assert(decreases_to!(j0 => j0->Object_0));
                    assert(decreases_to!(j0->Object_0 => j0->Object_0@));
                    assert(decreases_to!(j0->Object_0@ => j0->Object_0@[i as int]));
                    assert(decreases_to!(j0->Object_0@[i as int] => j0->Object_0@[i as int].1));
                    assert(decreases_to!(j0 => v));
                    assert(orig.take(i + 1) =~= p.push((k, v)));
                    assert(m@ =~= orig.skip(i + 1));
                    lemma_members_push(p, (k, v));
                    lemma_members_lookup(p, k@);
                    lemma_members_lookup(out@, k@);
                }
                match find_key(&out, k.as_str()) {
                    Some(_) => {},
                    None => {
                        let w = drop_shadowed(v);
                        proof {
                            lemma_key_index(out@, k@);
                            lemma_members_push(out@, (k, w));
                        }
                        out.push((k, w));
                    },
                }
                i = i + 1;
            }
            proof {
                assert(orig.take(n as int) =~= orig);
                lemma_members_unique(out@);
            }
            Json::Object(out)
        },
        other => other,
    }
}

} // verus!
