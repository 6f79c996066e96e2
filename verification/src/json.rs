//! A JSON value tree, as produced by [`crate::Markdown::to_json`].

use vstd::prelude::*;

verus! {

/// A JSON value. Objects keep their entries in insertion order.
#[derive(Debug, PartialEq, Eq)]
pub enum JsonValue {
    Null,
    Bool(bool),
    /// A non-negative integer.
    Number(u64),
    Str(String),
    Array(Vec<JsonValue>),
    Object(Vec<(String, JsonValue)>),
}

/// Mathematical form of a [`JsonValue`].
pub enum JsonModel {
    Null,
    Bool(bool),
    Number(nat),
    Str(Seq<char>),
    Array(Seq<JsonModel>),
    Object(Seq<(Seq<char>, JsonModel)>),
}

impl JsonValue {
    pub open spec fn model(&self) -> JsonModel
        decreases self,
    {
        match self {
            JsonValue::Null => JsonModel::Null,
            JsonValue::Bool(b) => JsonModel::Bool(*b),
            JsonValue::Number(n) => JsonModel::Number(*n as nat),
            JsonValue::Str(s) => JsonModel::Str(s@),
            JsonValue::Array(v) => JsonModel::Array(
                Seq::new(v@.len(), |i: int| if 0 <= i < v@.len() {
                    v@[i].model()
                } else {
                    JsonModel::Null
                }),
            ),
            JsonValue::Object(v) => JsonModel::Object(
                Seq::new(v@.len(), |i: int| if 0 <= i < v@.len() {
                    (v@[i].0@, v@[i].1.model())
                } else {
                    (Seq::empty(), JsonModel::Null)
                }),
            ),
        }
    }
}

/// The models of a list of values.
pub open spec fn json_seq(v: Seq<JsonValue>) -> Seq<JsonModel> {
    Seq::new(v.len(), |i: int| v[i].model())
}

/// The models of a list of object entries.
pub open spec fn entries_seq(v: Seq<(String, JsonValue)>) -> Seq<(Seq<char>, JsonModel)> {
    Seq::new(v.len(), |i: int| (v[i].0@, v[i].1.model()))
}

/// The value of the first entry named `key`.
pub open spec fn entry_lookup(entries: Seq<(Seq<char>, JsonModel)>, key: Seq<char>) -> Option<JsonModel>
    decreases entries.len(),
{
    if entries.len() == 0 {
        None
    } else if entries[0].0 == key {
        Some(entries[0].1)
    } else {
        entry_lookup(entries.drop_first(), key)
    }
}

pub open spec fn text_key() -> Seq<char> {
    seq!['t', 'e', 'x', 't']
}

pub open spec fn children_key() -> Seq<char> {
    seq!['c', 'h', 'i', 'l', 'd', 'r', 'e', 'n']
}

/// An object whose `children` entry is a non-empty array.
pub open spec fn has_children(entries: Seq<(Seq<char>, JsonModel)>) -> bool {
    entry_lookup(entries, children_key()) matches Some(JsonModel::Array(a)) && a.len() > 0
}

/// Empty the `text` entry of every object that has children, at every
/// level reached through `children` arrays.
pub open spec fn strip_spec(v: JsonModel) -> JsonModel
    decreases v,
{
    match v {
        JsonModel::Object(entries) => {
            let hc = has_children(entries);
            JsonModel::Object(
                Seq::new(
                    entries.len(),
                    |i: int|
                        if 0 <= i < entries.len() {
                            let (k, x) = entries[i];
                            if k == text_key() && hc {
                                (k, JsonModel::Str(Seq::empty()))
                            } else if k == children_key() {
                                (
                                    k,
                                    match x {
                                        JsonModel::Array(a) => JsonModel::Array(
                                            Seq::new(a.len(), |j: int| if 0 <= j < a.len() {
                                                strip_spec(a[j])
                                            } else {
                                                JsonModel::Null
                                            }),
                                        ),
                                        other => other,
                                    },
                                )
                            } else {
                                (k, x)
                            }
                        } else {
                            (Seq::empty(), JsonModel::Null)
                        },
                ),
            )
        },
        other => other,
    }
}

/// An array's model lists its items' models.
pub proof fn lemma_array_model(v: Vec<JsonValue>)
    ensures
        JsonValue::Array(v).model() == JsonModel::Array(json_seq(v@)),
{
    let m = JsonValue::Array(v).model();
    if let JsonModel::Array(items) = m {
        assert(items =~= json_seq(v@));
    }
}

/// An object's model lists its entries' models.
pub proof fn lemma_object_model(v: Vec<(String, JsonValue)>)
    ensures
        JsonValue::Object(v).model() == JsonModel::Object(entries_seq(v@)),
{
    let m = JsonValue::Object(v).model();
    if let JsonModel::Object(items) = m {
        assert(items =~= entries_seq(v@));
    }
}

/// A deep copy of `v`.
pub fn copy_value(v: &JsonValue) -> (r: JsonValue)
    ensures
        r.model() == v.model(),
    decreases v,
{
    match v {
        JsonValue::Null => JsonValue::Null,
        JsonValue::Bool(b) => JsonValue::Bool(*b),
        JsonValue::Number(n) => JsonValue::Number(*n),
        JsonValue::Str(s) => JsonValue::Str(s.clone()),
        JsonValue::Array(items) => {
            let mut out: Vec<JsonValue> = Vec::new();
            let mut j: usize = 0;
            while j < items.len()
                invariant
                    j <= items@.len(),
                    out@.len() == j,
                    *v == JsonValue::Array(*items),
                    forall|q: int| 0 <= q < j ==> (#[trigger] out@[q]).model() == items@[q].model(),
                decreases items@.len() - j,
            {
                proof {
                    assert(decreases_to!(*v => (*v)->Array_0));
                    assert(decreases_to!(*items => items@));
                    assert(decreases_to!(items@ => items@[j as int]));
                }
                out.push(copy_value(&items[j]));
                j = j + 1;
            }
            proof {
                lemma_array_model(out);
                lemma_array_model(*items);
                assert(json_seq(out@) =~= json_seq(items@));
            }
            JsonValue::Array(out)
        },
        JsonValue::Object(entries) => {
            let mut out: Vec<(String, JsonValue)> = Vec::new();
            let mut i: usize = 0;
            while i < entries.len()
                invariant
                    i <= entries@.len(),
                    out@.len() == i,
                    *v == JsonValue::Object(*entries),
                    forall|q: int|
                        0 <= q < i ==> (#[trigger] out@[q]).0@ == entries@[q].0@ && out@[q].1.model()
                            == entries@[q].1.model(),
                decreases entries@.len() - i,
            {
                proof {
                    assert(decreases_to!(*v => (*v)->Object_0));
                    assert(decreases_to!(*entries => entries@));
                    assert(decreases_to!(entries@ => entries@[i as int]));
                    assert(decreases_to!(entries@[i as int] => entries@[i as int].1));
                }
                let k = entries[i].0.clone();
                let x = copy_value(&entries[i].1);
                out.push((k, x));
                i = i + 1;
            }
            proof {
                lemma_object_model(out);
                lemma_object_model(*entries);
                assert(entries_seq(out@) =~= entries_seq(entries@));
            }
            JsonValue::Object(out)
        },
    }
}

/// The value of the first entry named `key`.
fn find_entry<'a>(entries: &'a Vec<(String, JsonValue)>, key: &str) -> (r: Option<&'a JsonValue>)
    ensures
        match r {
            Some(x) => entry_lookup(entries_seq(entries@), key@) == Some(x.model()),
            None => entry_lookup(entries_seq(entries@), key@) is None,
        },
{
    let mut k: usize = 0;
    proof {
        assert(entries_seq(entries@).skip(0) =~= entries_seq(entries@));
    }
    while k < entries.len()
        invariant
            k <= entries@.len(),
            entry_lookup(entries_seq(entries@), key@) == entry_lookup(entries_seq(entries@).skip(k as int), key@),
        decreases entries@.len() - k,
    {
        let ghost rest = entries_seq(entries@).skip(k as int);
        proof {
            assert(rest[0] == (entries@[k as int].0@, entries@[k as int].1.model()));
            assert(rest.drop_first() =~= entries_seq(entries@).skip(k + 1));
        }
        if crate::source::str_eq(entries[k].0.as_str(), key) {
            return Some(&entries[k].1);
        }
        k = k + 1;
    }
    None
}

/// Empty the `text` entry of every object that has non-empty `children`,
/// at every level reached through `children` arrays. Leaves keep their
/// text.
pub fn strip_non_leaf_text(node: &JsonValue) -> (r: JsonValue)
    ensures
        r.model() == strip_spec(node.model()),
    decreases node,
{
    match node {
        JsonValue::Object(entries) => {
            proof {
                reveal_strlit("children");
                reveal_strlit("text");
                assert("children"@ =~= children_key());
                assert("text"@ =~= text_key());
                lemma_object_model(*entries);
            }
            let hc = match find_entry(entries, "children") {
                Some(JsonValue::Array(a)) => {
                    proof {
                        lemma_array_model(*a);
                    }
                    a.len() > 0
                },
                _ => false,
            };
            let ghost es = entries_seq(entries@);
            let ghost target = match strip_spec(node.model()) {
                JsonModel::Object(e2) => e2,
                _ => Seq::empty(),
            };
            proof {
                assert(target.len() == es.len());
            }
            let mut out: Vec<(String, JsonValue)> = Vec::new();
            let mut i: usize = 0;
            while i < entries.len()
                invariant
                    i <= entries@.len(),
                    es == entries_seq(entries@),
                    *node == JsonValue::Object(*entries),
                    node.model() == JsonModel::Object(es),
                    hc == has_children(es),
                    target == (match strip_spec(node.model()) {
                        JsonModel::Object(e2) => e2,
                        _ => Seq::empty(),
                    }),
                    target.len() == es.len(),
                    "text"@ == text_key(),
                    "children"@ == children_key(),
                    out@.len() == i,
                    forall|q: int| 0 <= q < i ==> ((#[trigger] out@[q]).0@, out@[q].1.model()) == target[q],
                decreases entries@.len() - i,
            {
                let key = &entries[i].0;
                let x = &entries[i].1;
                proof {
                    assert(es[i as int] == (key@, x.model()));
                }
                let nx = if crate::source::str_eq(key.as_str(), "text") && hc {
                    JsonValue::Str(String::new())
                } else if crate::source::str_eq(key.as_str(), "children") {
                    match x {
                        JsonValue::Array(a) => {
                            let mut kids: Vec<JsonValue> = Vec::new();
                            let mut j: usize = 0;
                            while j < a.len()
                                invariant
                                    j <= a@.len(),
                                    *node == JsonValue::Object(*entries),
                                    i < entries@.len(),
                                    entries@[i as int].1 == JsonValue::Array(*a),
                                    kids@.len() == j,
                                    forall|q: int| 0 <= q < j ==> (#[trigger] kids@[q]).model() == strip_spec(a@[q].model()),
                                decreases a@.len() - j,
                            {
                                proof {
                                    assert(decreases_to!(*node => (*node)->Object_0));
                                    assert(decreases_to!(*entries => entries@));
                                    assert(decreases_to!(entries@ => entries@[i as int]));
                                    assert(decreases_to!(entries@[i as int] => entries@[i as int].1));
                                    assert(decreases_to!(entries@[i as int].1 => (entries@[i as int].1)->Array_0));
                                    assert(decreases_to!(*a => a@));
                                    assert(decreases_to!(a@ => a@[j as int]));
                                }
                                kids.push(strip_non_leaf_text(&a[j]));
                                j = j + 1;
                            }
                            proof {
                                lemma_array_model(kids);
                                lemma_array_model(*a);
                            }
                            let r = JsonValue::Array(kids);
                            proof {
                                let am = json_seq(a@);
                                assert(json_seq(kids@) =~= Seq::new(am.len(), |j: int| if 0 <= j < am.len() {
                                    strip_spec(am[j])
                                } else {
                                    JsonModel::Null
                                }));
                                assert(r.model() == JsonModel::Array(json_seq(kids@)));
                                assert(x.model() == JsonModel::Array(am));
                                assert(json_seq(kids@).len() == am.len());
                                assert(forall|j: int| 0 <= j < am.len() ==> #[trigger] json_seq(kids@)[j] == strip_spec(am[j]));
                            }
                            r
                        },
                        _ => copy_value(x),
                    }
                } else {
                    copy_value(x)
                };
                proof {
                    let t = target[i as int];
                    if key@ == text_key() && hc {
                        assert(t == (key@, JsonModel::Str(Seq::empty())));
                        assert(nx.model() == JsonModel::Str(Seq::<char>::empty()));
                    } else if key@ == children_key() {
                        assert(t.0 == key@);
                        match (t.1, nx.model(), x.model()) {
                            (JsonModel::Array(s1), JsonModel::Array(s2), JsonModel::Array(am)) => {
                                assert(s1 =~= s2);
                            },
                            _ => {},
                        }
                        assert(t.1 == nx.model());
                    } else {
                        assert(t == (key@, x.model()));
                    }
                    assert(target[i as int] == (key@, nx.model()));
                }
                out.push((key.clone(), nx));
                i = i + 1;
            }
            proof {
                lemma_object_model(out);
                assert(entries_seq(out@) =~= target);
            }
            JsonValue::Object(out)
        },
        _ => copy_value(node),
    }
}

} // verus!
