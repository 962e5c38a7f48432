//! JSON-like documents: the mathematical model, the executable value type,
//! structural equality and the conflict-checked deep merge.
use vstd::prelude::*;

use crate::ancestor_mapping::position_of_key;

verus! {

broadcast use vstd::std_specs::vec::group_vec_axioms;

/// The mathematical model of a value: objects are finite maps.
pub enum Json {
    Null,
    Bool(bool),
    Number(Seq<char>),
    Str(Seq<char>),
    Array(Seq<Json>),
    Object(Map<Seq<char>, Json>),
}

/// A JSON-like value. A number is held as its decimal text; an object as
/// its entries, each key at most once.
pub enum JsonValue {
    Null,
    Bool(bool),
    Number(String),
    String(String),
    Array(Vec<JsonValue>),
    Object(Vec<(String, JsonValue)>),
}

/// A document: the entries of an object.
pub type Document = Vec<(String, JsonValue)>;

/// The model of a value.
pub open spec fn json_of(v: JsonValue) -> Json
    decreases v,
{
    match v {
        JsonValue::Null => Json::Null,
        JsonValue::Bool(b) => Json::Bool(b),
        JsonValue::Number(n) => Json::Number(n@),
        JsonValue::String(s) => Json::Str(s@),
        JsonValue::Array(items) => Json::Array(
            Seq::new(items.len() as nat, |i: int| if 0 <= i < items@.len() { json_of(items@[i]) } else { Json::Null }),
        ),
        JsonValue::Object(e) => Json::Object(doc_of(e@)),
    }
}

/// The model of a document: later entries win, which matters only when a
/// key repeats, and well-formed documents never repeat one.
pub open spec fn doc_of(e: Seq<(String, JsonValue)>) -> Map<Seq<char>, Json>
    decreases e,
{
    if e.len() == 0 {
        Map::empty()
    } else {
        doc_of(e.drop_last()).insert(e.last().0@, json_of(e.last().1))
    }
}

/// No key occurs twice among the entries.
pub open spec fn keys_unique(e: Seq<(String, JsonValue)>) -> bool {
    forall|i: int, j: int| 0 <= i < j < e.len() ==> e[i].0@ != e[j].0@
}

/// Every object in `v`, at any depth, has unique keys.
pub open spec fn value_wf(v: JsonValue) -> bool
    decreases v,
{
    match v {
        JsonValue::Array(items) => forall|i: int| 0 <= i < items@.len() ==> value_wf(items@[i]),
        JsonValue::Object(e) => keys_unique(e@) && forall|i: int| 0 <= i < e.len() ==> value_wf(#[trigger] e@[i].1),
        _ => true,
    }
}

/// The document's keys are unique and its values well formed.
pub open spec fn doc_wf(e: Seq<(String, JsonValue)>) -> bool {
    keys_unique(e) && forall|i: int| 0 <= i < e.len() ==> value_wf(#[trigger] e[i].1)
}

/// The result of merging `b` into `a`, or `None` on a conflict. Two objects
/// merge key by key; any other pair merges only when equal.
pub open spec fn merge_json(a: Json, b: Json) -> Option<Json>
    decreases a,
{
    match (a, b) {
        (Json::Object(ma), Json::Object(mb)) => {
            if forall|k: Seq<char>|
                #![trigger ma[k]]
                ma.contains_key(k) && mb.contains_key(k) ==> merge_json(ma[k], mb[k]) is Some {
                Some(Json::Object(Map::new(
                    |k: Seq<char>| ma.contains_key(k) || mb.contains_key(k),
                    |k: Seq<char>|
                        if ma.contains_key(k) && mb.contains_key(k) {
                            merge_json(ma[k], mb[k])->0
                        } else if ma.contains_key(k) {
                            ma[k]
                        } else {
                            mb[k]
                        },
                )))
            } else {
                None
            }
        },
        _ => if a == b {
            Some(a)
        } else {
            None
        },
    }
}

/// `a` with the keys in `p` of `b` merged in: a key of both takes the merge
/// of the two values, a key of one side keeps its value.
pub open spec fn merge_on(a: Map<Seq<char>, Json>, b: Map<Seq<char>, Json>, p: Set<Seq<char>>) -> Map<
    Seq<char>,
    Json,
> {
    Map::new(
        |k: Seq<char>| a.contains_key(k) || p.contains(k),
        |k: Seq<char>|
            if a.contains_key(k) && p.contains(k) {
                merge_json(a[k], b[k])->0
            } else if a.contains_key(k) {
                a[k]
            } else {
                b[k]
            },
    )
}

/// The result of merging the document `b` into `a`, or `None` on a conflict.
pub open spec fn merge_docs(a: Map<Seq<char>, Json>, b: Map<Seq<char>, Json>) -> Option<Map<Seq<char>, Json>> {
    match merge_json(Json::Object(a), Json::Object(b)) {
        Some(Json::Object(m)) => Some(m),
        _ => None,
    }
}

/// What the model of a document says of its entries.
pub proof fn lemma_doc_of(e: Seq<(String, JsonValue)>)
    requires
        keys_unique(e),
    ensures
        forall|k: Seq<char>| #[trigger] doc_of(e).contains_key(k) <==> exists|i: int| 0 <= i < e.len() && #[trigger] e[i].0@ == k,
        forall|i: int| 0 <= i < e.len() ==> #[trigger] doc_of(e)[e[i].0@] == json_of(e[i].1),
        doc_of(e).dom().finite(),
    decreases e.len(),
{
    if e.len() > 0 {
        let d = e.drop_last();
        assert(keys_unique(d));
        lemma_doc_of(d);
        assert forall|k: Seq<char>| #[trigger] doc_of(e).contains_key(k) <==> exists|i: int| 0 <= i < e.len() && #[trigger] e[i].0@ == k by {
            if doc_of(d).contains_key(k) {
                let i = choose|i: int| 0 <= i < d.len() && #[trigger] d[i].0@ == k;
                assert(e[i].0@ == k);
            }
            if exists|i: int| 0 <= i < e.len() && #[trigger] e[i].0@ == k {
                let i = choose|i: int| 0 <= i < e.len() && #[trigger] e[i].0@ == k;
                if i < e.len() - 1 {
                    assert(d[i].0@ == k);
                }
            }
        }
        assert forall|i: int| 0 <= i < e.len() implies #[trigger] doc_of(e)[e[i].0@] == json_of(e[i].1) by {
            if i < e.len() - 1 {
                assert(d[i] == e[i]);
            }
        }
    }
}

/// Replacing the value of an entry replaces it in the model.
pub proof fn lemma_doc_of_update(e: Seq<(String, JsonValue)>, i: int, v: JsonValue)
    requires
        keys_unique(e),
        0 <= i < e.len(),
    ensures
        doc_of(e.update(i, (e[i].0, v))) == doc_of(e).insert(e[i].0@, json_of(v)),
        keys_unique(e.update(i, (e[i].0, v))),
    decreases e.len(),
{
    let e2 = e.update(i, (e[i].0, v));
    if i == e.len() - 1 {
        assert(e2.drop_last() =~= e.drop_last());
        assert(doc_of(e2) =~= doc_of(e).insert(e[i].0@, json_of(v)));
    } else {
        let d = e.drop_last();
        assert(e2.drop_last() =~= d.update(i, (e[i].0, v)));
        lemma_doc_of_update(d, i, v);
        assert(doc_of(e2) =~= doc_of(e).insert(e[i].0@, json_of(v)));
    }
}

/// Two entry lists with the same keys and equal values, position by
/// position, have the same model.
pub proof fn lemma_doc_of_congruent(e1: Seq<(String, JsonValue)>, e2: Seq<(String, JsonValue)>)
    requires
        e1.len() == e2.len(),
        forall|i: int| 0 <= i < e1.len() ==> e1[i].0@ == e2[i].0@ && json_of(e1[i].1) == json_of(e2[i].1),
    ensures
        doc_of(e1) == doc_of(e2),
    decreases e1.len(),
{
    if e1.len() > 0 {
        lemma_doc_of_congruent(e1.drop_last(), e2.drop_last());
    }
}

/// The items of a well-formed array are well formed.
pub proof fn lemma_wf_item(v: JsonValue, i: int)
    requires
        value_wf(v),
        v is Array,
        0 <= i < v->Array_0@.len(),
    ensures
        value_wf(v->Array_0@[i]),
        decreases_to!(v => v->Array_0@[i]),
{
    assert(decreases_to!(v->Array_0 => v->Array_0[i]));
}

/// The keys of a path of strings.
pub open spec fn key_path(p: Seq<String>) -> Seq<Seq<char>> {
    p.map_values(|k: String| k@)
}

/// Two values that do not merge: they differ and are not both objects.
pub open spec fn leaf_conflict(x: Json, y: Json) -> bool {
    !(x is Object && y is Object) && x != y
}

/// `x` is what `path` leads to from `j`, through objects only.
pub open spec fn located(j: Json, path: Seq<Seq<char>>, x: Json) -> bool
    decreases path.len(),
{
    if path.len() == 0 {
        x == j
    } else {
        j is Object && j->Object_0.contains_key(path[0]) && located(j->Object_0[path[0]], path.subrange(1, path.len() as int), x)
    }
}

/// `path` leads, through objects on both sides, from `a` to `x` and from `b`
/// to `y`, and `x` and `y` do not merge.
pub open spec fn conflict_at(a: Json, b: Json, path: Seq<Seq<char>>, x: Json, y: Json) -> bool {
    located(a, path, x) && located(b, path, y) && leaf_conflict(x, y)
}

proof fn lemma_located_step(j: Json, k: Seq<char>, rest: Seq<Seq<char>>, x: Json)
    requires
        j is Object,
        j->Object_0.contains_key(k),
        located(j->Object_0[k], rest, x),
    ensures
        located(j, seq![k] + rest, x),
{
    let p = seq![k] + rest;
    assert(p.subrange(1, p.len() as int) =~= rest);
}

/// A merge conflict: the values at `path` differ and are not both objects.
pub struct MergeConflict {
    pub path: Vec<String>,
    pub existing: JsonValue,
    pub incoming: JsonValue,
}

/// Whether `a` and `b` are structurally equal (objects compare as maps).
pub fn values_equal(a: &JsonValue, b: &JsonValue) -> (r: bool)
    requires
        value_wf(*a),
        value_wf(*b),
    ensures
        r == (json_of(*a) == json_of(*b)),
    decreases a,
{
    match (a, b) {
        (JsonValue::Null, JsonValue::Null) => true,
        (JsonValue::Bool(x), JsonValue::Bool(y)) => *x == *y,
        (JsonValue::Number(x), JsonValue::Number(y)) => *x == *y,
        (JsonValue::String(x), JsonValue::String(y)) => *x == *y,
        (JsonValue::Array(x), JsonValue::Array(y)) => {
            if x.len() != y.len() {
                proof {
                    if json_of(*a) == json_of(*b) {
                        assert(json_of(*a)->Array_0.len() == json_of(*b)->Array_0.len());
                    }
                }
                return false;
            }
            let mut i: usize = 0;
            while i < x.len()
                invariant
                    i <= x@.len(),
                    x@.len() == y@.len(),
                    *a == JsonValue::Array(*x),
                    *b == JsonValue::Array(*y),
                    value_wf(*a),
                    value_wf(*b),
                    forall|j: int| 0 <= j < i ==> json_of(#[trigger] x@[j]) == json_of(y@[j]),
                decreases x@.len() - i,
            {
                if !values_equal(&x[i], &y[i]) {
                    proof {
                        if json_of(*a) == json_of(*b) {
                            assert(json_of(*a)->Array_0[i as int] == json_of(*b)->Array_0[i as int]);
                        }
                    }
                    return false;
                }
                i += 1;
            }
            proof {
                assert(json_of(*a)->Array_0 =~= json_of(*b)->Array_0);
            }
            true
        },
        (JsonValue::Object(x), JsonValue::Object(y)) => {
            proof {
                lemma_doc_of(x@);
                lemma_doc_of(y@);
            }
            let mut i: usize = 0;
            while i < x.len()
                invariant
                    i <= x@.len(),
                    *a == JsonValue::Object(*x),
                    *b == JsonValue::Object(*y),
                    value_wf(*a),
                    value_wf(*b),
                    forall|j: int| 0 <= j < i ==> doc_of(y@).contains_key(#[trigger] x@[j].0@)
                        && doc_of(y@)[x@[j].0@] == doc_of(x@)[x@[j].0@],
                decreases x@.len() - i,
            {
                proof {
                    lemma_doc_of(x@);
                    lemma_doc_of(y@);
                }
                match position_of_key(y, &x[i].0) {
                    None => {
                        proof {
                            assert(doc_of(x@).contains_key(x@[i as int].0@));
                            assert(!doc_of(y@).contains_key(x@[i as int].0@));
                        }
                        return false;
                    },
                    Some(j) => {
                        if !values_equal(&x[i].1, &y[j].1) {
                            proof {
                                assert(doc_of(x@)[x@[i as int].0@] != doc_of(y@)[x@[i as int].0@]);
                            }
                            return false;
                        }
                    },
                }
                i += 1;
            }
            let mut i: usize = 0;
            while i < y.len()
                invariant
                    i <= y@.len(),
                    *a == JsonValue::Object(*x),
                    *b == JsonValue::Object(*y),
                    keys_unique(x@),
                    keys_unique(y@),
                    forall|j: int| 0 <= j < i ==> doc_of(x@).contains_key(#[trigger] y@[j].0@),
                decreases y@.len() - i,
            {
                proof {
                    lemma_doc_of(x@);
                    lemma_doc_of(y@);
                }
                if position_of_key(x, &y[i].0).is_none() {
                    proof {
                        assert(doc_of(y@).contains_key(y@[i as int].0@));
                        assert(!doc_of(x@).contains_key(y@[i as int].0@));
                    }
                    return false;
                }
                i += 1;
            }
            proof {
                lemma_doc_of(x@);
                lemma_doc_of(y@);
                assert forall|k: Seq<char>| #[trigger] doc_of(y@).contains_key(k) implies doc_of(x@).contains_key(k) by {
                    let j = choose|j: int| 0 <= j < y@.len() && #[trigger] y@[j].0@ == k;
                }
                assert forall|k: Seq<char>| #[trigger] doc_of(x@).contains_key(k) implies doc_of(y@).contains_key(k)
                    && doc_of(y@)[k] == doc_of(x@)[k] by {
                    let j = choose|j: int| 0 <= j < x@.len() && #[trigger] x@[j].0@ == k;
                }
                assert(doc_of(x@) =~= doc_of(y@));
            }
            true
        },
        _ => false,
    }
}

/// A deep copy of `v`.
pub fn clone_value(v: &JsonValue) -> (r: JsonValue)
    requires
        value_wf(*v),
    ensures
        json_of(r) == json_of(*v),
        value_wf(r),
    decreases v,
{
    match v {
        JsonValue::Null => JsonValue::Null,
        JsonValue::Bool(b) => JsonValue::Bool(*b),
        JsonValue::Number(n) => JsonValue::Number(n.clone()),
        JsonValue::String(s) => JsonValue::String(s.clone()),
        JsonValue::Array(items) => {
            let mut out: Vec<JsonValue> = Vec::new();
            let mut i: usize = 0;
            while i < items.len()
                invariant
                    i <= items@.len(),
                    *v == JsonValue::Array(*items),
                    value_wf(*v),
                    out@.len() == i,
                    forall|j: int| 0 <= j < i ==> json_of(#[trigger] out@[j]) == json_of(items@[j])
                        && (value_wf(items@[j]) ==> value_wf(out@[j])),
                decreases items@.len() - i,
            {
                proof {
                    lemma_wf_item(*v, i as int);
                }
                let c = clone_value(&items[i]);
                out.push(c);
                i += 1;
            }
            let r = JsonValue::Array(out);
            proof {
                assert(json_of(r)->Array_0 =~= json_of(*v)->Array_0);
            }
            r
        },
        JsonValue::Object(e) => {
            let mut out: Document = Vec::new();
            let mut i: usize = 0;
            while i < e.len()
                invariant
                    i <= e@.len(),
                    *v == JsonValue::Object(*e),
                    value_wf(*v),
                    out@.len() == i,
                    forall|j: int| 0 <= j < i ==> #[trigger] out@[j].0@ == e@[j].0@ && json_of(out@[j].1) == json_of(e@[j].1)
                        && (value_wf(e@[j].1) ==> value_wf(out@[j].1)),
                decreases e@.len() - i,
            {
                let k = e[i].0.clone();
                let c = clone_value(&e[i].1);
                out.push((k, c));
                i += 1;
            }
            proof {
                lemma_doc_of_congruent(out@, e@);
                if value_wf(*v) {
                    assert forall|x: int, y: int| 0 <= x < y < out@.len() implies out@[x].0@ != out@[y].0@ by {
                        assert(out@[x].0@ == e@[x].0@ && out@[y].0@ == e@[y].0@);
                    }
                    assert forall|x: int| 0 <= x < out@.len() implies value_wf(#[trigger] out@[x].1) by {
                        assert(out@[x].0@ == e@[x].0@);
                    }
                }
            }
            JsonValue::Object(out)
        },
    }
}

/// A deep copy of a document, entry by entry.
pub fn clone_document(e: &Document) -> (r: Document)
    requires
        doc_wf(e@),
    ensures
        doc_of(r@) == doc_of(e@),
        doc_wf(r@),
{
    let mut out: Document = Vec::new();
    let mut i: usize = 0;
    while i < e.len()
        invariant
            i <= e@.len(),
            doc_wf(e@),
            out@.len() == i,
            forall|j: int| 0 <= j < i ==> #[trigger] out@[j].0@ == e@[j].0@ && json_of(out@[j].1) == json_of(e@[j].1)
                && value_wf(out@[j].1),
        decreases e@.len() - i,
    {
        let k = e[i].0.clone();
        let c = clone_value(&e[i].1);
        out.push((k, c));
        i += 1;
    }
    proof {
        lemma_doc_of_congruent(out@, e@);
        assert forall|x: int, y: int| 0 <= x < y < out@.len() implies out@[x].0@ != out@[y].0@ by {
            assert(out@[x].0@ == e@[x].0@ && out@[y].0@ == e@[y].0@);
        }
    }
    out
}

/// How two objects merge, in terms of `merge_on`.
pub proof fn lemma_merge_objects(a: Map<Seq<char>, Json>, b: Map<Seq<char>, Json>)
    ensures
        merge_json(Json::Object(a), Json::Object(b)) == if forall|k: Seq<char>|
            #![trigger a[k]]
            a.contains_key(k) && b.contains_key(k) ==> merge_json(a[k], b[k]) is Some {
            Some(Json::Object(merge_on(a, b, b.dom())))
        } else {
            None::<Json>
        },
{
    let ok = forall|k: Seq<char>| #![trigger a[k]] a.contains_key(k) && b.contains_key(k) ==> merge_json(a[k], b[k]) is Some;
    if ok {
        let m = merge_json(Json::Object(a), Json::Object(b))->0->Object_0;
        let n = merge_on(a, b, b.dom());
        assert forall|k: Seq<char>| #[trigger] m.contains_key(k) implies n.contains_key(k) && m[k] == n[k] by {
            if a.contains_key(k) && b.contains_key(k) {
                assert(a[k] == a[k]);
            }
        }
        assert(m =~= n);
    } else {
        let k = choose|k: Seq<char>| a.contains_key(k) && b.contains_key(k) && !(merge_json(a[k], b[k]) is Some);
        assert(a[k] == a[k]);
    }
}

/// The keys of the first `j` entries of `e`.
pub open spec fn keys_before(e: Seq<(String, JsonValue)>, j: int) -> Set<Seq<char>> {
    Set::new(|k: Seq<char>| exists|x: int| 0 <= x < j && #[trigger] e[x].0@ == k)
}

/// The value of an entry decreases from the entry list.
proof fn lemma_entry_decreases(e: Document, j: int)
    requires
        0 <= j < e@.len(),
    ensures
        decreases_to!(e => e@[j].1),
{
    assert(decreases_to!(e => e[j]));
}

/// Merges `v2` into `v1`: two objects merge key by key, any other pair only
/// when equal, and is then left as it was. On a conflict between two objects
/// `v1` may be partly merged; any other `v1` is left as it was.
pub fn merge_values_consume(v1: &mut JsonValue, v2: JsonValue) -> (r: Result<(), MergeConflict>)
    requires
        value_wf(*old(v1)),
        value_wf(v2),
    ensures
        match r {
            Ok(()) => merge_json(json_of(*old(v1)), json_of(v2)) == Some(json_of(*final(v1)))
                && value_wf(*final(v1)),
            Err(c) => merge_json(json_of(*old(v1)), json_of(v2)) is None
                && conflict_at(json_of(*old(v1)), json_of(v2), key_path(c.path@), json_of(c.existing), json_of(c.incoming)),
        },
        !(*old(v1) is Object && v2 is Object) ==> *final(v1) == *old(v1),
{
    merge_value_into(v1, &v2)
}

/// Merges the document `m2` into `m1`: a new key is inserted, a shared key
/// has its two values merged. On a conflict `m1` may be partly merged, and
/// the conflict's path leads from `m1` to the conflicting values.
pub fn merge_map_consume(m1: &mut Document, m2: Document) -> (r: Result<(), MergeConflict>)
    requires
        doc_wf(old(m1)@),
        doc_wf(m2@),
    ensures
        match r {
            Ok(()) => merge_docs(doc_of(old(m1)@), doc_of(m2@)) == Some(doc_of(final(m1)@)) && doc_wf(final(m1)@),
            Err(c) => merge_docs(doc_of(old(m1)@), doc_of(m2@)) is None && c.path@.len() > 0
                && conflict_at(Json::Object(doc_of(old(m1)@)), Json::Object(doc_of(m2@)), key_path(c.path@),
                    json_of(c.existing), json_of(c.incoming)),
        },
{
    merge_document_into(m1, &m2)
}

/// `merge_values_consume` on a borrowed `v2`.
fn merge_value_into(v1: &mut JsonValue, v2: &JsonValue) -> (r: Result<(), MergeConflict>)
    requires
        value_wf(*old(v1)),
        value_wf(*v2),
    ensures
        match r {
            Ok(()) => merge_json(json_of(*old(v1)), json_of(*v2)) == Some(json_of(*final(v1)))
                && value_wf(*final(v1)),
            Err(c) => merge_json(json_of(*old(v1)), json_of(*v2)) is None
                && conflict_at(json_of(*old(v1)), json_of(*v2), key_path(c.path@), json_of(c.existing), json_of(c.incoming)),
        },
        !(*old(v1) is Object && *v2 is Object) ==> *final(v1) == *old(v1),
    decreases v2,
{
    match v2 {
        JsonValue::Object(o2) => {
            if let JsonValue::Object(o1) = v1 {
                return merge_document_into(o1, o2);
            }
            let existing = clone_value(v1);
            let incoming = clone_value(v2);
            let path: Vec<String> = Vec::new();
            proof {
                assert(key_path(path@) =~= Seq::<Seq<char>>::empty());
            }
            Err(MergeConflict { path, existing, incoming })
        },
        _ => {
            if values_equal(v1, v2) {
                Ok(())
            } else {
                let existing = clone_value(v1);
                let incoming = clone_value(v2);
                let path: Vec<String> = Vec::new();
                proof {
                    assert(key_path(path@) =~= Seq::<Seq<char>>::empty());
                }
                Err(MergeConflict { path, existing, incoming })
            }
        },
    }
}

/// `merge_map_consume` on a borrowed `m2`.
fn merge_document_into(m1: &mut Document, m2: &Document) -> (r: Result<(), MergeConflict>)
    requires
        doc_wf(old(m1)@),
        doc_wf(m2@),
    ensures
        match r {
            Ok(()) => merge_docs(doc_of(old(m1)@), doc_of(m2@)) == Some(doc_of(final(m1)@)) && doc_wf(final(m1)@),
            Err(c) => merge_docs(doc_of(old(m1)@), doc_of(m2@)) is None && c.path@.len() > 0
                && conflict_at(Json::Object(doc_of(old(m1)@)), Json::Object(doc_of(m2@)), key_path(c.path@),
                    json_of(c.existing), json_of(c.incoming)),
        },
    decreases m2,
{
    let ghost a = doc_of(m1@);
    let ghost orig = m2@;
    let ghost b = doc_of(orig);
    let mut j: usize = 0;
    while j < m2.len()
        invariant
            doc_wf(m1@),
            doc_wf(orig),
            orig == m2@,
            a == doc_of(old(m1)@),
            b == doc_of(orig),
            j <= orig.len(),
            doc_of(m1@) == merge_on(a, b, keys_before(orig, j as int)),
            forall|k: Seq<char>| a.contains_key(k) && #[trigger] keys_before(orig, j as int).contains(k)
                ==> merge_json(a[k], b[k]) is Some,
        decreases orig.len() - j,
    {
        let ghost p = keys_before(orig, j as int);
        let ghost p1 = keys_before(orig, j + 1);
        let ghost cur = doc_of(m1@);
        let k = &m2[j].0;
        let v = &m2[j].1;
        let ghost kk = k@;
        proof {
            lemma_doc_of(orig);
            lemma_doc_of(m1@);
            assert(!p.contains(kk)) by {
                if p.contains(kk) {
                    let x = choose|x: int| 0 <= x < j && #[trigger] orig[x].0@ == kk;
                }
            }
            assert(p1 =~= p.insert(kk)) by {
                assert forall|q: Seq<char>| p1.contains(q) implies p.insert(kk).contains(q) by {
                    let x = choose|x: int| 0 <= x < j + 1 && #[trigger] orig[x].0@ == q;
                    if x < j {
                        assert(p.contains(q));
                    }
                }
                assert forall|q: Seq<char>| p.insert(kk).contains(q) implies p1.contains(q) by {
                    if q == kk {
                        assert(orig[j as int].0@ == q);
                    } else {
                        let x = choose|x: int| 0 <= x < j && #[trigger] orig[x].0@ == q;
                    }
                }
            }
            assert(b.contains_key(kk) && b[kk] == json_of(*v));
            assert(value_wf(orig[j as int].1));
        }
        match position_of_key(m1, k) {
            Some(i) => {
                proof {
                    assert(cur.contains_key(kk));
                    assert(a.contains_key(kk));
                    assert(cur[kk] == a[kk]);
                    assert(json_of(m1@[i as int].1) == a[kk]);
                    lemma_entry_decreases(*m2, j as int);
                }
                let ghost before = m1@;
                match merge_value_into(&mut m1[i].1, v) {
                    Ok(()) => {
                        proof {
                            assert(m1@ == before.update(i as int, (before[i as int].0, m1@[i as int].1)));
                            lemma_doc_of_update(before, i as int, m1@[i as int].1);
                            assert(doc_of(m1@) =~= merge_on(a, b, p1));
                            assert forall|q: Seq<char>| a.contains_key(q) && #[trigger] p1.contains(q)
                                implies merge_json(a[q], b[q]) is Some by {
                                if q != kk {
                                    assert(p.contains(q));
                                }
                            }
                            assert forall|x: int| 0 <= x < m1@.len() implies value_wf(#[trigger] m1@[x].1) by {
                                if x != i {
                                    assert(m1@[x] == before[x]);
                                }
                            }
                        }
                    },
                    Err(e) => {
                        let mut e = e;
                        let ghost rest = key_path(e.path@);
                        e.path.insert(0, k.clone());
                        proof {
                            assert(key_path(e.path@) =~= seq![kk] + rest);
                            lemma_located_step(Json::Object(a), kk, rest, json_of(e.existing));
                            lemma_located_step(Json::Object(b), kk, rest, json_of(e.incoming));
                            assert(a.contains_key(kk) && b.contains_key(kk));
                            assert(merge_json(a[kk], b[kk]) is None);
                            lemma_merge_objects(a, b);
                        }
                        return Err(e);
                    },
                }
            },
            None => {
                proof {
                    assert(!cur.contains_key(kk)) by {
                        if cur.contains_key(kk) {
                            let x = choose|x: int| 0 <= x < m1@.len() && #[trigger] m1@[x].0@ == kk;
                        }
                    }
                }
                let ghost before = m1@;
                let key = k.clone();
                let value = clone_value(v);
                m1.push((key, value));
                proof {
                    assert(m1@.drop_last() == before);
                    assert(doc_of(m1@) =~= merge_on(a, b, p1));
                    assert forall|q: Seq<char>| a.contains_key(q) && #[trigger] p1.contains(q)
                        implies merge_json(a[q], b[q]) is Some by {
                        if q != kk {
                            assert(p.contains(q));
                        }
                    }
                    assert forall|x: int, y: int| 0 <= x < y < m1@.len() implies m1@[x].0@ != m1@[y].0@ by {
                        if y == m1@.len() - 1 {
                            assert(m1@[x] == before[x]);
                        }
                    }
                    assert forall|x: int| 0 <= x < m1@.len() implies value_wf(#[trigger] m1@[x].1) by {
                        if x < before.len() {
                            assert(m1@[x] == before[x]);
                        }
                    }
                }
            },
        }
        j += 1;
    }
    proof {
        lemma_doc_of(orig);
        assert(keys_before(orig, j as int) =~= b.dom()) by {
            assert forall|q: Seq<char>| #[trigger] b.dom().contains(q) implies keys_before(orig, j as int).contains(q) by {
                let x = choose|x: int| 0 <= x < orig.len() && #[trigger] orig[x].0@ == q;
            }
        }
        assert forall|k: Seq<char>| #![trigger a[k]] a.contains_key(k) && b.contains_key(k) implies merge_json(a[k], b[k]) is Some by {
            assert(keys_before(orig, j as int).contains(k));
        }
        lemma_merge_objects(a, b);
    }
    Ok(())
}

/// Every value merges with itself into itself.
pub proof fn lemma_merge_self(j: Json)
    ensures
        merge_json(j, j) == Some(j),
    decreases j,
{
    if let Json::Object(m) = j {
        assert forall|k: Seq<char>| #![trigger m[k]] m.contains_key(k) implies merge_json(m[k], m[k]) == Some(m[k]) by {
            lemma_merge_self(m[k]);
        }
        lemma_merge_objects(m, m);
        assert(merge_on(m, m, m.dom()) =~= m);
    }
}

/// Merging a document with a copy of itself succeeds and changes nothing:
/// `merge_map_consume(m, clone_document(&m))` returns `Ok` and leaves `m` as it was.
pub proof fn merge_map_idempotent(m: Document)
    requires
        doc_wf(m@),
    ensures
        merge_docs(doc_of(m@), doc_of(m@)) == Some(doc_of(m@)),
{
    lemma_merge_self(Json::Object(doc_of(m@)));
}

/// Two documents that share a key whose values differ, and are not both
/// objects, conflict whichever of them is merged into the other.
pub proof fn merge_conflict_either_order(a: Document, b: Document, k: Seq<char>)
    requires
        doc_of(a@).contains_key(k),
        doc_of(b@).contains_key(k),
        doc_of(a@)[k] != doc_of(b@)[k],
        !(doc_of(a@)[k] is Object) || !(doc_of(b@)[k] is Object),
    ensures
        merge_docs(doc_of(a@), doc_of(b@)) is None,
        merge_docs(doc_of(b@), doc_of(a@)) is None,
{
    let ma = doc_of(a@);
    let mb = doc_of(b@);
    assert(merge_json(ma[k], mb[k]) is None);
    assert(merge_json(mb[k], ma[k]) is None);
    lemma_merge_objects(ma, mb);
    lemma_merge_objects(mb, ma);
}

/// A conflict at `path` makes the merge fail in either order.
proof fn lemma_conflict_fails(a: Json, b: Json, path: Seq<Seq<char>>, x: Json, y: Json)
    requires
        conflict_at(a, b, path, x, y),
    ensures
        merge_json(a, b) is None,
        merge_json(b, a) is None,
    decreases path.len(),
{
    if path.len() > 0 {
        let k = path[0];
        let ma = a->Object_0;
        let mb = b->Object_0;
        lemma_conflict_fails(ma[k], mb[k], path.subrange(1, path.len() as int), x, y);
        assert(ma[k] == ma[k]);
        assert(mb[k] == mb[k]);
        lemma_merge_objects(ma, mb);
        lemma_merge_objects(mb, ma);
    }
}

/// Two documents that, along one key path through objects on both sides,
/// lead to values that differ and are not both objects conflict whichever
/// of them is merged into the other, at any depth.
pub proof fn merge_conflict_any_depth(a: Document, b: Document, path: Seq<Seq<char>>, x: Json, y: Json)
    requires
        path.len() > 0,
        conflict_at(Json::Object(doc_of(a@)), Json::Object(doc_of(b@)), path, x, y),
    ensures
        merge_docs(doc_of(a@), doc_of(b@)) is None,
        merge_docs(doc_of(b@), doc_of(a@)) is None,
{
    lemma_conflict_fails(Json::Object(doc_of(a@)), Json::Object(doc_of(b@)), path, x, y);
}

} // verus!
