use vstd::prelude::*;

use crate::script::{ArraySlice, Jop, ObjectSelector, QueryError, QueryErrorView};
use crate::value::{
    entries_wf, items_wf, json_wf, lemma_entries_wf, lemma_items_wf, entries_view, items_view, json_view, lemma_entries_view, lemma_items_view, JsonValue, JsonView,
};

verus! {

/// The value of the first entry of `entries` whose key is `k`.
pub open spec fn obj_get(entries: Seq<(Seq<char>, JsonView)>, k: Seq<char>) -> Option<JsonView>
    decreases entries.len(),
{
    if entries.len() == 0 {
        None
    } else if entries[0].0 == k {
        Some(entries[0].1)
    } else {
        obj_get(entries.drop_first(), k)
    }
}

/// One selector step applied to a value.
pub open spec fn spec_apply(v: JsonView, op: Jop) -> Result<JsonView, QueryError>
    decreases v,
{
    match v {
        JsonView::Array(items) => match op {
            Jop::ArrayIndex(i) => {
                if 0 <= i < items.len() {
                    Ok(items[i as int])
                } else {
                    Err(QueryError::IndexOutOfRange(i))
                }
            },
            Jop::ArraySlice(sl) => {
                let lo = sl.lower(items.len() as int);
                let hi = sl.upper(items.len() as int);
                Ok(
                    JsonView::Array(
                        if lo < hi {
                            items.subrange(lo, hi)
                        } else {
                            Seq::empty()
                        },
                    ),
                )
            },
            Jop::Object(_) => match spec_apply_each(items, op) {
                Ok(rs) => Ok(JsonView::Array(rs)),
                Err(e) => Err(e),
            },
        },
        JsonView::Object(entries) => match op {
            Jop::Object(ObjectSelector::Wildcard) => Ok(v),
            Jop::Object(ObjectSelector::Exact(k)) => match obj_get(entries, k@) {
                Some(x) => Ok(x),
                None => Err(QueryError::KeyNotFound(k)),
            },
            _ => Err(QueryError::TypeMismatch),
        },
        _ => Ok(v),
    }
}

/// A selector step applied to each of `items` in order, stopping at the first
/// failure.
pub open spec fn spec_apply_each(items: Seq<JsonView>, op: Jop) -> Result<Seq<JsonView>, QueryError>
    decreases items,
{
    if items.len() == 0 {
        Ok(Seq::empty())
    } else {
        match spec_apply_each(items.drop_last(), op) {
            Err(e) => Err(e),
            Ok(rs) => match spec_apply(items.last(), op) {
                Ok(r) => Ok(rs.push(r)),
                Err(e) => Err(e),
            },
        }
    }
}

/// A selector chain applied left to right, stopping at the first failure.
pub open spec fn spec_select(v: JsonView, ops: Seq<Jop>) -> Result<JsonView, QueryError>
    decreases ops.len(),
{
    if ops.len() == 0 {
        Ok(v)
    } else {
        match spec_select(v, ops.drop_last()) {
            Ok(x) => spec_apply(x, ops.last()),
            Err(e) => Err(e),
        }
    }
}

proof fn lemma_apply_each_err(items: Seq<JsonView>, op: Jop, m: int)
    requires
        0 <= m <= items.len(),
        spec_apply_each(items.take(m), op) is Err,
    ensures
        spec_apply_each(items, op) == spec_apply_each(items.take(m), op),
    decreases items.len() - m,
{
    if m < items.len() {
        assert(items.take(m + 1).drop_last() =~= items.take(m));
        lemma_apply_each_err(items, op, m + 1);
    } else {
        assert(items.take(m) =~= items);
    }
}

proof fn lemma_select_err(v: JsonView, ops: Seq<Jop>, m: int)
    requires
        0 <= m <= ops.len(),
        spec_select(v, ops.take(m)) is Err,
    ensures
        spec_select(v, ops) == spec_select(v, ops.take(m)),
    decreases ops.len() - m,
{
    if m < ops.len() {
        assert(ops.take(m + 1).drop_last() =~= ops.take(m));
        lemma_select_err(v, ops, m + 1);
    } else {
        assert(ops.take(m) =~= ops);
    }
}

/// The position of the first entry of `entries` whose key is `k`.
pub(crate) fn find_entry(entries: &Vec<(String, JsonValue)>, k: &String) -> (r: Option<usize>)
    ensures
        match r {
            Some(i) => i < entries.len() && obj_get(entries_view(entries@), k@) == Some(
                json_view(entries@[i as int].1),
            ),
            None => obj_get(entries_view(entries@), k@) is None,
        },
{
    proof {
        lemma_entries_view(entries@);
    }
    let mut i: usize = 0;
    proof {
        assert(entries_view(entries@).skip(0) =~= entries_view(entries@));
    }
    while i < entries.len()
        invariant
            i <= entries.len(),
            entries_view(entries@).len() == entries.len(),
            forall|j: int|
                0 <= j < entries.len() ==> #[trigger] entries_view(entries@)[j] == (
                    entries@[j].0@,
                    json_view(entries@[j].1),
                ),
            obj_get(entries_view(entries@).skip(i as int), k@) == obj_get(
                entries_view(entries@),
                k@,
            ),
        decreases entries.len() - i,
    {
        let ghost ev = entries_view(entries@);
        proof {
            assert(ev.skip(i as int)[0] == ev[i as int]);
            assert(ev.skip(i as int).drop_first() =~= ev.skip(i + 1));
        }
        if entries[i].0 == *k {
            return Some(i);
        }
        i = i + 1;
    }
    None
}

/// Applies one selector step to a value.
pub fn apply(v: &JsonValue, op: &Jop) -> (r: Result<JsonValue, QueryError>)
    ensures
        match r {
            Ok(x) => spec_apply(v@, *op) == Ok::<_, QueryError>(x@),
            Err(e) => spec_apply(v@, *op) == Err::<JsonView, _>(e),
        },
    decreases v,
{
    match v {
        JsonValue::Array(a) => {
            proof {
                lemma_items_view(a@);
            }
            match op {
                Jop::ArrayIndex(i) => {
                    if *i < 0 || *i as u64 >= a.len() as u64 {
                        Err(QueryError::IndexOutOfRange(*i))
                    } else {
                        Ok(a[*i as usize].deep_copy())
                    }
                },
                Jop::ArraySlice(sl) => {
                    let range = sl.to_range(a.len());
                    let mut r: Vec<JsonValue> = Vec::new();
                    if range.start >= range.end {
                        proof {
                            assert(items_view(r@) =~= Seq::<JsonView>::empty());
                        }
                        return Ok(JsonValue::Array(r));
                    }
                    let mut i = range.start;
                    while i < range.end
                        invariant
                            range.start <= i <= range.end <= a.len(),
                            r.len() == i - range.start,
                            forall|j: int|
                                0 <= j < r.len() ==> json_view(#[trigger] r@[j]) == json_view(
                                    a@[range.start + j],
                                ),
                        decreases range.end - i,
                    {
                        r.push(a[i].deep_copy());
                        i = i + 1;
                    }
                    proof {
                        lemma_items_view(r@);
                        lemma_items_view(a@);
                        assert(items_view(r@) =~= items_view(a@).subrange(
                            range.start as int,
                            range.end as int,
                        ));
                    }
                    Ok(JsonValue::Array(r))
                },
                Jop::Object(_) => {
                    let ghost xs = items_view(a@);
                    let mut r: Vec<JsonValue> = Vec::new();
                    let mut i: usize = 0;
                    while i < a.len()
                        invariant
                            *v == JsonValue::Array(*a),
                            *op is Object,
                            xs == items_view(a@),
                            xs.len() == a.len(),
                            forall|j: int| 0 <= j < a.len() ==> #[trigger] xs[j] == json_view(a@[j]),
                            i <= a.len(),
                            spec_apply_each(xs.take(i as int), *op) == Ok::<_, QueryError>(
                                items_view(r@),
                            ),
                        decreases a.len() - i,
                    {
                        proof {
                            assert(decreases_to!(*v => (*v)->Array_0));
                            assert(decreases_to!(*a => a@));
                            assert(decreases_to!(a@ => a@[i as int]));
                            assert(xs.take(i + 1).drop_last() =~= xs.take(i as int));
                            assert(xs.take(i + 1).last() == json_view(a@[i as int]));
                        }
                        match apply(&a[i], op) {
                            Ok(x) => {
                                proof {
                                    assert(r@.push(x).drop_last() =~= r@);
                                    assert(items_view(r@.push(x)) == items_view(r@).push(
                                        json_view(x),
                                    ));
                                }
                                r.push(x);
                            },
                            Err(e) => {
                                proof {
                                    assert(spec_apply_each(xs.take(i + 1), *op) == Err::<
                                        Seq<JsonView>,
                                        _,
                                    >(e));
                                    lemma_apply_each_err(xs, *op, i + 1);
                                    assert(spec_apply_each(xs, *op) == Err::<Seq<JsonView>, _>(e));
                                }
                                return Err(e);
                            },
                        }
                        i = i + 1;
                    }
                    proof {
                        assert(xs.take(a.len() as int) =~= xs);
                    }
                    Ok(JsonValue::Array(r))
                },
            }
        },
        JsonValue::Object(o) => match op {
            Jop::Object(ObjectSelector::Wildcard) => Ok(v.deep_copy()),
            Jop::Object(ObjectSelector::Exact(k)) => match find_entry(o, k) {
                Some(i) => Ok(o[i].1.deep_copy()),
                None => Err(QueryError::KeyNotFound(k.clone())),
            },
            _ => Err(QueryError::TypeMismatch),
        },
        _ => Ok(v.deep_copy()),
    }
}

/// Applies a selector chain to a value, left to right; the first step that
/// fails ends the selection with its error.
pub fn select(root: &JsonValue, ops: &Vec<Jop>) -> (r: Result<JsonValue, QueryError>)
    ensures
        match r {
            Ok(x) => spec_select(root@, ops@) == Ok::<_, QueryError>(x@),
            Err(e) => spec_select(root@, ops@) == Err::<JsonView, _>(e),
        },
{
    let mut cur = root.deep_copy();
    let mut i: usize = 0;
    proof {
        assert(ops@.take(0).len() == 0);
    }
    while i < ops.len()
        invariant
            i <= ops.len(),
            spec_select(root@, ops@.take(i as int)) == Ok::<_, QueryError>(cur@),
        decreases ops.len() - i,
    {
        proof {
            assert(ops@.take(i + 1).drop_last() =~= ops@.take(i as int));
            assert(ops@.take(i + 1).last() == ops@[i as int]);
        }
        match apply(&cur, &ops[i]) {
            Ok(x) => {
                cur = x;
            },
            Err(e) => {
                proof {
                    lemma_select_err(root@, ops@, i + 1);
                }
                return Err(e);
            },
        }
        i = i + 1;
    }
    proof {
        assert(ops@.take(ops.len() as int) =~= ops@);
    }
    Ok(cur)
}

/// Selecting `[i]` from an array gives its element `i` when `i` is in range,
/// and fails with `IndexOutOfRange` otherwise.
pub proof fn law_select_index(items: Seq<JsonView>, i: i64)
    ensures
        0 <= i < items.len() ==> spec_select(JsonView::Array(items), seq![Jop::ArrayIndex(i)])
            == Ok::<_, QueryError>(items[i as int]),
        !(0 <= i < items.len()) ==> spec_select(JsonView::Array(items), seq![Jop::ArrayIndex(i)])
            == Err::<JsonView, _>(QueryError::IndexOutOfRange(i)),
{
    let v = JsonView::Array(items);
    assert(seq![Jop::ArrayIndex(i)].drop_last() =~= Seq::<Jop>::empty());
    assert(spec_select(v, Seq::<Jop>::empty()) == Ok::<_, QueryError>(v));
}

/// Selecting `[s:e]` from an array gives a new array of the elements from
/// `max(0, s)` up to `min(len, e)`, in order, whatever the step.
pub proof fn law_select_slice(items: Seq<JsonView>, s: i64, e: i64, step: Option<i64>)
    requires
        (if s < 0 {
            0
        } else {
            s as int
        }) <= (if e > items.len() {
            items.len() as int
        } else {
            e as int
        }),
    ensures
        spec_select(
            JsonView::Array(items),
            seq![Jop::ArraySlice(ArraySlice { start: Some(s), end: Some(e), step: step })],
        ) == Ok::<_, QueryError>(
            JsonView::Array(
                items.subrange(
                    if s < 0 {
                        0
                    } else {
                        s as int
                    },
                    if e > items.len() {
                        items.len() as int
                    } else {
                        e as int
                    },
                ),
            ),
        ),
{
    let ops = seq![Jop::ArraySlice(ArraySlice { start: Some(s), end: Some(e), step: step })];
    let v = JsonView::Array(items);
    let lo: int = if s < 0 {
        0
    } else {
        s as int
    };
    assert(items.subrange(lo, lo) =~= Seq::<JsonView>::empty());
    assert(ops.drop_last() =~= Seq::<Jop>::empty());
    assert(spec_select(v, Seq::<Jop>::empty()) == Ok::<_, QueryError>(v));
}

/// Selecting `.k` from an object gives the value of its entry `k`, and fails
/// with `KeyNotFound` where it has none; selecting `.*` gives the object
/// itself.
pub proof fn law_select_key(entries: Seq<(Seq<char>, JsonView)>, k: String)
    ensures
        obj_get(entries, k@) matches Some(x) ==> spec_select(
            JsonView::Object(entries),
            seq![Jop::Object(ObjectSelector::Exact(k))],
        ) == Ok::<_, QueryError>(x),
        obj_get(entries, k@) is None ==> spec_select(
            JsonView::Object(entries),
            seq![Jop::Object(ObjectSelector::Exact(k))],
        ) == Err::<JsonView, _>(QueryError::KeyNotFound(k)),
        spec_select(JsonView::Object(entries), seq![Jop::Object(ObjectSelector::Wildcard)])
            == Ok::<_, QueryError>(JsonView::Object(entries)),
{
    let v = JsonView::Object(entries);
    assert(spec_select(v, Seq::<Jop>::empty()) == Ok::<_, QueryError>(v));
    assert(seq![Jop::Object(ObjectSelector::Exact(k))].drop_last() =~= Seq::<Jop>::empty());
    assert(seq![Jop::Object(ObjectSelector::Wildcard)].drop_last() =~= Seq::<Jop>::empty());
}

proof fn lemma_obj_get_wf(es: Seq<(Seq<char>, JsonView)>, k: Seq<char>)
    requires
        entries_wf(es),
    ensures
        obj_get(es, k) matches Some(x) ==> json_wf(x),
    decreases es.len(),
{
    lemma_entries_wf(es);
    if es.len() > 0 && es[0].0 != k {
        lemma_entries_wf(es.drop_first());
        assert forall|i: int| 0 <= i < es.drop_first().len() implies json_wf(
            #[trigger] es.drop_first()[i].1,
        ) by {
            assert(es.drop_first()[i] == es[i + 1]);
        }
        lemma_obj_get_wf(es.drop_first(), k);
    }
}

proof fn lemma_apply_wf(v: JsonView, op: Jop)
    requires
        json_wf(v),
    ensures
        spec_apply(v, op) matches Ok(x) ==> json_wf(x),
    decreases v,
{
    match v {
        JsonView::Array(items) => {
            lemma_items_wf(items);
            match op {
                Jop::ArraySlice(sl) => {
                    let lo = sl.lower(items.len() as int);
                    let hi = sl.upper(items.len() as int);
                    let sub = if lo < hi {
                        items.subrange(lo, hi)
                    } else {
                        Seq::empty()
                    };
                    lemma_items_wf(sub);
                },
                Jop::Object(_) => {
                    lemma_apply_each_wf(items, op);
                },
                _ => {},
            }
        },
        JsonView::Object(entries) => {
            lemma_obj_get_wf(entries, op->Object_0->Exact_0@);
        },
        _ => {},
    }
}

proof fn lemma_apply_each_wf(items: Seq<JsonView>, op: Jop)
    requires
        items_wf(items),
    ensures
        spec_apply_each(items, op) matches Ok(rs) ==> items_wf(rs),
    decreases items,
{
    if items.len() > 0 {
        lemma_apply_each_wf(items.drop_last(), op);
        lemma_apply_wf(items.last(), op);
        if let Ok(rs) = spec_apply_each(items, op) {
            let prev = spec_apply_each(items.drop_last(), op)->Ok_0;
            assert(rs.drop_last() =~= prev);
        }
    }
}

/// Selection keeps a document well formed: what a selector chain picks out
/// of a document whose objects have distinct keys has distinct keys too.
pub proof fn law_select_keeps_wf(v: JsonView, ops: Seq<Jop>)
    requires
        json_wf(v),
    ensures
        spec_select(v, ops) matches Ok(x) ==> json_wf(x),
    decreases ops.len(),
{
    if ops.len() > 0 {
        law_select_keeps_wf(v, ops.drop_last());
        if let Ok(x) = spec_select(v, ops.drop_last()) {
            lemma_apply_wf(x, ops.last());
        }
    }
}

pub open spec fn query_result_view(r: Result<JsonView, QueryError>) -> Result<JsonView, QueryErrorView> {
    match r {
        Ok(x) => Ok(x),
        Err(e) => Err(e@),
    }
}

pub open spec fn query_results_view(r: Result<Seq<JsonView>, QueryError>) -> Result<
    Seq<JsonView>,
    QueryErrorView,
> {
    match r {
        Ok(x) => Ok(x),
        Err(e) => Err(e@),
    }
}

proof fn lemma_apply_view(v: JsonView, a: Jop, b: Jop)
    requires
        a@ == b@,
    ensures
        query_result_view(spec_apply(v, a)) == query_result_view(spec_apply(v, b)),
    decreases v,
{
    if let JsonView::Array(items) = v {
        if a is Object {
            lemma_apply_each_view(items, a, b);
        }
    }
}

proof fn lemma_apply_each_view(items: Seq<JsonView>, a: Jop, b: Jop)
    requires
        a@ == b@,
    ensures
        query_results_view(spec_apply_each(items, a)) == query_results_view(spec_apply_each(items, b)),
    decreases items,
{
    if items.len() > 0 {
        lemma_apply_each_view(items.drop_last(), a, b);
        lemma_apply_view(items.last(), a, b);
    }
}

/// Selector chains with the same steps select alike.
pub proof fn lemma_select_view(v: JsonView, a: Seq<Jop>, b: Seq<Jop>)
    requires
        a.map_values(|j: Jop| j@) == b.map_values(|j: Jop| j@),
    ensures
        query_result_view(spec_select(v, a)) == query_result_view(spec_select(v, b)),
    decreases a.len(),
{
    assert(a.len() == a.map_values(|j: Jop| j@).len());
    if a.len() > 0 {
        assert(a.drop_last().map_values(|j: Jop| j@) =~= a.map_values(|j: Jop| j@).drop_last());
        assert(b.drop_last().map_values(|j: Jop| j@) =~= b.map_values(|j: Jop| j@).drop_last());
        assert(b.len() == b.map_values(|j: Jop| j@).len());
        assert(a.map_values(|j: Jop| j@)[a.len() - 1] == a.last()@);
        assert(b.map_values(|j: Jop| j@)[a.len() - 1] == b.last()@);
        lemma_select_view(v, a.drop_last(), b.drop_last());
        lemma_apply_view_results(spec_select(v, a.drop_last()), spec_select(v, b.drop_last()), a.last(), b.last());
    }
}

proof fn lemma_apply_view_results(
    ra: Result<JsonView, QueryError>,
    rb: Result<JsonView, QueryError>,
    a: Jop,
    b: Jop,
)
    requires
        query_result_view(ra) == query_result_view(rb),
        a@ == b@,
    ensures
        query_result_view(
            match ra {
                Ok(x) => spec_apply(x, a),
                Err(e) => Err(e),
            },
        ) == query_result_view(
            match rb {
                Ok(x) => spec_apply(x, b),
                Err(e) => Err(e),
            },
        ),
{
    if let Ok(x) = ra {
        lemma_apply_view(x, a, b);
    }
}

} // verus!
