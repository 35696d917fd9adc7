use vstd::prelude::*;

verus! {

/// A JSON number as the input document held it.
///
/// A number with a fraction or an exponent is kept as the bit pattern of its
/// IEEE-754 double: the engine never computes with numbers, it only carries
/// them to the output.
#[derive(Debug, Clone, Copy, PartialEq, Eq)]
pub enum JsonNumber {
    Int(i64),
    UInt(u64),
    FloatBits(u64),
}

/// A JSON document tree. Object entries keep the order of the document.
/// A document read from JSON text has distinct keys in each object
/// (`json_wf`, checked by `well_formed`); where a key does occur twice,
/// lookups find its first entry.
#[derive(Debug, PartialEq, Eq)]
pub enum JsonValue {
    Null,
    Bool(bool),
    Number(JsonNumber),
    String(String),
    Array(Vec<JsonValue>),
    Object(Vec<(String, JsonValue)>),
}

/// The mathematical value of a `JsonValue`.
pub enum JsonView {
    Null,
    Bool(bool),
    Number(JsonNumber),
    Str(Seq<char>),
    Array(Seq<JsonView>),
    Object(Seq<(Seq<char>, JsonView)>),
}

pub open spec fn json_view(v: JsonValue) -> JsonView
    decreases v,
{
    match v {
        JsonValue::Null => JsonView::Null,
        JsonValue::Bool(b) => JsonView::Bool(b),
        JsonValue::Number(n) => JsonView::Number(n),
        JsonValue::String(s) => JsonView::Str(s@),
        JsonValue::Array(a) => JsonView::Array(items_view(a@)),
        JsonValue::Object(o) => JsonView::Object(entries_view(o@)),
    }
}

pub open spec fn items_view(s: Seq<JsonValue>) -> Seq<JsonView>
    decreases s,
{
    if s.len() == 0 {
        Seq::empty()
    } else {
        items_view(s.drop_last()).push(json_view(s.last()))
    }
}

pub open spec fn entries_view(s: Seq<(String, JsonValue)>) -> Seq<(Seq<char>, JsonView)>
    decreases s,
{
    if s.len() == 0 {
        Seq::empty()
    } else {
        entries_view(s.drop_last()).push((s.last().0@, json_view(s.last().1)))
    }
}

impl View for JsonValue {
    type V = JsonView;

    open spec fn view(&self) -> JsonView {
        json_view(*self)
    }
}

pub proof fn lemma_items_view(s: Seq<JsonValue>)
    ensures
        items_view(s).len() == s.len(),
        forall|i: int| 0 <= i < s.len() ==> #[trigger] items_view(s)[i] == json_view(s[i]),
    decreases s.len(),
{
    if s.len() > 0 {
        lemma_items_view(s.drop_last());
    }
}

pub proof fn lemma_entries_view(s: Seq<(String, JsonValue)>)
    ensures
        entries_view(s).len() == s.len(),
        forall|i: int|
            0 <= i < s.len() ==> #[trigger] entries_view(s)[i] == (s[i].0@, json_view(s[i].1)),
    decreases s.len(),
{
    if s.len() > 0 {
        lemma_entries_view(s.drop_last());
    }
}

impl JsonValue {
    /// A copy of the whole tree.
    pub fn deep_copy(&self) -> (r: JsonValue)
        ensures
            r@ == self@,
        decreases self,
    {
        match self {
            JsonValue::Null => JsonValue::Null,
            JsonValue::Bool(b) => JsonValue::Bool(*b),
            JsonValue::Number(n) => JsonValue::Number(*n),
            JsonValue::String(s) => JsonValue::String(s.clone()),
            JsonValue::Array(a) => {
                let mut r: Vec<JsonValue> = Vec::new();
                let mut i: usize = 0;
                while i < a.len()
                    invariant
                        *self == JsonValue::Array(*a),
                        i <= a.len(),
                        r.len() == i,
                        forall|j: int| 0 <= j < i ==> json_view(#[trigger] r@[j]) == json_view(a@[j]),
                    decreases a.len() - i,
                {
                    proof {
                        assert(decreases_to!(*self => (*self)->Array_0));
                        assert(decreases_to!(*a => a@));
                        assert(decreases_to!(a@ => a@[i as int]));
                        assert(decreases_to!(*self => a@[i as int]));
                    }
                    let c = a[i].deep_copy();
                    r.push(c);
                    i = i + 1;
                }
                proof {
                    lemma_items_view(r@);
                    lemma_items_view(a@);
                    assert(items_view(r@) =~= items_view(a@));
                }
                JsonValue::Array(r)
            },
            JsonValue::Object(o) => {
                let mut r: Vec<(String, JsonValue)> = Vec::new();
                let mut i: usize = 0;
                while i < o.len()
                    invariant
                        *self == JsonValue::Object(*o),
                        i <= o.len(),
                        r.len() == i,
                        forall|j: int|
                            0 <= j < i ==> (#[trigger] r@[j]).0@ == o@[j].0@ && json_view(r@[j].1)
                                == json_view(o@[j].1),
                    decreases o.len() - i,
                {
                    proof {
                        assert(decreases_to!(*self => (*self)->Object_0));
                        assert(decreases_to!(*o => o@));
                        assert(decreases_to!(o@ => o@[i as int]));
                        assert(decreases_to!(o@[i as int] => o@[i as int].1));
                        assert(decreases_to!(*self => o@[i as int].1));
                    }
                    let k = o[i].0.clone();
                    let c = o[i].1.deep_copy();
                    r.push((k, c));
                    i = i + 1;
                }
                proof {
                    lemma_entries_view(r@);
                    lemma_entries_view(o@);
                    assert(entries_view(r@) =~= entries_view(o@));
                }
                JsonValue::Object(r)
            },
        }
    }
}

/// No two entries of an object share a key.
pub open spec fn keys_unique(es: Seq<(Seq<char>, JsonView)>) -> bool {
    forall|i: int, j: int| 0 <= i < j < es.len() ==> es[i].0 != es[j].0
}

/// A well-formed document: every object in it has distinct keys, as a JSON
/// map does.
pub open spec fn json_wf(v: JsonView) -> bool
    decreases v,
{
    match v {
        JsonView::Array(xs) => items_wf(xs),
        JsonView::Object(es) => keys_unique(es) && entries_wf(es),
        _ => true,
    }
}

pub open spec fn items_wf(xs: Seq<JsonView>) -> bool
    decreases xs,
{
    xs.len() == 0 || (items_wf(xs.drop_last()) && json_wf(xs.last()))
}

pub open spec fn entries_wf(es: Seq<(Seq<char>, JsonView)>) -> bool
    decreases es,
{
    es.len() == 0 || (entries_wf(es.drop_last()) && json_wf(es.last().1))
}

pub proof fn lemma_items_wf(xs: Seq<JsonView>)
    ensures
        items_wf(xs) == forall|i: int| 0 <= i < xs.len() ==> json_wf(#[trigger] xs[i]),
    decreases xs.len(),
{
    if xs.len() > 0 {
        lemma_items_wf(xs.drop_last());
        if items_wf(xs) {
            assert forall|i: int| 0 <= i < xs.len() implies json_wf(#[trigger] xs[i]) by {
                if i < xs.len() - 1 {
                    assert(xs.drop_last()[i] == xs[i]);
                }
            }
        }
        if forall|i: int| 0 <= i < xs.len() ==> json_wf(#[trigger] xs[i]) {
            assert forall|i: int| 0 <= i < xs.drop_last().len() implies json_wf(
                #[trigger] xs.drop_last()[i],
            ) by {
                assert(xs.drop_last()[i] == xs[i]);
            }
        }
    }
}

pub proof fn lemma_entries_wf(es: Seq<(Seq<char>, JsonView)>)
    ensures
        entries_wf(es) == forall|i: int| 0 <= i < es.len() ==> json_wf(#[trigger] es[i].1),
    decreases es.len(),
{
    if es.len() > 0 {
        lemma_entries_wf(es.drop_last());
        if entries_wf(es) {
            assert forall|i: int| 0 <= i < es.len() implies json_wf(#[trigger] es[i].1) by {
                if i < es.len() - 1 {
                    assert(es.drop_last()[i] == es[i]);
                }
            }
        }
        if forall|i: int| 0 <= i < es.len() ==> json_wf(#[trigger] es[i].1) {
            assert forall|i: int| 0 <= i < es.drop_last().len() implies json_wf(
                #[trigger] es.drop_last()[i].1,
            ) by {
                assert(es.drop_last()[i] == es[i]);
            }
        }
    }
}

impl JsonValue {
    /// Whether every object in the tree has distinct keys.
    pub fn well_formed(&self) -> (r: bool)
        ensures
            r == json_wf(self@),
        decreases self,
    {
        match self {
            JsonValue::Array(a) => {
                proof {
                    lemma_items_view(a@);
                    lemma_items_wf(items_view(a@));
                }
                let mut i: usize = 0;
                while i < a.len()
                    invariant
                        *self == JsonValue::Array(*a),
                        i <= a.len(),
                        items_view(a@).len() == a.len(),
                        forall|j: int| 0 <= j < a.len() ==> #[trigger] items_view(a@)[j] == json_view(a@[j]),
                        forall|j: int| 0 <= j < i ==> json_wf(#[trigger] items_view(a@)[j]),
                        items_wf(items_view(a@)) == forall|j: int|
                            0 <= j < a.len() ==> json_wf(#[trigger] items_view(a@)[j]),
                    decreases a.len() - i,
                {
                    proof {
                        assert(decreases_to!(*self => (*self)->Array_0));
                        assert(decreases_to!(*a => a@));
                        assert(decreases_to!(a@ => a@[i as int]));
                    }
                    if !a[i].well_formed() {
                        assert(!json_wf(items_view(a@)[i as int]));
                        return false;
                    }
                    i = i + 1;
                }
                true
            },
            JsonValue::Object(o) => {
                let ghost es = entries_view(o@);
                proof {
                    lemma_entries_view(o@);
                    lemma_entries_wf(es);
                }
                let mut i: usize = 0;
                while i < o.len()
                    invariant
                        *self == JsonValue::Object(*o),
                        es == entries_view(o@),
                        i <= o.len(),
                        es.len() == o.len(),
                        forall|j: int|
                            0 <= j < o.len() ==> #[trigger] es[j] == (o@[j].0@, json_view(o@[j].1)),
                        forall|j: int| 0 <= j < i ==> json_wf(#[trigger] es[j].1),
                        forall|p: int, q: int| 0 <= p < q < i ==> es[p].0 != es[q].0,
                        entries_wf(es) == forall|j: int| 0 <= j < o.len() ==> json_wf(#[trigger] es[j].1),
                    decreases o.len() - i,
                {
                    proof {
                        assert(decreases_to!(*self => (*self)->Object_0));
                        assert(decreases_to!(*o => o@));
                        assert(decreases_to!(o@ => o@[i as int]));
                        assert(decreases_to!(o@[i as int] => o@[i as int].1));
                    }
                    let mut j: usize = 0;
                    while j < i
                        invariant
                            *self == JsonValue::Object(*o),
                            es == entries_view(o@),
                            i < o.len(),
                            j <= i,
                            es.len() == o.len(),
                            forall|m: int|
                                0 <= m < o.len() ==> #[trigger] es[m] == (o@[m].0@, json_view(o@[m].1)),
                            forall|p: int| 0 <= p < j ==> es[p].0 != es[i as int].0,
                        decreases i - j,
                    {
                        if o[j].0 == o[i].0 {
                            assert(es[j as int].0 == es[i as int].0);
                            assert(!keys_unique(es));
                            return false;
                        }
                        j = j + 1;
                    }
                    if !o[i].1.well_formed() {
                        assert(!json_wf(es[i as int].1));
                        return false;
                    }
                    i = i + 1;
                }
                true
            },
            _ => true,
        }
    }
}

} // verus!
