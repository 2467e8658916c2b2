//! A JSON document as the library reads it: objects keep their members in order.
use vstd::prelude::*;
use crate::text::{compare_text, lemma_text_order, text_lt, Order};

verus! {

/// A JSON value. Numbers are kept as their text; objects as their members in order.
#[derive(Debug)]
pub enum JsonValue {
    Null,
    Bool(bool),
    Number(String),
    Str(String),
    Array(Vec<JsonValue>),
    Object(Vec<(String, JsonValue)>),
}

/// The mathematical content of a JSON value.
pub enum Json {
    Null,
    Bool(bool),
    Number(Seq<char>),
    Str(Seq<char>),
    Array(Seq<Json>),
    Object(Seq<(Seq<char>, Json)>),
}

pub open spec fn json_v(j: JsonValue) -> Json
    decreases j,
{
    match j {
        JsonValue::Null => Json::Null,
        JsonValue::Bool(b) => Json::Bool(b),
        JsonValue::Number(n) => Json::Number(n@),
        JsonValue::Str(s) => Json::Str(s@),
        JsonValue::Array(v) => Json::Array(array_v(v@)),
        JsonValue::Object(m) => Json::Object(members_v(m@)),
    }
}

pub open spec fn array_v(s: Seq<JsonValue>) -> Seq<Json>
    decreases s,
{
    if s.len() == 0 {
        seq![]
    } else {
        array_v(s.drop_last()).push(json_v(s.last()))
    }
}

pub open spec fn members_v(s: Seq<(String, JsonValue)>) -> Seq<(Seq<char>, Json)>
    decreases s,
{
    if s.len() == 0 {
        seq![]
    } else {
        members_v(s.drop_last()).push((s.last().0@, json_v(s.last().1)))
    }
}

impl View for JsonValue {
    type V = Json;

    open spec fn view(&self) -> Json {
        json_v(*self)
    }
}

pub proof fn lemma_array_v(s: Seq<JsonValue>)
    ensures
        array_v(s).len() == s.len(),
        forall|i: int| 0 <= i < s.len() ==> #[trigger] array_v(s)[i] == json_v(s[i]),
    decreases s.len(),
{
    if s.len() > 0 {
        lemma_array_v(s.drop_last());
    }
}

pub proof fn lemma_members_v(s: Seq<(String, JsonValue)>)
    ensures
        members_v(s).len() == s.len(),
        forall|i: int|
            0 <= i < s.len() ==> #[trigger] members_v(s)[i] == (s[i].0@, json_v(s[i].1)),
    decreases s.len(),
{
    if s.len() > 0 {
        lemma_members_v(s.drop_last());
    }
}

/// The value of the first member named `k`.
pub open spec fn member(m: Seq<(Seq<char>, Json)>, k: Seq<char>) -> Option<Json>
    decreases m.len(),
{
    if m.len() == 0 {
        None
    } else if m[0].0 == k {
        Some(m[0].1)
    } else {
        member(m.drop_first(), k)
    }
}

/// `value[k]` of an object; nothing for any other value.
pub open spec fn get(v: Json, k: Seq<char>) -> Option<Json> {
    match v {
        Json::Object(m) => member(m, k),
        _ => None,
    }
}

/// The text of a string value.
pub open spec fn as_text(v: Option<Json>) -> Option<Seq<char>> {
    match v {
        Some(Json::Str(s)) => Some(s),
        _ => None,
    }
}

/// The text of a string value, or the empty text.
pub open spec fn text_or_empty(v: Option<Json>) -> Seq<char> {
    match as_text(v) {
        Some(s) => s,
        None => seq![],
    }
}

/// The keys of an object's members.
pub open spec fn member_keys(m: Seq<(Seq<char>, Json)>) -> Seq<Seq<char>> {
    m.map_values(|e: (Seq<char>, Json)| e.0)
}

/// A document as the service's JSON reader produces it: every object, also one nested in
/// an array, lists its members by strictly ascending key.
pub open spec fn json_wf(j: Json) -> bool
    decreases j,
{
    match j {
        Json::Object(m) => crate::order::strictly_sorted(member_keys(m), crate::keys::tlt())
            && members_wf(m),
        Json::Array(a) => items_wf(a),
        _ => true,
    }
}

pub open spec fn items_wf(a: Seq<Json>) -> bool
    decreases a,
{
    if a.len() == 0 {
        true
    } else {
        items_wf(a.drop_last()) && json_wf(a.last())
    }
}

pub open spec fn members_wf(m: Seq<(Seq<char>, Json)>) -> bool
    decreases m,
{
    if m.len() == 0 {
        true
    } else {
        members_wf(m.drop_last()) && json_wf(m.last().1)
    }
}

pub proof fn lemma_members_wf(m: Seq<(Seq<char>, Json)>, i: int)
    requires
        members_wf(m),
        0 <= i < m.len(),
    ensures
        json_wf(m[i].1),
    decreases m.len(),
{
    if i < m.len() - 1 {
        lemma_members_wf(m.drop_last(), i);
        assert(m.drop_last()[i] == m[i]);
    }
}

pub proof fn lemma_member_some(m: Seq<(Seq<char>, Json)>, k: Seq<char>)
    ensures
        member(m, k) matches Some(v) ==> exists|j: int|
            0 <= j < m.len() && #[trigger] m[j] == (k, v),
        member(m, k) is None ==> !member_keys(m).contains(k),
    decreases m.len(),
{
    if m.len() > 0 {
        lemma_member_some(m.drop_first(), k);
        if m[0].0 != k {
            if let Some(v) = member(m, k) {
                let j = choose|j: int| 0 <= j < m.drop_first().len() && #[trigger] m.drop_first()[j] == (k, v);
                assert(m[j + 1] == (k, v));
            } else {
                assert forall|j: int| 0 <= j < m.len() implies #[trigger] member_keys(m)[j] != k by {
                    if j > 0 {
                        assert(member_keys(m.drop_first())[j - 1] == member_keys(m)[j]);
                    }
                }
            }
        } else {
            assert(m[0] == (k, m[0].1));
        }
    }
}

pub proof fn lemma_items_wf(a: Seq<Json>, i: int)
    requires
        items_wf(a),
        0 <= i < a.len(),
    ensures
        json_wf(a[i]),
    decreases a.len(),
{
    if i < a.len() - 1 {
        lemma_items_wf(a.drop_last(), i);
        assert(a.drop_last()[i] == a[i]);
    }
}

/// Whether the document is as the service's JSON reader produces it: every object, also
/// one nested in an array or a member, lists its members by strictly ascending key.
pub fn is_well_formed(v: &JsonValue) -> (r: bool)
    ensures
        r == json_wf(v@),
    decreases *v,
{
    match v {
        JsonValue::Array(items) => {
            proof {
                lemma_array_v(items@);
            }
            let ghost av = array_v(items@);
            let mut i: usize = 0;
            assert(av.take(0) =~= seq![]);
            while i < items.len()
                invariant
                    i <= items@.len(),
                    av == array_v(items@),
                    av.len() == items@.len(),
                    forall|q: int| 0 <= q < items@.len() ==> #[trigger] av[q] == json_v(items@[q]),
                    decreases_to!(*v => items@),
                    v@ == Json::Array(av),
                    items_wf(av.take(i as int)),
                decreases items.len() - i,
            {
                proof {
                    assert(decreases_to!(items@ => items@[i as int]));
                    assert(av.take(i + 1 as int).drop_last() =~= av.take(i as int));
                    assert(av.take(i + 1 as int).last() == av[i as int]);
                }
                if !is_well_formed(&items[i]) {
                    proof {
                        if items_wf(av) {
                            lemma_items_wf(av, i as int);
                        }
                    }
                    return false;
                }
                i += 1;
            }
            assert(av.take(items@.len() as int) =~= av);
            true
        },
        JsonValue::Object(members) => {
            proof {
                lemma_members_v(members@);
                lemma_text_order();
            }
            let ghost mv = members_v(members@);
            let mut i: usize = 0;
            assert(mv.take(0) =~= seq![]);
            while i < members.len()
                invariant
                    i <= members@.len(),
                    mv == members_v(members@),
                    mv.len() == members@.len(),
                    forall|q: int|
                        0 <= q < members@.len() ==> #[trigger] mv[q] == (members@[q].0@, json_v(
                            members@[q].1,
                        )),
                    decreases_to!(*v => members@),
                    v@ == Json::Object(mv),
                    members_wf(mv.take(i as int)),
                    forall|a: int, b: int| 0 <= a < b < i ==> #[trigger] text_lt(mv[a].0, mv[b].0),
                    forall|x: Seq<char>, y: Seq<char>, z: Seq<char>|
                        #[trigger] text_lt(x, y) && #[trigger] text_lt(y, z) ==> text_lt(x, z),
                decreases members.len() - i,
            {
                proof {
                    assert(decreases_to!(members@ => members@[i as int]));
                    assert(decreases_to!(members@[i as int] => members@[i as int].1));
                    assert(mv.take(i + 1 as int).drop_last() =~= mv.take(i as int));
                    assert(mv.take(i + 1 as int).last() == mv[i as int]);
                }
                if i > 0 {
                    match compare_text(members[i - 1].0.as_str(), members[i].0.as_str()) {
                        Order::Less => {},
                        _ => {
                            assert(!crate::keys::tlt()(member_keys(mv)[i - 1], member_keys(mv)[i as int]));
                            return false;
                        },
                    }
                }
                if !is_well_formed(&members[i].1) {
                    proof {
                        if members_wf(mv) {
                            lemma_members_wf(mv, i as int);
                        }
                    }
                    return false;
                }
                assert forall|a: int, b: int| 0 <= a < b < i + 1 implies #[trigger] text_lt(
                    mv[a].0,
                    mv[b].0,
                ) by {
                    if b == i && a < i - 1 {
                        assert(text_lt(mv[a].0, mv[i - 1].0));
                    }
                }
                i += 1;
            }
            assert(mv.take(members@.len() as int) =~= mv);
            assert(crate::order::strictly_sorted(member_keys(mv), crate::keys::tlt())) by {
                assert forall|a: int, b: int| 0 <= a < b < member_keys(mv).len() implies #[trigger] crate::keys::tlt()(
                    member_keys(mv)[a],
                    member_keys(mv)[b],
                ) by {
                    assert(text_lt(mv[a].0, mv[b].0));
                }
            }
            true
        },
        _ => true,
    }
}

/// Whether two texts are equal.
pub fn same_text(a: &str, b: &str) -> (r: bool)
    ensures
        r == (a@ == b@),
{
    match compare_text(a, b) {
        Order::Equal => true,
        _ => false,
    }
}

/// The first member of an object named `k`.
pub fn member_of<'a>(m: &'a [(String, JsonValue)], k: &str) -> (r: Option<&'a JsonValue>)
    ensures
        r matches Some(v) ==> member(members_v(m@), k@) == Some(json_v(*v)),
        r is None ==> member(members_v(m@), k@) is None,
{
    let ghost mv = members_v(m@);
    proof {
        lemma_members_v(m@);
    }
    let mut i: usize = 0;
    assert(mv.skip(0) =~= mv);
    while i < m.len()
        invariant
            i <= m@.len(),
            mv == members_v(m@),
            mv.len() == m@.len(),
            forall|q: int| 0 <= q < m@.len() ==> #[trigger] mv[q] == (m@[q].0@, json_v(m@[q].1)),
            member(mv, k@) == member(mv.skip(i as int), k@),
        decreases m.len() - i,
    {
        assert(mv.skip(i as int)[0] == mv[i as int]);
        if same_text(m[i].0.as_str(), k) {
            return Some(&m[i].1);
        }
        assert(mv.skip(i as int).drop_first() =~= mv.skip(i + 1 as int));
        i += 1;
    }
    None
}

/// `value[k]` of an object.
pub fn get_field<'a>(v: &'a JsonValue, k: &str) -> (r: Option<&'a JsonValue>)
    ensures
        r matches Some(x) ==> get(v@, k@) == Some(json_v(*x)),
        r is None ==> get(v@, k@) is None,
{
    match v {
        JsonValue::Object(m) => member_of(m.as_slice(), k),
        _ => None,
    }
}

/// A copy of a JSON value.
pub fn copy_json(v: &JsonValue) -> (r: JsonValue)
    ensures
        r@ == v@,
    decreases *v,
{
    match v {
        JsonValue::Null => JsonValue::Null,
        JsonValue::Bool(b) => JsonValue::Bool(*b),
        JsonValue::Number(n) => JsonValue::Number(n.clone()),
        JsonValue::Str(s) => JsonValue::Str(s.clone()),
        JsonValue::Array(items) => {
            let mut out: Vec<JsonValue> = Vec::new();
            let mut i: usize = 0;
            proof {
                lemma_array_v(items@);
            }
            while i < items.len()
                invariant
                    i <= items@.len(),
                    out@.len() == i,
                    decreases_to!(*v => items@),
                    forall|q: int| 0 <= q < i ==> #[trigger] json_v(out@[q]) == json_v(items@[q]),
                decreases items.len() - i,
            {
                proof {
                    assert(decreases_to!(items@ => items@[i as int]));
                }
                out.push(copy_json(&items[i]));
                i += 1;
            }
            proof {
                lemma_array_v(out@);
                assert(array_v(out@) =~= array_v(items@));
            }
            JsonValue::Array(out)
        },
        JsonValue::Object(members) => {
            let mut out: Vec<(String, JsonValue)> = Vec::new();
            let mut i: usize = 0;
            proof {
                lemma_members_v(members@);
            }
            while i < members.len()
                invariant
                    i <= members@.len(),
                    out@.len() == i,
                    decreases_to!(*v => members@),
                    forall|q: int|
                        0 <= q < i ==> #[trigger] out@[q].0@ == members@[q].0@ && json_v(out@[q].1)
                            == json_v(members@[q].1),
                decreases members.len() - i,
            {
                proof {
                    assert(decreases_to!(members@ => members@[i as int]));
                    assert(decreases_to!(members@[i as int] => members@[i as int].1));
                }
                let c = copy_json(&members[i].1);
                out.push((members[i].0.clone(), c));
                i += 1;
            }
            proof {
                lemma_members_v(out@);
                assert(members_v(out@) =~= members_v(members@));
            }
            JsonValue::Object(out)
        },
    }
}

/// Structural equality of JSON values (numbers compared by their text).
pub fn json_equal(a: &JsonValue, b: &JsonValue) -> (r: bool)
    ensures
        r == (a@ == b@),
    decreases *a,
{
    match (a, b) {
        (JsonValue::Null, JsonValue::Null) => true,
        (JsonValue::Bool(x), JsonValue::Bool(y)) => *x == *y,
        (JsonValue::Number(x), JsonValue::Number(y)) => same_text(x.as_str(), y.as_str()),
        (JsonValue::Str(x), JsonValue::Str(y)) => same_text(x.as_str(), y.as_str()),
        (JsonValue::Array(xs), JsonValue::Array(ys)) => {
            proof {
                lemma_array_v(xs@);
                lemma_array_v(ys@);
            }
            if xs.len() != ys.len() {
                assert(array_v(xs@).len() != array_v(ys@).len());
                return false;
            }
            let mut i: usize = 0;
            while i < xs.len()
                invariant
                    i <= xs@.len(),
                    xs@.len() == ys@.len(),
                    decreases_to!(*a => xs@),
                    a@ == Json::Array(array_v(xs@)),
                    b@ == Json::Array(array_v(ys@)),
                    array_v(xs@).len() == xs@.len(),
                    array_v(ys@).len() == ys@.len(),
                    forall|q: int| 0 <= q < xs@.len() ==> #[trigger] array_v(xs@)[q] == json_v(xs@[q]),
                    forall|q: int| 0 <= q < ys@.len() ==> #[trigger] array_v(ys@)[q] == json_v(ys@[q]),
                    forall|q: int| 0 <= q < i ==> json_v(#[trigger] xs@[q]) == json_v(ys@[q]),
                decreases xs.len() - i,
            {
                proof {
                    assert(decreases_to!(xs@ => xs@[i as int]));
                }
                if !json_equal(&xs[i], &ys[i]) {
                    assert(array_v(xs@)[i as int] != array_v(ys@)[i as int]);
                    return false;
                }
                i += 1;
            }
            assert(array_v(xs@) =~= array_v(ys@));
            true
        },
        (JsonValue::Object(xs), JsonValue::Object(ys)) => {
            proof {
                lemma_members_v(xs@);
                lemma_members_v(ys@);
            }
            if xs.len() != ys.len() {
                assert(members_v(xs@).len() != members_v(ys@).len());
                return false;
            }
            let mut i: usize = 0;
            while i < xs.len()
                invariant
                    i <= xs@.len(),
                    xs@.len() == ys@.len(),
                    decreases_to!(*a => xs@),
                    a@ == Json::Object(members_v(xs@)),
                    b@ == Json::Object(members_v(ys@)),
                    members_v(xs@).len() == xs@.len(),
                    members_v(ys@).len() == ys@.len(),
                    forall|q: int|
                        0 <= q < xs@.len() ==> #[trigger] members_v(xs@)[q] == (xs@[q].0@, json_v(xs@[q].1)),
                    forall|q: int|
                        0 <= q < ys@.len() ==> #[trigger] members_v(ys@)[q] == (ys@[q].0@, json_v(ys@[q].1)),
                    forall|q: int| 0 <= q < i ==> members_v(xs@)[q] == #[trigger] members_v(ys@)[q],
                decreases xs.len() - i,
            {
                proof {
                    assert(decreases_to!(xs@ => xs@[i as int]));
                    assert(decreases_to!(xs@[i as int] => xs@[i as int].1));
                }
                if !same_text(xs[i].0.as_str(), ys[i].0.as_str()) {
                    assert(members_v(xs@)[i as int] != members_v(ys@)[i as int]);
                    return false;
                }
                if !json_equal(&xs[i].1, &ys[i].1) {
                    assert(members_v(xs@)[i as int] != members_v(ys@)[i as int]);
                    return false;
                }
                i += 1;
            }
            assert(members_v(xs@) =~= members_v(ys@));
            true
        },
        _ => false,
    }
}

} // verus!
