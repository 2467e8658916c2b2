//! Field-by-field differences between two JSON documents.
use vstd::prelude::*;
use crate::json::{
    Json, JsonValue, copy_json, json_equal, json_v, json_wf, lemma_member_some, lemma_members_v,
    lemma_members_wf, member, member_of, members_v, members_wf,
};
use crate::text::{owned, push_char};

verus! {

/// A field whose value differs between two documents; a missing side is `null`.
#[derive(Debug)]
pub struct FieldDiff {
    pub path: String,
    pub old_value: JsonValue,
    pub new_value: JsonValue,
}

pub open spec fn diffs_v(ds: Seq<FieldDiff>) -> Seq<(Seq<char>, Json, Json)> {
    ds.map_values(|d: FieldDiff| (d.path@, d.old_value@, d.new_value@))
}

/// The path of member `key` below `path` (dot-separated; the root path is empty).
pub open spec fn field_path(path: Seq<char>, key: Seq<char>) -> Seq<char> {
    if path.len() == 0 {
        key
    } else {
        path + seq!['.'] + key
    }
}

/// All differences between `old` and `new` below `path`: objects are compared member by
/// member (members of `old` first, in order, then members only `new` has); any other
/// unequal pair is one difference at `path`.
pub open spec fn json_diff(path: Seq<char>, old: Json, new: Json) -> Seq<(Seq<char>, Json, Json)>
    decreases old,
{
    if old == new {
        seq![]
    } else {
        match (old, new) {
            (Json::Object(om), Json::Object(nm)) => old_member_diffs(path, om, nm) + added_member_diffs(
                path,
                om,
                nm,
            ),
            _ => seq![(path, old, new)],
        }
    }
}

/// Differences of the members of `om`, each compared with the same-named member of `nm`
/// or, where `nm` has none, reported as removed.
pub open spec fn old_member_diffs(
    path: Seq<char>,
    om: Seq<(Seq<char>, Json)>,
    nm: Seq<(Seq<char>, Json)>,
) -> Seq<(Seq<char>, Json, Json)>
    decreases om,
{
    if om.len() == 0 {
        seq![]
    } else {
        let e = om.last();
        let fp = field_path(path, e.0);
        old_member_diffs(path, om.drop_last(), nm) + match member(nm, e.0) {
            Some(nv) => json_diff(fp, e.1, nv),
            None => seq![(fp, e.1, Json::Null)],
        }
    }
}

/// Members of `nm` that `om` lacks, reported as added.
pub open spec fn added_member_diffs(
    path: Seq<char>,
    om: Seq<(Seq<char>, Json)>,
    nm: Seq<(Seq<char>, Json)>,
) -> Seq<(Seq<char>, Json, Json)>
    decreases nm.len(),
{
    if nm.len() == 0 {
        seq![]
    } else {
        let e = nm.last();
        if member(om, e.0) is None {
            added_member_diffs(path, om, nm.drop_last()).push(
                (field_path(path, e.0), Json::Null, e.1),
            )
        } else {
            added_member_diffs(path, om, nm.drop_last())
        }
    }
}

/// The text of `field_path(path, key)`.
fn join_path(path: &str, key: &str) -> (r: String)
    ensures
        r@ == field_path(path@, key@),
{
    if path.is_empty() {
        owned(key)
    } else {
        let mut r = owned(path);
        push_char(&mut r, '.');
        r.append(key);
        r
    }
}

/// Recursively compares two JSON documents and returns every differing field.
pub fn diff_json(path: &str, old: &JsonValue, new: &JsonValue) -> (r: Vec<FieldDiff>)
    requires
        json_wf(old@),
        json_wf(new@),
    ensures
        diffs_v(r@) == json_diff(path@, old@, new@),
    decreases *old,
{
    let mut diffs: Vec<FieldDiff> = Vec::new();
    if json_equal(old, new) {
        assert(diffs_v(diffs@) =~= seq![]);
        return diffs;
    }
    match (old, new) {
        (JsonValue::Object(old_map), JsonValue::Object(new_map)) => {
            let ghost om = members_v(old_map@);
            let ghost nm = members_v(new_map@);
            proof {
                lemma_members_v(old_map@);
                lemma_members_v(new_map@);
            }
            let mut i: usize = 0;
            while i < old_map.len()
                invariant
                    i <= old_map@.len(),
                    om == members_v(old_map@),
                    nm == members_v(new_map@),
                    om.len() == old_map@.len(),
                    forall|q: int|
                        0 <= q < old_map@.len() ==> #[trigger] om[q] == (old_map@[q].0@, json_v(
                            old_map@[q].1,
                        )),
                    decreases_to!(*old => old_map@),
                    members_wf(om),
                    members_wf(nm),
                    diffs_v(diffs@) == old_member_diffs(path@, om.take(i as int), nm),
                decreases old_map.len() - i,
            {
                proof {
                    assert(decreases_to!(old_map@ => old_map@[i as int]));
                    assert(decreases_to!(old_map@[i as int] => old_map@[i as int].1));
                    assert(om.take(i + 1 as int).drop_last() =~= om.take(i as int));
                    assert(om.take(i + 1 as int).last() == om[i as int]);
                }
                let key = &old_map[i].0;
                let old_val = &old_map[i].1;
                let fp = join_path(path, key.as_str());
                match member_of(new_map.as_slice(), key.as_str()) {
                    Some(new_val) => {
                        proof {
                            lemma_members_wf(om, i as int);
                            lemma_member_some(nm, key@);
                            let w = choose|w: int| 0 <= w < nm.len() && #[trigger] nm[w] == (key@, json_v(*new_val));
                            lemma_members_wf(nm, w);
                        }
                        let mut sub = diff_json(fp.as_str(), old_val, new_val);
                        let ghost before = diffs@;
                        diffs.append(&mut sub);
                        assert(diffs_v(diffs@) =~= diffs_v(before) + json_diff(
                            fp@,
                            json_v(*old_val),
                            json_v(*new_val),
                        ));
                    },
                    None => {
                        diffs.push(
                            FieldDiff {
                                path: fp,
                                old_value: copy_json(old_val),
                                new_value: JsonValue::Null,
                            },
                        );
                    },
                }
                assert(diffs_v(diffs@) =~= old_member_diffs(path@, om.take(i + 1 as int), nm));
                i += 1;
            }
            assert(om.take(old_map@.len() as int) =~= om);
            let mut j: usize = 0;
            while j < new_map.len()
                invariant
                    j <= new_map@.len(),
                    om == members_v(old_map@),
                    nm == members_v(new_map@),
                    nm.len() == new_map@.len(),
                    forall|q: int|
                        0 <= q < new_map@.len() ==> #[trigger] nm[q] == (new_map@[q].0@, json_v(
                            new_map@[q].1,
                        )),
                    diffs_v(diffs@) == old_member_diffs(path@, om, nm) + added_member_diffs(
                        path@,
                        om,
                        nm.take(j as int),
                    ),
                decreases new_map.len() - j,
            {
                proof {
                    assert(nm.take(j + 1 as int).drop_last() =~= nm.take(j as int));
                    assert(nm.take(j + 1 as int).last() == nm[j as int]);
                }
                let key = &new_map[j].0;
                let absent = match member_of(old_map.as_slice(), key.as_str()) {
                    Some(_) => false,
                    None => true,
                };
                assert(absent == (member(om, nm[j as int].0) is None));
                let ghost prev = added_member_diffs(path@, om, nm.take(j as int));
                assert(added_member_diffs(path@, om, nm.take(j + 1 as int)) == if absent {
                    prev.push((field_path(path@, nm[j as int].0), Json::Null, nm[j as int].1))
                } else {
                    prev
                });
                let ghost before = diffs@;
                if absent {
                    let fp = join_path(path, key.as_str());
                    let nv = copy_json(&new_map[j].1);
                    assert(nv@ == nm[j as int].1);
                    let d = FieldDiff { path: fp, old_value: JsonValue::Null, new_value: nv };
                    assert(d.old_value@ == Json::Null);
                    diffs.push(d);
                    assert(diffs_v(diffs@) =~= diffs_v(before).push(
                        (field_path(path@, nm[j as int].0), Json::Null, nm[j as int].1),
                    ));
                }
                assert(diffs_v(diffs@) =~= old_member_diffs(path@, om, nm) + added_member_diffs(
                    path@,
                    om,
                    nm.take(j + 1 as int),
                ));
                j += 1;
            }
            assert(nm.take(new_map@.len() as int) =~= nm);
            diffs
        },
        _ => {
            diffs.push(
                FieldDiff { path: owned(path), old_value: copy_json(old), new_value: copy_json(new) },
            );
            assert(diffs_v(diffs@) =~= seq![(path@, old@, new@)]);
            diffs
        },
    }
}

} // verus!
