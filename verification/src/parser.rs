//! Dates of the service, whether details cover the available dates, comparing two
//! snapshots of details, and the change notification.
use vstd::prelude::*;
use vstd::utf8::{decode_utf8, encode_utf8, is_char_boundary};
use vstd::string::StringSliceAdditionalSpecFns;
use crate::models::{SlotDetail, SlotV, slots_v};
use crate::snapshot::{flatten_points, keys_of, points_missing_from, points_only_in};
use crate::keys::texts_view;
use crate::message::{
    durations_v, format_branch_contacts_section, format_compact_details, format_removed_details,
    join_texts, pairs, spec_change_message, change_sections,
};
use crate::text::{owned, push_char, push_decimal};

verus! {

broadcast use {
    vstd::utf8::encode_utf8_valid_utf8,
    vstd::utf8::encode_utf8_decode_utf8,
    vstd::utf8::is_char_boundary_iff_not_is_continuation_byte,
};

/// A date text that is 8 bytes long must split at bytes 4 and 6 (else slicing it panics).
pub open spec fn date_splittable(s: Seq<char>) -> bool {
    encode_utf8(s).len() == 8 ==> is_char_boundary(encode_utf8(s), 4) && is_char_boundary(
        encode_utf8(s),
        6,
    )
}

/// The characters encoded by bytes `a..b` of the text.
pub open spec fn piece(s: Seq<char>, a: int, b: int) -> Seq<char> {
    decode_utf8(encode_utf8(s).subrange(a, b))
}

/// `YYYYMMDD` as `YYYY-MM-DD`; any text not 8 bytes long unchanged.
pub open spec fn spec_format_date(s: Seq<char>) -> Seq<char> {
    if encode_utf8(s).len() == 8 {
        piece(s, 0, 4) + seq!['-'] + piece(s, 4, 6) + seq!['-'] + piece(s, 6, 8)
    } else {
        s
    }
}

/// `YYYYMMDD` as `DD/MM/YYYY`; any text not 8 bytes long unchanged.
pub open spec fn spec_api_date(s: Seq<char>) -> Seq<char> {
    if encode_utf8(s).len() == 8 {
        piece(s, 6, 8) + seq!['/'] + piece(s, 4, 6) + seq!['/'] + piece(s, 0, 4)
    } else {
        s
    }
}

/// Splits an 8-byte date at bytes 4 and 6.
fn split_date(date: &str) -> (r: (&str, &str, &str))
    requires
        date.spec_bytes().len() == 8,
        date_splittable(date@),
    ensures
        r.0@ == piece(date@, 0, 4),
        r.1@ == piece(date@, 4, 6),
        r.2@ == piece(date@, 6, 8),
{
    let ghost b = encode_utf8(date@);
    let (y, rest) = date.split_at(4);
    proof {
        assert(rest.spec_bytes() == b.subrange(4, 8));
        assert(rest.spec_bytes()[2] == b[6]);
        vstd::utf8::is_char_boundary_iff_not_is_continuation_byte(b, 6);
        vstd::utf8::is_char_boundary_iff_not_is_continuation_byte(rest.spec_bytes(), 2);
        assert(is_char_boundary(rest.spec_bytes(), 2));
    }
    let (m, d) = rest.split_at(2);
    proof {
        assert(m.spec_bytes() =~= b.subrange(4, 6));
        assert(d.spec_bytes() =~= b.subrange(6, 8));
        assert(decode_utf8(encode_utf8(y@)) == y@);
        assert(decode_utf8(encode_utf8(m@)) == m@);
        assert(decode_utf8(encode_utf8(d@)) == d@);
    }
    (y, m, d)
}

/// Converts `YYYYMMDD` to the `DD/MM/YYYY` form the service expects.
pub fn to_api_date(date: &str) -> (r: String)
    requires
        date_splittable(date@),
    ensures
        r@ == spec_api_date(date@),
{
    if date.as_bytes().len() == 8 {
        let (y, m, d) = split_date(date);
        let mut r = owned(d);
        push_char(&mut r, '/');
        r.append(m);
        push_char(&mut r, '/');
        r.append(y);
        assert(r@ =~= spec_api_date(date@));
        r
    } else {
        owned(date)
    }
}

/// Converts `YYYYMMDD` to the readable `YYYY-MM-DD`.
pub fn format_date(date: &str) -> (r: String)
    requires
        date_splittable(date@),
    ensures
        r@ == spec_format_date(date@),
{
    if date.as_bytes().len() == 8 {
        let (y, m, d) = split_date(date);
        let mut r = owned(y);
        push_char(&mut r, '-');
        r.append(m);
        push_char(&mut r, '-');
        r.append(d);
        assert(r@ =~= spec_format_date(date@));
        r
    } else {
        owned(date)
    }
}

/// Every expected date (as `YYYYMMDD`) appears, formatted, among the details' dates.
pub open spec fn covers_dates(expected: Seq<Seq<char>>, details: Seq<SlotV>) -> bool {
    forall|i: int|
        0 <= i < expected.len() ==> has_date(details, spec_format_date(#[trigger] expected[i]))
}

/// Some detail is on date `d`.
pub open spec fn has_date(details: Seq<SlotV>, d: Seq<char>) -> bool {
    exists|j: int| 0 <= j < details.len() && #[trigger] details[j].date == d
}

pub open spec fn all_splittable(ds: Seq<String>) -> bool {
    forall|i: int| 0 <= i < ds.len() ==> date_splittable(#[trigger] ds[i]@)
}

/// Whether the details cover every bookable date.
pub fn details_cover_dates(expected_dates: &[String], details: &[SlotDetail]) -> (r: bool)
    requires
        all_splittable(expected_dates@),
    ensures
        r == covers_dates(expected_dates@.map_values(|s: String| s@), slots_v(details@)),
{
    let ghost ev = expected_dates@.map_values(|s: String| s@);
    let ghost dv = slots_v(details@);
    let mut i: usize = 0;
    while i < expected_dates.len()
        invariant
            i <= expected_dates@.len(),
            all_splittable(expected_dates@),
            ev == expected_dates@.map_values(|s: String| s@),
            dv == slots_v(details@),
            forall|a: int| 0 <= a < i ==> has_date(dv, spec_format_date(#[trigger] ev[a])),
        decreases expected_dates.len() - i,
    {
        assert(date_splittable(expected_dates@[i as int]@));
        let want = format_date(expected_dates[i].as_str());
        let mut j: usize = 0;
        let mut found = false;
        while j < details.len()
            invariant
                j <= details@.len(),
                dv == slots_v(details@),
                want@ == spec_format_date(ev[i as int]),
                found ==> exists|k: int| 0 <= k < dv.len() && dv[k].date == want@,
                !found ==> forall|k: int| 0 <= k < j ==> dv[k].date != want@,
            decreases details.len() - j,
        {
            if details[j].date == want {
                assert(dv[j as int].date == want@);
                found = true;
            }
            j += 1;
        }
        if !found {
            assert(!covers_dates(ev, dv)) by {
                if covers_dates(ev, dv) {
                    assert(has_date(dv, spec_format_date(ev[i as int])));
                    let k = choose|k: int| 0 <= k < dv.len() && #[trigger] dv[k].date == want@;
                }
            }
            return false;
        }
        i += 1;
    }
    true
}

/// Number of (slot, branch) points.
pub open spec fn total_points(ds: Seq<SlotV>) -> nat
    decreases ds.len(),
{
    if ds.len() == 0 {
        0
    } else {
        total_points(ds.drop_last()) + ds.last().branches.len()
    }
}

/// Counts the bookable points (branch, date, time) in the details.
pub fn count_detail_points(details: &[SlotDetail]) -> (r: usize)
    requires
        total_points(slots_v(details@)) <= usize::MAX,
    ensures
        r == total_points(slots_v(details@)),
{
    let ghost dv = slots_v(details@);
    let mut total: usize = 0;
    let mut i: usize = 0;
    while i < details.len()
        invariant
            i <= details@.len(),
            dv == slots_v(details@),
            total_points(dv) <= usize::MAX,
            total == total_points(dv.subrange(0, i as int)),
        decreases details.len() - i,
    {
        proof {
            assert(dv.subrange(0, i + 1 as int).drop_last() =~= dv.subrange(0, i as int));
            lemma_total_points_prefix(dv, i as int + 1);
        }
        total = total + details[i].branches.len();
        i += 1;
    }
    assert(dv.subrange(0, details@.len() as int) =~= dv);
    total
}

proof fn lemma_total_points_prefix(ds: Seq<SlotV>, n: int)
    requires
        0 <= n <= ds.len(),
    ensures
        total_points(ds.subrange(0, n)) <= total_points(ds),
    decreases ds.len(),
{
    if n < ds.len() {
        assert(ds.drop_last().subrange(0, n) =~= ds.subrange(0, n));
        lemma_total_points_prefix(ds.drop_last(), n);
    } else {
        assert(ds.subrange(0, n) =~= ds);
    }
}

/// Compares two complete rounds of details: the points that became bookable
/// and the points that stopped being bookable, one per (branch, date, time, slot).
pub fn diff_detail_snapshots(old_details: &[SlotDetail], new_details: &[SlotDetail]) -> (r: (
    Vec<SlotDetail>,
    Vec<SlotDetail>,
))
    ensures
        slots_v(r.0@) == points_only_in(slots_v(new_details@), slots_v(old_details@)),
        slots_v(r.1@) == points_only_in(slots_v(old_details@), slots_v(new_details@)),
{
    let old_points = flatten_points(old_details);
    let new_points = flatten_points(new_details);
    let old_keys = keys_of(old_points.as_slice());
    let new_keys = keys_of(new_points.as_slice());
    let added = points_missing_from(new_points.as_slice(), old_keys.as_slice());
    let removed = points_missing_from(old_points.as_slice(), new_keys.as_slice());
    (added, removed)
}


/// Formats the added and removed points as notification text.
pub fn format_detail_change_message(
    added: &[SlotDetail],
    removed: &[SlotDetail],
    removed_durations: &[((String, String, String, String), u64)],
) -> (r: String)
    requires
        pairs(slots_v(added@)).len() <= usize::MAX,
    ensures
        r@ == spec_change_message(slots_v(added@), slots_v(removed@), durations_v(removed_durations@)),
{
    let ghost av = slots_v(added@);
    let ghost rv = slots_v(removed@);
    let mut sections: Vec<String> = Vec::new();
    if added.len() > 0 {
        let mut h = owned("## 🟢 新增可预约（");
        push_decimal(&mut h, added.len() as u64);
        h.append("）");
        sections.push(h);
        sections.push(format_compact_details(added));
    }
    if removed.len() > 0 {
        let mut h = owned("## 🔴 已不可预约（");
        push_decimal(&mut h, removed.len() as u64);
        h.append("）");
        sections.push(h);
        sections.push(format_removed_details(removed, removed_durations));
    }
    let contacts = format_branch_contacts_section(added);
    if !contacts.as_str().is_empty() {
        sections.push(contacts);
    }
    assert(texts_view(sections@) =~= change_sections(av, rv, durations_v(removed_durations@)));
    join_texts(sections.as_slice(), "\n\n")
}

} // verus!
