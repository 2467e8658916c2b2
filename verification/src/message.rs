//! Text of change notifications: new points grouped by date and time,
//! vanished points with how long they lasted, and branch contact cards.
use vstd::prelude::*;
use crate::keys::{ascending_keys, ascending_texts, key_view, keys_view, klt, texts_view, tlt};
use crate::models::{BranchV, SlotDetail, SlotV, slots_v};
use crate::notifier::{build_map_links, spec_map_links};
use crate::order::{ascending, lemma_ascending_props};
use crate::snapshot::point_key;
use crate::text::{decimal, owned, push_char, push_decimal, text_lt};

verus! {

/// Parts joined with a separator between consecutive parts.
pub open spec fn join(parts: Seq<Seq<char>>, sep: Seq<char>) -> Seq<char>
    decreases parts.len(),
{
    if parts.len() == 0 {
        seq![]
    } else if parts.len() == 1 {
        parts[0]
    } else {
        join(parts.drop_last(), sep) + sep + parts.last()
    }
}

pub proof fn lemma_join_push(parts: Seq<Seq<char>>, sep: Seq<char>, x: Seq<char>)
    ensures
        join(parts.push(x), sep) == if parts.len() == 0 {
            x
        } else {
            join(parts, sep) + sep + x
        },
{
    assert(parts.push(x).drop_last() =~= parts);
}

/// Every (slot, branch) pair in order.
pub open spec fn pairs(ds: Seq<SlotV>) -> Seq<(SlotV, BranchV)>
    decreases ds.len(),
{
    if ds.len() == 0 {
        seq![]
    } else {
        pairs(ds.drop_last()) + ds.last().branches.map_values(|b: BranchV| (ds.last(), b))
    }
}

/// Grouping key of a pair in the list of new points: date, time, branch name.
pub open spec fn compact_key(p: (SlotV, BranchV)) -> Seq<Seq<char>> {
    seq![p.0.date, p.0.time, p.1.name]
}

/// Number of pairs with grouping key `k`.
pub open spec fn compact_count(ds: Seq<SlotV>, k: Seq<Seq<char>>) -> nat {
    pairs(ds).filter(|p: (SlotV, BranchV)| compact_key(p) == k).len()
}

pub open spec fn slot_dates(ds: Seq<SlotV>) -> Seq<Seq<char>> {
    ds.map_values(|s: SlotV| s.date)
}

/// `- `time` name`, with ` xN` when the branch appears N > 1 times.
pub open spec fn compact_line(k: Seq<Seq<char>>, count: nat) -> Seq<char> {
    "\n- `"@ + k[1] + "` "@ + k[2] + if count > 1 {
        " x"@ + decimal(count)
    } else {
        seq![]
    }
}

pub open spec fn compact_lines(ds: Seq<SlotV>, ks: Seq<Seq<Seq<char>>>) -> Seq<char>
    decreases ks.len(),
{
    if ks.len() == 0 {
        seq![]
    } else {
        compact_lines(ds, ks.drop_last()) + compact_line(ks.last(), compact_count(ds, ks.last()))
    }
}

/// The keys of `ks` on date `d`.
pub open spec fn on_date(ks: Seq<Seq<Seq<char>>>, d: Seq<char>) -> Seq<Seq<Seq<char>>> {
    ks.filter(date_is(d))
}

pub open spec fn date_is(d: Seq<char>) -> spec_fn(Seq<Seq<char>>) -> bool {
    |k: Seq<Seq<char>>| k[0] == d
}

pub open spec fn compact_section(ds: Seq<SlotV>, d: Seq<char>) -> Seq<char> {
    "### "@ + d + compact_lines(
        ds,
        on_date(ascending(pairs(ds).map_values(|p: (SlotV, BranchV)| compact_key(p)).to_set(), klt()), d),
    )
}

/// Dates in ascending order, each with its (time, branch) lines in ascending order.
pub open spec fn spec_compact_details(ds: Seq<SlotV>) -> Seq<char> {
    join(
        ascending(slot_dates(ds).to_set(), tlt()).map_values(|d: Seq<char>| compact_section(ds, d)),
        "\n\n"@,
    )
}

proof fn lemma_pairs_step(ds: Seq<SlotV>, i: int)
    requires
        0 <= i < ds.len(),
    ensures
        pairs(ds.subrange(0, i + 1)) == pairs(ds.subrange(0, i)) + ds[i].branches.map_values(
            |b: BranchV| (ds[i], b),
        ),
{
    assert(ds.subrange(0, i + 1).drop_last() =~= ds.subrange(0, i));
}

/// Number of (slot, branch) pairs with grouping key `k`.
fn count_compact(details: &[SlotDetail], k: &[String]) -> (r: usize)
    requires
        pairs(slots_v(details@)).len() <= usize::MAX,
    ensures
        r == compact_count(slots_v(details@), k@.map_values(|s: String| s@)),
{
    let ghost dv = slots_v(details@);
    let ghost kv = k@.map_values(|s: String| s@);
    let ghost pred = |p: (SlotV, BranchV)| compact_key(p) == kv;
    let mut n: usize = 0;
    let mut i: usize = 0;
    assert(dv.subrange(0, 0) =~= Seq::<SlotV>::empty());
    while i < details.len()
        invariant
            i <= details@.len(),
            dv == slots_v(details@),
            kv == k@.map_values(|s: String| s@),
            pred == (|p: (SlotV, BranchV)| compact_key(p) == kv),
            pairs(dv).len() <= usize::MAX,
            n == pairs(dv.subrange(0, i as int)).filter(pred).len(),
            pairs(dv.subrange(0, i as int)).len() <= pairs(dv).len(),
        decreases details.len() - i,
    {
        let slot = &details[i];
        let ghost sv = slot@;
        let ghost sp = sv.branches.map_values(|b: BranchV| (sv, b));
        let ghost base = pairs(dv.subrange(0, i as int));
        proof {
            lemma_pairs_step(dv, i as int);
            lemma_pairs_prefix(dv, i as int + 1);
        }
        let mut j: usize = 0;
        while j < slot.branches.len()
            invariant
                j <= slot.branches@.len(),
                sv == slot@,
                sp == sv.branches.map_values(|b: BranchV| (sv, b)),
                kv == k@.map_values(|s: String| s@),
                pred == (|p: (SlotV, BranchV)| compact_key(p) == kv),
                (base + sp).len() <= usize::MAX,
                n == (base + sp.subrange(0, j as int)).filter(pred).len(),
            decreases slot.branches.len() - j,
        {
            let b = &slot.branches[j];
            let mut key: Vec<String> = Vec::new();
            key.push(slot.date.clone());
            key.push(slot.time.clone());
            key.push(b.name.clone());
            let c = crate::text::compare_key(key.as_slice(), k);
            proof {
                assert(key_view(key) =~= compact_key(sp[j as int]));
                assert((base + sp.subrange(0, j + 1 as int)) =~= (base + sp.subrange(0, j as int)).push(
                    sp[j as int],
                ));
                (base + sp.subrange(0, j as int)).lemma_filter_len_push(pred, sp[j as int]);
                (base + sp.subrange(0, j + 1 as int)).filter(pred).lemma_filter_len(pred);
                assert((base + sp.subrange(0, j as int)).filter(pred).len() <= j + base.len()) by {
                    (base + sp.subrange(0, j as int)).lemma_filter_len(pred);
                }
            }
            match c {
                crate::text::Order::Equal => {
                    n = n + 1;
                },
                _ => {},
            }
            j += 1;
        }
        proof {
            assert(sp.subrange(0, slot.branches@.len() as int) =~= sp);
        }
        i += 1;
    }
    assert(dv.subrange(0, details@.len() as int) =~= dv);
    n
}

proof fn lemma_pairs_prefix(ds: Seq<SlotV>, n: int)
    requires
        0 <= n <= ds.len(),
    ensures
        pairs(ds.subrange(0, n)).len() <= pairs(ds).len(),
    decreases ds.len(),
{
    if n < ds.len() {
        assert(ds.drop_last().subrange(0, n) =~= ds.subrange(0, n));
        lemma_pairs_prefix(ds.drop_last(), n);
    } else {
        assert(ds.subrange(0, n) =~= ds);
    }
}


/// The date of every slot, in order.
fn slot_date_list(details: &[SlotDetail]) -> (r: Vec<String>)
    ensures
        texts_view(r@) == slot_dates(slots_v(details@)),
{
    let mut r: Vec<String> = Vec::new();
    let mut i: usize = 0;
    while i < details.len()
        invariant
            i <= details@.len(),
            r@.len() == i,
            forall|j: int| 0 <= j < i ==> #[trigger] r@[j]@ == details@[j].date@,
        decreases details.len() - i,
    {
        r.push(details[i].date.clone());
        i += 1;
    }
    assert(texts_view(r@) =~= slot_dates(slots_v(details@)));
    r
}

/// The grouping key of every pair, in order.
fn compact_key_list(details: &[SlotDetail]) -> (r: Vec<Vec<String>>)
    ensures
        keys_view(r@) == pairs(slots_v(details@)).map_values(|p: (SlotV, BranchV)| compact_key(p)),
{
    let ghost dv = slots_v(details@);
    let mut r: Vec<Vec<String>> = Vec::new();
    let mut i: usize = 0;
    assert(dv.subrange(0, 0) =~= Seq::<SlotV>::empty());
    while i < details.len()
        invariant
            i <= details@.len(),
            dv == slots_v(details@),
            keys_view(r@) == pairs(dv.subrange(0, i as int)).map_values(
                |p: (SlotV, BranchV)| compact_key(p),
            ),
        decreases details.len() - i,
    {
        let slot = &details[i];
        let ghost sv = slot@;
        let ghost sp = sv.branches.map_values(|b: BranchV| (sv, b));
        let ghost base = keys_view(r@);
        proof {
            lemma_pairs_step(dv, i as int);
        }
        let mut j: usize = 0;
        while j < slot.branches.len()
            invariant
                j <= slot.branches@.len(),
                sv == slot@,
                sp == sv.branches.map_values(|b: BranchV| (sv, b)),
                keys_view(r@) == base + sp.subrange(0, j as int).map_values(
                    |p: (SlotV, BranchV)| compact_key(p),
                ),
            decreases slot.branches.len() - j,
        {
            let mut key: Vec<String> = Vec::new();
            key.push(slot.date.clone());
            key.push(slot.time.clone());
            key.push(slot.branches[j].name.clone());
            let ghost before = keys_view(r@);
            r.push(key);
            proof {
                assert(key_view(key) =~= compact_key(sp[j as int]));
                assert(keys_view(r@) =~= before.push(key_view(key)));
                assert(sp.subrange(0, j + 1 as int).map_values(|p: (SlotV, BranchV)| compact_key(p))
                    =~= sp.subrange(0, j as int).map_values(|p: (SlotV, BranchV)| compact_key(p)).push(
                    compact_key(sp[j as int]),
                ));
            }
            j += 1;
        }
        proof {
            assert(sp.subrange(0, slot.branches@.len() as int) =~= sp);
            let f = |p: (SlotV, BranchV)| compact_key(p);
            assert((pairs(dv.subrange(0, i as int)) + sp).map_values(f) =~= pairs(
                dv.subrange(0, i as int),
            ).map_values(f) + sp.map_values(f));
        }
        i += 1;
    }
    assert(dv.subrange(0, details@.len() as int) =~= dv);
    r
}

/// Lists the new points: a `### date` block per date, each `(time, branch)`
/// once in ascending order, with its multiplicity when above one.
pub fn format_compact_details(details: &[SlotDetail]) -> (r: String)
    requires
        pairs(slots_v(details@)).len() <= usize::MAX,
    ensures
        r@ == spec_compact_details(slots_v(details@)),
{
    let ghost dv = slots_v(details@);
    let date_list = slot_date_list(details);
    let dates = ascending_texts(date_list.as_slice());
    let key_list = compact_key_list(details);
    let keys = ascending_keys(key_list.as_slice());
    let ghost dset = slot_dates(dv).to_set();
    let ghost kset = pairs(dv).map_values(|p: (SlotV, BranchV)| compact_key(p)).to_set();
    let ghost dseq = texts_view(dates@);
    let ghost kseq = keys_view(keys@);
    proof {
        vstd::seq_lib::seq_to_set_is_finite(pairs(dv).map_values(|p: (SlotV, BranchV)| compact_key(p)));
        crate::text::lemma_key_order();
        lemma_ascending_props(kset, klt());
        assert forall|j: int| 0 <= j < kseq.len() implies #[trigger] kseq[j].len() == 3 by {
            assert(kseq.to_set().contains(kseq[j]));
        }
    }
    let ghost sections = dseq.map_values(|d: Seq<char>| compact_section(dv, d));
    let mut out = String::new();
    let mut a: usize = 0;
    while a < dates.len()
        invariant
            a <= dates@.len(),
            dv == slots_v(details@),
            dseq == texts_view(dates@),
            kseq == keys_view(keys@),
            kseq == ascending(kset, klt()),
            kset == pairs(dv).map_values(|p: (SlotV, BranchV)| compact_key(p)).to_set(),
            forall|j: int| 0 <= j < kseq.len() ==> #[trigger] kseq[j].len() == 3,
            pairs(dv).len() <= usize::MAX,
            sections == dseq.map_values(|d: Seq<char>| compact_section(dv, d)),
            out@ == join(sections.subrange(0, a as int), "\n\n"@),
        decreases dates.len() - a,
    {
        let d = &dates[a];
        let ghost dvv = dseq[a as int];
        let mut sec = owned("### ");
        sec.append(d.as_str());
        let mut j: usize = 0;
        while j < keys.len()
            invariant
                j <= keys@.len(),
                dv == slots_v(details@),
                kseq == keys_view(keys@),
                forall|q: int| 0 <= q < kseq.len() ==> #[trigger] kseq[q].len() == 3,
                pairs(dv).len() <= usize::MAX,
                dvv == d@,
                sec@ == "### "@ + dvv + compact_lines(dv, on_date(kseq.subrange(0, j as int), dvv)),
            decreases keys.len() - j,
        {
            let k = &keys[j];
            assert(kseq[j as int].len() == 3);
            assert(k@.len() == 3);
            let ghost kv = kseq[j as int];
            proof {
                kseq.subrange(0, j as int).lemma_filter_push(kv, date_is(dvv));
                assert(kseq.subrange(0, j + 1 as int) =~= kseq.subrange(0, j as int).push(kv));
            }
            if k[0] == *d {
                assert(kv[0] == k@[0]@);
                let cnt = count_compact(details, k.as_slice());
                let ghost before = sec@;
                sec.append("\n- `");
                sec.append(k[1].as_str());
                sec.append("` ");
                sec.append(k[2].as_str());
                if cnt > 1 {
                    sec.append(" x");
                    push_decimal(&mut sec, cnt as u64);
                }
                proof {
                    let od = on_date(kseq.subrange(0, j as int), dvv);
                    assert(on_date(kseq.subrange(0, j + 1 as int), dvv) == od.push(kv));
                    assert(od.push(kv).drop_last() =~= od);
                    assert(kv[1] == k@[1]@);
                    assert(kv[2] == k@[2]@);
                    assert(sec@ =~= before + compact_line(kv, compact_count(dv, kv)));
                }
            } else {
                assert(kv[0] != dvv);
            }
            j += 1;
        }
        proof {
            assert(kseq.subrange(0, keys@.len() as int) =~= kseq);
            assert(sec@ == compact_section(dv, dvv));
            lemma_join_push(sections.subrange(0, a as int), "\n\n"@, sec@);
            assert(sections.subrange(0, a + 1 as int) =~= sections.subrange(0, a as int).push(sec@));
        }
        if a > 0 {
            out.append("\n\n");
        }
        out.append(sec.as_str());
        a += 1;
    }
    proof {
        assert(sections.subrange(0, dates@.len() as int) =~= sections);
    }
    out
}


/// Positions of every (slot, branch) pair, in order.
pub fn pair_index(details: &[SlotDetail]) -> (r: Vec<(usize, usize)>)
    ensures
        r@.len() == pairs(slots_v(details@)).len(),
        forall|t: int|
            0 <= t < r@.len() ==> {
                &&& (#[trigger] r@[t]).0 < details@.len()
                &&& r@[t].1 < details@[r@[t].0 as int].branches@.len()
                &&& pairs(slots_v(details@))[t] == (
                    details@[r@[t].0 as int]@,
                    details@[r@[t].0 as int].branches@[r@[t].1 as int]@,
                )
            },
{
    let ghost dv = slots_v(details@);
    let mut r: Vec<(usize, usize)> = Vec::new();
    let mut i: usize = 0;
    assert(dv.subrange(0, 0) =~= Seq::<SlotV>::empty());
    while i < details.len()
        invariant
            i <= details@.len(),
            dv == slots_v(details@),
            r@.len() == pairs(dv.subrange(0, i as int)).len(),
            forall|t: int|
                0 <= t < r@.len() ==> {
                    &&& (#[trigger] r@[t]).0 < i
                    &&& r@[t].1 < details@[r@[t].0 as int].branches@.len()
                    &&& pairs(dv.subrange(0, i as int))[t] == (
                        details@[r@[t].0 as int]@,
                        details@[r@[t].0 as int].branches@[r@[t].1 as int]@,
                    )
                },
        decreases details.len() - i,
    {
        let ghost sv = details@[i as int]@;
        let ghost sp = sv.branches.map_values(|b: BranchV| (sv, b));
        let ghost base = pairs(dv.subrange(0, i as int));
        proof {
            lemma_pairs_step(dv, i as int);
        }
        let n = details[i].branches.len();
        let mut j: usize = 0;
        while j < n
            invariant
                j <= n,
                i < details@.len(),
                n == details@[i as int].branches@.len(),
                dv == slots_v(details@),
                sv == details@[i as int]@,
                sp == sv.branches.map_values(|b: BranchV| (sv, b)),
                r@.len() == base.len() + j,
                forall|t: int|
                    0 <= t < r@.len() ==> {
                        &&& (#[trigger] r@[t]).0 <= i
                        &&& r@[t].1 < details@[r@[t].0 as int].branches@.len()
                        &&& (base + sp)[t] == (
                            details@[r@[t].0 as int]@,
                            details@[r@[t].0 as int].branches@[r@[t].1 as int]@,
                        )
                    },
            decreases n - j,
        {
            r.push((i, j));
            proof {
                assert((base + sp)[base.len() + j] == sp[j as int]);
            }
            j += 1;
        }
        i += 1;
    }
    assert(dv.subrange(0, details@.len() as int) =~= dv);
    r
}

/// Short human duration: `45s`, `12m`, `3h`, `3h5m`, `2d`, `2d4h`.
pub open spec fn duration_short(total: nat) -> Seq<char> {
    if total < 60 {
        decimal(total) + seq!['s']
    } else {
        let minutes = total / 60;
        if minutes < 60 {
            decimal(minutes) + seq!['m']
        } else {
            let hours = minutes / 60;
            let rm = minutes % 60;
            if hours < 24 {
                if rm > 0 {
                    decimal(hours) + seq!['h'] + decimal(rm) + seq!['m']
                } else {
                    decimal(hours) + seq!['h']
                }
            } else {
                let days = hours / 24;
                let rh = hours % 24;
                if rh > 0 {
                    decimal(days) + seq!['d'] + decimal(rh) + seq!['h']
                } else {
                    decimal(days) + seq!['d']
                }
            }
        }
    }
}

/// Appends a short human duration for `total_secs`.
pub fn push_duration_short(s: &mut String, total_secs: u64)
    ensures
        final(s)@ == old(s)@ + duration_short(total_secs as nat),
{
    if total_secs < 60 {
        push_decimal(s, total_secs);
        push_char(s, 's');
    } else {
        let minutes = total_secs / 60;
        if minutes < 60 {
            push_decimal(s, minutes);
            push_char(s, 'm');
        } else {
            let hours = minutes / 60;
            let rm = minutes % 60;
            if hours < 24 {
                push_decimal(s, hours);
                push_char(s, 'h');
                if rm > 0 {
                    push_decimal(s, rm);
                    push_char(s, 'm');
                }
            } else {
                let days = hours / 24;
                let rh = hours % 24;
                push_decimal(s, days);
                push_char(s, 'd');
                if rh > 0 {
                    push_decimal(s, rh);
                    push_char(s, 'h');
                }
            }
        }
    }
    assert(final(s)@ =~= old(s)@ + duration_short(total_secs as nat));
}

/// Formats a duration in seconds as `45s`, `12m`, `3h5m` or `2d4h`.
pub fn format_duration_short(total_secs: u64) -> (r: String)
    ensures
        r@ == duration_short(total_secs as nat),
{
    let mut r = String::new();
    push_duration_short(&mut r, total_secs);
    assert(r@ =~= duration_short(total_secs as nat));
    r
}

/// A point key (branch code, date, time, slot id) as plain texts.
pub open spec fn quad_v(k: (String, String, String, String)) -> Seq<Seq<char>> {
    seq![k.0@, k.1@, k.2@, k.3@]
}

pub open spec fn durations_v(ds: Seq<((String, String, String, String), u64)>) -> Seq<
    (Seq<Seq<char>>, u64),
> {
    ds.map_values(|e: ((String, String, String, String), u64)| (quad_v(e.0), e.1))
}

/// The duration recorded for key `k` (the first entry with that key).
pub open spec fn lookup_duration(ds: Seq<(Seq<Seq<char>>, u64)>, k: Seq<Seq<char>>) -> Option<u64>
    decreases ds.len(),
{
    if ds.len() == 0 {
        None
    } else if ds[0].0 == k {
        Some(ds[0].1)
    } else {
        lookup_duration(ds.drop_first(), k)
    }
}

fn find_duration(
    ds: &[((String, String, String, String), u64)],
    code: &String,
    date: &String,
    time: &String,
    slot: &String,
) -> (r: Option<u64>)
    ensures
        r == lookup_duration(durations_v(ds@), seq![code@, date@, time@, slot@]),
{
    let ghost dv = durations_v(ds@);
    let ghost k = seq![code@, date@, time@, slot@];
    let mut i: usize = 0;
    assert(dv.skip(0) =~= dv);
    while i < ds.len()
        invariant
            i <= ds@.len(),
            dv == durations_v(ds@),
            k == seq![code@, date@, time@, slot@],
            lookup_duration(dv, k) == lookup_duration(dv.skip(i as int), k),
        decreases ds.len() - i,
    {
        let e = &ds[i];
        assert(dv.skip(i as int)[0] == dv[i as int]);
        if e.0.0 == *code && e.0.1 == *date && e.0.2 == *time && e.0.3 == *slot {
            assert(quad_v(e.0) =~= k);
            return Some(e.1);
        }
        proof {
            if quad_v(e.0) == k {
                assert(quad_v(e.0)[0] == k[0]);
                assert(quad_v(e.0)[1] == k[1]);
                assert(quad_v(e.0)[2] == k[2]);
                assert(quad_v(e.0)[3] == k[3]);
            }
            assert(dv.skip(i as int).drop_first() =~= dv.skip(i + 1 as int));
        }
        i += 1;
    }
    None
}

/// One line for a vanished point, with how long it had been bookable when known.
pub open spec fn removed_line(p: (SlotV, BranchV), ds: Seq<(Seq<Seq<char>>, u64)>) -> Seq<char> {
    "\n- `"@ + p.0.time + "` "@ + p.1.name + match lookup_duration(ds, point_key(p.0, p.1)) {
        Some(secs) => " (alive "@ + duration_short(secs as nat) + ")"@,
        None => seq![],
    }
}

/// Lines of the pairs on date `d`, in order.
pub open spec fn removed_lines(
    ps: Seq<(SlotV, BranchV)>,
    d: Seq<char>,
    ds: Seq<(Seq<Seq<char>>, u64)>,
) -> Seq<char>
    decreases ps.len(),
{
    if ps.len() == 0 {
        seq![]
    } else {
        removed_lines(ps.drop_last(), d, ds) + if ps.last().0.date == d {
            removed_line(ps.last(), ds)
        } else {
            seq![]
        }
    }
}

pub open spec fn removed_section(
    dv: Seq<SlotV>,
    d: Seq<char>,
    ds: Seq<(Seq<Seq<char>>, u64)>,
) -> Seq<char> {
    "### "@ + d + removed_lines(pairs(dv), d, ds)
}

/// Dates in ascending order, each with its vanished points in the order given.
pub open spec fn spec_removed_details(dv: Seq<SlotV>, ds: Seq<(Seq<Seq<char>>, u64)>) -> Seq<char> {
    join(
        ascending(slot_dates(dv).to_set(), tlt()).map_values(|d: Seq<char>| removed_section(dv, d, ds)),
        "\n\n"@,
    )
}

/// Lists the vanished points per date, each with how long it lasted when known.
pub fn format_removed_details(
    details: &[SlotDetail],
    removed_durations: &[((String, String, String, String), u64)],
) -> (r: String)
    ensures
        r@ == spec_removed_details(slots_v(details@), durations_v(removed_durations@)),
{
    let ghost dv = slots_v(details@);
    let ghost durs = durations_v(removed_durations@);
    let date_list = slot_date_list(details);
    let dates = ascending_texts(date_list.as_slice());
    let ghost dseq = texts_view(dates@);
    let idx = pair_index(details);
    let ghost ps = pairs(dv);
    let ghost sections = dseq.map_values(|d: Seq<char>| removed_section(dv, d, durs));
    let mut out = String::new();
    let mut a: usize = 0;
    while a < dates.len()
        invariant
            a <= dates@.len(),
            dv == slots_v(details@),
            durs == durations_v(removed_durations@),
            ps == pairs(dv),
            dseq == texts_view(dates@),
            idx@.len() == ps.len(),
            forall|t: int|
                0 <= t < idx@.len() ==> {
                    &&& (#[trigger] idx@[t]).0 < details@.len()
                    &&& idx@[t].1 < details@[idx@[t].0 as int].branches@.len()
                    &&& ps[t] == (
                        details@[idx@[t].0 as int]@,
                        details@[idx@[t].0 as int].branches@[idx@[t].1 as int]@,
                    )
                },
            sections == dseq.map_values(|d: Seq<char>| removed_section(dv, d, durs)),
            out@ == join(sections.subrange(0, a as int), "\n\n"@),
        decreases dates.len() - a,
    {
        let d = &dates[a];
        let ghost dvv = dseq[a as int];
        let mut sec = owned("### ");
        sec.append(d.as_str());
        let mut t: usize = 0;
        assert(ps.subrange(0, 0) =~= Seq::<(SlotV, BranchV)>::empty());
        while t < idx.len()
            invariant
                t <= idx@.len(),
                dv == slots_v(details@),
                durs == durations_v(removed_durations@),
                ps == pairs(dv),
                idx@.len() == ps.len(),
                forall|q: int|
                    0 <= q < idx@.len() ==> {
                        &&& (#[trigger] idx@[q]).0 < details@.len()
                        &&& idx@[q].1 < details@[idx@[q].0 as int].branches@.len()
                        &&& ps[q] == (
                            details@[idx@[q].0 as int]@,
                            details@[idx@[q].0 as int].branches@[idx@[q].1 as int]@,
                        )
                    },
                dvv == d@,
                sec@ == "### "@ + dvv + removed_lines(ps.subrange(0, t as int), dvv, durs),
            decreases idx.len() - t,
        {
            let (si, bi) = idx[t];
            let slot = &details[si];
            let b = &slot.branches[bi];
            let ghost before = sec@;
            proof {
                assert(ps.subrange(0, t + 1 as int).drop_last() =~= ps.subrange(0, t as int));
                assert(ps.subrange(0, t + 1 as int).last() == ps[t as int]);
            }
            if slot.date == *d {
                sec.append("\n- `");
                sec.append(slot.time.as_str());
                sec.append("` ");
                sec.append(b.name.as_str());
                match find_duration(removed_durations, &b.code, &slot.date, &slot.time, &slot.time_slot_id) {
                    Some(secs) => {
                        sec.append(" (alive ");
                        push_duration_short(&mut sec, secs);
                        sec.append(")");
                    },
                    None => {},
                }
                assert(sec@ =~= before + removed_line(ps[t as int], durs));
            } else {
                assert(sec@ =~= before + seq![]);
            }
            t += 1;
        }
        proof {
            assert(ps.subrange(0, idx@.len() as int) =~= ps);
            lemma_join_push(sections.subrange(0, a as int), "\n\n"@, sec@);
            assert(sections.subrange(0, a + 1 as int) =~= sections.subrange(0, a as int).push(sec@));
        }
        if a > 0 {
            out.append("\n\n");
        }
        out.append(sec.as_str());
        a += 1;
    }
    proof {
        assert(sections.subrange(0, dates@.len() as int) =~= sections);
    }
    out
}


/// Joins texts with a separator.
pub fn join_texts(parts: &[String], sep: &str) -> (r: String)
    ensures
        r@ == join(texts_view(parts@), sep@),
{
    let ghost pv = texts_view(parts@);
    let mut out = String::new();
    let mut i: usize = 0;
    assert(pv.subrange(0, 0) =~= Seq::<Seq<char>>::empty());
    while i < parts.len()
        invariant
            i <= parts@.len(),
            pv == texts_view(parts@),
            out@ == join(pv.subrange(0, i as int), sep@),
        decreases parts.len() - i,
    {
        proof {
            lemma_join_push(pv.subrange(0, i as int), sep@, pv[i as int]);
            assert(pv.subrange(0, i + 1 as int) =~= pv.subrange(0, i as int).push(pv[i as int]));
        }
        if i > 0 {
            out.append(sep);
        }
        out.append(parts[i].as_str());
        i += 1;
    }
    assert(pv.subrange(0, parts@.len() as int) =~= pv);
    out
}

/// Contact grouping key: branch name, branch code.
pub open spec fn contact_key(p: (SlotV, BranchV)) -> Seq<Seq<char>> {
    seq![p.1.name, p.1.code]
}

/// The first non-empty address given for key `k` (empty when there is none).
pub open spec fn first_address(ps: Seq<(SlotV, BranchV)>, k: Seq<Seq<char>>) -> Seq<char>
    decreases ps.len(),
{
    if ps.len() == 0 {
        seq![]
    } else {
        let r = first_address(ps.drop_last(), k);
        if r.len() > 0 {
            r
        } else if contact_key(ps.last()) == k {
            ps.last().1.address_cn
        } else {
            seq![]
        }
    }
}

/// The first non-empty phone number given for key `k` (empty when there is none).
pub open spec fn first_tel(ps: Seq<(SlotV, BranchV)>, k: Seq<Seq<char>>) -> Seq<char>
    decreases ps.len(),
{
    if ps.len() == 0 {
        seq![]
    } else {
        let r = first_tel(ps.drop_last(), k);
        if r.len() > 0 {
            r
        } else if contact_key(ps.last()) == k {
            ps.last().1.tel_no
        } else {
            seq![]
        }
    }
}

pub open spec fn or_unknown(s: Seq<char>) -> Seq<char> {
    if s.len() == 0 {
        "(暂无)"@
    } else {
        s
    }
}

pub open spec fn contact_card(k: Seq<Seq<char>>, addr: Seq<char>, tel: Seq<char>) -> Seq<char> {
    "#### "@ + k[0] + "\n- 地址："@ + or_unknown(addr) + "\n- 电话："@ + or_unknown(tel)
        + "\n- [Google 地图]("@ + spec_map_links(k[0], addr).0 + ")"@
}

pub open spec fn contact_keys(dv: Seq<SlotV>) -> Seq<Seq<Seq<char>>> {
    ascending(pairs(dv).map_values(|p: (SlotV, BranchV)| contact_key(p)).to_set(), klt())
}

/// A contact card per (name, code) in ascending order, after a heading; empty when no branch.
pub open spec fn spec_contacts_section(dv: Seq<SlotV>) -> Seq<char> {
    let ks = contact_keys(dv);
    if ks.len() == 0 {
        seq![]
    } else {
        join(
            seq!["### 📍 分行联系信息"@] + ks.map_values(
                |k: Seq<Seq<char>>| contact_card(k, first_address(pairs(dv), k), first_tel(pairs(dv), k)),
            ),
            "\n\n"@,
        )
    }
}

/// Builds the contact card of one branch key.
fn contact_card_text(
    details: &[SlotDetail],
    idx: &[(usize, usize)],
    k: &[String],
) -> (r: String)
    requires
        k@.len() == 2,
        idx@.len() == pairs(slots_v(details@)).len(),
        forall|t: int|
            0 <= t < idx@.len() ==> {
                &&& (#[trigger] idx@[t]).0 < details@.len()
                &&& idx@[t].1 < details@[idx@[t].0 as int].branches@.len()
                &&& pairs(slots_v(details@))[t] == (
                    details@[idx@[t].0 as int]@,
                    details@[idx@[t].0 as int].branches@[idx@[t].1 as int]@,
                )
            },
    ensures
        r@ == contact_card(
            k@.map_values(|s: String| s@),
            first_address(pairs(slots_v(details@)), k@.map_values(|s: String| s@)),
            first_tel(pairs(slots_v(details@)), k@.map_values(|s: String| s@)),
        ),
{
    let ghost ps = pairs(slots_v(details@));
    let ghost kv = k@.map_values(|s: String| s@);
    let mut addr = String::new();
    let mut tel = String::new();
    let mut t: usize = 0;
    assert(ps.subrange(0, 0) =~= Seq::<(SlotV, BranchV)>::empty());
    while t < idx.len()
        invariant
            t <= idx@.len(),
            k@.len() == 2,
            kv == k@.map_values(|s: String| s@),
            ps == pairs(slots_v(details@)),
            idx@.len() == ps.len(),
            forall|q: int|
                0 <= q < idx@.len() ==> {
                    &&& (#[trigger] idx@[q]).0 < details@.len()
                    &&& idx@[q].1 < details@[idx@[q].0 as int].branches@.len()
                    &&& ps[q] == (
                        details@[idx@[q].0 as int]@,
                        details@[idx@[q].0 as int].branches@[idx@[q].1 as int]@,
                    )
                },
            addr@ == first_address(ps.subrange(0, t as int), kv),
            tel@ == first_tel(ps.subrange(0, t as int), kv),
        decreases idx.len() - t,
    {
        let (si, bi) = idx[t];
        let b = &details[si].branches[bi];
        proof {
            assert(ps.subrange(0, t + 1 as int).drop_last() =~= ps.subrange(0, t as int));
            assert(ps.subrange(0, t + 1 as int).last() == ps[t as int]);
        }
        let same = b.name == k[0] && b.code == k[1];
        proof {
            if contact_key(ps[t as int]) == kv {
                assert(contact_key(ps[t as int])[0] == kv[0]);
                assert(contact_key(ps[t as int])[1] == kv[1]);
            }
            if same {
                assert(contact_key(ps[t as int]) =~= kv);
            }
        }
        if addr.as_str().is_empty() && same {
            addr = b.address_cn.clone();
        }
        if tel.as_str().is_empty() && same {
            tel = b.tel_no.clone();
        }
        t += 1;
    }
    assert(ps.subrange(0, idx@.len() as int) =~= ps);
    let links = build_map_links(k[0].as_str(), addr.as_str());
    let mut r = owned("#### ");
    r.append(k[0].as_str());
    r.append("\n- 地址：");
    if addr.as_str().is_empty() {
        r.append("(暂无)");
    } else {
        r.append(addr.as_str());
    }
    r.append("\n- 电话：");
    if tel.as_str().is_empty() {
        r.append("(暂无)");
    } else {
        r.append(tel.as_str());
    }
    r.append("\n- [Google 地图](");
    r.append(links.0.as_str());
    r.append(")");
    assert(r@ =~= contact_card(kv, addr@, tel@));
    r
}

/// Contact cards (address, phone, map link) for the branches in `details`.
pub fn format_branch_contacts_section(details: &[SlotDetail]) -> (r: String)
    ensures
        r@ == spec_contacts_section(slots_v(details@)),
{
    let ghost dv = slots_v(details@);
    let ghost ps = pairs(dv);
    let idx = pair_index(details);
    let mut key_list: Vec<Vec<String>> = Vec::new();
    let mut t: usize = 0;
    while t < idx.len()
        invariant
            t <= idx@.len(),
            dv == slots_v(details@),
            ps == pairs(dv),
            idx@.len() == ps.len(),
            forall|q: int|
                0 <= q < idx@.len() ==> {
                    &&& (#[trigger] idx@[q]).0 < details@.len()
                    &&& idx@[q].1 < details@[idx@[q].0 as int].branches@.len()
                    &&& ps[q] == (
                        details@[idx@[q].0 as int]@,
                        details@[idx@[q].0 as int].branches@[idx@[q].1 as int]@,
                    )
                },
            key_list@.len() == t,
            forall|q: int| 0 <= q < t ==> #[trigger] key_view(key_list@[q]) == contact_key(ps[q]),
        decreases idx.len() - t,
    {
        let (si, bi) = idx[t];
        let b = &details[si].branches[bi];
        let mut k: Vec<String> = Vec::new();
        k.push(b.name.clone());
        k.push(b.code.clone());
        assert(key_view(k) =~= contact_key(ps[t as int]));
        key_list.push(k);
        t += 1;
    }
    assert(keys_view(key_list@) =~= ps.map_values(|p: (SlotV, BranchV)| contact_key(p)));
    let keys = ascending_keys(key_list.as_slice());
    let ghost kseq = keys_view(keys@);
    proof {
        vstd::seq_lib::seq_to_set_is_finite(ps.map_values(|p: (SlotV, BranchV)| contact_key(p)));
        crate::text::lemma_key_order();
        lemma_ascending_props(ps.map_values(|p: (SlotV, BranchV)| contact_key(p)).to_set(), klt());
        assert forall|j: int| 0 <= j < kseq.len() implies #[trigger] kseq[j].len() == 2 by {
            assert(kseq.to_set().contains(kseq[j]));
        }
    }
    if keys.len() == 0 {
        return String::new();
    }
    let ghost cards = kseq.map_values(
        |k: Seq<Seq<char>>| contact_card(k, first_address(ps, k), first_tel(ps, k)),
    );
    let ghost header = "### 📍 分行联系信息"@;
    let mut out = owned("### 📍 分行联系信息");
    let mut a: usize = 0;
    assert(seq![header] + cards.subrange(0, 0) =~= seq![header]);
    while a < keys.len()
        invariant
            a <= keys@.len(),
            dv == slots_v(details@),
            ps == pairs(dv),
            kseq == keys_view(keys@),
            forall|j: int| 0 <= j < kseq.len() ==> #[trigger] kseq[j].len() == 2,
            idx@.len() == ps.len(),
            forall|q: int|
                0 <= q < idx@.len() ==> {
                    &&& (#[trigger] idx@[q]).0 < details@.len()
                    &&& idx@[q].1 < details@[idx@[q].0 as int].branches@.len()
                    &&& ps[q] == (
                        details@[idx@[q].0 as int]@,
                        details@[idx@[q].0 as int].branches@[idx@[q].1 as int]@,
                    )
                },
            header == "### 📍 分行联系信息"@,
            cards == kseq.map_values(
                |k: Seq<Seq<char>>| contact_card(k, first_address(ps, k), first_tel(ps, k)),
            ),
            out@ == join(seq![header] + cards.subrange(0, a as int), "\n\n"@),
        decreases keys.len() - a,
    {
        assert(kseq[a as int].len() == 2);
        assert(keys@[a as int]@.len() == 2);
        let card = contact_card_text(details, idx.as_slice(), keys[a].as_slice());
        proof {
            assert(keys@[a as int]@.map_values(|s: String| s@) == kseq[a as int]);
            lemma_join_push(seq![header] + cards.subrange(0, a as int), "\n\n"@, card@);
            assert(seq![header] + cards.subrange(0, a + 1 as int) =~= (seq![header] + cards.subrange(
                0,
                a as int,
            )).push(card@));
        }
        out.append("\n\n");
        out.append(card.as_str());
        a += 1;
    }
    assert(cards.subrange(0, keys@.len() as int) =~= cards);
    out
}

pub open spec fn added_heading(n: nat) -> Seq<char> {
    "## 🟢 新增可预约（"@ + decimal(n) + "）"@
}

pub open spec fn removed_heading(n: nat) -> Seq<char> {
    "## 🔴 已不可预约（"@ + decimal(n) + "）"@
}

/// The sections of a change message: added points, removed points, contact cards,
/// each only when there is something to show.
pub open spec fn change_sections(
    added: Seq<SlotV>,
    removed: Seq<SlotV>,
    ds: Seq<(Seq<Seq<char>>, u64)>,
) -> Seq<Seq<char>> {
    let a = if added.len() > 0 {
        seq![added_heading(added.len()), spec_compact_details(added)]
    } else {
        seq![]
    };
    let r = if removed.len() > 0 {
        seq![removed_heading(removed.len()), spec_removed_details(removed, ds)]
    } else {
        seq![]
    };
    let c = spec_contacts_section(added);
    a + r + if c.len() > 0 {
        seq![c]
    } else {
        seq![]
    }
}

pub open spec fn spec_change_message(
    added: Seq<SlotV>,
    removed: Seq<SlotV>,
    ds: Seq<(Seq<Seq<char>>, u64)>,
) -> Seq<char> {
    join(change_sections(added, removed, ds), "\n\n"@)
}

} // verus!
