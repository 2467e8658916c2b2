//! When in the day slots get released: the release times grouped into windows
//! (runs of releases at most twenty minutes apart) and into half-hour buckets.
use vstd::prelude::*;
use crate::history::{format_hhmm, format_hhmm_edge, hhmm, hhmm_edge};
use crate::keys::{positions, stable_lt, stable_text_order, texts_view};
use crate::order::{ascending, lemma_ascending_props, lemma_ascending_unique, strict_total, strictly_sorted};
use crate::text::{compare_text, lemma_text_order, push_char, text_lt, Order};

verus! {

/// A window of the day in which releases cluster.
pub struct WebReleaseWindowStat {
    pub center_time: String,
    pub range_start: String,
    pub range_end: String,
    pub minus_minutes: u32,
    pub plus_minutes: u32,
    pub sample_count: u32,
}

pub struct WindowV {
    pub center_time: Seq<char>,
    pub range_start: Seq<char>,
    pub range_end: Seq<char>,
    pub minus_minutes: u32,
    pub plus_minutes: u32,
    pub sample_count: u32,
}

impl View for WebReleaseWindowStat {
    type V = WindowV;

    open spec fn view(&self) -> WindowV {
        WindowV {
            center_time: self.center_time@,
            range_start: self.range_start@,
            range_end: self.range_end@,
            minus_minutes: self.minus_minutes,
            plus_minutes: self.plus_minutes,
            sample_count: self.sample_count,
        }
    }
}

pub open spec fn windows_v(ws: Seq<WebReleaseWindowStat>) -> Seq<WindowV> {
    ws.map_values(|w: WebReleaseWindowStat| w@)
}

impl WebReleaseWindowStat {
    /// A field-by-field copy.
    pub fn duplicate(&self) -> (r: WebReleaseWindowStat)
        ensures
            r@ == self@,
    {
        WebReleaseWindowStat {
            center_time: self.center_time.clone(),
            range_start: self.range_start.clone(),
            range_end: self.range_end.clone(),
            minus_minutes: self.minus_minutes,
            plus_minutes: self.plus_minutes,
            sample_count: self.sample_count,
        }
    }
}

/// `a - b`, or 0 when `b` is larger.
pub open spec fn sat_sub(a: u32, b: u32) -> nat {
    if a >= b {
        (a - b) as nat
    } else {
        0
    }
}

/// Largest gap between consecutive releases of one window, in seconds.
pub open spec fn cluster_gap() -> nat {
    1200
}

/// The releases in order, grouped into runs: a release joins the current run when it is
/// at most `cluster_gap()` seconds after the run's last release (or not after it at all).
pub open spec fn clusters(ps: Seq<u32>) -> Seq<Seq<u32>>
    decreases ps.len(),
{
    if ps.len() == 0 {
        seq![]
    } else {
        let cs = clusters(ps.drop_last());
        let p = ps.last();
        if cs.len() > 0 && sat_sub(p, cs.last().last()) <= cluster_gap() {
            cs.update(cs.len() - 1, cs.last().push(p))
        } else {
            cs.push(seq![p])
        }
    }
}

pub proof fn lemma_clusters(ps: Seq<u32>)
    ensures
        forall|i: int|
            0 <= i < clusters(ps).len() ==> 0 < #[trigger] clusters(ps)[i].len() <= ps.len(),
        forall|i: int, j: int|
            0 <= i < clusters(ps).len() && 0 <= j < clusters(ps)[i].len() ==> exists|k: int|
                0 <= k < ps.len() && #[trigger] clusters(ps)[i][j] == ps[k],
        clusters(ps).len() <= ps.len(),
    decreases ps.len(),
{
    if ps.len() > 0 {
        let pre = ps.drop_last();
        lemma_clusters(pre);
        let cs = clusters(pre);
        let p = ps.last();
        assert forall|i: int, j: int|
            0 <= i < clusters(ps).len() && 0 <= j < clusters(ps)[i].len() implies exists|k: int|
                0 <= k < ps.len() && #[trigger] clusters(ps)[i][j] == ps[k] by {
            if i < cs.len() && j < cs[i].len() {
                let k = choose|k: int| 0 <= k < pre.len() && #[trigger] cs[i][j] == pre[k];
                assert(ps[k] == pre[k]);
            } else {
                assert(clusters(ps)[i][j] == ps[ps.len() - 1]);
            }
        }
    }
}

/// Sum of the values.
pub open spec fn seq_sum(s: Seq<u32>) -> nat
    decreases s.len(),
{
    if s.len() == 0 {
        0
    } else {
        seq_sum(s.drop_last()) + s.last() as nat
    }
}

pub proof fn lemma_seq_sum_bound(s: Seq<u32>, m: u32)
    requires
        forall|i: int| 0 <= i < s.len() ==> #[trigger] s[i] <= m,
    ensures
        seq_sum(s) <= s.len() * m,
    decreases s.len(),
{
    if s.len() > 0 {
        lemma_seq_sum_bound(s.drop_last(), m);
        assert(seq_sum(s) <= (s.len() - 1) * m + m);
        assert((s.len() - 1) * m + m == s.len() * m) by (nonlinear_arith);
    }
}

/// The largest value.
pub open spec fn seq_max(s: Seq<u32>) -> u32
    decreases s.len(),
{
    if s.len() <= 1 {
        s[0]
    } else if s.last() > seq_max(s.drop_last()) {
        s.last()
    } else {
        seq_max(s.drop_last())
    }
}

/// The smallest value.
pub open spec fn seq_min(s: Seq<u32>) -> u32
    decreases s.len(),
{
    if s.len() <= 1 {
        s[0]
    } else if s.last() < seq_min(s.drop_last()) {
        s.last()
    } else {
        seq_min(s.drop_last())
    }
}

pub proof fn lemma_seq_max(s: Seq<u32>)
    requires
        s.len() > 0,
    ensures
        forall|i: int| 0 <= i < s.len() ==> #[trigger] s[i] <= seq_max(s),
        exists|i: int| 0 <= i < s.len() && #[trigger] s[i] == seq_max(s),
    decreases s.len(),
{
    if s.len() > 1 {
        lemma_seq_max(s.drop_last());
        let i = choose|i: int| 0 <= i < s.len() - 1 && #[trigger] s.drop_last()[i] == seq_max(s.drop_last());
        assert(s[i] == s.drop_last()[i]);
        if s.last() > seq_max(s.drop_last()) {
            assert(s[s.len() - 1] == seq_max(s));
        } else {
            assert(s[i] == seq_max(s));
        }
        assert forall|k: int| 0 <= k < s.len() implies #[trigger] s[k] <= seq_max(s) by {
            if k < s.len() - 1 {
                assert(s.drop_last()[k] == s[k]);
            }
        }
    } else {
        assert(s[0] == seq_max(s));
    }
}

/// The window summarising one run: its mean time, first and last release, the minutes
/// from the first release to the mean and from the mean to the last (rounded up), and
/// the number of releases.
pub open spec fn window_of(c: Seq<u32>) -> WindowV {
    let center = (seq_sum(c) / c.len()) as u32;
    WindowV {
        center_time: hhmm(center as nat),
        range_start: hhmm(c[0] as nat),
        range_end: hhmm(c.last() as nat),
        minus_minutes: ((sat_sub(center, c[0]) + 59) / 60) as u32,
        plus_minutes: ((sat_sub(c.last(), center) + 59) / 60) as u32,
        sample_count: c.len() as u32,
    }
}

/// The windows reordered by their centre text, equal centres keeping their order.
pub open spec fn by_center(ws: Seq<WindowV>) -> Seq<WindowV> {
    ascending(
        positions(ws.len() as int),
        stable_lt(ws.map_values(|w: WindowV| w.center_time)),
    ).map_values(|i: int| ws[i])
}

/// The release windows of the releases, ordered by centre time.
pub open spec fn release_windows(ps: Seq<u32>) -> Seq<WindowV> {
    by_center(clusters(ps).map_values(|c: Seq<u32>| window_of(c)))
}

/// The mean of a run, as the run's window computes it.
pub open spec fn cluster_center(c: Seq<u32>) -> u32 {
    (seq_sum(c) / c.len()) as u32
}

/// The window of a run can be computed without overflow: the sum of its releases fits in
/// 64 bits and the spreads around the mean, plus 59 for rounding up, fit in 32 bits.
pub open spec fn window_computable(c: Seq<u32>) -> bool {
    &&& seq_sum(c) <= u64::MAX
    &&& sat_sub(cluster_center(c), c[0]) + 59 <= u32::MAX
    &&& sat_sub(c.last(), cluster_center(c)) + 59 <= u32::MAX
}

proof fn lemma_seq_sum_prefix(s: Seq<u32>, k: int)
    requires
        0 <= k <= s.len(),
    ensures
        seq_sum(s.take(k)) <= seq_sum(s),
    decreases s.len(),
{
    if k < s.len() {
        assert(s.drop_last().take(k) =~= s.take(k));
        lemma_seq_sum_prefix(s.drop_last(), k);
    } else {
        assert(s.take(k) =~= s);
    }
}

/// The window of one run of releases.
fn summarize_cluster(c: &Vec<u32>) -> (r: WebReleaseWindowStat)
    requires
        c@.len() > 0,
        window_computable(c@),
    ensures
        r@ == window_of(c@),
{
    let n = c.len();
    let mut sum: u64 = 0;
    let mut k: usize = 0;
    while k < n
        invariant
            n == c@.len(),
            k <= n,
            window_computable(c@),
            sum == seq_sum(c@.take(k as int)),
        decreases n - k,
    {
        assert(c@.take(k + 1 as int).drop_last() =~= c@.take(k as int));
        proof {
            lemma_seq_sum_prefix(c@, k + 1);
        }
        sum = sum + c[k] as u64;
        k += 1;
    }
    assert(c@.take(n as int) =~= c@);
    proof {
        lemma_seq_max(c@);
        lemma_seq_sum_bound(c@, seq_max(c@));
        let m = seq_max(c@);
        assert(sum / (n as u64) <= m) by (nonlinear_arith)
            requires
                sum <= n * m,
                n > 0,
        ;
    }
    let center = (sum / (n as u64)) as u32;
    assert(center == cluster_center(c@));
    let first = c[0];
    let last = c[n - 1];
    let minus = (if center >= first {
        center - first
    } else {
        0
    } + 59) / 60;
    let plus = (if last >= center {
        last - center
    } else {
        0
    } + 59) / 60;
    WebReleaseWindowStat {
        center_time: format_hhmm(center),
        range_start: format_hhmm(first),
        range_end: format_hhmm(last),
        minus_minutes: minus,
        plus_minutes: plus,
        sample_count: n as u32,
    }
}

/// Runs of releases below a day's seconds can always be summarised.
pub proof fn lemma_day_clusters_computable(c: Seq<u32>, total: nat)
    requires
        c.len() > 0,
        c.len() <= total,
        total <= u32::MAX,
        forall|i: int| 0 <= i < c.len() ==> #[trigger] c[i] < 86400,
    ensures
        window_computable(c),
{
    lemma_seq_max(c);
    lemma_seq_sum_bound(c, seq_max(c));
    let m = seq_max(c);
    let i = choose|i: int| 0 <= i < c.len() && #[trigger] c[i] == seq_max(c);
    assert(m < 86400);
    assert(c.len() * m <= 0xffff_ffffu64 * 86400) by (nonlinear_arith)
        requires
            c.len() <= 0xffff_ffffu64,
            m < 86400,
    ;
    assert(seq_sum(c) / c.len() <= m) by (nonlinear_arith)
        requires
            seq_sum(c) <= c.len() * m,
            c.len() > 0,
    ;
    assert(c[0] < 86400);
    assert(c[c.len() - 1] < 86400);
}

/// Groups the release times (seconds past midnight, in event order) into windows of
/// releases at most twenty minutes apart, ordered by centre time.
pub fn build_release_windows(points: &[u32]) -> (r: Vec<WebReleaseWindowStat>)
    requires
        forall|i: int|
            0 <= i < clusters(points@).len() ==> window_computable(#[trigger] clusters(points@)[i]),
    ensures
        windows_v(r@) == release_windows(points@),
{
    let mut cs: Vec<Vec<u32>> = Vec::new();
    let mut i: usize = 0;
    while i < points.len()
        invariant
            i <= points@.len(),
            cs@.map_values(|c: Vec<u32>| c@) == clusters(points@.take(i as int)),
        decreases points.len() - i,
    {
        let p = points[i];
        let ghost pre = points@.take(i as int);
        assert(points@.take(i + 1 as int).drop_last() =~= pre);
        assert(points@.take(i + 1 as int).last() == p);
        proof {
            lemma_clusters(pre);
        }
        let ghost cv = clusters(pre);
        let n = cs.len();
        let joins = if n > 0 {
            assert(cs@[n - 1]@ == cv[n - 1]);
            let lc = &cs[n - 1];
            let last = lc[lc.len() - 1];
            let gap: u32 = if p >= last {
                p - last
            } else {
                0
            };
            gap <= 1200
        } else {
            false
        };
        if joins {
            let mut lc = cs.pop().unwrap();
            lc.push(p);
            cs.push(lc);
        } else {
            let mut fresh: Vec<u32> = Vec::new();
            fresh.push(p);
            cs.push(fresh);
        }
        assert(cs@.map_values(|c: Vec<u32>| c@) =~= clusters(points@.take(i + 1 as int)));
        i += 1;
    }
    assert(points@.take(points@.len() as int) =~= points@);
    let ghost cv = clusters(points@);
    proof {
        lemma_clusters(points@);
    }
    let mut ws: Vec<WebReleaseWindowStat> = Vec::new();
    let mut centers: Vec<String> = Vec::new();
    let mut j: usize = 0;
    while j < cs.len()
        invariant
            j <= cs@.len(),
            cs@.map_values(|c: Vec<u32>| c@) == cv,
            cv == clusters(points@),
            forall|i: int| 0 <= i < cv.len() ==> window_computable(#[trigger] cv[i]),
            forall|i: int| 0 <= i < cv.len() ==> 0 < #[trigger] cv[i].len() <= points@.len(),
            forall|a: int, b: int|
                0 <= a < cv.len() && 0 <= b < cv[a].len() ==> exists|k: int|
                    0 <= k < points@.len() && #[trigger] cv[a][b] == points@[k],
            ws@.len() == j,
            centers@.len() == j,
            forall|q: int| 0 <= q < j ==> #[trigger] ws@[q]@ == window_of(cv[q]),
            forall|q: int| 0 <= q < j ==> #[trigger] centers@[q]@ == window_of(cv[q]).center_time,
        decreases cs.len() - j,
    {
        assert(cs@[j as int]@ == cv[j as int]);
        let w = summarize_cluster(&cs[j]);
        centers.push(w.center_time.clone());
        ws.push(w);
        j += 1;
    }
    let ghost wv = cv.map_values(|c: Seq<u32>| window_of(c));
    assert(windows_v(ws@) =~= wv);
    assert(texts_view(centers@) =~= wv.map_values(|w: WindowV| w.center_time));
    let order = stable_text_order(centers.as_slice());
    let ghost asc = ascending(
        positions(wv.len() as int),
        stable_lt(wv.map_values(|w: WindowV| w.center_time)),
    );
    let mut out: Vec<WebReleaseWindowStat> = Vec::new();
    let mut k: usize = 0;
    while k < order.len()
        invariant
            k <= order@.len(),
            order@.len() == ws@.len(),
            forall|q: int| 0 <= q < order@.len() ==> #[trigger] order@[q] < ws@.len(),
            order@.map_values(|x: usize| x as int) == asc,
            out@.len() == k,
            forall|q: int| 0 <= q < k ==> #[trigger] out@[q]@ == ws@[order@[q] as int]@,
        decreases order.len() - k,
    {
        out.push(ws[order[k]].duplicate());
        k += 1;
    }
    assert(windows_v(out@) =~= by_center(wv)) by {
        assert forall|q: int| 0 <= q < order@.len() implies #[trigger] asc[q] == order@[q] as int by {
            assert(order@.map_values(|x: usize| x as int)[q] == order@[q] as int);
        }
    }
    out
}

/// A half-hour bucket of the day with the releases observed in it.
pub struct WebReleaseBucketStat {
    pub bucket_label: String,
    pub observed_start: String,
    pub observed_end: String,
    pub sample_count: u32,
}

pub struct BucketV {
    pub bucket_label: Seq<char>,
    pub observed_start: Seq<char>,
    pub observed_end: Seq<char>,
    pub sample_count: u32,
}

impl View for WebReleaseBucketStat {
    type V = BucketV;

    open spec fn view(&self) -> BucketV {
        BucketV {
            bucket_label: self.bucket_label@,
            observed_start: self.observed_start@,
            observed_end: self.observed_end@,
            sample_count: self.sample_count,
        }
    }
}

pub open spec fn buckets_v(bs: Seq<WebReleaseBucketStat>) -> Seq<BucketV> {
    bs.map_values(|b: WebReleaseBucketStat| b@)
}

pub open spec fn ult() -> spec_fn(u32, u32) -> bool {
    |a: u32, b: u32| a < b
}

/// The releases of bucket `k`, in order.
pub open spec fn bucket_values(ps: Seq<u32>, k: u32) -> Seq<u32> {
    ps.filter(|p: u32| p / 1800 == k)
}

/// The buckets that hold releases, ascending.
pub open spec fn bucket_keys(ps: Seq<u32>) -> Seq<u32> {
    ascending(ps.map_values(|p: u32| p / 1800).to_set(), ult())
}

/// The bucket `k`: its label `HH:MM-HH:MM` (the last one ending at `24:00`), its first and
/// last observed release times, and the number of releases in it.
pub open spec fn bucket_of(k: u32, vs: Seq<u32>) -> BucketV {
    let start = k * 1800;
    let end = if (k + 1) * 1800 < 86400 {
        (k + 1) * 1800
    } else {
        86400
    };
    BucketV {
        bucket_label: hhmm(start as nat) + seq!['-'] + hhmm_edge(end as nat),
        observed_start: hhmm(seq_min(vs) as nat),
        observed_end: hhmm(seq_max(vs) as nat),
        sample_count: vs.len() as u32,
    }
}

pub open spec fn release_buckets(ps: Seq<u32>) -> Seq<BucketV> {
    bucket_keys(ps).map_values(|k: u32| bucket_of(k, bucket_values(ps, k)))
}

pub proof fn lemma_ult()
    ensures
        strict_total(ult()),
{
}

pub proof fn lemma_seq_min(s: Seq<u32>)
    requires
        s.len() > 0,
    ensures
        forall|i: int| 0 <= i < s.len() ==> #[trigger] s[i] >= seq_min(s),
        exists|i: int| 0 <= i < s.len() && #[trigger] s[i] == seq_min(s),
    decreases s.len(),
{
    if s.len() > 1 {
        lemma_seq_min(s.drop_last());
        let i = choose|i: int| 0 <= i < s.len() - 1 && #[trigger] s.drop_last()[i] == seq_min(s.drop_last());
        assert(s[i] == s.drop_last()[i]);
        if s.last() < seq_min(s.drop_last()) {
            assert(s[s.len() - 1] == seq_min(s));
        } else {
            assert(s[i] == seq_min(s));
        }
        assert forall|k: int| 0 <= k < s.len() implies #[trigger] s[k] >= seq_min(s) by {
            if k < s.len() - 1 {
                assert(s.drop_last()[k] == s[k]);
            }
        }
    } else {
        assert(s[0] == seq_min(s));
    }
}

/// Adds `x` to a strictly increasing list, unless it is already there.
fn insert_u32(v: &mut Vec<u32>, x: u32)
    requires
        strictly_sorted(old(v)@, ult()),
    ensures
        strictly_sorted(final(v)@, ult()),
        final(v)@.to_set() == old(v)@.to_set().insert(x),
{
    let ghost ov = v@;
    let mut i: usize = 0;
    while i < v.len()
        invariant
            i <= v@.len(),
            v@ == ov,
            strictly_sorted(ov, ult()),
            forall|j: int| 0 <= j < i ==> #[trigger] ov[j] < x,
        ensures
            i <= v@.len(),
            v@ == ov,
            forall|j: int| 0 <= j < i ==> #[trigger] ov[j] < x,
            i == v@.len() || ov[i as int] > x,
        decreases v.len() - i,
    {
        if v[i] == x {
            assert(ov.to_set().insert(x) =~= ov.to_set()) by {
                assert(ov[i as int] == x);
            }
            return;
        }
        if v[i] > x {
            break;
        }
        i += 1;
    }
    v.insert(i, x);
    assert(v@ =~= ov.insert(i as int, x));
    assert forall|a: int, b: int| 0 <= a < b < v@.len() implies #[trigger] ult()(v@[a], v@[b]) by {
        if b < i {
            assert(ult()(ov[a], ov[b]));
        } else if a < i && b == i {
        } else if a < i && b > i {
            assert(ult()(ov[a], ov[b - 1]));
        } else if a == i {
            assert(i < ov.len());
            assert(ov[i as int] > x);
            if b - 1 > i {
                assert(ult()(ov[i as int], ov[b - 1]));
            }
        } else {
            assert(ult()(ov[a - 1], ov[b - 1]));
        }
    }
    assert(v@.to_set() =~= ov.to_set().insert(x)) by {
        assert forall|y: u32| v@.to_set().contains(y) <==> ov.to_set().insert(x).contains(y) by {
            if v@.contains(y) {
                let j = choose|j: int| 0 <= j < v@.len() && v@[j] == y;
                if j < i {
                    assert(ov[j] == y);
                } else if j > i {
                    assert(ov[j - 1] == y);
                }
            }
            if ov.contains(y) {
                let j = choose|j: int| 0 <= j < ov.len() && ov[j] == y;
                if j < i {
                    assert(v@[j] == y);
                } else {
                    assert(v@[j + 1] == y);
                }
            }
            if y == x {
                assert(v@[i as int] == y);
            }
        }
    }
}

/// Counts the releases (seconds past midnight) per half-hour bucket of the day, for the
/// buckets that have any, in ascending order.
pub fn build_release_buckets(points: &[u32]) -> (r: Vec<WebReleaseBucketStat>)
    requires
        forall|i: int| 0 <= i < points@.len() ==> (#[trigger] points@[i] / 1800 + 1) * 1800 <= u32::MAX,
    ensures
        buckets_v(r@) == release_buckets(points@),
{
    proof {
        lemma_ult();
    }
    let ghost kv = points@.map_values(|p: u32| p / 1800);
    let mut keys: Vec<u32> = Vec::new();
    let mut i: usize = 0;
    while i < points.len()
        invariant
            i <= points@.len(),
            kv == points@.map_values(|p: u32| p / 1800),
            strictly_sorted(keys@, ult()),
            keys@.to_set() == kv.take(i as int).to_set(),
        decreases points.len() - i,
    {
        insert_u32(&mut keys, points[i] / 1800);
        proof {
            let pre = kv.take(i as int);
            assert(kv.take(i + 1 as int) =~= pre.push(kv[i as int]));
            pre.lemma_push_to_set_commute(kv[i as int]);
        }
        i += 1;
    }
    assert(kv.take(points@.len() as int) =~= kv);
    proof {
        lemma_ascending_unique(keys@, ult());
    }
    let mut out: Vec<WebReleaseBucketStat> = Vec::new();
    let mut j: usize = 0;
    while j < keys.len()
        invariant
            j <= keys@.len(),
            kv == points@.map_values(|p: u32| p / 1800),
            keys@ == bucket_keys(points@),
            keys@.to_set() == kv.to_set(),
            forall|q: int| 0 <= q < points@.len() ==> (#[trigger] points@[q] / 1800 + 1) * 1800 <= u32::MAX,
            out@.len() == j,
            forall|q: int| 0 <= q < j ==> #[trigger] out@[q]@ == bucket_of(
                keys@[q],
                bucket_values(points@, keys@[q]),
            ),
        decreases keys.len() - j,
    {
        let k = keys[j];
        let ghost vs = bucket_values(points@, k);
        proof {
            assert(keys@.to_set().contains(k));
            assert(kv.to_set().contains(k));
            let w = choose|w: int| 0 <= w < kv.len() && kv[w] == k;
            assert(points@[w] / 1800 == k);
        }
        let mut count: usize = 0;
        let mut lo: u32 = 0;
        let mut hi: u32 = 0;
        let mut m: usize = 0;
        while m < points.len()
            invariant
                m <= points@.len(),
                vs == bucket_values(points@, k),
                count == points@.take(m as int).filter(|p: u32| p / 1800 == k).len(),
                count > 0 ==> lo == seq_min(points@.take(m as int).filter(|p: u32| p / 1800 == k)),
                count > 0 ==> hi == seq_max(points@.take(m as int).filter(|p: u32| p / 1800 == k)),
            decreases points.len() - m,
        {
            let p = points[m];
            let ghost pre = points@.take(m as int).filter(|p: u32| p / 1800 == k);
            proof {
                assert(points@.take(m + 1 as int) =~= points@.take(m as int).push(p));
                points@.take(m as int).lemma_filter_push(p, |p: u32| p / 1800 == k);
            }
            if p / 1800 == k {
                let ghost post = pre.push(p);
                assert(post.drop_last() =~= pre);
                if count == 0 {
                    lo = p;
                    hi = p;
                    assert(post =~= seq![p]);
                } else {
                    if p < lo {
                        lo = p;
                    }
                    if p > hi {
                        hi = p;
                    }
                }
                proof {
                    assert(pre.len() == count);
                }
                count = count + 1;
            }
            m += 1;
        }
        assert(points@.take(points@.len() as int) =~= points@);
        proof {
            let w = choose|w: int| 0 <= w < kv.len() && kv[w] == k;
            assert(points@[w] / 1800 == k);
            points@.lemma_filter_contains_rev(|p: u32| p / 1800 == k, points@[w]);
            assert(points@.contains(points@[w]));
        }
        assert(count == vs.len());
        assert(vs.contains(points@[choose|w: int| 0 <= w < kv.len() && kv[w] == k]));
        assert(count > 0);
        assert(lo == seq_min(vs));
        assert(hi == seq_max(vs));
        let start: u32 = k * 1800;
        let next: u32 = (k + 1) * 1800;
        let end: u32 = if next < 86400 {
            next
        } else {
            86400
        };
        let mut label = format_hhmm(start);
        push_char(&mut label, '-');
        let tail = format_hhmm_edge(end);
        label.append(tail.as_str());
        let b = WebReleaseBucketStat {
            bucket_label: label,
            observed_start: format_hhmm(lo),
            observed_end: format_hhmm(hi),
            sample_count: count as u32,
        };
        assert(b@.bucket_label == bucket_of(k, vs).bucket_label);
        assert(b@ == bucket_of(k, vs));
        out.push(b);
        j += 1;
    }
    assert(buckets_v(out@) =~= release_buckets(points@));
    out
}

/// `a` ranks before `b`: more releases, then the earlier centre.
pub open spec fn window_before(a: WindowV, b: WindowV) -> bool {
    a.sample_count > b.sample_count || (a.sample_count == b.sample_count && text_lt(
        a.center_time,
        b.center_time,
    ))
}

/// Order on positions of a list of windows: by rank, equal ranks keeping their order.
pub open spec fn rank_lt(ws: Seq<WindowV>) -> spec_fn(int, int) -> bool {
    |i: int, j: int| window_before(ws[i], ws[j]) || (!window_before(ws[j], ws[i]) && i < j)
}

/// The `limit` best-ranked windows, best first (a stable sort, then a cut).
pub open spec fn ranked_windows(ws: Seq<WindowV>, limit: nat) -> Seq<WindowV> {
    let all = ascending(positions(ws.len() as int), rank_lt(ws)).map_values(|i: int| ws[i]);
    if limit < all.len() {
        all.take(limit as int)
    } else {
        all
    }
}

pub proof fn lemma_rank_order(ws: Seq<WindowV>)
    ensures
        strict_total(rank_lt(ws)),
{
    lemma_text_order();
    let l = rank_lt(ws);
    assert forall|x: int| !#[trigger] l(x, x) by {
        assert(!text_lt(ws[x].center_time, ws[x].center_time));
    }
    assert forall|x: int, y: int, z: int| #[trigger] l(x, y) && #[trigger] l(y, z) implies l(x, z) by {
        let a = ws[x];
        let b = ws[y];
        let c = ws[z];
        if text_lt(a.center_time, b.center_time) && text_lt(b.center_time, c.center_time) {
            assert(text_lt(a.center_time, c.center_time));
        }
        if a.center_time != c.center_time && a.sample_count == c.sample_count {
            assert(text_lt(a.center_time, c.center_time) || text_lt(c.center_time, a.center_time));
        }
        if text_lt(c.center_time, a.center_time) && text_lt(a.center_time, b.center_time) {
            assert(text_lt(c.center_time, b.center_time));
        }
        if text_lt(b.center_time, c.center_time) && text_lt(c.center_time, a.center_time) {
            assert(text_lt(b.center_time, a.center_time));
        }
        if text_lt(a.center_time, b.center_time) && text_lt(b.center_time, a.center_time) {
            assert(text_lt(a.center_time, a.center_time));
        }
        if text_lt(b.center_time, c.center_time) && text_lt(c.center_time, b.center_time) {
            assert(text_lt(b.center_time, b.center_time));
        }
    }
    assert forall|x: int, y: int| x != y implies #[trigger] l(x, y) || #[trigger] l(y, x) by {
        if ws[x].center_time != ws[y].center_time {
            assert(text_lt(ws[x].center_time, ws[y].center_time) || text_lt(
                ws[y].center_time,
                ws[x].center_time,
            ));
        }
    }
}

fn window_ranks_before(a: &WebReleaseWindowStat, b: &WebReleaseWindowStat) -> (r: bool)
    ensures
        r == window_before(a@, b@),
{
    if a.sample_count > b.sample_count {
        true
    } else if a.sample_count == b.sample_count {
        match compare_text(a.center_time.as_str(), b.center_time.as_str()) {
            Order::Less => true,
            _ => false,
        }
    } else {
        false
    }
}

/// The `limit` windows with the most releases, best first; among equal counts the
/// earlier centre first, then the earlier position.
pub fn rank_release_windows(windows: &[WebReleaseWindowStat], limit: usize) -> (r: Vec<
    WebReleaseWindowStat,
>)
    ensures
        windows_v(r@) == ranked_windows(windows_v(windows@), limit as nat),
{
    let ghost wv = windows_v(windows@);
    let ghost l = rank_lt(wv);
    proof {
        lemma_rank_order(wv);
    }
    let mut r: Vec<usize> = Vec::new();
    let mut n: usize = 0;
    while n < windows.len()
        invariant
            n <= windows@.len(),
            wv == windows_v(windows@),
            l == rank_lt(wv),
            strict_total(l),
            r@.len() == n,
            forall|i: int| 0 <= i < r@.len() ==> #[trigger] r@[i] < n,
            strictly_sorted(r@.map_values(|i: usize| i as int), l),
            r@.map_values(|i: usize| i as int).to_set() == positions(n as int),
        decreases windows.len() - n,
    {
        let ghost rv = r@.map_values(|i: usize| i as int);
        let mut p: usize = r.len();
        while p > 0
            invariant
                p <= r@.len(),
                n < windows@.len(),
                rv == r@.map_values(|i: usize| i as int),
                wv == windows_v(windows@),
                l == rank_lt(wv),
                forall|i: int| 0 <= i < r@.len() ==> #[trigger] r@[i] < n,
                forall|j: int| p <= j < r@.len() ==> #[trigger] l(n as int, rv[j]),
            ensures
                p <= r@.len(),
                forall|j: int| p <= j < r@.len() ==> #[trigger] l(n as int, rv[j]),
                p == 0 || l(rv[p - 1], n as int),
            decreases p,
        {
            let b = window_ranks_before(&windows[n], &windows[r[p - 1]]);
            assert(wv[n as int] == windows@[n as int]@);
            assert(wv[r@[p - 1] as int] == windows@[r@[p - 1] as int]@);
            assert(rv[p - 1] == r@[p - 1] as int);
            if !b {
                assert(r@[p - 1] < n);
                assert(l(rv[p - 1], n as int));
                break;
            }
            assert(l(n as int, rv[p - 1]));
            p -= 1;
        }
        let ghost old_rv = rv;
        r.insert(p, n);
        proof {
            let nv = r@.map_values(|i: usize| i as int);
            assert(nv =~= old_rv.insert(p as int, n as int));
            assert forall|a: int, b: int| 0 <= a < b < nv.len() implies #[trigger] l(
                nv[a],
                nv[b],
            ) by {
                if b < p {
                } else if a < p && b == p {
                    assert(l(old_rv[a], old_rv[p - 1]) || a == p - 1);
                    assert(l(old_rv[p - 1], n as int));
                } else if a < p && b > p {
                } else if a == p {
                    assert(l(n as int, old_rv[b - 1]));
                } else {
                }
            }
            assert forall|x: int| nv.to_set().contains(x) <==> positions(n + 1 as int).contains(x) by {
                if nv.contains(x) {
                    let j = choose|j: int| 0 <= j < nv.len() && nv[j] == x;
                    if j < p {
                        assert(old_rv[j] == x);
                        assert(old_rv.to_set().contains(x));
                    } else if j > p {
                        assert(old_rv[j - 1] == x);
                        assert(old_rv.to_set().contains(x));
                    }
                }
                if 0 <= x < n {
                    assert(old_rv.to_set().contains(x));
                    let j = choose|j: int| 0 <= j < old_rv.len() && old_rv[j] == x;
                    if j < p {
                        assert(nv[j] == x);
                    } else {
                        assert(nv[j + 1] == x);
                    }
                }
                if x == n {
                    assert(nv[p as int] == x);
                }
            }
            assert(nv.to_set() =~= positions(n + 1 as int));
        }
        n += 1;
    }
    proof {
        lemma_ascending_unique(r@.map_values(|i: usize| i as int), l);
    }
    let ghost asc = ascending(positions(wv.len() as int), l);
    let count: usize = if limit < r.len() {
        limit
    } else {
        r.len()
    };
    let mut out: Vec<WebReleaseWindowStat> = Vec::new();
    let mut k: usize = 0;
    while k < count
        invariant
            k <= count <= r@.len(),
            r@.len() == windows@.len(),
            forall|q: int| 0 <= q < r@.len() ==> #[trigger] r@[q] < windows@.len(),
            r@.map_values(|x: usize| x as int) == asc,
            out@.len() == k,
            forall|q: int| 0 <= q < k ==> #[trigger] out@[q]@ == windows@[r@[q] as int]@,
        decreases count - k,
    {
        out.push(windows[r[k]].duplicate());
        k += 1;
    }
    assert(windows_v(out@) =~= ranked_windows(wv, limit as nat)) by {
        assert forall|q: int| 0 <= q < r@.len() implies #[trigger] asc[q] == r@[q] as int by {
            assert(r@.map_values(|x: usize| x as int)[q] == r@[q] as int);
        }
    }
    out
}

} // verus!
