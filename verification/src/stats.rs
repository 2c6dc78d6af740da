use vstd::prelude::*;

verus! {

// ---------------------------------------------------------------------------
// Frame-time histograms
//
// Each frame time falls into a bin, named by an integer key. One run gives
// the number of frames per bin; the runs of a group give, per bin, how many
// runs have frames in it and the least, greatest and total count.
// ---------------------------------------------------------------------------

/// The frames of one run in one bin.
#[derive(Clone, Copy)]
pub struct BinCount {
    pub bin: i64,
    pub count: usize,
}

/// How often `k` occurs in `s`.
pub open spec fn occurrences(s: Seq<i64>, k: i64) -> nat
    decreases s.len(),
{
    if s.len() == 0 {
        0
    } else {
        occurrences(s.drop_last(), k) + if s.last() == k {
            1nat
        } else {
            0nat
        }
    }
}

/// The bins rise strictly along `v`.
pub open spec fn bins_ascending(v: Seq<BinCount>) -> bool {
    forall|i: int, j: int| 0 <= i < j < v.len() ==> v[i].bin < v[j].bin
}

/// `v` is the histogram of `keys`: a bin for each key that occurs, in
/// ascending order, with the number of its occurrences.
pub open spec fn is_histogram(v: Seq<BinCount>, keys: Seq<i64>) -> bool {
    &&& bins_ascending(v)
    &&& forall|i: int| 0 <= i < v.len() ==> v[i].count == occurrences(keys, #[trigger] v[i].bin)
    &&& forall|k: i64| occurrences(keys, k) > 0 ==> exists|i: int| 0 <= i < v.len() && v[i].bin == k
}

/// The frames counted in a histogram.
pub open spec fn total_count(v: Seq<BinCount>) -> nat
    decreases v.len(),
{
    if v.len() == 0 {
        0
    } else {
        total_count(v.drop_last()) + v.last().count as nat
    }
}

/// Changing one entry changes the total by the difference of the counts.
proof fn lemma_total_update(v: Seq<BinCount>, p: int, x: BinCount)
    requires
        0 <= p < v.len(),
    ensures
        total_count(v.update(p, x)) + v[p].count == total_count(v) + x.count,
    decreases v.len(),
{
    if p < v.len() - 1 {
        lemma_total_update(v.drop_last(), p, x);
        assert(v.update(p, x).drop_last() =~= v.drop_last().update(p, x));
    } else {
        assert(v.update(p, x).drop_last() =~= v.drop_last());
    }
}

/// Inserting an entry adds its count to the total.
proof fn lemma_total_insert(v: Seq<BinCount>, p: int, x: BinCount)
    requires
        0 <= p <= v.len(),
    ensures
        total_count(v.insert(p, x)) == total_count(v) + x.count,
    decreases v.len(),
{
    if p < v.len() {
        lemma_total_insert(v.drop_last(), p, x);
        assert(v.insert(p, x).drop_last() =~= v.drop_last().insert(p, x));
        assert(v.insert(p, x).last() == v.last());
    } else {
        assert(v.insert(p, x).drop_last() =~= v);
    }
}

/// Nothing occurs in an empty list, and a key occurs at most as often as
/// the list is long.
proof fn lemma_occurrences_bound(s: Seq<i64>, k: i64)
    ensures
        occurrences(s, k) <= s.len(),
    decreases s.len(),
{
    if s.len() > 0 {
        lemma_occurrences_bound(s.drop_last(), k);
    }
}

/// The number of frames per bin of one run, in ascending order of the bins
/// (a `BTreeMap<i64, usize>` of counts).
pub struct Histogram {
    bins: Vec<BinCount>,
}

impl View for Histogram {
    type V = Seq<BinCount>;

    closed spec fn view(&self) -> Seq<BinCount> {
        self.bins@
    }
}

impl Histogram {
    /// Each bin occurs once, in ascending order.
    #[verifier::type_invariant]
    spec fn ascending(self) -> bool {
        bins_ascending(self.bins@)
    }

    /// The bins with their counts, in ascending order.
    pub fn counts(&self) -> (r: Vec<BinCount>)
        ensures
            r@ == self@,
    {
        self.bins.clone()
    }
}

/// The histogram of one run's bin keys.
pub fn count_bins(keys: &Vec<i64>) -> (h: Histogram)
    ensures
        is_histogram(h@, keys@),
        forall|i: int| 0 <= i < h@.len() ==> h@[i].count > 0,
        total_count(h@) == keys@.len(),
{
    let r = count_bin_list(keys);
    Histogram { bins: r }
}

/// The bins of `keys` with their counts, in ascending order.
fn count_bin_list(keys: &Vec<i64>) -> (r: Vec<BinCount>)
    ensures
        is_histogram(r@, keys@),
        forall|i: int| 0 <= i < r@.len() ==> r@[i].count > 0,
        total_count(r@) == keys@.len(),
{
    let mut r: Vec<BinCount> = Vec::new();
    let mut n: usize = 0;
    while n < keys.len()
        invariant
            n <= keys.len(),
            is_histogram(r@, keys@.take(n as int)),
            forall|i: int| 0 <= i < r@.len() ==> r@[i].count > 0,
            total_count(r@) == n,
        decreases keys.len() - n,
    {
        let k = keys[n];
        let ghost before = keys@.take(n as int);
        let ghost after = keys@.take(n + 1);
        assert(after.drop_last() =~= before);
        assert(after.last() == k);
        let mut p: usize = 0;
        while p < r.len() && r[p].bin < k
            invariant
                p <= r@.len(),
                forall|j: int| 0 <= j < p ==> r@[j].bin < k,
            decreases r@.len() - p,
        {
            p = p + 1;
        }
        let ghost old_r = r@;
        if p < r.len() && r[p].bin == k {
            proof {
                lemma_occurrences_bound(before, k);
            }
            let c = r[p].count;
            r.set(p, BinCount { bin: k, count: c + 1 });
            proof {
                lemma_total_update(old_r, p as int, BinCount { bin: k, count: (c + 1) as usize });
                assert forall|i: int| 0 <= i < r@.len() implies r@[i].count == occurrences(
                    after,
                    #[trigger] r@[i].bin,
                ) by {
                    if i != p {
                        assert(r@[i] == old_r[i]);
                        assert(old_r[i].bin != k);
                    }
                }
                assert forall|q: i64| occurrences(after, q) > 0 implies exists|i: int|
                    0 <= i < r@.len() && r@[i].bin == q by {
                    if q == k {
                        assert(r@[p as int].bin == q);
                    } else {
                        assert(occurrences(after, q) == occurrences(before, q));
                        let i = choose|i: int| 0 <= i < old_r.len() && old_r[i].bin == q;
                        assert(r@[i].bin == q);
                    }
                }
            }
        } else {
            proof {
                assert(occurrences(before, k) == 0) by {
                    if occurrences(before, k) > 0 {
                        let i = choose|i: int| 0 <= i < old_r.len() && old_r[i].bin == k;
                        if i < p {
                        } else if i > p {
                            assert(old_r[p as int].bin < old_r[i].bin);
                        }
                    }
                }
            }
            r.insert(p, BinCount { bin: k, count: 1 });
            proof {
                lemma_total_insert(old_r, p as int, BinCount { bin: k, count: 1 });
                assert forall|i: int, j: int| 0 <= i < j < r@.len() implies r@[i].bin < r@[j].bin by {
                    if j < p {
                        assert(r@[i] == old_r[i] && r@[j] == old_r[j]);
                    } else if j == p {
                        assert(r@[i] == old_r[i]);
                    } else if i < p {
                        assert(r@[i] == old_r[i] && r@[j] == old_r[j - 1]);
                        assert(old_r[p as int].bin >= k);
                        if j - 1 > p {
                            assert(old_r[p as int].bin < old_r[j - 1].bin);
                        }
                    } else if i == p {
                        assert(r@[j] == old_r[j - 1]);
                        assert(old_r[p as int].bin != k);
                        if j - 1 > p {
                            assert(old_r[p as int].bin < old_r[j - 1].bin);
                        }
                    } else {
                        assert(r@[i] == old_r[i - 1] && r@[j] == old_r[j - 1]);
                    }
                }
                assert forall|i: int| 0 <= i < r@.len() implies r@[i].count == occurrences(
                    after,
                    #[trigger] r@[i].bin,
                ) by {
                    if i < p {
                        assert(r@[i] == old_r[i]);
                    } else if i > p {
                        assert(r@[i] == old_r[i - 1]);
                        assert(old_r[p as int].bin != k);
                        if i - 1 > p {
                            assert(old_r[p as int].bin < old_r[i - 1].bin);
                        }
                    }
                }
                assert forall|q: i64| occurrences(after, q) > 0 implies exists|i: int|
                    0 <= i < r@.len() && r@[i].bin == q by {
                    if q == k {
                        assert(r@[p as int].bin == q);
                    } else {
                        assert(occurrences(after, q) == occurrences(before, q));
                        let i = choose|i: int| 0 <= i < old_r.len() && old_r[i].bin == q;
                        if i < p {
                            assert(r@[i].bin == q);
                        } else {
                            assert(r@[i + 1].bin == q);
                        }
                    }
                }
                assert forall|i: int| 0 <= i < r@.len() implies r@[i].count > 0 by {
                    if i < p {
                        assert(r@[i] == old_r[i]);
                    } else if i > p {
                        assert(r@[i] == old_r[i - 1]);
                    }
                }
            }
        }
        n = n + 1;
    }
    assert(keys@.take(keys.len() as int) =~= keys@);
    r
}

// ---------------------------------------------------------------------------
// Bins over the runs of a group
// ---------------------------------------------------------------------------

/// One bin over the runs of a group: how many runs have frames in it, and
/// the total, least and greatest count of those runs.
#[derive(Clone, Copy)]
pub struct BinStats {
    pub bin: i64,
    pub runs: usize,
    pub total: u128,
    pub min: usize,
    pub max: usize,
}

/// The count of bin `k` in one run's list, if the bin is there.
pub open spec fn run_count(run: Seq<BinCount>, k: i64) -> Option<usize>
    decreases run.len(),
{
    if run.len() == 0 {
        None
    } else if run.last().bin == k {
        Some(run.last().count)
    } else {
        run_count(run.drop_last(), k)
    }
}

/// The number of runs that have frames in bin `k`.
pub open spec fn runs_with(runs: Seq<Seq<BinCount>>, k: i64) -> nat
    decreases runs.len(),
{
    if runs.len() == 0 {
        0
    } else {
        runs_with(runs.drop_last(), k) + if run_count(runs.last(), k) is Some {
            1nat
        } else {
            0nat
        }
    }
}

/// The frames in bin `k` over all runs.
pub open spec fn total_of(runs: Seq<Seq<BinCount>>, k: i64) -> nat
    decreases runs.len(),
{
    if runs.len() == 0 {
        0
    } else {
        total_of(runs.drop_last(), k) + match run_count(runs.last(), k) {
            Some(c) => c as nat,
            None => 0nat,
        }
    }
}

/// The least count of bin `k` over the runs that have it.
pub open spec fn min_of(runs: Seq<Seq<BinCount>>, k: i64) -> Option<usize>
    decreases runs.len(),
{
    if runs.len() == 0 {
        None
    } else {
        let m = min_of(runs.drop_last(), k);
        match run_count(runs.last(), k) {
            None => m,
            Some(c) => match m {
                None => Some(c),
                Some(x) => Some(if c < x { c } else { x }),
            },
        }
    }
}

/// The greatest count of bin `k` over the runs that have it.
pub open spec fn max_of(runs: Seq<Seq<BinCount>>, k: i64) -> Option<usize>
    decreases runs.len(),
{
    if runs.len() == 0 {
        None
    } else {
        let m = max_of(runs.drop_last(), k);
        match run_count(runs.last(), k) {
            None => m,
            Some(c) => match m {
                None => Some(c),
                Some(x) => Some(if c > x { c } else { x }),
            },
        }
    }
}

/// The lists of the histograms.
pub open spec fn histograms_view(runs: Seq<Histogram>) -> Seq<Seq<BinCount>> {
    runs.map_values(|h: Histogram| h@)
}

/// `v` holds, in ascending order, one entry per bin that some run has, with
/// the number of runs that have it and their total, least and greatest
/// count.
pub open spec fn is_aggregate(v: Seq<BinStats>, runs: Seq<Seq<BinCount>>) -> bool {
    &&& forall|i: int, j: int| 0 <= i < j < v.len() ==> v[i].bin < v[j].bin
    &&& forall|i: int|
        0 <= i < v.len() ==> {
            &&& v[i].runs == runs_with(runs, #[trigger] v[i].bin)
            &&& v[i].total == total_of(runs, v[i].bin)
            &&& min_of(runs, v[i].bin) == Some(v[i].min)
            &&& max_of(runs, v[i].bin) == Some(v[i].max)
        }
    &&& forall|k: i64| runs_with(runs, k) > 0 ==> exists|i: int| 0 <= i < v.len() && v[i].bin == k
}

/// A bin that no entry names is not in the list.
proof fn lemma_run_count_none(p: Seq<BinCount>, k: i64)
    requires
        forall|i: int| 0 <= i < p.len() ==> p[i].bin != k,
    ensures
        run_count(p, k) is None,
    decreases p.len(),
{
    if p.len() > 0 {
        lemma_run_count_none(p.drop_last(), k);
    }
}

/// A bin is in no run exactly when it has no least and no greatest count;
/// it is in at most all runs; its total is at most the largest count times
/// the number of runs.
proof fn lemma_aggregate_facts(s: Seq<Seq<BinCount>>, k: i64)
    ensures
        (runs_with(s, k) == 0) == (min_of(s, k) is None),
        (runs_with(s, k) == 0) == (max_of(s, k) is None),
        runs_with(s, k) == 0 ==> total_of(s, k) == 0,
        runs_with(s, k) <= s.len(),
        total_of(s, k) <= s.len() * (usize::MAX as nat),
    decreases s.len(),
{
    if s.len() > 0 {
        lemma_aggregate_facts(s.drop_last(), k);
        let n = s.len() - 1;
        let m = usize::MAX as nat;
        assert((n + 1) * m == n * m + m) by (nonlinear_arith);
    }
}

/// What adding the next entry of a run changes: only its own bin, by one
/// more run with that count.
proof fn lemma_push_entry(s: Seq<Seq<BinCount>>, p: Seq<BinCount>, e: BinCount, k: i64)
    requires
        run_count(p, e.bin) is None,
    ensures
        k != e.bin ==> {
            &&& runs_with(s.push(p.push(e)), k) == runs_with(s.push(p), k)
            &&& total_of(s.push(p.push(e)), k) == total_of(s.push(p), k)
            &&& min_of(s.push(p.push(e)), k) == min_of(s.push(p), k)
            &&& max_of(s.push(p.push(e)), k) == max_of(s.push(p), k)
        },
        k == e.bin ==> {
            &&& runs_with(s.push(p), k) == runs_with(s, k)
            &&& total_of(s.push(p), k) == total_of(s, k)
            &&& min_of(s.push(p), k) == min_of(s, k)
            &&& max_of(s.push(p), k) == max_of(s, k)
            &&& runs_with(s.push(p.push(e)), k) == runs_with(s, k) + 1
            &&& total_of(s.push(p.push(e)), k) == total_of(s, k) + e.count
            &&& min_of(s.push(p.push(e)), k) == match min_of(s, k) {
                None => Some(e.count),
                Some(x) => Some(if e.count < x { e.count } else { x }),
            }
            &&& max_of(s.push(p.push(e)), k) == match max_of(s, k) {
                None => Some(e.count),
                Some(x) => Some(if e.count > x { e.count } else { x }),
            }
        },
{
    assert(s.push(p).drop_last() =~= s);
    assert(s.push(p.push(e)).drop_last() =~= s);
    assert(p.push(e).drop_last() =~= p);
}

/// A run with no entries changes nothing.
proof fn lemma_push_empty(s: Seq<Seq<BinCount>>, k: i64)
    ensures
        runs_with(s.push(seq![]), k) == runs_with(s, k),
        total_of(s.push(seq![]), k) == total_of(s, k),
        min_of(s.push(seq![]), k) == min_of(s, k),
        max_of(s.push(seq![]), k) == max_of(s, k),
{
    assert(s.push(seq![]).drop_last() =~= s);
}

/// The bins of the runs of a group, with the number of runs that have each
/// and their total, least and greatest count (`aggregate_distribution_by_bins`
/// without its floating-point mean, which is `total / runs`).
pub fn aggregate_bins(runs: &Vec<Histogram>) -> (r: Vec<BinStats>)
    ensures
        is_aggregate(r@, histograms_view(runs@)),
        forall|i: int| 0 <= i < r@.len() ==> r@[i].runs > 0,
{
    let ghost all = histograms_view(runs@);
    let mut r: Vec<BinStats> = Vec::new();
    let mut n: usize = 0;
    while n < runs.len()
        invariant
            n <= runs.len(),
            all == histograms_view(runs@),
            is_aggregate(r@, all.take(n as int)),
            forall|i: int| 0 <= i < r@.len() ==> r@[i].runs > 0,
        decreases runs.len() - n,
    {
        let run = &runs[n];
        proof {
            use_type_invariant(run);
        }
        let counts = run.counts();
        let ghost s = all.take(n as int);
        assert(bins_ascending(counts@));
        assert(all.take(n + 1) =~= s.push(counts@));
        proof {
            assert forall|k: i64| #![trigger runs_with(s.push(seq![]), k)]
                runs_with(s.push(seq![]), k) == runs_with(s, k) by {
                lemma_push_empty(s, k);
            }
            assert(counts@.take(0) =~= Seq::<BinCount>::empty());
            assert forall|k: i64| #![trigger runs_with(s.push(counts@.take(0)), k)]
                runs_with(s.push(counts@.take(0)), k) == runs_with(s, k) && total_of(
                    s.push(counts@.take(0)),
                    k,
                ) == total_of(s, k) && min_of(s.push(counts@.take(0)), k) == min_of(s, k)
                    && max_of(s.push(counts@.take(0)), k) == max_of(s, k) by {
                lemma_push_empty(s, k);
            }
        }
        let mut j: usize = 0;
        while j < counts.len()
            invariant
                n < runs.len(),
                all == histograms_view(runs@),
                s == all.take(n as int),
                counts@ == all[n as int],
                bins_ascending(counts@),
                j <= counts.len(),
                is_aggregate(r@, s.push(counts@.take(j as int))),
                forall|i: int| 0 <= i < r@.len() ==> r@[i].runs > 0,
            decreases counts.len() - j,
        {
            let e = counts[j];
            let ghost p = counts@.take(j as int);
            let ghost before = s.push(p);
            let ghost after = s.push(p.push(e));
            assert(counts@.take(j + 1) =~= p.push(e));
            proof {
                assert forall|i: int| 0 <= i < p.len() implies p[i].bin != e.bin by {
                    assert(p[i] == counts@[i]);
                }
                lemma_run_count_none(p, e.bin);
                lemma_aggregate_facts(s, e.bin);
                lemma_push_entry(s, p, e, e.bin);
                assert forall|k: i64| k != e.bin implies #[trigger] runs_with(after, k) == runs_with(
                    before,
                    k,
                ) && total_of(after, k) == total_of(before, k) && min_of(after, k) == min_of(
                    before,
                    k,
                ) && max_of(after, k) == max_of(before, k) by {
                    lemma_push_entry(s, p, e, k);
                }
            }
            let mut q: usize = 0;
            while q < r.len() && r[q].bin < e.bin
                invariant
                    q <= r@.len(),
                    forall|t: int| 0 <= t < q ==> r@[t].bin < e.bin,
                decreases r@.len() - q,
            {
                q = q + 1;
            }
            let ghost old_r = r@;
            if q < r.len() && r[q].bin == e.bin {
                let old = r[q];
                proof {
                    assert(old.runs == runs_with(s, e.bin));
                    assert(runs_with(s, e.bin) <= s.len());
                    assert(s.len() == n);
                    let m = usize::MAX as nat;
                    assert(total_of(s, e.bin) <= n * m);
                    assert((n + 1) * m <= m * m) by (nonlinear_arith)
                        requires
                            n + 1 <= m,
                    ;
                    assert(m * m < 0x1_0000_0000_0000_0000_0000_0000_0000_0000) by (nonlinear_arith)
                        requires
                            m <= 0xffff_ffff_ffff_ffff,
                    ;
                    assert(n * m + m == (n + 1) * m) by (nonlinear_arith);
                }
                let new_min = if e.count < old.min {
                    e.count
                } else {
                    old.min
                };
                let new_max = if e.count > old.max {
                    e.count
                } else {
                    old.max
                };
                r.set(
                    q,
                    BinStats {
                        bin: e.bin,
                        runs: old.runs + 1,
                        total: old.total + e.count as u128,
                        min: new_min,
                        max: new_max,
                    },
                );
                proof {
                    assert forall|i: int| 0 <= i < r@.len() implies {
                        &&& r@[i].runs == runs_with(after, #[trigger] r@[i].bin)
                        &&& r@[i].total == total_of(after, r@[i].bin)
                        &&& min_of(after, r@[i].bin) == Some(r@[i].min)
                        &&& max_of(after, r@[i].bin) == Some(r@[i].max)
                    } by {
                        if i != q {
                            assert(r@[i] == old_r[i]);
                            assert(old_r[i].bin != e.bin);
                            assert(runs_with(after, old_r[i].bin) == runs_with(before, old_r[i].bin));
                        } else {
                            assert(old == old_r[q as int]);
                            assert(old.runs == runs_with(before, e.bin));
                            assert(runs_with(before, e.bin) == runs_with(s, e.bin));
                            assert(runs_with(after, e.bin) == runs_with(s, e.bin) + 1);
                            assert(total_of(before, e.bin) == total_of(s, e.bin));
                            assert(min_of(before, e.bin) == min_of(s, e.bin));
                            assert(max_of(before, e.bin) == max_of(s, e.bin));
                        }
                    }
                    assert forall|k: i64| runs_with(after, k) > 0 implies exists|i: int|
                        0 <= i < r@.len() && r@[i].bin == k by {
                        if k == e.bin {
                            assert(r@[q as int].bin == k);
                        } else {
                            assert(runs_with(before, k) > 0);
                            let i = choose|i: int| 0 <= i < old_r.len() && old_r[i].bin == k;
                            assert(r@[i].bin == k);
                        }
                    }
                    assert forall|i: int, t: int| 0 <= i < t < r@.len() implies r@[i].bin < r@[t].bin by {
                        assert(r@[i].bin == old_r[i].bin);
                        assert(r@[t].bin == old_r[t].bin);
                    }
                }
            } else {
                proof {
                    assert(runs_with(s, e.bin) == 0) by {
                        if runs_with(before, e.bin) > 0 {
                            let i = choose|i: int| 0 <= i < old_r.len() && old_r[i].bin == e.bin;
                            if i > q {
                                assert(old_r[q as int].bin < old_r[i].bin);
                            }
                        }
                    }
                }
                r.insert(
                    q,
                    BinStats { bin: e.bin, runs: 1, total: e.count as u128, min: e.count, max: e.count },
                );
                proof {
                    assert forall|i: int, t: int| 0 <= i < t < r@.len() implies r@[i].bin < r@[t].bin by {
                        if t < q {
                            assert(r@[i] == old_r[i] && r@[t] == old_r[t]);
                        } else if t == q {
                            assert(r@[i] == old_r[i]);
                        } else if i < q {
                            assert(r@[i] == old_r[i] && r@[t] == old_r[t - 1]);
                            if t - 1 > q {
                                assert(old_r[q as int].bin < old_r[t - 1].bin);
                            }
                        } else if i == q {
                            assert(r@[t] == old_r[t - 1]);
                            if t - 1 > q {
                                assert(old_r[q as int].bin < old_r[t - 1].bin);
                            }
                        } else {
                            assert(r@[i] == old_r[i - 1] && r@[t] == old_r[t - 1]);
                        }
                    }
                    assert forall|i: int| 0 <= i < r@.len() implies {
                        &&& r@[i].runs == runs_with(after, #[trigger] r@[i].bin)
                        &&& r@[i].total == total_of(after, r@[i].bin)
                        &&& min_of(after, r@[i].bin) == Some(r@[i].min)
                        &&& max_of(after, r@[i].bin) == Some(r@[i].max)
                    } by {
                        if i < q {
                            assert(r@[i] == old_r[i]);
                            assert(old_r[i].bin != e.bin);
                            assert(runs_with(after, old_r[i].bin) == runs_with(before, old_r[i].bin));
                        } else if i > q {
                            assert(r@[i] == old_r[i - 1]);
                            if i - 1 > q {
                                assert(old_r[q as int].bin < old_r[i - 1].bin);
                            }
                            assert(old_r[i - 1].bin != e.bin);
                            assert(runs_with(after, old_r[i - 1].bin) == runs_with(
                                before,
                                old_r[i - 1].bin,
                            ));
                        } else {
                            assert(runs_with(after, e.bin) == runs_with(s, e.bin) + 1);
                            assert(total_of(s, e.bin) == 0);
                            assert(min_of(s, e.bin) is None);
                            assert(max_of(s, e.bin) is None);
                        }
                    }
                    assert forall|k: i64| runs_with(after, k) > 0 implies exists|i: int|
                        0 <= i < r@.len() && r@[i].bin == k by {
                        if k == e.bin {
                            assert(r@[q as int].bin == k);
                        } else {
                            assert(runs_with(before, k) > 0);
                            let i = choose|i: int| 0 <= i < old_r.len() && old_r[i].bin == k;
                            if i < q {
                                assert(r@[i].bin == k);
                            } else {
                                assert(r@[i + 1].bin == k);
                            }
                        }
                    }
                    assert forall|i: int| 0 <= i < r@.len() implies r@[i].runs > 0 by {
                        if i < q {
                            assert(r@[i] == old_r[i]);
                        } else if i > q {
                            assert(r@[i] == old_r[i - 1]);
                        }
                    }
                }
            }
            j = j + 1;
        }
        assert(counts@.take(counts.len() as int) =~= counts@);
        n = n + 1;
    }
    assert(all.take(runs.len() as int) =~= all);
    r
}

} // verus!
