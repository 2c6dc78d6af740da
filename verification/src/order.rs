use vstd::prelude::*;

use crate::text::owned;

verus! {

// ---------------------------------------------------------------------------
// The benchmark order file
// ---------------------------------------------------------------------------

/// One benchmark of the order file: its id, which sets its place in the
/// order, and its input folder.
pub struct BenchmarkOrderEntry {
    pub id: i32,
    pub path: String,
}

/// An entry as an id and a path.
pub open spec fn entry_view(e: BenchmarkOrderEntry) -> (i32, Seq<char>) {
    (e.id, e.path@)
}

/// The ids and paths of a list of entries.
pub open spec fn entries_view(v: Seq<BenchmarkOrderEntry>) -> Seq<(i32, Seq<char>)> {
    v.map_values(|e: BenchmarkOrderEntry| entry_view(e))
}

/// The ids never decrease along `s`.
pub open spec fn sorted_by_id(s: Seq<(i32, Seq<char>)>) -> bool {
    forall|i: int, j: int| 0 <= i < j < s.len() ==> s[i].0 <= s[j].0
}

/// The entries of `s` that have id `k`, in their order.
pub open spec fn with_id(s: Seq<(i32, Seq<char>)>, k: i32) -> Seq<(i32, Seq<char>)> {
    s.filter(|e: (i32, Seq<char>)| e.0 == k)
}

/// A filter keeps nothing of a list where nothing passes.
proof fn lemma_filter_none(s: Seq<(i32, Seq<char>)>, k: i32)
    requires
        forall|i: int| 0 <= i < s.len() ==> s[i].0 != k,
    ensures
        with_id(s, k) == Seq::<(i32, Seq<char>)>::empty(),
    decreases s.len(),
{
    reveal(Seq::filter);
    if s.len() > 0 {
        lemma_filter_none(s.drop_last(), k);
    }
}

/// A filter over one more element.
proof fn lemma_filter_push(s: Seq<(i32, Seq<char>)>, e: (i32, Seq<char>), k: i32)
    ensures
        with_id(s.push(e), k) == if e.0 == k {
            with_id(s, k).push(e)
        } else {
            with_id(s, k)
        },
{
    reveal(Seq::filter);
    assert(s.push(e).drop_last() =~= s);
}

/// A filter over two joined lists is the join of the filters.
pub proof fn lemma_filter_add(a: Seq<(i32, Seq<char>)>, b: Seq<(i32, Seq<char>)>, k: i32)
    ensures
        with_id(a + b, k) == with_id(a, k) + with_id(b, k),
    decreases b.len(),
{
    if b.len() == 0 {
        assert(a + b =~= a);
        lemma_filter_none(b, k);
        assert(with_id(a, k) + with_id(b, k) =~= with_id(a, k));
    } else {
        let c = b.drop_last();
        let e = b.last();
        lemma_filter_add(a, c, k);
        assert(b =~= c.push(e));
        assert(a + b =~= (a + c).push(e));
        lemma_filter_push(a + c, e, k);
        lemma_filter_push(c, e, k);
        if e.0 == k {
            assert(with_id(a, k) + with_id(c, k).push(e) =~= (with_id(a, k) + with_id(c, k)).push(e));
        }
    }
}

/// The entries in order of their ids; entries with the same id keep the
/// order of the file (`sort_by_key`, a stable sort).
pub fn sort_benchmarks(entries: Vec<BenchmarkOrderEntry>) -> (r: Vec<BenchmarkOrderEntry>)
    ensures
        r@.len() == entries@.len(),
        sorted_by_id(entries_view(r@)),
        forall|k: i32| with_id(entries_view(r@), k) == with_id(entries_view(entries@), k),
{
    let ghost input = entries_view(entries@);
    let mut r: Vec<BenchmarkOrderEntry> = Vec::new();
    let mut rest = entries;
    let n = rest.len();
    let mut items: Vec<Option<BenchmarkOrderEntry>> = Vec::new();
    while rest.len() > 0
        invariant
            items@.len() + rest@.len() == n,
            forall|j: int| 0 <= j < items@.len() ==> items@[j] is Some,
            forall|j: int|
                0 <= j < items@.len() ==> entry_view(items@[j].unwrap()) == input[n - 1 - j],
            forall|j: int| 0 <= j < rest@.len() ==> entry_view(rest@[j]) == input[j],
            input.len() == n,
        decreases rest.len(),
    {
        let e = rest.pop().unwrap();
        items.push(Some(e));
    }
    let mut m: usize = items.len();
    while m > 0
        invariant
            items@.len() == m,
            m <= n,
            input.len() == n,
            forall|j: int| 0 <= j < m ==> items@[j] is Some,
            forall|j: int| 0 <= j < m ==> entry_view(items@[j].unwrap()) == input[n - 1 - j],
            sorted_by_id(entries_view(r@)),
            r@.len() == n - m,
            forall|q: i32| with_id(entries_view(r@), q) == with_id(input.take(n - m), q),
        decreases m,
    {
        let e = items.pop().unwrap().unwrap();
        m = m - 1;
        let ghost ev = entry_view(e);
        assert(ev == input[n - 1 - m]);
        let mut p: usize = 0;
        while p < r.len() && r[p].id <= e.id
            invariant
                p <= r@.len(),
                forall|j: int| 0 <= j < p ==> r@[j].id <= e.id,
            decreases r@.len() - p,
        {
            p = p + 1;
        }
        let ghost old_r = entries_view(r@);
        proof {
            assert forall|j: int| p <= j < old_r.len() implies old_r[j].0 > ev.0 by {
                assert(old_r[p as int].0 > ev.0);
                if j > p {
                    assert(old_r[p as int].0 <= old_r[j].0);
                }
            }
        }
        r.insert(p, e);
        let ghost new_r = entries_view(r@);
        assert(new_r =~= old_r.take(p as int) + seq![ev] + old_r.skip(p as int));
        assert(old_r =~= old_r.take(p as int) + old_r.skip(p as int));
        assert(input.take(n - m) =~= input.take(n - 1 - m).push(ev));
        assert forall|q: i32| with_id(new_r, q) == with_id(input.take(n - m), q) by {
            let a = old_r.take(p as int);
            let b = old_r.skip(p as int);
            lemma_filter_add(a + seq![ev], b, q);
            lemma_filter_add(a, seq![ev], q);
            lemma_filter_add(a, b, q);
            lemma_filter_push(input.take(n - 1 - m), ev, q);
            lemma_filter_push(Seq::<(i32, Seq<char>)>::empty(), ev, q);
            assert(Seq::<(i32, Seq<char>)>::empty().push(ev) =~= seq![ev]);
            if ev.0 == q {
                assert forall|j: int| 0 <= j < b.len() implies b[j].0 != q by {
                    assert(b[j] == old_r[p + j]);
                }
                lemma_filter_none(b, q);
                assert(with_id(old_r, q) =~= with_id(a, q));
                assert(with_id(new_r, q) =~= with_id(a, q).push(ev));
            } else {
                lemma_filter_none(Seq::<(i32, Seq<char>)>::empty(), q);
                assert(with_id(seq![ev], q) =~= Seq::<(i32, Seq<char>)>::empty());
                assert(with_id(new_r, q) =~= with_id(a, q) + with_id(b, q));
            }
        }
        assert forall|x: int, y: int| 0 <= x < y < new_r.len() implies new_r[x].0 <= new_r[y].0 by {
            if x < p && y > p {
                assert(new_r[y] == old_r[y - 1]);
            } else if x == p && y > p {
                assert(new_r[y] == old_r[y - 1]);
            } else if y == p {
            } else if x > p {
                assert(new_r[x] == old_r[x - 1]);
                assert(new_r[y] == old_r[y - 1]);
            }
        }
    }
    assert(input.take(n as int) =~= input);
    r
}

} // verus!
