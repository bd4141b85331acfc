//! Deduplication and confidence ordering of observations: the model behind
//! the `found` view.

use vstd::prelude::*;
use vstd::multiset::Multiset;

verus! {

broadcast use vstd::seq_lib::lemma_seq_contains_after_push, vstd::seq_lib::lemma_seq_concat_contains_all_elements, Seq::lemma_index_contains;

/// How often a pair occurs in an observation set; the multiplicity is the
/// pair's confidence weight.
pub open spec fn count_of(s: Seq<(usize, char)>, x: (usize, char)) -> int
    decreases s.len(),
{
    if s.len() == 0 {
        0
    } else {
        count_of(s.drop_last(), x) + if s.last() == x {
            1int
        } else {
            0int
        }
    }
}

/// The distinct pairs of an observation set, each kept at its first
/// occurrence.
pub open spec fn dedup_first(s: Seq<(usize, char)>) -> Seq<(usize, char)>
    decreases s.len(),
{
    if s.len() == 0 {
        Seq::empty()
    } else if s.drop_last().contains(s.last()) {
        dedup_first(s.drop_last())
    } else {
        dedup_first(s.drop_last()).push(s.last())
    }
}

/// Strict precedence of the `found` view over weighted pairs: lower position
/// first, and at equal positions the more often observed pair first.
pub open spec fn shows_before(a: ((usize, char), int), b: ((usize, char), int)) -> bool {
    a.0.0 < b.0.0 || (a.0.0 == b.0.0 && a.1 > b.1)
}

/// Insertion of a weighted pair into a sorted run, after every entry it does
/// not strictly precede, so that equal entries keep their order.
pub open spec fn ins(r: Seq<((usize, char), int)>, x: ((usize, char), int)) -> Seq<
    ((usize, char), int),
>
    decreases r.len(),
{
    if r.len() == 0 {
        seq![x]
    } else if shows_before(x, r.last()) {
        ins(r.drop_last(), x).push(r.last())
    } else {
        r.push(x)
    }
}

/// Stable insertion sort by `shows_before`.
pub open spec fn isort(s: Seq<((usize, char), int)>) -> Seq<((usize, char), int)>
    decreases s.len(),
{
    if s.len() == 0 {
        Seq::empty()
    } else {
        ins(isort(s.drop_last()), s.last())
    }
}

/// Each distinct pair of the set, weighted with its multiplicity.
pub open spec fn with_counts(s: Seq<(usize, char)>) -> Seq<((usize, char), int)> {
    dedup_first(s).map_values(|x: (usize, char)| (x, count_of(s, x)))
}

/// The `found` view: the distinct pairs, sorted by position and, at equal
/// positions, by multiplicity descending, equal weights in first-occurrence
/// order.
pub open spec fn found_spec(s: Seq<(usize, char)>) -> Seq<(usize, char)> {
    isort(with_counts(s)).map_values(|e: ((usize, char), int)| e.0)
}

/// The weighted view of one executable count entry.
pub open spec fn entry_view(e: ((usize, char), usize)) -> ((usize, char), int) {
    (e.0, e.1 as int)
}

/// The weighted view of an executable count table.
pub open spec fn entries_view(s: Seq<((usize, char), usize)>) -> Seq<((usize, char), int)> {
    s.map_values(|e: ((usize, char), usize)| entry_view(e))
}

proof fn lemma_count_push(s: Seq<(usize, char)>, x: (usize, char), y: (usize, char))
    ensures
        count_of(s.push(y), x) == count_of(s, x) + if x == y {
            1int
        } else {
            0int
        },
{
    assert(s.push(y).drop_last() =~= s);
    assert(s.push(y).last() == y);
}

proof fn lemma_count_bound(s: Seq<(usize, char)>, x: (usize, char))
    ensures
        0 <= count_of(s, x) <= s.len(),
    decreases s.len(),
{
    if s.len() > 0 {
        lemma_count_bound(s.drop_last(), x);
    }
}

proof fn lemma_count_zero(s: Seq<(usize, char)>, x: (usize, char))
    requires
        !s.contains(x),
    ensures
        count_of(s, x) == 0,
    decreases s.len(),
{
    if s.len() > 0 {
        assert(forall|i: int| 0 <= i < s.len() - 1 ==> s.drop_last()[i] == s[i]);
        lemma_count_zero(s.drop_last(), x);
    }
}

proof fn lemma_count_one(s: Seq<(usize, char)>, x: (usize, char))
    requires
        s.no_duplicates(),
        s.contains(x),
    ensures
        count_of(s, x) == 1,
    decreases s.len(),
{
    if s.last() == x {
        if s.drop_last().contains(x) {
            let i = choose|i: int| 0 <= i < s.len() - 1 && s.drop_last()[i] == x;
            assert(s[i] == x && s[s.len() - 1] == x);
            assert(false);
        }
        lemma_count_zero(s.drop_last(), x);
    } else {
        assert(s.drop_last().contains(x)) by {
            let i = choose|i: int| 0 <= i < s.len() && s[i] == x;
            assert(s.drop_last()[i] == x);
        }
        lemma_count_one(s.drop_last(), x);
    }
}

proof fn lemma_dedup_contains(s: Seq<(usize, char)>, x: (usize, char))
    ensures
        dedup_first(s).contains(x) <==> s.contains(x),
    decreases s.len(),
{
    if s.len() > 0 {
        lemma_dedup_contains(s.drop_last(), x);
        assert(s.contains(x) <==> (s.drop_last().contains(x) || s.last() == x)) by {
            if s.contains(x) {
                let i = choose|i: int| 0 <= i < s.len() && s[i] == x;
                if i < s.len() - 1 {
                    assert(s.drop_last()[i] == x);
                }
            }
            if s.drop_last().contains(x) {
                let i = choose|i: int| 0 <= i < s.len() - 1 && s.drop_last()[i] == x;
                assert(s[i] == x);
            }
            assert(s[s.len() - 1] == s.last());
        }
        if !s.drop_last().contains(s.last()) {
            let d = dedup_first(s.drop_last());
            assert(dedup_first(s) == d.push(s.last()));
            assert(d.push(s.last()).contains(x) <==> (d.contains(x) || s.last() == x));
        }
    }
}

proof fn lemma_dedup_no_duplicates(s: Seq<(usize, char)>)
    ensures
        dedup_first(s).no_duplicates(),
    decreases s.len(),
{
    if s.len() > 0 {
        lemma_dedup_no_duplicates(s.drop_last());
        if !s.drop_last().contains(s.last()) {
            lemma_dedup_contains(s.drop_last(), s.last());
        }
    }
}

proof fn lemma_dedup_of_distinct(s: Seq<(usize, char)>)
    requires
        s.no_duplicates(),
    ensures
        dedup_first(s) == s,
    decreases s.len(),
{
    if s.len() > 0 {
        assert(!s.drop_last().contains(s.last())) by {
            if s.drop_last().contains(s.last()) {
                let i = choose|i: int|
                    0 <= i < s.len() - 1 && s.drop_last()[i] == s.last();
                assert(s[i] == s[s.len() - 1]);
            }
        }
        lemma_dedup_of_distinct(s.drop_last());
        assert(dedup_first(s) =~= s);
    }
}

/// Whether an exec count entry's pair equals a given pair.
fn same_pair(a: (usize, char), b: (usize, char)) -> (r: bool)
    ensures
        r == (a == b),
{
    a.0 == b.0 && a.1 == b.1
}

/// Whether one weighted entry strictly precedes another in the `found` view.
fn shows_before_exec(a: ((usize, char), usize), b: ((usize, char), usize)) -> (r: bool)
    ensures
        r == shows_before(entry_view(a), entry_view(b)),
{
    a.0.0 < b.0.0 || (a.0.0 == b.0.0 && a.1 > b.1)
}

fn insert_counted(r: Vec<((usize, char), usize)>, x: ((usize, char), usize)) -> (out: Vec<
    ((usize, char), usize),
>)
    ensures
        entries_view(out@) == ins(entries_view(r@), entry_view(x)),
    decreases r@.len(),
{
    let n = r.len();
    if n == 0 {
        let mut out = r;
        out.push(x);
        assert(entries_view(out@) =~= ins(entries_view(r@), entry_view(x)));
        out
    } else {
        let last = r[n - 1];
        let ghost rv = entries_view(r@);
        assert(rv.last() == entry_view(last));
        if shows_before_exec(x, last) {
            let mut shorter = r;
            shorter.pop();
            assert(entries_view(shorter@) =~= rv.drop_last());
            let mut out = insert_counted(shorter, x);
            out.push(last);
            assert(entries_view(out@) =~= ins(rv.drop_last(), entry_view(x)).push(rv.last()));
            out
        } else {
            let mut out = r;
            out.push(x);
            assert(entries_view(out@) =~= rv.push(entry_view(x)));
            out
        }
    }
}

/// Deduplicates an observation set and orders the distinct pairs by position
/// ascending, breaking ties at equal positions by how often the pair was
/// observed, descending; pairs observed equally often stay in first-occurrence
/// order.
pub fn order_by_duplicates(leaks: &[(usize, char)]) -> (r: Vec<(usize, char)>)
    ensures
        r@ == found_spec(leaks@),
{
    let n = leaks.len();
    let mut counts: Vec<((usize, char), usize)> = Vec::new();
    let mut j: usize = 0;
    while j < n
        invariant
            n == leaks@.len(),
            j <= n,
            counts@.map_values(|e: ((usize, char), usize)| e.0) == dedup_first(
                leaks@.take(j as int),
            ),
            forall|t: int|
                0 <= t < counts@.len() ==> (#[trigger] counts@[t]).1 == count_of(
                    leaks@.take(j as int),
                    counts@[t].0,
                ),
        decreases n - j,
    {
        let x = leaks[j];
        let ghost prefix = leaks@.take(j as int);
        let ghost firsts = counts@.map_values(|e: ((usize, char), usize)| e.0);
        assert(leaks@.take(j + 1int).drop_last() =~= prefix);
        assert(leaks@.take(j + 1int).last() == x);
        proof {
            lemma_dedup_contains(prefix, x);
        }
        let mut k: usize = 0;
        let mut found = false;
        while k < counts.len() && !found
            invariant
                k <= counts@.len(),
                firsts == counts@.map_values(|e: ((usize, char), usize)| e.0),
                !found ==> forall|t: int| 0 <= t < k ==> (#[trigger] counts@[t]).0 != x,
                found ==> k < counts@.len() && counts@[k as int].0 == x,
            decreases counts@.len() - k, 1int - if found { 1int } else { 0int },
        {
            if same_pair(counts[k].0, x) {
                found = true;
            } else {
                k = k + 1;
            }
        }
        proof {
            if found {
                assert(firsts[k as int] == x);
                assert(prefix.contains(x)) by {
                    lemma_dedup_contains(prefix, x);
                    assert(dedup_first(prefix).contains(x)) by {
                        assert(dedup_first(prefix)[k as int] == x);
                    }
                }
            } else {
                assert(!prefix.contains(x)) by {
                    if prefix.contains(x) {
                        lemma_dedup_contains(prefix, x);
                        let t = choose|t: int|
                            0 <= t < firsts.len() && firsts[t] == x;
                        assert(counts@[t].0 == x);
                    }
                }
            }
        }
        if found {
            let e = counts[k];
            proof {
                lemma_count_bound(prefix, x);
            }
            counts.set(k, (e.0, e.1 + 1));
            proof {
                assert(counts@.map_values(|e: ((usize, char), usize)| e.0) =~= firsts);
                assert(dedup_first(leaks@.take(j + 1int)) == dedup_first(prefix));
                assert forall|t: int| 0 <= t < counts@.len() implies (#[trigger] counts@[t]).1
                    == count_of(leaks@.take(j + 1int), counts@[t].0) by {
                    assert(leaks@.take(j + 1int) =~= prefix.push(x));
                    lemma_count_push(prefix, counts@[t].0, x);
                    if t != k {
                        assert(counts@[t].0 != x) by {
                            lemma_dedup_no_duplicates(prefix);
                            if counts@[t].0 == x {
                                assert(firsts[t] == x && firsts[k as int] == x);
                            }
                        }
                    }
                }
            }
        } else {
            counts.push((x, 1));
            proof {
                assert(counts@.map_values(|e: ((usize, char), usize)| e.0) =~= firsts.push(x));
                assert(dedup_first(leaks@.take(j + 1int)) == dedup_first(prefix).push(x));
                assert forall|t: int| 0 <= t < counts@.len() implies (#[trigger] counts@[t]).1
                    == count_of(leaks@.take(j + 1int), counts@[t].0) by {
                    assert(leaks@.take(j + 1int) =~= prefix.push(x));
                    lemma_count_push(prefix, counts@[t].0, x);
                    if t < counts@.len() - 1 {
                        assert(counts@[t].0 != x);
                    } else {
                        lemma_count_zero(prefix, x);
                    }
                }
            }
        }
        j = j + 1;
    }
    assert(leaks@.take(n as int) =~= leaks@);
    assert(entries_view(counts@) =~= with_counts(leaks@));

    let m = counts.len();
    let mut sorted: Vec<((usize, char), usize)> = Vec::new();
    let mut t: usize = 0;
    while t < m
        invariant
            m == counts@.len(),
            t <= m,
            entries_view(sorted@) == isort(entries_view(counts@).take(t as int)),
        decreases m - t,
    {
        let ghost before = entries_view(counts@).take(t as int);
        assert(entries_view(counts@).take(t + 1int).drop_last() =~= before);
        assert(entries_view(counts@).take(t + 1int).last() == entry_view(counts@[t as int]));
        sorted = insert_counted(sorted, counts[t]);
        t = t + 1;
    }
    assert(entries_view(counts@).take(m as int) =~= entries_view(counts@));

    let mut out: Vec<(usize, char)> = Vec::new();
    let mut q: usize = 0;
    while q < sorted.len()
        invariant
            q <= sorted@.len(),
            out@.len() == q,
            forall|t: int| 0 <= t < q ==> (#[trigger] out@[t]) == sorted@[t].0,
        decreases sorted@.len() - q,
    {
        out.push(sorted[q].0);
        q = q + 1;
    }
    assert(out@ =~= found_spec(leaks@)) by {
        assert(entries_view(sorted@) == isort(with_counts(leaks@)));
        assert forall|t: int| 0 <= t < out@.len() implies out@[t] == isort(
            with_counts(leaks@),
        )[t].0 by {
            assert(entries_view(sorted@)[t] == entry_view(sorted@[t]));
        }
    }
    out
}

/// No later entry strictly precedes an earlier one: what the `found` view's
/// order guarantees.
pub open spec fn no_inversions(r: Seq<((usize, char), int)>) -> bool {
    forall|i: int, j: int| 0 <= i < j < r.len() ==> !shows_before(#[trigger] r[j], #[trigger] r[i])
}

proof fn lemma_ins_multiset(r: Seq<((usize, char), int)>, x: ((usize, char), int))
    ensures
        ins(r, x).to_multiset() == r.to_multiset().insert(x),
        ins(r, x).len() == r.len() + 1,
    decreases r.len(),
{
    broadcast use vstd::seq_lib::group_to_multiset_ensures;

    if r.len() == 0 {
        assert(ins(r, x) =~= Seq::empty().push(x));
        assert(r =~= Seq::<((usize, char), int)>::empty());
        assert(Seq::<((usize, char), int)>::empty().to_multiset() =~= Multiset::empty());
    } else if shows_before(x, r.last()) {
        lemma_ins_multiset(r.drop_last(), x);
        assert(r.drop_last().push(r.last()) =~= r);
        assert(ins(r, x).to_multiset() =~= r.to_multiset().insert(x)) by {
            assert(ins(r.drop_last(), x).push(r.last()).to_multiset() == ins(
                r.drop_last(),
                x,
            ).to_multiset().insert(r.last()));
            assert(r.drop_last().push(r.last()).to_multiset() == r.drop_last().to_multiset().insert(
                r.last(),
            ));
        }
    } else {
    }
}

proof fn lemma_ins_contains(r: Seq<((usize, char), int)>, x: ((usize, char), int), y: ((usize, char), int))
    ensures
        ins(r, x).contains(y) <==> (r.contains(y) || y == x),
{
    broadcast use vstd::seq_lib::group_to_multiset_ensures;
    broadcast use vstd::multiset::group_multiset_axioms;

    lemma_ins_multiset(r, x);
    assert(ins(r, x).to_multiset().count(y) == r.to_multiset().insert(x).count(y));
    assert(r.to_multiset().insert(x).count(y) == r.to_multiset().count(y) + if y == x {
        1int
    } else {
        0int
    });
}

proof fn lemma_ins_keeps_order(r: Seq<((usize, char), int)>, x: ((usize, char), int))
    requires
        no_inversions(r),
    ensures
        no_inversions(ins(r, x)),
    decreases r.len(),
{
    if r.len() == 0 {
    } else if shows_before(x, r.last()) {
        assert(no_inversions(r.drop_last())) by {
            assert(forall|i: int| 0 <= i < r.len() - 1 ==> r.drop_last()[i] == r[i]);
        }
        lemma_ins_keeps_order(r.drop_last(), x);
        let inner = ins(r.drop_last(), x);
        let out = ins(r, x);
        assert(out == inner.push(r.last()));
        lemma_ins_multiset(r.drop_last(), x);
        assert forall|i: int, j: int| 0 <= i < j < out.len() implies !shows_before(
            out[j],
            out[i],
        ) by {
            if j < out.len() - 1 {
                assert(out[i] == inner[i] && out[j] == inner[j]);
            } else {
                assert(out[j] == r.last());
                assert(out[i] == inner[i]);
                assert(inner.contains(inner[i]));
                lemma_ins_contains(r.drop_last(), x, inner[i]);
                if inner[i] == x {
                    assert(!shows_before(r.last(), x));
                } else {
                    let t = choose|t: int|
                        0 <= t < r.len() - 1 && r.drop_last()[t] == inner[i];
                    assert(r[t] == inner[i]);
                    assert(!shows_before(r[r.len() - 1], r[t]));
                }
            }
        }
    } else {
        let out = r.push(x);
        assert forall|i: int, j: int| 0 <= i < j < out.len() implies !shows_before(
            out[j],
            out[i],
        ) by {
            if j < out.len() - 1 {
                assert(out[i] == r[i] && out[j] == r[j]);
            } else {
                assert(out[j] == x && out[i] == r[i]);
                // x does not precede the last entry; an entry it would precede
                // further in can only share its position, with a weight order
                // that closes the case.
                let last = r[r.len() - 1];
                assert(!shows_before(x, last));
                if i < r.len() - 1 {
                    assert(!shows_before(last, r[i]));
                }
            }
        }
    }
}

proof fn lemma_isort_sorted(s: Seq<((usize, char), int)>)
    ensures
        no_inversions(isort(s)),
        isort(s).to_multiset() == s.to_multiset(),
        isort(s).len() == s.len(),
    decreases s.len(),
{
    broadcast use vstd::seq_lib::group_to_multiset_ensures;

    if s.len() == 0 {
    } else {
        lemma_isort_sorted(s.drop_last());
        lemma_ins_keeps_order(isort(s.drop_last()), s.last());
        lemma_ins_multiset(isort(s.drop_last()), s.last());
        assert(s.drop_last().push(s.last()) =~= s);
        assert(s.drop_last().push(s.last()).to_multiset() == s.drop_last().to_multiset().insert(
            s.last(),
        ));
    }
}

proof fn lemma_ins_of_ordered(r: Seq<((usize, char), int)>, x: ((usize, char), int))
    requires
        forall|i: int| 0 <= i < r.len() ==> !shows_before(x, #[trigger] r[i]),
    ensures
        ins(r, x) == r.push(x),
{
    if r.len() > 0 {
        assert(!shows_before(x, r[r.len() - 1]));
    }
}

proof fn lemma_isort_of_sorted(s: Seq<((usize, char), int)>)
    requires
        no_inversions(s),
    ensures
        isort(s) == s,
    decreases s.len(),
{
    if s.len() > 0 {
        assert(no_inversions(s.drop_last())) by {
            assert(forall|i: int| 0 <= i < s.len() - 1 ==> s.drop_last()[i] == s[i]);
        }
        lemma_isort_of_sorted(s.drop_last());
        assert forall|i: int|
            0 <= i < s.drop_last().len() implies !shows_before(s.last(), #[trigger] s.drop_last()[i]) by {
            assert(s.drop_last()[i] == s[i]);
            assert(!shows_before(s[s.len() - 1], s[i]));
        }
        lemma_ins_of_ordered(s.drop_last(), s.last());
        assert(s.drop_last().push(s.last()) =~= s);
    }
}

/// In the `found` view the positions never decrease from one line to the
/// next.
pub proof fn lemma_found_positions_sorted(s: Seq<(usize, char)>)
    ensures
        forall|i: int, j: int|
            0 <= i < j < found_spec(s).len() ==> (#[trigger] found_spec(s)[i]).0 <= (
            #[trigger] found_spec(s)[j]).0,
{
    lemma_isort_sorted(with_counts(s));
    let srt = isort(with_counts(s));
    assert forall|i: int, j: int|
        0 <= i < j < found_spec(s).len() implies (#[trigger] found_spec(s)[i]).0 <= (
    #[trigger] found_spec(s)[j]).0 by {
        assert(!shows_before(srt[j], srt[i]));
        assert(found_spec(s)[i] == srt[i].0 && found_spec(s)[j] == srt[j].0);
    }
}

/// Every entry of the weighted table carries the multiplicity of its own
/// pair.
proof fn lemma_with_counts_entries(s: Seq<(usize, char)>, e: ((usize, char), int))
    requires
        with_counts(s).contains(e),
    ensures
        e.1 == count_of(s, e.0),
{
    let wc = with_counts(s);
    let t = choose|t: int| 0 <= t < wc.len() && wc[t] == e;
    assert(wc[t] == (dedup_first(s)[t], count_of(s, dedup_first(s)[t])));
}

/// The `found` view repeats no pair.
pub proof fn lemma_found_no_duplicates(s: Seq<(usize, char)>)
    ensures
        found_spec(s).no_duplicates(),
{
    broadcast use vstd::seq_lib::group_to_multiset_ensures;

    let d = dedup_first(s);
    let wc = with_counts(s);
    let srt = isort(wc);
    lemma_dedup_no_duplicates(s);
    assert(wc.no_duplicates()) by {
        assert forall|i: int, j: int| 0 <= i < j < wc.len() implies wc[i] != wc[j] by {
            assert(wc[i].0 == d[i] && wc[j].0 == d[j]);
        }
    }
    lemma_isort_sorted(wc);
    wc.lemma_multiset_has_no_duplicates();
    srt.lemma_multiset_has_no_duplicates_conv();
    assert forall|i: int, j: int|
        0 <= i < j < found_spec(s).len() implies found_spec(s)[i] != found_spec(s)[j] by {
        assert(found_spec(s)[i] == srt[i].0 && found_spec(s)[j] == srt[j].0);
        if srt[i].0 == srt[j].0 {
            assert(srt.contains(srt[i]) && srt.contains(srt[j]));
            assert(srt.to_multiset().count(srt[i]) > 0 && srt.to_multiset().count(srt[j]) > 0);
            assert(wc.to_multiset().count(srt[i]) > 0 && wc.to_multiset().count(srt[j]) > 0);
            assert(wc.contains(srt[i]) && wc.contains(srt[j]));
            lemma_with_counts_entries(s, srt[i]);
            lemma_with_counts_entries(s, srt[j]);
            assert(srt[i] == srt[j]);
        }
    }
}

/// Deduplicating and ordering a second time changes nothing: the `found`
/// view is idempotent.
pub proof fn lemma_found_idempotent(s: Seq<(usize, char)>)
    ensures
        found_spec(found_spec(s)) == found_spec(s),
{
    let out = found_spec(s);
    lemma_found_no_duplicates(s);
    lemma_found_positions_sorted(s);
    lemma_dedup_of_distinct(out);
    let wc2 = with_counts(out);
    assert(wc2 =~= out.map_values(|x: (usize, char)| (x, 1int))) by {
        assert forall|t: int| 0 <= t < out.len() implies wc2[t] == (out[t], 1int) by {
            assert(out.contains(out[t]));
            lemma_count_one(out, out[t]);
        }
    }
    assert(no_inversions(wc2)) by {
        assert forall|i: int, j: int| 0 <= i < j < wc2.len() implies !shows_before(
            wc2[j],
            wc2[i],
        ) by {
            assert(wc2[i] == (out[i], 1int) && wc2[j] == (out[j], 1int));
            assert(out[i].0 <= out[j].0);
        }
    }
    lemma_isort_of_sorted(wc2);
    assert(found_spec(out) =~= out);
}

} // verus!
