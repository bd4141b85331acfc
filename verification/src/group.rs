//! Position grouping: distinct observed characters per password position,
//! ambiguity classification, and the password template.

use vstd::prelude::*;
use crate::chars::{MASK_CHAR, spec_valid_unit, unit_to_char};

verus! {

broadcast use vstd::seq_lib::lemma_seq_contains_after_push, Seq::lemma_index_contains;

/// The highest position among the observations, and -1 for an empty set.
pub open spec fn max_pos(s: Seq<(usize, char)>) -> int
    decreases s.len(),
{
    if s.len() == 0 {
        -1
    } else if s.last().0 as int > max_pos(s.drop_last()) {
        s.last().0 as int
    } else {
        max_pos(s.drop_last())
    }
}

/// The distinct observations at position `p`, in first-occurrence order.
pub open spec fn leaks_at(s: Seq<(usize, char)>, p: int) -> Seq<(usize, char)>
    decreases s.len(),
{
    if s.len() == 0 {
        Seq::empty()
    } else if s.last().0 as int == p && !s.drop_last().contains(s.last()) {
        leaks_at(s.drop_last(), p).push(s.last())
    } else {
        leaks_at(s.drop_last(), p)
    }
}

proof fn lemma_max_pos_bounds(s: Seq<(usize, char)>)
    ensures
        forall|i: int| 0 <= i < s.len() ==> (#[trigger] s[i]).0 <= max_pos(s),
        s.len() > 0 ==> exists|i: int| 0 <= i < s.len() && (#[trigger] s[i]).0 == max_pos(s),
        s.len() > 0 ==> max_pos(s) >= 0,
    decreases s.len(),
{
    if s.len() > 0 {
        lemma_max_pos_bounds(s.drop_last());
        assert(forall|i: int| 0 <= i < s.len() - 1 ==> s.drop_last()[i] == s[i]);
        assert(s[s.len() - 1] == s.last());
        if s.last().0 as int > max_pos(s.drop_last()) {
            assert((s[s.len() - 1]).0 == max_pos(s));
        } else {
            let i = choose|i: int|
                0 <= i < s.len() - 1 && (#[trigger] s.drop_last()[i]).0 == max_pos(s.drop_last());
            assert((s[i]).0 == max_pos(s));
        }
    }
}

proof fn lemma_leaks_at_members(s: Seq<(usize, char)>, p: int)
    ensures
        forall|x: (usize, char)| leaks_at(s, p).contains(x) <==> (s.contains(x) && x.0 as int == p),
        forall|i: int| 0 <= i < leaks_at(s, p).len() ==> (#[trigger] leaks_at(s, p)[i]).0 as int == p,
        leaks_at(s, p).no_duplicates(),
    decreases s.len(),
{
    if s.len() > 0 {
        lemma_leaks_at_members(s.drop_last(), p);
        assert forall|x: (usize, char)| s.contains(x) <==> (s.drop_last().contains(x) || s.last()
            == x) by {
            if s.contains(x) {
                let i = choose|i: int| 0 <= i < s.len() && s[i] == x;
                if i < s.len() - 1 {
                    assert(s.drop_last()[i] == x);
                }
            }
            if s.drop_last().contains(x) {
                let i = choose|i: int| 0 <= i < s.len() - 1 && s.drop_last()[i] == x;
                assert(s[i] == x);
            }
            assert(s[s.len() - 1] == s.last());
        }
    }
}

/// Whether a group already holds a pair.
fn group_contains(g: &Vec<(usize, char)>, x: (usize, char)) -> (r: bool)
    ensures
        r == g@.contains(x),
{
    let mut k: usize = 0;
    let mut found = false;
    while k < g.len() && !found
        invariant
            k <= g@.len(),
            !found ==> forall|t: int| 0 <= t < k ==> (#[trigger] g@[t]) != x,
            found ==> k < g@.len() && g@[k as int] == x,
        decreases g@.len() - k, 1int - if found { 1int } else { 0int },
    {
        if g[k].0 == x.0 && g[k].1 == x.1 {
            found = true;
        } else {
            k = k + 1;
        }
    }
    proof {
        if !found && g@.contains(x) {
            let i = choose|i: int| 0 <= i < g@.len() && g@[i] == x;
            assert(g@[i] != x);
        }
    }
    found
}

/// Groups an observation set by position: entry `p` of the result holds the
/// distinct observations at position `p`, in first-occurrence order. The
/// result has one entry per position up to the highest observed one, so an
/// empty set yields an empty grouping.
pub fn group_by_length(leaks: Vec<(usize, char)>) -> (r: Vec<Vec<(usize, char)>>)
    requires
        max_pos(leaks@) < usize::MAX,
    ensures
        r@.len() == max_pos(leaks@) + 1,
        forall|p: int| 0 <= p < r@.len() ==> (#[trigger] r@[p])@ == leaks_at(leaks@, p),
{
    let n = leaks.len();
    let mut maxp: usize = 0;
    let mut any = false;
    let mut j: usize = 0;
    while j < n
        invariant
            n == leaks@.len(),
            j <= n,
            any <==> j > 0,
            any ==> maxp as int == max_pos(leaks@.take(j as int)),
            !any ==> max_pos(leaks@.take(j as int)) == -1,
        decreases n - j,
    {
        assert(leaks@.take(j + 1int).drop_last() =~= leaks@.take(j as int));
        assert(leaks@.take(j + 1int).last() == leaks@[j as int]);
        if !any || leaks[j].0 > maxp {
            maxp = leaks[j].0;
            any = true;
        }
        j = j + 1;
    }
    assert(leaks@.take(n as int) =~= leaks@);

    let mut groups: Vec<Vec<(usize, char)>> = Vec::new();
    if !any {
        return groups;
    }
    let bound = maxp + 1;
    let mut p: usize = 0;
    while p < bound
        invariant
            bound == max_pos(leaks@) + 1,
            p <= bound,
            groups@.len() == p,
            forall|q: int| 0 <= q < p ==> (#[trigger] groups@[q])@ == leaks_at(leaks@, q),
        decreases bound - p,
    {
        let mut g: Vec<(usize, char)> = Vec::new();
        let mut j: usize = 0;
        let n = leaks.len();
        while j < n
            invariant
                n == leaks@.len(),
                j <= n,
                g@ == leaks_at(leaks@.take(j as int), p as int),
            decreases n - j,
        {
            let ghost prefix = leaks@.take(j as int);
            assert(leaks@.take(j + 1int).drop_last() =~= prefix);
            assert(leaks@.take(j + 1int).last() == leaks@[j as int]);
            let x = leaks[j];
            if x.0 == p {
                proof {
                    lemma_leaks_at_members(prefix, p as int);
                }
                if !group_contains(&g, x) {
                    g.push(x);
                }
            }
            j = j + 1;
        }
        assert(leaks@.take(leaks@.len() as int) =~= leaks@);
        groups.push(g);
        p = p + 1;
    }
    groups
}

/// The fallback guess domain for a position without observations: every
/// common printable character, paired with the position.
pub open spec fn common_pairs(p: int) -> Seq<(usize, char)> {
    Seq::new(95, |i: int| (p as usize, ((0x20 + i) as u32) as char))
}

/// The candidate set of a position: what was observed there, or the common
/// fallback domain when nothing was.
pub open spec fn candidates_at(s: Seq<(usize, char)>, p: int) -> Seq<(usize, char)> {
    if leaks_at(s, p).len() == 0 {
        common_pairs(p)
    } else {
        leaks_at(s, p)
    }
}

/// The candidate sets of the unknown positions below `n`, in position order.
/// A position is unknown when its candidate set holds more than one entry:
/// either several distinct characters were observed, or none at all.
pub open spec fn unknown_groups_up_to(s: Seq<(usize, char)>, n: int) -> Seq<Seq<(usize, char)>>
    decreases n,
{
    if n <= 0 {
        Seq::empty()
    } else if candidates_at(s, n - 1).len() > 1 {
        unknown_groups_up_to(s, n - 1).push(candidates_at(s, n - 1))
    } else {
        unknown_groups_up_to(s, n - 1)
    }
}

/// The candidate sets of all unknown positions of the observation set.
pub open spec fn unknown_groups(s: Seq<(usize, char)>) -> Seq<Seq<(usize, char)>> {
    unknown_groups_up_to(s, max_pos(s) + 1)
}

/// The password template: one slot per position up to the highest observed
/// one, the observed character at every known position and the mask glyph
/// everywhere else.
pub open spec fn template(s: Seq<(usize, char)>) -> Seq<char> {
    Seq::new(
        (max_pos(s) + 1) as nat,
        |p: int|
            if leaks_at(s, p).len() == 1 {
                leaks_at(s, p)[0].1
            } else {
                MASK_CHAR
            },
    )
}

/// Every entry of every unknown group names a position below `n`, its own
/// group's position.
pub proof fn lemma_unknown_groups_members(s: Seq<(usize, char)>, n: int)
    requires
        n - 1 <= usize::MAX,
    ensures
        forall|i: int, t: int|
            0 <= i < unknown_groups_up_to(s, n).len() && 0 <= t < unknown_groups_up_to(s, n)[i].len()
                ==> ((#[trigger] unknown_groups_up_to(s, n)[i][t]).0 as int) < n,
    decreases n,
{
    if n > 0 {
        lemma_unknown_groups_members(s, n - 1);
        if candidates_at(s, n - 1).len() > 1 {
            let g = candidates_at(s, n - 1);
            assert forall|t: int| 0 <= t < g.len() implies (#[trigger] g[t]).0 as int == n - 1 by {
                if leaks_at(s, n - 1).len() != 0 {
                    lemma_leaks_at_members(s, n - 1);
                    assert(g[t] == leaks_at(s, n - 1)[t]);
                    assert((leaks_at(s, n - 1)[t]).0 as int == n - 1);
                } else {
                    assert(g[t] == ((n - 1) as usize, ((0x20 + t) as u32) as char));
                }
            }
            let out = unknown_groups_up_to(s, n);
            let prev = unknown_groups_up_to(s, n - 1);
            assert(out == prev.push(g));
            assert forall|i: int, t: int|
                0 <= i < out.len() && 0 <= t < out[i].len() implies ((#[trigger] out[i][t]).0
                as int) < n by {
                if i < prev.len() {
                    assert(out[i] == prev[i]);
                    assert(((prev[i][t]).0 as int) < n - 1);
                } else {
                    assert(out[i] == g);
                    assert((g[t]).0 as int == n - 1);
                }
            }
        } else {
            let out = unknown_groups_up_to(s, n);
            let prev = unknown_groups_up_to(s, n - 1);
            assert(out == prev);
            assert forall|i: int, t: int|
                0 <= i < out.len() && 0 <= t < out[i].len() implies ((#[trigger] out[i][t]).0
                as int) < n by {
                assert(((prev[i][t]).0 as int) < n - 1);
            }
        }
    }
}

/// A copy of a group, entry for entry.
fn copy_group(g: &Vec<(usize, char)>) -> (r: Vec<(usize, char)>)
    ensures
        r@ == g@,
{
    let mut out: Vec<(usize, char)> = Vec::new();
    let mut k: usize = 0;
    while k < g.len()
        invariant
            k <= g@.len(),
            out@ == g@.take(k as int),
        decreases g@.len() - k,
    {
        out.push(g[k]);
        assert(out@ =~= g@.take(k + 1int));
        k = k + 1;
    }
    assert(g@.take(g@.len() as int) =~= g@);
    out
}

/// The common fallback domain for one position, as a vector.
fn common_pair_vec(p: usize) -> (r: Vec<(usize, char)>)
    ensures
        r@ == common_pairs(p as int),
{
    let mut out: Vec<(usize, char)> = Vec::new();
    let mut u: u16 = 0x20;
    while u <= 0x7E
        invariant
            0x20 <= u <= 0x7F,
            out@.len() == u - 0x20,
            forall|i: int| 0 <= i < out@.len() ==> #[trigger] out@[i] == common_pairs(p as int)[i],
        decreases 0x7F - u,
    {
        assert(spec_valid_unit(u as int));
        let c = unit_to_char(u);
        proof {
            vstd::utf8::char_u32_cast(c, u as u32);
        }
        out.push((p, c));
        u = u + 1;
    }
    assert(out@ =~= common_pairs(p as int));
    out
}

/// Splits the grouped observations of a non-empty observation set into the
/// candidate sets of its unknown positions, in position order, and the
/// password template with every known character applied.
pub fn get_unknowns_and_knowns(leaks: Vec<(usize, char)>) -> (r: (
    Vec<Vec<(usize, char)>>,
    Vec<char>,
))
    requires
        leaks@.len() > 0,
        max_pos(leaks@) < usize::MAX,
    ensures
        r.0@.len() == unknown_groups(leaks@).len(),
        forall|i: int|
            0 <= i < r.0@.len() ==> (#[trigger] r.0@[i])@ == unknown_groups(leaks@)[i],
        r.1@ == template(leaks@),
{
    let ghost s = leaks@;
    proof {
        lemma_max_pos_bounds(s);
    }
    let groups = group_by_length(leaks);
    let n = groups.len();
    let mut unknowns: Vec<Vec<(usize, char)>> = Vec::new();
    let mut password: Vec<char> = Vec::new();
    let mut p: usize = 0;
    while p < n
        invariant
            n == max_pos(s) + 1,
            p <= n,
            groups@.len() == n,
            forall|q: int| 0 <= q < n ==> (#[trigger] groups@[q])@ == leaks_at(s, q),
            password@.len() == p,
            forall|q: int| 0 <= q < p ==> #[trigger] password@[q] == template(s)[q],
            unknowns@.len() == unknown_groups_up_to(s, p as int).len(),
            forall|i: int|
                0 <= i < unknowns@.len() ==> (#[trigger] unknowns@[i])@ == unknown_groups_up_to(
                    s,
                    p as int,
                )[i],
        decreases n - p,
    {
        let glen = groups[p].len();
        if glen == 1 {
            password.push(groups[p][0].1);
        } else {
            password.push(MASK_CHAR);
        }
        if glen == 0 {
            let c = common_pair_vec(p);
            unknowns.push(c);
            assert(candidates_at(s, p as int) == common_pairs(p as int));
        } else if glen > 1 {
            let c = copy_group(&groups[p]);
            unknowns.push(c);
            assert(candidates_at(s, p as int) == leaks_at(s, p as int));
        }
        p = p + 1;
    }
    assert(password@ =~= template(s));
    (unknowns, password)
}

} // verus!
