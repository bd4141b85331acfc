//! The rendered output views: deduplicated hints, per-position gap listings,
//! and the full combinatorial enumeration.

use vstd::prelude::*;
use vstd::pervasive::VecAdditionalExecFns;
use vstd::slice::slice_to_vec;
use itertools::Itertools;
use crate::chars::MASK_CHAR;
use crate::dedup::{found_spec, order_by_duplicates};
use crate::group::{
    get_unknowns_and_knowns, lemma_unknown_groups_members, max_pos, template, unknown_groups,
};

verus! {

/// The output view selected on the command line.
#[derive(Clone, Copy, Debug)]
pub enum Format {
    /// Deduplicated, confidence-ordered hints.
    Found,
    /// One templated line per ambiguous candidate per position.
    Gaps,
    /// Every full combinatorial reconstruction.
    All,
    /// Unprocessed tuples for external tooling; deliberately not implemented.
    Raw,
}

/// Why a reconstruction request produced no output.
#[derive(Clone, Copy, Debug, PartialEq, Eq, Structural)]
pub enum ReconstructError {
    /// The observation set is empty, so no maximum position exists to build
    /// a template over.
    NoObservations,
    /// The requested view is declared but deliberately left unimplemented.
    NotImplemented,
}

/// Relies on String::push of std: it appends exactly the one character.
pub assume_specification[ String::push ](s: &mut String, c: char)
    ensures
        final(s)@ == old(s)@.push(c),
;

/// A run of `n` mask glyphs.
pub open spec fn mask_run(n: int) -> Seq<char> {
    Seq::new(n as nat, |i: int| MASK_CHAR)
}

/// The rendered hint for one observation: its position as a run of mask
/// glyphs, then the leaked character.
pub open spec fn leak_line(x: (usize, char)) -> Seq<char> {
    mask_run(x.0 as int).push(x.1)
}

/// The `found` view's lines: one rendered hint per distinct pair, in
/// confidence order.
pub open spec fn found_lines_spec(s: Seq<(usize, char)>) -> Seq<Seq<char>> {
    found_spec(s).map_values(|x: (usize, char)| leak_line(x))
}

/// Renders one observation as a hint line.
pub fn leak_to_string(leak: (usize, char)) -> (r: String)
    ensures
        r@ == leak_line(leak),
{
    let mut out = String::new();
    let mut i: usize = 0;
    while i < leak.0
        invariant
            i <= leak.0,
            out@ == mask_run(i as int),
        decreases leak.0 - i,
    {
        out.push(MASK_CHAR);
        assert(out@ =~= mask_run(i + 1int));
        i = i + 1;
    }
    out.push(leak.1);
    out
}

/// A string holding exactly the given characters.
fn chars_to_string(v: &Vec<char>) -> (r: String)
    ensures
        r@ == v@,
{
    let mut out = String::new();
    let mut i: usize = 0;
    while i < v.len()
        invariant
            i <= v@.len(),
            out@ == v@.take(i as int),
        decreases v@.len() - i,
    {
        out.push(v[i]);
        assert(out@ =~= v@.take(i + 1int));
        i = i + 1;
    }
    assert(v@.take(v@.len() as int) =~= v@);
    out
}

/// The `found` view: deduplicated, confidence-ordered hint lines. Printing
/// the same observation set twice gives the same lines, with no repeated
/// pair.
pub fn found_lines(leaks: &[(usize, char)]) -> (r: Vec<String>)
    ensures
        r@.map_values(|l: String| l@) == found_lines_spec(leaks@),
{
    let ordered = order_by_duplicates(leaks);
    let mut lines: Vec<String> = Vec::new();
    let mut k: usize = 0;
    while k < ordered.len()
        invariant
            k <= ordered@.len(),
            ordered@ == found_spec(leaks@),
            lines@.len() == k,
            forall|t: int|
                0 <= t < k ==> (#[trigger] lines@[t])@ == leak_line(found_spec(leaks@)[t]),
        decreases ordered@.len() - k,
    {
        lines.push(leak_to_string(ordered[k]));
        k = k + 1;
    }
    assert(lines@.map_values(|l: String| l@) =~= found_lines_spec(leaks@));
    lines
}

/// The gap lines of one candidate set over a template: the template with
/// only that candidate's position overwritten.
pub open spec fn gap_lines_of(g: Seq<(usize, char)>, t: Seq<char>) -> Seq<Seq<char>> {
    g.map_values(|x: (usize, char)| t.update(x.0 as int, x.1))
}

/// The gap lines of a list of candidate sets, one set after the other.
pub open spec fn gaps_concat(gs: Seq<Seq<(usize, char)>>, t: Seq<char>) -> Seq<Seq<char>>
    decreases gs.len(),
{
    if gs.len() == 0 {
        Seq::empty()
    } else {
        gaps_concat(gs.drop_last(), t) + gap_lines_of(gs.last(), t)
    }
}

/// The `gaps` view's lines: for every unknown position and every candidate
/// there, the template with only that position overwritten.
pub open spec fn gaps_lines_spec(s: Seq<(usize, char)>) -> Seq<Seq<char>> {
    gaps_concat(unknown_groups(s), template(s))
}

/// The total size of a list of candidate sets.
pub open spec fn sum_sizes(gs: Seq<Seq<(usize, char)>>) -> int
    decreases gs.len(),
{
    if gs.len() == 0 {
        0
    } else {
        sum_sizes(gs.drop_last()) + gs.last().len()
    }
}

/// The `gaps` view holds one line per candidate per unknown position: its
/// line count is the sum of the unknown positions' candidate-set sizes.
pub proof fn lemma_gaps_line_count(gs: Seq<Seq<(usize, char)>>, t: Seq<char>)
    ensures
        gaps_concat(gs, t).len() == sum_sizes(gs),
    decreases gs.len(),
{
    if gs.len() > 0 {
        lemma_gaps_line_count(gs.drop_last(), t);
    }
}

/// The `gaps` view of a non-empty observation set.
pub fn gaps_lines(leaks: &[(usize, char)]) -> (r: Vec<String>)
    requires
        leaks@.len() > 0,
        max_pos(leaks@) < usize::MAX,
    ensures
        r@.map_values(|l: String| l@) == gaps_lines_spec(leaks@),
{
    let ghost s = leaks@;
    let owned = slice_to_vec(leaks);
    let (unknowns, password) = get_unknowns_and_knowns(owned);
    let ghost ug = unknown_groups(s);
    let ghost t = template(s);
    proof {
        lemma_unknown_groups_members(s, max_pos(s) + 1);
    }
    let mut lines: Vec<String> = Vec::new();
    let mut i: usize = 0;
    while i < unknowns.len()
        invariant
            unknowns@.len() == ug.len(),
            forall|q: int| 0 <= q < ug.len() ==> (#[trigger] unknowns@[q])@ == ug[q],
            password@ == t,
            i <= ug.len(),
            forall|q: int, w: int|
                0 <= q < ug.len() && 0 <= w < ug[q].len() ==> ((#[trigger] ug[q][w]).0 as int)
                    < max_pos(s) + 1,
            t.len() == max_pos(s) + 1,
            lines@.map_values(|l: String| l@) == gaps_concat(ug.take(i as int), t),
        decreases ug.len() - i,
    {
        let g = &unknowns[i];
        let ghost gv = ug[i as int];
        let mut w: usize = 0;
        while w < g.len()
            invariant
                g@ == gv,
                password@ == t,
                w <= gv.len(),
                forall|q2: int|
                    0 <= q2 < gv.len() ==> ((#[trigger] gv[q2]).0 as int) < t.len(),
                lines@.map_values(|l: String| l@) == gaps_concat(ug.take(i as int), t)
                    + gap_lines_of(gv, t).take(w as int),
            decreases gv.len() - w,
        {
            let x = g[w];
            let mut line = copy_chars(&password);
            assert(((gv[w as int]).0 as int) < t.len());
            line.set(x.0, x.1);
            let rendered = chars_to_string(&line);
            let ghost before_lines = lines@.map_values(|l: String| l@);
            assert(rendered@ == t.update((gv[w as int]).0 as int, gv[w as int].1));
            assert(gap_lines_of(gv, t)[w as int] == rendered@);
            lines.push(rendered);
            assert(lines@.map_values(|l: String| l@) =~= before_lines.push(rendered@));
            assert(gaps_concat(ug.take(i as int), t) + gap_lines_of(gv, t).take(w + 1int)
                =~= before_lines.push(rendered@));
            w = w + 1;
        }
        proof {
            assert(gap_lines_of(gv, t).take(gv.len() as int) =~= gap_lines_of(gv, t));
            assert(ug.take(i + 1int).drop_last() =~= ug.take(i as int));
            assert(ug.take(i + 1int).last() == gv);
            assert(gaps_concat(ug.take(i + 1int), t) == gaps_concat(ug.take(i as int), t)
                + gap_lines_of(gv, t));
        }
        i = i + 1;
    }
    assert(ug.take(ug.len() as int) =~= ug);
    lines
}

/// The picks that start with one entry of `xs` each, continued by every
/// pick of `rests`, in order.
pub open spec fn prepend_each(xs: Seq<(usize, char)>, rests: Seq<Seq<(usize, char)>>) -> Seq<
    Seq<(usize, char)>,
>
    decreases xs.len(),
{
    if xs.len() == 0 {
        Seq::empty()
    } else {
        rests.map_values(|r: Seq<(usize, char)>| seq![xs.first()] + r) + prepend_each(
            xs.drop_first(),
            rests,
        )
    }
}

/// Every way to pick one entry from each candidate set, the first set
/// varying slowest; with no sets there is exactly one, empty, pick.
pub open spec fn product_of(gs: Seq<Seq<(usize, char)>>) -> Seq<Seq<(usize, char)>>
    decreases gs.len(),
{
    if gs.len() == 0 {
        seq![Seq::<(usize, char)>::empty()]
    } else {
        prepend_each(gs.first(), product_of(gs.drop_first()))
    }
}

/// The product of the candidate-set sizes.
pub open spec fn prod_sizes(gs: Seq<Seq<(usize, char)>>) -> int
    decreases gs.len(),
{
    if gs.len() == 0 {
        1
    } else {
        gs.first().len() * prod_sizes(gs.drop_first())
    }
}

proof fn lemma_prepend_each_len(xs: Seq<(usize, char)>, rests: Seq<Seq<(usize, char)>>)
    ensures
        prepend_each(xs, rests).len() == xs.len() * rests.len(),
    decreases xs.len(),
{
    if xs.len() > 0 {
        lemma_prepend_each_len(xs.drop_first(), rests);
        assert(rests.len() + (xs.len() - 1) * rests.len() == xs.len() * rests.len())
            by (nonlinear_arith);
    }
}

/// The enumeration holds one pick per element of the size product.
pub proof fn lemma_product_len(gs: Seq<Seq<(usize, char)>>)
    ensures
        product_of(gs).len() == prod_sizes(gs),
    decreases gs.len(),
{
    if gs.len() > 0 {
        lemma_product_len(gs.drop_first());
        lemma_prepend_each_len(gs.first(), product_of(gs.drop_first()));
    }
}

proof fn lemma_prepend_each_index(xs: Seq<(usize, char)>, rests: Seq<Seq<(usize, char)>>, k: int)
    requires
        0 <= k < prepend_each(xs, rests).len(),
    ensures
        exists|a: int, b: int|
            0 <= a < xs.len() && 0 <= b < rests.len() && prepend_each(xs, rests)[k] == seq![
                #[trigger] xs[a],
            ] + #[trigger] rests[b],
    decreases xs.len(),
{
    let pe = prepend_each(xs, rests);
    let firsts = rests.map_values(|r: Seq<(usize, char)>| seq![xs.first()] + r);
    if k < firsts.len() {
        assert(pe[k] == firsts[k]);
        assert(xs[0] == xs.first());
        assert(pe[k] == seq![xs[0]] + rests[k]);
    } else {
        lemma_prepend_each_index(xs.drop_first(), rests, k - firsts.len());
        let (a, b): (int, int) = choose|a: int, b: int|
            0 <= a < xs.drop_first().len() && 0 <= b < rests.len() && prepend_each(
                xs.drop_first(),
                rests,
            )[k - firsts.len()] == seq![#[trigger] xs.drop_first()[a]] + #[trigger] rests[b];
        assert(pe[k] == prepend_each(xs.drop_first(), rests)[k - firsts.len()]);
        assert(xs.drop_first()[a] == xs[a + 1]);
        assert(pe[k] == seq![xs[a + 1]] + rests[b]);
    }
}

/// Every pick of the enumeration takes exactly one entry from each
/// candidate set, in set order.
pub proof fn lemma_product_index(gs: Seq<Seq<(usize, char)>>, k: int)
    requires
        0 <= k < product_of(gs).len(),
    ensures
        product_of(gs)[k].len() == gs.len(),
        forall|j: int| 0 <= j < gs.len() ==> (#[trigger] gs[j]).contains(product_of(gs)[k][j]),
    decreases gs.len(),
{
    broadcast use vstd::seq_lib::lemma_seq_contains_after_push, Seq::lemma_index_contains;

    if gs.len() > 0 {
        let c = product_of(gs)[k];
        lemma_prepend_each_index(gs.first(), product_of(gs.drop_first()), k);
        let (a, b): (int, int) = choose|a: int, b: int|
            0 <= a < gs.first().len() && 0 <= b < product_of(gs.drop_first()).len() && product_of(
                gs,
            )[k] == seq![#[trigger] gs.first()[a]] + #[trigger] product_of(gs.drop_first())[b];
        lemma_product_index(gs.drop_first(), b);
        let r = product_of(gs.drop_first())[b];
        assert(c == seq![gs.first()[a]] + r);
        assert(c.len() == gs.len());
        assert forall|j: int| 0 <= j < gs.len() implies (#[trigger] gs[j]).contains(c[j]) by {
            if j == 0 {
                assert(c[0] == gs.first()[a]);
                assert(gs[0].contains(gs.first()[a]));
            } else {
                assert(c[j] == r[j - 1]);
                assert(gs.drop_first()[j - 1] == gs[j]);
                assert(gs.drop_first()[j - 1].contains(r[j - 1]));
            }
        }
    }
}

/// Relies on itertools' multi_cartesian_product: it yields every combination
/// that picks one entry from each group, the first group varying slowest and
/// the last fastest; with no groups at all it yields a single empty
/// combination.
#[verifier::external_body]
fn multi_product(groups: &Vec<Vec<(usize, char)>>) -> (r: Vec<Vec<(usize, char)>>)
    ensures
        r@.map_values(|v: Vec<(usize, char)>| v@) == product_of(
            groups@.map_values(|v: Vec<(usize, char)>| v@),
        ),
{
    groups.iter().map(|g| g.iter().copied()).multi_cartesian_product().collect()
}

/// A template with one pick applied: each chosen character written into its
/// own position.
pub open spec fn apply_choice(t: Seq<char>, c: Seq<(usize, char)>) -> Seq<char>
    decreases c.len(),
{
    if c.len() == 0 {
        t
    } else {
        apply_choice(t, c.drop_last()).update(c.last().0 as int, c.last().1)
    }
}

proof fn lemma_apply_choice_len(t: Seq<char>, c: Seq<(usize, char)>)
    requires
        forall|q: int| 0 <= q < c.len() ==> ((#[trigger] c[q]).0 as int) < t.len(),
    ensures
        apply_choice(t, c).len() == t.len(),
    decreases c.len(),
{
    if c.len() > 0 {
        assert(forall|q: int| 0 <= q < c.len() - 1 ==> c.drop_last()[q] == c[q]);
        lemma_apply_choice_len(t, c.drop_last());
        assert(c[c.len() - 1] == c.last());
        assert(((c.last()).0 as int) < t.len());
    }
}

/// The `all` view's lines: one full candidate password per pick of the
/// enumeration.
pub open spec fn all_lines_spec(s: Seq<(usize, char)>) -> Seq<Seq<char>> {
    product_of(unknown_groups(s)).map_values(|c: Seq<(usize, char)>| apply_choice(template(s), c))
}

/// The `all` view of a non-empty observation set.
pub fn all_lines(leaks: &[(usize, char)]) -> (r: Vec<String>)
    requires
        leaks@.len() > 0,
        max_pos(leaks@) < usize::MAX,
    ensures
        r@.map_values(|l: String| l@) == all_lines_spec(leaks@),
{
    let ghost s = leaks@;
    let owned = slice_to_vec(leaks);
    let (unknowns, password) = get_unknowns_and_knowns(owned);
    let ghost ug = unknown_groups(s);
    let ghost t = template(s);
    proof {
        lemma_unknown_groups_members(s, max_pos(s) + 1);
        assert(unknowns@.map_values(|v: Vec<(usize, char)>| v@) =~= ug);
    }
    let prods = multi_product(&unknowns);
    let ghost pv = product_of(ug);
    let mut lines: Vec<String> = Vec::new();
    let mut k: usize = 0;
    while k < prods.len()
        invariant
            pv == product_of(ug),
            prods@.map_values(|v: Vec<(usize, char)>| v@) == pv,
            password@ == t,
            t.len() == max_pos(s) + 1,
            k <= pv.len(),
            prods@.len() == pv.len(),
            forall|q: int, w: int|
                0 <= q < ug.len() && 0 <= w < ug[q].len() ==> ((#[trigger] ug[q][w]).0 as int)
                    < max_pos(s) + 1,
            lines@.map_values(|l: String| l@) == pv.take(k as int).map_values(
                |c: Seq<(usize, char)>| apply_choice(t, c),
            ),
        decreases pv.len() - k,
    {
        let choice = &prods[k];
        let ghost cv = pv[k as int];
        assert(choice@ == cv);
        proof {
            lemma_product_index(ug, k as int);
            assert forall|q: int| 0 <= q < cv.len() implies ((#[trigger] cv[q]).0 as int)
                < t.len() by {
                assert(ug[q].contains(cv[q]));
                let w = choose|w: int| 0 <= w < ug[q].len() && ug[q][w] == cv[q];
                assert(((ug[q][w]).0 as int) < max_pos(s) + 1);
            }
        }
        let mut line = copy_chars(&password);
        let mut j: usize = 0;
        while j < choice.len()
            invariant
                choice@ == cv,
                cv.len() == ug.len(),
                t.len() == max_pos(s) + 1,
                forall|q: int| 0 <= q < cv.len() ==> ((#[trigger] cv[q]).0 as int) < t.len(),
                j <= cv.len(),
                line@ == apply_choice(t, cv.take(j as int)),
            decreases cv.len() - j,
        {
            let x = choice[j];
            proof {
                assert forall|q: int| 0 <= q < j implies ((#[trigger] cv.take(j as int)[q]).0
                    as int) < t.len() by {
                    assert(cv.take(j as int)[q] == cv[q]);
                }
                lemma_apply_choice_len(t, cv.take(j as int));
                assert(((cv[j as int]).0 as int) < t.len());
                assert(cv.take(j + 1int).drop_last() =~= cv.take(j as int));
                assert(cv.take(j + 1int).last() == cv[j as int]);
            }
            line.set(x.0, x.1);
            j = j + 1;
        }
        assert(cv.take(cv.len() as int) =~= cv);
        let rendered = chars_to_string(&line);
        let ghost before_lines = lines@.map_values(|l: String| l@);
        lines.push(rendered);
        proof {
            assert(lines@.map_values(|l: String| l@) =~= before_lines.push(rendered@));
            assert(pv.take(k + 1int).map_values(|c: Seq<(usize, char)>| apply_choice(t, c))
                =~= before_lines.push(rendered@));
        }
        k = k + 1;
    }
    assert(pv.take(pv.len() as int) =~= pv);
    lines
}

/// Renders an observation set in the requested view. `found` never fails;
/// `gaps` and `all` need at least one observation to give the template a
/// length; `raw` is deliberately not implemented.
pub fn format_leaks(leaks: &[(usize, char)], format: Format) -> (r: Result<
    Vec<String>,
    ReconstructError,
>)
    requires
        max_pos(leaks@) < usize::MAX,
    ensures
        match format {
            Format::Found => r matches Ok(lines) && lines@.map_values(|l: String| l@)
                == found_lines_spec(leaks@),
            Format::Gaps => if leaks@.len() == 0 {
                r == Err::<Vec<String>, ReconstructError>(ReconstructError::NoObservations)
            } else {
                r matches Ok(lines) && lines@.map_values(|l: String| l@) == gaps_lines_spec(leaks@)
            },
            Format::All => if leaks@.len() == 0 {
                r == Err::<Vec<String>, ReconstructError>(ReconstructError::NoObservations)
            } else {
                r matches Ok(lines) && lines@.map_values(|l: String| l@) == all_lines_spec(leaks@)
            },
            Format::Raw => r == Err::<Vec<String>, ReconstructError>(
                ReconstructError::NotImplemented,
            ),
        },
{
    match format {
        Format::Found => Ok(found_lines(leaks)),
        Format::Gaps => {
            if leaks.len() == 0 {
                Err(ReconstructError::NoObservations)
            } else {
                Ok(gaps_lines(leaks))
            }
        },
        Format::All => {
            if leaks.len() == 0 {
                Err(ReconstructError::NoObservations)
            } else {
                Ok(all_lines(leaks))
            }
        },
        Format::Raw => Err(ReconstructError::NotImplemented),
    }
}

/// The `gaps` view of an observation set holds exactly one line per
/// candidate per unknown position: its line count is the sum of the unknown
/// positions' candidate-set sizes.
pub proof fn lemma_gaps_view_count(s: Seq<(usize, char)>)
    ensures
        gaps_lines_spec(s).len() == sum_sizes(unknown_groups(s)),
{
    lemma_gaps_line_count(unknown_groups(s), template(s));
}

/// The `all` view of an observation set holds exactly one line per pick:
/// its line count is the product of the unknown positions' candidate-set
/// sizes.
pub proof fn lemma_all_view_count(s: Seq<(usize, char)>)
    ensures
        all_lines_spec(s).len() == prod_sizes(unknown_groups(s)),
{
    lemma_product_len(unknown_groups(s));
}

/// A copy of a character vector.
fn copy_chars(v: &Vec<char>) -> (r: Vec<char>)
    ensures
        r@ == v@,
{
    let mut out: Vec<char> = Vec::new();
    let mut k: usize = 0;
    while k < v.len()
        invariant
            k <= v@.len(),
            out@ == v@.take(k as int),
        decreases v@.len() - k,
    {
        out.push(v[k]);
        assert(out@ =~= v@.take(k + 1int));
        k = k + 1;
    }
    assert(v@.take(v@.len() as int) =~= v@);
    out
}

} // verus!
