use vstd::prelude::*;

use crate::scan::{
    homopolymers, homopolymers_from, is_nucleotide, lemma_homopolymers_from_bounds,
    lemma_run_end, maximal_runs, maximal_runs_from, qualifies, run_end, views, Homopolymer,
};

verus! {

/// The maximal runs of `s[i..]` start at `i`, end at the end of `s`, follow one
/// another without gap, are non-empty, each hold one symbol, and neighbours hold
/// different symbols.
proof fn lemma_maximal_runs_from_partition(s: Seq<u8>, i: int)
    requires
        0 <= i < s.len(),
    ensures
        maximal_runs_from(s, i).len() > 0,
        maximal_runs_from(s, i)[0].0 == i,
        maximal_runs_from(s, i).last().1 == s.len(),
        forall|k: int|
            0 <= k < maximal_runs_from(s, i).len() ==> #[trigger] maximal_runs_from(s, i)[k].0
                < maximal_runs_from(s, i)[k].1,
        forall|k: int|
            0 <= k < maximal_runs_from(s, i).len() - 1 ==> (#[trigger] maximal_runs_from(s, i)[k]).1
                == maximal_runs_from(s, i)[k + 1].0 && s[maximal_runs_from(s, i)[k].0]
                != s[maximal_runs_from(s, i)[k + 1].0],
        forall|k: int, p: int|
            0 <= k < maximal_runs_from(s, i).len() && (#[trigger] maximal_runs_from(s, i)[k]).0 <= p
                < maximal_runs_from(s, i)[k].1 ==> #[trigger] s[p] == s[maximal_runs_from(
                s,
                i,
            )[k].0],
    decreases s.len() - i,
{
    lemma_run_end(s, i);
    let e = run_end(s, i);
    let r = maximal_runs_from(s, i);
    let rest = maximal_runs_from(s, e);
    if e < s.len() {
        lemma_maximal_runs_from_partition(s, e);
        assert forall|k: int| 1 <= k < r.len() implies r[k] == rest[k - 1] by {}
        assert(r.last() == rest.last());
        assert forall|k: int| 0 <= k < r.len() - 1 implies (#[trigger] r[k]).1 == r[k + 1].0 && s[r[k].0]
            != s[r[k + 1].0] by {
            if k > 0 {
                assert(r[k] == rest[k - 1]);
            }
        }
    } else {
        assert(r =~= seq![(i, e)]);
    }
}

/// Ignoring the filter, the maximal runs of a non-empty sequence partition it:
/// they cover every position from the first to the last, one after another,
/// each a non-empty stretch of a single symbol, and every two neighbouring runs
/// hold different symbols.
pub proof fn lemma_maximal_runs_partition(s: Seq<u8>)
    requires
        s.len() > 0,
    ensures
        maximal_runs(s).len() > 0,
        maximal_runs(s)[0].0 == 0,
        maximal_runs(s).last().1 == s.len(),
        forall|k: int|
            0 <= k < maximal_runs(s).len() ==> #[trigger] maximal_runs(s)[k].0 < maximal_runs(s)[k].1,
        forall|k: int|
            0 <= k < maximal_runs(s).len() - 1 ==> (#[trigger] maximal_runs(s)[k]).1 == maximal_runs(
                s,
            )[k + 1].0 && s[maximal_runs(s)[k].0] != s[maximal_runs(s)[k + 1].0],
        forall|k: int, p: int|
            0 <= k < maximal_runs(s).len() && (#[trigger] maximal_runs(s)[k]).0 <= p
                < maximal_runs(s)[k].1 ==> #[trigger] s[p] == s[maximal_runs(s)[k].0],
{
    lemma_maximal_runs_from_partition(s, 0);
}

/// The reported runs of `s[i..]` are exactly its qualifying maximal runs.
proof fn lemma_reported_from_iff(s: Seq<u8>, i: int, min_hp_len: int, strict: bool)
    requires
        0 <= i,
    ensures
        forall|k: int|
            0 <= k < maximal_runs_from(s, i).len() ==> i <= (#[trigger] maximal_runs_from(s, i)[k]).0
                < maximal_runs_from(s, i)[k].1 <= s.len(),
        forall|k: int|
            0 <= k < maximal_runs_from(s, i).len() ==> (homopolymers_from(
                s,
                i,
                min_hp_len,
                strict,
            ).contains(
                (
                    (#[trigger] maximal_runs_from(s, i)[k]).0,
                    maximal_runs_from(s, i)[k].1,
                    s[maximal_runs_from(s, i)[k].0],
                ),
            ) <==> qualifies(
                maximal_runs_from(s, i)[k].0,
                maximal_runs_from(s, i)[k].1,
                s[maximal_runs_from(s, i)[k].0],
                min_hp_len,
                strict,
            )),
        forall|j: int|
            0 <= j < homopolymers_from(s, i, min_hp_len, strict).len() ==> {
                let h = #[trigger] homopolymers_from(s, i, min_hp_len, strict)[j];
                maximal_runs_from(s, i).contains((h.0, h.1)) && h.2 == s[h.0]
            },
    decreases s.len() - i,
{
    if i < s.len() {
        lemma_run_end(s, i);
        let e = run_end(s, i);
        let runs = maximal_runs_from(s, i);
        let rest_runs = maximal_runs_from(s, e);
        let out = homopolymers_from(s, i, min_hp_len, strict);
        let rest = homopolymers_from(s, e, min_hp_len, strict);
        let q = qualifies(i, e, s[i], min_hp_len, strict);
        lemma_reported_from_iff(s, e, min_hp_len, strict);
        lemma_homopolymers_from_bounds(s, e, min_hp_len, strict);
        assert forall|k: int| 1 <= k < runs.len() implies runs[k] == rest_runs[k - 1] by {}
        if q {
            assert forall|j: int| 1 <= j < out.len() implies out[j] == rest[j - 1] by {}
        }
        assert forall|k: int| 0 <= k < runs.len() implies (out.contains(
            ((#[trigger] runs[k]).0, runs[k].1, s[runs[k].0]),
        ) <==> qualifies(runs[k].0, runs[k].1, s[runs[k].0], min_hp_len, strict)) by {
            let x = (runs[k].0, runs[k].1, s[runs[k].0]);
            if k == 0 {
                if q {
                    assert(out[0] == x);
                } else {
                    if out.contains(x) {
                        let j = choose|j: int| 0 <= j < out.len() && out[j] == x;
                        assert(rest[j] == out[j]);
                    }
                }
            } else {
                assert(runs[k] == rest_runs[k - 1]);
                if rest.contains(x) {
                    let j = choose|j: int| 0 <= j < rest.len() && rest[j] == x;
                    if q {
                        assert(out[j + 1] == x);
                    } else {
                        assert(out[j] == x);
                    }
                }
                if out.contains(x) {
                    let j = choose|j: int| 0 <= j < out.len() && out[j] == x;
                    if q {
                        if j == 0 {
                            assert(false);
                        } else {
                            assert(rest[j - 1] == x);
                        }
                    } else {
                        assert(rest[j] == x);
                    }
                }
            }
        }
        assert forall|j: int| 0 <= j < out.len() implies runs.contains(
            ((#[trigger] out[j]).0, out[j].1),
        ) && out[j].2 == s[out[j].0] by {
            if q && j == 0 {
                assert(runs[0] == (out[0].0, out[0].1));
            } else {
                let jr = if q {
                    j - 1
                } else {
                    j
                };
                assert(out[j] == rest[jr]);
                let kr = choose|kr: int|
                    0 <= kr < rest_runs.len() && rest_runs[kr] == (rest[jr].0, rest[jr].1);
                assert(runs[kr + 1] == rest_runs[kr]);
            }
        }
    }
}

/// The scan reports a maximal run exactly when it qualifies: when it is at
/// least `min_hp_len` long and, in strict mode, its symbol is a canonical
/// nucleotide. In permissive mode length alone decides. Every reported run is
/// one of the maximal runs, with its own symbol.
pub proof fn lemma_reported_iff_qualifies(s: Seq<u8>, min_hp_len: int, strict: bool)
    ensures
        forall|k: int|
            0 <= k < maximal_runs(s).len() ==> (homopolymers(s, min_hp_len, strict).contains(
                (
                    (#[trigger] maximal_runs(s)[k]).0,
                    maximal_runs(s)[k].1,
                    s[maximal_runs(s)[k].0],
                ),
            ) <==> maximal_runs(s)[k].1 - maximal_runs(s)[k].0 >= min_hp_len && (!strict
                || is_nucleotide(s[maximal_runs(s)[k].0]))),
        forall|j: int|
            0 <= j < homopolymers(s, min_hp_len, strict).len() ==> {
                let h = #[trigger] homopolymers(s, min_hp_len, strict)[j];
                maximal_runs(s).contains((h.0, h.1)) && h.2 == s[h.0]
            },
{
    lemma_reported_from_iff(s, 0, min_hp_len, strict);
}

/// The reported runs of `s[i..]` lie in it, hold one symbol each, and come in
/// increasing order without overlap.
proof fn lemma_reported_from_well_formed(s: Seq<u8>, i: int, min_hp_len: int, strict: bool)
    requires
        0 <= i,
    ensures
        forall|k: int, p: int|
            0 <= k < homopolymers_from(s, i, min_hp_len, strict).len() && (#[trigger] homopolymers_from(
                s,
                i,
                min_hp_len,
                strict,
            )[k]).0 <= p < homopolymers_from(s, i, min_hp_len, strict)[k].1 ==> #[trigger] s[p]
                == homopolymers_from(s, i, min_hp_len, strict)[k].2,
        forall|k: int|
            0 <= k < homopolymers_from(s, i, min_hp_len, strict).len() - 1 ==> (
            #[trigger] homopolymers_from(s, i, min_hp_len, strict)[k]).1 <= homopolymers_from(
                s,
                i,
                min_hp_len,
                strict,
            )[k + 1].0,
    decreases s.len() - i,
{
    if i < s.len() {
        lemma_run_end(s, i);
        let e = run_end(s, i);
        let out = homopolymers_from(s, i, min_hp_len, strict);
        let rest = homopolymers_from(s, e, min_hp_len, strict);
        lemma_reported_from_well_formed(s, e, min_hp_len, strict);
        lemma_homopolymers_from_bounds(s, e, min_hp_len, strict);
        if qualifies(i, e, s[i], min_hp_len, strict) {
            assert forall|k: int| 1 <= k < out.len() implies out[k] == rest[k - 1] by {}
            assert forall|k: int| 0 <= k < out.len() - 1 implies (#[trigger] out[k]).1 <= out[k
                + 1].0 by {
                if k > 0 {
                    assert(out[k] == rest[k - 1]);
                }
            }
        }
    }
}

/// Every reported run is a non-empty stretch of `s` at least `min_hp_len` long,
/// every position of which holds the run's symbol; the reported runs come in
/// increasing order of position, each ending no later than the next begins, so
/// no two overlap and none is reported twice.
pub proof fn lemma_reported_runs_well_formed(s: Seq<u8>, min_hp_len: int, strict: bool)
    ensures
        forall|k: int|
            0 <= k < homopolymers(s, min_hp_len, strict).len() ==> {
                let h = #[trigger] homopolymers(s, min_hp_len, strict)[k];
                0 <= h.0 < h.1 <= s.len() && h.1 - h.0 >= min_hp_len
            },
        forall|k: int, p: int|
            0 <= k < homopolymers(s, min_hp_len, strict).len() && (#[trigger] homopolymers(
                s,
                min_hp_len,
                strict,
            )[k]).0 <= p < homopolymers(s, min_hp_len, strict)[k].1 ==> #[trigger] s[p]
                == homopolymers(s, min_hp_len, strict)[k].2,
        forall|k: int|
            0 <= k < homopolymers(s, min_hp_len, strict).len() - 1 ==> (#[trigger] homopolymers(
                s,
                min_hp_len,
                strict,
            )[k]).1 <= homopolymers(s, min_hp_len, strict)[k + 1].0,
{
    lemma_homopolymers_from_bounds(s, 0, min_hp_len, strict);
    lemma_reported_from_well_formed(s, 0, min_hp_len, strict);
}

/// Soft-masked runs count as uppercase ones do: an uppercase ASCII letter is a
/// canonical nucleotide exactly when its lowercase form is, so in strict mode a
/// run qualifies with the lowercase symbol exactly when it does with the
/// uppercase one.
pub proof fn lemma_strict_case_insensitive(b: u8, start: int, end: int, min_hp_len: int)
    requires
        65 <= b <= 90,
    ensures
        is_nucleotide(b) == is_nucleotide((b + 32) as u8),
        qualifies(start, end, b, min_hp_len, true) == qualifies(
            start,
            end,
            (b + 32) as u8,
            min_hp_len,
            true,
        ),
{
}

/// Scanning the same sequence with the same settings twice gives identical
/// results: any two outcomes that both meet the scan's contract are equal,
/// run for run and field for field.
pub proof fn lemma_scan_deterministic(
    s: Seq<u8>,
    min_hp_len: int,
    strict: bool,
    first: Seq<Homopolymer>,
    second: Seq<Homopolymer>,
)
    requires
        views(first) == homopolymers(s, min_hp_len, strict),
        views(second) == homopolymers(s, min_hp_len, strict),
    ensures
        first == second,
{
    assert(first.len() == views(first).len());
    assert forall|k: int| 0 <= k < first.len() implies first[k] == second[k] by {
        assert(views(first)[k] == views(second)[k]);
    }
    assert(first =~= second);
}

} // verus!
