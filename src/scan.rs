use vstd::prelude::*;

verus! {

/// ASCII codes of the canonical nucleotides, upper and lower case.
pub const UPPER_A: u8 = 65;
pub const UPPER_C: u8 = 67;
pub const UPPER_G: u8 = 71;
pub const UPPER_T: u8 = 84;
pub const LOWER_A: u8 = 97;
pub const LOWER_C: u8 = 99;
pub const LOWER_G: u8 = 103;
pub const LOWER_T: u8 = 116;

/// The eight canonical nucleotide codes: `A`, `T`, `C`, `G` and their
/// soft-masked (lowercase) forms.
pub open spec fn is_nucleotide(b: u8) -> bool {
    b == UPPER_A || b == UPPER_T || b == UPPER_C || b == UPPER_G || b == LOWER_A || b == LOWER_T
        || b == LOWER_C || b == LOWER_G
}

/// Whether the run `[start, end)` of symbol `nt` is reported: it is long enough,
/// and in strict mode its symbol is a canonical nucleotide.
pub open spec fn qualifies(start: int, end: int, nt: u8, min_hp_len: int, strict: bool) -> bool {
    end - start >= min_hp_len && (!strict || is_nucleotide(nt))
}

/// End (exclusive) of the run of the symbol `s[i]` that starts at `i` and extends
/// as far right as that symbol repeats.
pub open spec fn run_end(s: Seq<u8>, i: int) -> int
    decreases s.len() - i,
{
    if 0 <= i && i + 1 < s.len() && s[i + 1] == s[i] {
        run_end(s, i + 1)
    } else {
        i + 1
    }
}

/// The partition of `s[i..]` into runs of one repeated symbol, each as long as
/// it can be, as `(start, end)` intervals from left to right.
pub open spec fn maximal_runs_from(s: Seq<u8>, i: int) -> Seq<(int, int)>
    decreases s.len() - i,
    via maximal_runs_from_decreases
{
    if 0 <= i < s.len() {
        seq![(i, run_end(s, i))] + maximal_runs_from(s, run_end(s, i))
    } else {
        seq![]
    }
}

#[via_fn]
proof fn maximal_runs_from_decreases(s: Seq<u8>, i: int) {
    if 0 <= i < s.len() {
        lemma_run_end(s, i);
    }
}

/// The maximal runs of the whole of `s`.
pub open spec fn maximal_runs(s: Seq<u8>) -> Seq<(int, int)> {
    maximal_runs_from(s, 0)
}

/// The reported runs of `s[i..]`, as `(start, end, symbol)`: the maximal runs
/// from `i` on that qualify, from left to right.
pub open spec fn homopolymers_from(s: Seq<u8>, i: int, min_hp_len: int, strict: bool) -> Seq<
    (int, int, u8),
>
    decreases s.len() - i,
    via homopolymers_from_decreases
{
    if 0 <= i < s.len() {
        let e = run_end(s, i);
        let rest = homopolymers_from(s, e, min_hp_len, strict);
        if qualifies(i, e, s[i], min_hp_len, strict) {
            seq![(i, e, s[i])] + rest
        } else {
            rest
        }
    } else {
        seq![]
    }
}

#[via_fn]
proof fn homopolymers_from_decreases(s: Seq<u8>, i: int, min_hp_len: int, strict: bool) {
    if 0 <= i < s.len() {
        lemma_run_end(s, i);
    }
}

/// The reported runs of the whole of `s`.
pub open spec fn homopolymers(s: Seq<u8>, min_hp_len: int, strict: bool) -> Seq<(int, int, u8)> {
    homopolymers_from(s, 0, min_hp_len, strict)
}

/// A run extends past its start, stays within `s`, holds only its first symbol,
/// and is followed by a different symbol or by the end of `s`.
pub proof fn lemma_run_end(s: Seq<u8>, i: int)
    requires
        0 <= i < s.len(),
    ensures
        i < run_end(s, i) <= s.len(),
        forall|p: int| i <= p < run_end(s, i) ==> s[p] == s[i],
        run_end(s, i) < s.len() ==> s[run_end(s, i)] != s[i],
    decreases s.len() - i,
{
    if i + 1 < s.len() && s[i + 1] == s[i] {
        lemma_run_end(s, i + 1);
    }
}

/// Where fewer than `min_hp_len` positions remain, no run can be reported.
pub proof fn lemma_short_tail(s: Seq<u8>, i: int, min_hp_len: int, strict: bool)
    requires
        0 <= i,
        s.len() - i < min_hp_len,
    ensures
        homopolymers_from(s, i, min_hp_len, strict) == Seq::<(int, int, u8)>::empty(),
    decreases s.len() - i,
{
    if i < s.len() {
        lemma_run_end(s, i);
        lemma_short_tail(s, run_end(s, i), min_hp_len, strict);
    }
}

/// Every reported run of `s[i..]` lies within `s[i..]`, is non-empty and
/// qualifies.
pub proof fn lemma_homopolymers_from_bounds(s: Seq<u8>, i: int, min_hp_len: int, strict: bool)
    requires
        0 <= i,
    ensures
        forall|k: int|
            0 <= k < homopolymers_from(s, i, min_hp_len, strict).len() ==> {
                let h = #[trigger] homopolymers_from(s, i, min_hp_len, strict)[k];
                &&& i <= h.0 < h.1 <= s.len()
                &&& h.2 == s[h.0]
                &&& qualifies(h.0, h.1, h.2, min_hp_len, strict)
            },
    decreases s.len() - i,
{
    if i < s.len() {
        let e = run_end(s, i);
        lemma_run_end(s, i);
        lemma_homopolymers_from_bounds(s, e, min_hp_len, strict);
        let rest = homopolymers_from(s, e, min_hp_len, strict);
        if qualifies(i, e, s[i], min_hp_len, strict) {
            assert forall|k: int| 1 <= k < rest.len() + 1 implies homopolymers_from(
                s,
                i,
                min_hp_len,
                strict,
            )[k] == rest[k - 1] by {}
        }
    }
}

/// Resuming a scan at the end of the first reported run yields the remaining
/// reported runs.
pub proof fn lemma_resume_after_first(s: Seq<u8>, i: int, min_hp_len: int, strict: bool)
    requires
        0 <= i,
        homopolymers_from(s, i, min_hp_len, strict).len() > 0,
    ensures
        homopolymers_from(s, homopolymers_from(s, i, min_hp_len, strict)[0].1, min_hp_len, strict)
            == homopolymers_from(s, i, min_hp_len, strict).drop_first(),
    decreases s.len() - i,
{
    lemma_run_end(s, i);
    let e = run_end(s, i);
    if !qualifies(i, e, s[i], min_hp_len, strict) {
        lemma_resume_after_first(s, e, min_hp_len, strict);
    } else {
        assert(homopolymers_from(s, i, min_hp_len, strict).drop_first() =~= homopolymers_from(
            s,
            e,
            min_hp_len,
            strict,
        ));
    }
}

/// The nucleotide character for a canonical base byte, `None` for any other byte.
pub fn u8_to_char(nt: &u8) -> (r: Option<char>)
    ensures
        r is Some <==> is_nucleotide(*nt),
        r matches Some(c) ==> c as u32 == *nt as u32,
{
    let b = *nt;
    if b == UPPER_A {
        Some('A')
    } else if b == UPPER_T {
        Some('T')
    } else if b == UPPER_C {
        Some('C')
    } else if b == UPPER_G {
        Some('G')
    } else if b == LOWER_A {
        Some('a')
    } else if b == LOWER_T {
        Some('t')
    } else if b == LOWER_C {
        Some('c')
    } else if b == LOWER_G {
        Some('g')
    } else {
        None
    }
}

/// Whether the run `[i, j)` of symbol `nt` is reported under the given minimum
/// length and mode.
pub fn valid_homopolymer(i: usize, j: usize, nt: &u8, min_hp_len: usize, strict: bool) -> (r: bool)
    requires
        i <= j,
    ensures
        r == qualifies(i as int, j as int, *nt, min_hp_len as int, strict),
{
    let valid_len = j - i >= min_hp_len;
    match (strict, u8_to_char(nt)) {
        (false, _) => valid_len,
        (true, Some(_)) => valid_len,
        (true, None) => false,
    }
}

/// A reported run: positions `start` (inclusive) to `end` (exclusive) of a
/// sequence, all holding the byte `nt`.
#[derive(Clone, Copy, Debug, PartialEq, Eq, Structural)]
pub struct Homopolymer {
    pub start: usize,
    pub end: usize,
    pub nt: u8,
}

impl View for Homopolymer {
    type V = (int, int, u8);

    open spec fn view(&self) -> (int, int, u8) {
        (self.start as int, self.end as int, self.nt)
    }
}

impl Homopolymer {
    /// Number of positions in the run.
    pub fn length(&self) -> (r: usize)
        requires
            self.start <= self.end,
        ensures
            r == self.end - self.start,
    {
        self.end - self.start
    }
}

/// The view of each run in `v`, in order.
pub open spec fn views(v: Seq<Homopolymer>) -> Seq<(int, int, u8)> {
    v.map_values(|h: Homopolymer| h@)
}

/// End (exclusive) of the run of `seq[i]` that starts at `i`.
pub fn maximal_run_end(seq: &[u8], i: usize) -> (j: usize)
    requires
        i < seq@.len(),
    ensures
        j == run_end(seq@, i as int),
{
    let n = seq.len();
    let mut j: usize = i + 1;
    while j < n && seq[j] == seq[i]
        invariant
            n == seq@.len(),
            i < j <= n,
            seq@[j - 1] == seq@[i as int],
            run_end(seq@, i as int) == run_end(seq@, j - 1),
        decreases n - j,
    {
        j = j + 1;
    }
    j
}

/// The first reported run of `seq[from..]`, or `None` where there is none. A
/// caller streams all runs of a sequence by starting at 0 and resuming at the
/// `end` of each run returned.
pub fn next_homopolymer(seq: &[u8], from: usize, min_hp_len: usize, strict: bool) -> (r: Option<
    Homopolymer,
>)
    requires
        min_hp_len >= 1,
    ensures
        r is None <==> homopolymers_from(seq@, from as int, min_hp_len as int, strict).len() == 0,
        r matches Some(h) ==> h@ == homopolymers_from(seq@, from as int, min_hp_len as int, strict)[0],
{
    let seq_len = seq.len();
    if seq_len < min_hp_len {
        proof {
            lemma_short_tail(seq@, from as int, min_hp_len as int, strict);
        }
        return None;
    }
    let mut i: usize = from;
    while i <= seq_len - min_hp_len
        invariant
            seq_len == seq@.len(),
            1 <= min_hp_len <= seq_len,
            from <= i,
            homopolymers_from(seq@, from as int, min_hp_len as int, strict) == homopolymers_from(
                seq@,
                i as int,
                min_hp_len as int,
                strict,
            ),
        decreases seq_len - i,
    {
        let j = maximal_run_end(seq, i);
        proof {
            lemma_run_end(seq@, i as int);
        }
        if valid_homopolymer(i, j, &seq[i], min_hp_len, strict) {
            return Some(Homopolymer { start: i, end: j, nt: seq[i] });
        }
        i = j;
    }
    proof {
        lemma_short_tail(seq@, i as int, min_hp_len as int, strict);
    }
    None
}

/// All reported runs of `seq`, from left to right.
pub fn find_homopolymers_in_record(seq: &[u8], min_hp_len: usize, strict: bool) -> (r: Vec<
    Homopolymer,
>)
    requires
        min_hp_len >= 1,
    ensures
        views(r@) == homopolymers(seq@, min_hp_len as int, strict),
        seq@.len() < min_hp_len ==> r@.len() == 0,
{
    let mut out: Vec<Homopolymer> = Vec::new();
    let mut pos: usize = 0;
    loop
        invariant
            pos <= seq@.len(),
            min_hp_len >= 1,
            views(out@) + homopolymers_from(seq@, pos as int, min_hp_len as int, strict)
                == homopolymers(seq@, min_hp_len as int, strict),
        ensures
            views(out@) == homopolymers(seq@, min_hp_len as int, strict),
        decreases seq@.len() - pos,
    {
        match next_homopolymer(seq, pos, min_hp_len, strict) {
            None => {
                assert(views(out@) + homopolymers_from(
                    seq@,
                    pos as int,
                    min_hp_len as int,
                    strict,
                ) =~= views(out@));
                break ;
            },
            Some(h) => {
                let ghost rest = homopolymers_from(seq@, pos as int, min_hp_len as int, strict);
                proof {
                    lemma_homopolymers_from_bounds(seq@, pos as int, min_hp_len as int, strict);
                    lemma_resume_after_first(seq@, pos as int, min_hp_len as int, strict);
                }
                let ghost before = out@;
                out.push(h);
                proof {
                    assert(views(out@) =~= views(before).push(h@));
                    assert(views(out@) + rest.drop_first() =~= views(before) + rest);
                }
                pos = h.end;
            },
        }
    }
    proof {
        if seq@.len() < min_hp_len {
            lemma_short_tail(seq@, 0, min_hp_len as int, strict);
        }
    }
    out
}

} // verus!
