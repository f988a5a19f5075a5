use homopolymers::{
    find_homopolymers_in_record, maximal_run_end, next_homopolymer, u8_to_char,
    valid_homopolymer, Homopolymer,
};

fn run(start: usize, end: usize, nt: u8) -> Homopolymer {
    Homopolymer { start, end, nt }
}

#[test]
fn permissive_reports_single_long_run() {
    let r = find_homopolymers_in_record(b"AAAAT", 4, false);
    assert_eq!(r, vec![run(0, 4, b'A')]);
    assert_eq!(r[0].length(), 4);
}

#[test]
fn permissive_reports_any_symbol() {
    let r = find_homopolymers_in_record(b"NNNNNAAAAA", 5, false);
    assert_eq!(r, vec![run(0, 5, b'N'), run(5, 10, b'A')]);
    let p = find_homopolymers_in_record(b"xx*****yy", 5, false);
    assert_eq!(p, vec![run(2, 7, b'*')]);
}

#[test]
fn strict_suppresses_non_nucleotide_runs() {
    let r = find_homopolymers_in_record(b"NNNNNAAAAA", 5, true);
    assert_eq!(r, vec![run(5, 10, b'A')]);
}

#[test]
fn strict_accepts_soft_masked_runs() {
    let r = find_homopolymers_in_record(b"gggggg", 5, true);
    assert_eq!(r, vec![run(0, 6, b'g')]);
    let upper = find_homopolymers_in_record(b"GGGGGG", 5, true);
    assert_eq!(upper, vec![run(0, 6, b'G')]);
    let mixed = find_homopolymers_in_record(b"tttttTTTTT", 5, true);
    assert_eq!(mixed, vec![run(0, 5, b't'), run(5, 10, b'T')]);
}

#[test]
fn short_sequences_yield_nothing() {
    for strict in [false, true] {
        assert!(find_homopolymers_in_record(b"AAAA", 5, strict).is_empty());
        assert!(find_homopolymers_in_record(b"", 5, strict).is_empty());
        assert!(find_homopolymers_in_record(b"", 1, strict).is_empty());
    }
}

#[test]
fn no_overlap_and_no_omission() {
    let r = find_homopolymers_in_record(b"AATTTCCCCGG", 3, false);
    assert_eq!(r, vec![run(2, 5, b'T'), run(5, 9, b'C')]);
}

#[test]
fn trailing_short_run_is_not_reported() {
    let r = find_homopolymers_in_record(b"CCCCCAAAA", 5, false);
    assert_eq!(r, vec![run(0, 5, b'C')]);
    let end = find_homopolymers_in_record(b"ACGTTTTT", 5, true);
    assert_eq!(end, vec![run(3, 8, b'T')]);
}

#[test]
fn minimum_length_one_reports_every_run() {
    let r = find_homopolymers_in_record(b"AACGGG", 1, false);
    assert_eq!(r, vec![run(0, 2, b'A'), run(2, 3, b'C'), run(3, 6, b'G')]);
}

#[test]
fn repeated_scans_are_identical() {
    let seq = b"AAAAACCCCCNNNNNNtttttG";
    let first = find_homopolymers_in_record(seq, 5, true);
    let second = find_homopolymers_in_record(seq, 5, true);
    assert_eq!(first, second);
    assert_eq!(first, vec![run(0, 5, b'A'), run(5, 10, b'C'), run(16, 21, b't')]);
}

#[test]
fn maximal_runs_partition_the_sequence() {
    let seq = b"AATTTCCCCGG";
    let mut ends = Vec::new();
    let mut i = 0;
    while i < seq.len() {
        let j = maximal_run_end(seq, i);
        assert!(j > i);
        assert!(seq[i..j].iter().all(|b| *b == seq[i]));
        if j < seq.len() {
            assert_ne!(seq[j], seq[i]);
        }
        ends.push(j);
        i = j;
    }
    assert_eq!(ends, vec![2, 5, 9, 11]);
}

#[test]
fn streaming_matches_collected_runs() {
    let seq = b"GGGGGGNNNNNNNaaaaacT";
    let mut streamed = Vec::new();
    let mut from = 0;
    while let Some(h) = next_homopolymer(seq, from, 5, true) {
        streamed.push(h);
        from = h.end;
    }
    assert_eq!(streamed, find_homopolymers_in_record(seq, 5, true));
    assert_eq!(streamed, vec![run(0, 6, b'G'), run(13, 18, b'a')]);
    assert_eq!(next_homopolymer(seq, 18, 5, true), None);
}

#[test]
fn nucleotide_characters() {
    for (b, c) in [
        (b'A', 'A'),
        (b'T', 'T'),
        (b'C', 'C'),
        (b'G', 'G'),
        (b'a', 'a'),
        (b't', 't'),
        (b'c', 'c'),
        (b'g', 'g'),
    ] {
        assert_eq!(u8_to_char(&b), Some(c));
    }
    for b in [b'N', b'n', b'U', b'X', b'-', b'*', 0u8, 255u8] {
        assert_eq!(u8_to_char(&b), None);
    }
}

#[test]
fn validity_predicate() {
    assert!(valid_homopolymer(0, 5, &b'A', 5, true));
    assert!(!valid_homopolymer(0, 4, &b'A', 5, true));
    assert!(!valid_homopolymer(0, 5, &b'N', 5, true));
    assert!(valid_homopolymer(0, 5, &b'N', 5, false));
    assert!(!valid_homopolymer(3, 7, &b'N', 5, false));
    assert!(valid_homopolymer(2, 9, &b'c', 7, true));
}
