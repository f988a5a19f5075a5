use homopolymers::{check_fasta, is_fasta_extension};

#[test]
fn accepts_fasta_extensions() {
    assert!(check_fasta("genome.fasta"));
    assert!(check_fasta("data/genome.fna"));
    assert!(check_fasta("/tmp/reads.v2.fa"));
}

#[test]
fn rejects_other_paths() {
    assert!(!check_fasta("genome.fa.gz"));
    assert!(!check_fasta("genome.txt"));
    assert!(!check_fasta("genome"));
    assert!(!check_fasta(".fa"));
    assert!(!check_fasta("genome.FASTA"));
    assert!(!check_fasta(""));
}

#[test]
fn fasta_extension_bytes() {
    assert!(is_fasta_extension(b"fasta"));
    assert!(is_fasta_extension(b"fna"));
    assert!(is_fasta_extension(b"fa"));
    assert!(!is_fasta_extension(b"fas"));
    assert!(!is_fasta_extension(b"f"));
    assert!(!is_fasta_extension(b""));
    assert!(!is_fasta_extension(b"genome.fa"));
}
