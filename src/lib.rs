//! Detection of homopolymer runs: maximal stretches of one repeated symbol in a
//! byte sequence, filtered by a minimum length and, in strict mode, by being a
//! canonical nucleotide.

pub mod extension;
pub mod scan;
pub mod theorems;

pub use extension::{check_fasta, is_fasta_extension};
pub use scan::{
    find_homopolymers_in_record, maximal_run_end, next_homopolymer, u8_to_char, valid_homopolymer,
    Homopolymer,
};
