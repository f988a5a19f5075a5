use vstd::prelude::*;

verus! {

/// The extension of a path, as the standard library's path rules of the build
/// target find it: the bytes after the final `.` of the path's file name.
pub uninterp spec fn path_extension(path: Seq<char>) -> Option<Seq<u8>>;

/// Relies on `std::path::Path::extension`: the extension of the path's file
/// name, or `None` where it has no file name or no embedded `.`. The result
/// depends on the path alone.
#[verifier::external_body]
fn file_extension(path: &str) -> (r: Option<Vec<u8>>)
    ensures
        match r {
            Some(e) => path_extension(path@) == Some(e@),
            None => path_extension(path@) is None,
        },
{
    match std::path::Path::new(path).extension() {
        Some(e) => Some(e.as_encoded_bytes().to_vec()),
        None => None,
    }
}

/// The extensions of an uncompressed FASTA file: `fasta`, `fna` and `fa`
/// (ASCII codes `f` 102, `a` 97, `s` 115, `t` 116, `n` 110).
pub open spec fn fasta_extension(e: Seq<u8>) -> bool {
    e == seq![102u8, 97u8, 115u8, 116u8, 97u8] || e == seq![102u8, 110u8, 97u8] || e == seq![
        102u8,
        97u8,
    ]
}

/// Whether the bytes `ext` are one of the FASTA extensions.
pub fn is_fasta_extension(ext: &[u8]) -> (r: bool)
    ensures
        r == fasta_extension(ext@),
{
    let n = ext.len();
    if n == 5 && ext[0] == 102 && ext[1] == 97 && ext[2] == 115 && ext[3] == 116 && ext[4] == 97 {
        assert(ext@ =~= seq![102u8, 97u8, 115u8, 116u8, 97u8]);
        true
    } else if n == 3 && ext[0] == 102 && ext[1] == 110 && ext[2] == 97 {
        assert(ext@ =~= seq![102u8, 110u8, 97u8]);
        true
    } else if n == 2 && ext[0] == 102 && ext[1] == 97 {
        assert(ext@ =~= seq![102u8, 97u8]);
        true
    } else {
        false
    }
}

/// Whether the path `fasta` names an uncompressed FASTA file by its extension.
pub fn check_fasta(fasta: &str) -> (r: bool)
    ensures
        r == (path_extension(fasta@) matches Some(e) && fasta_extension(e)),
{
    match file_extension(fasta) {
        Some(e) => is_fasta_extension(e.as_slice()),
        None => false,
    }
}

} // verus!
