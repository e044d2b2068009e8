//! Deciding how an input file is read: a path whose final suffix is `.gz`
//! is gzip-compressed, anything else is plain text.

use vstd::prelude::*;

verus! {

/// The two source formats an input path can name.
#[derive(Clone, Copy, Debug, PartialEq, Eq, Structural)]
pub enum SourceKind {
    PlainText,
    GzipCompressed,
}

/// A character sequence ends with the gzip suffix `.gz` (case-sensitive).
pub open spec fn spec_is_gz(s: Seq<char>) -> bool {
    s.len() >= 3 && s.subrange(s.len() - 3, s.len() as int) == ".gz"@
}

/// The source format implied by a path: gzip-compressed exactly when the
/// path ends with `.gz`.
pub open spec fn spec_source_kind(s: Seq<char>) -> SourceKind {
    if spec_is_gz(s) {
        SourceKind::GzipCompressed
    } else {
        SourceKind::PlainText
    }
}

/// Does the path name a gzip-compressed file, i.e. end with `.gz`?
pub fn path_is_gz(path: &str) -> (r: bool)
    ensures
        r == spec_is_gz(path@),
{
    proof {
        reveal_strlit(".gz");
    }
    let n = path.unicode_len();
    if n < 3 {
        return false;
    }
    let c1 = path.get_char(n - 3);
    let c2 = path.get_char(n - 2);
    let c3 = path.get_char(n - 1);
    let r = c1 == '.' && c2 == 'g' && c3 == 'z';
    proof {
        if r {
            assert(path@.subrange(path@.len() - 3, path@.len() as int) =~= ".gz"@);
        } else {
            assert(path@.subrange(path@.len() - 3, path@.len() as int) != ".gz"@) by {
                if path@.subrange(path@.len() - 3, path@.len() as int) == ".gz"@ {
                    assert(path@.subrange(path@.len() - 3, path@.len() as int)[0] == '.');
                    assert(path@.subrange(path@.len() - 3, path@.len() as int)[1] == 'g');
                    assert(path@.subrange(path@.len() - 3, path@.len() as int)[2] == 'z');
                }
            }
        }
    }
    r
}

/// Classify a path into the source format used to read it.
pub fn source_kind_of(path: &str) -> (k: SourceKind)
    ensures
        k == spec_source_kind(path@),
{
    if path_is_gz(path) {
        SourceKind::GzipCompressed
    } else {
        SourceKind::PlainText
    }
}

} // verus!
