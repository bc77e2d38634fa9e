//! The destination registry's directory: the path it will live at is fixed
//! up front --- made absolute against the working directory, with a leading
//! `./` or `.\` dropped and every backslash turned into a forward slash ---
//! so that the config pointer can embed it as a file URL.

use vstd::prelude::*;

use crate::bytestr::bytes_range;

verus! {

/// Every backslash turned into a forward slash.
pub open spec fn map_slash(s: Seq<u8>) -> Seq<u8> {
    s.map_values(
        |b: u8|
            if b == ('\\' as u8) {
                ('/' as u8)
            } else {
                b
            },
    )
}

/// A letter, upper or lower case.
pub open spec fn is_letter(b: u8) -> bool {
    (('a' as u8) <= b <= ('z' as u8)) || (('A' as u8) <= b <= ('Z' as u8))
}

/// An absolute path: it starts with a slash, or with a drive letter, a
/// colon and a separator.
pub open spec fn is_absolute_path(p: Seq<u8>) -> bool {
    ||| p.len() >= 1 && p[0] == ('/' as u8)
    ||| p.len() >= 3 && is_letter(p[0]) && p[1] == (':' as u8) && (p[2] == ('/' as u8) || p[2] == (
        '\\' as u8))
}

/// The normalized destination path: an absolute path is kept; any other is
/// taken relative to the working directory, with a leading `./` or `.\`
/// dropped first; backslashes become slashes throughout.
pub open spec fn normalize_path_model(p: Seq<u8>, cwd: Seq<u8>) -> Seq<u8> {
    if is_absolute_path(p) {
        map_slash(p)
    } else {
        let stripped = if p.len() >= 2 && p[0] == ('.' as u8) && (p[1] == ('/' as u8) || p[1] == (
            '\\' as u8)) {
            p.subrange(2, p.len() as int)
        } else {
            p
        };
        map_slash(cwd + seq![('/' as u8)] + stripped)
    }
}

/// The destination registry, at its normalized absolute path.
pub struct DstRegistry {
    path: Vec<u8>,
}

impl DstRegistry {
    pub closed spec fn spec_path(&self) -> Seq<u8> {
        self.path@
    }

    /// Fixes the destination directory's path, normalizing it against the
    /// given working directory.
    pub fn new(path: Vec<u8>, cwd: &Vec<u8>) -> (r: Self)
        ensures
            r.spec_path() == normalize_path_model(path@, cwd@),
    {
        let mut joined: Vec<u8> = Vec::new();
        let absolute = (path.len() >= 1 && path[0] == ('/' as u8)) || (path.len() >= 3 && ((('a'
            as u8) <= path[0] && path[0] <= ('z' as u8)) || (('A' as u8) <= path[0] && path[0] <= (
        'Z' as u8))) && path[1] == (':' as u8) && (path[2] == ('/' as u8) || path[2] == ('\\'
            as u8)));
        if absolute {
            joined = path;
        } else {
            let stripped = if path.len() >= 2 && path[0] == ('.' as u8) && (path[1] == ('/' as u8)
                || path[1] == ('\\' as u8)) {
                bytes_range(&path, 2, path.len())
            } else {
                path
            };
            let ghost cwdv = cwd@;
            let mut j: usize = 0;
            while j < cwd.len()
                invariant
                    j <= cwd@.len(),
                    joined@ =~= cwd@.subrange(0, j as int),
                decreases cwd@.len() - j,
            {
                joined.push(cwd[j]);
                proof {
                    assert(cwd@.subrange(0, j + 1 as int) =~= cwd@.subrange(0, j as int).push(
                        cwd@[j as int],
                    ));
                }
                j += 1;
            }
            proof {
                assert(cwd@.subrange(0, cwd@.len() as int) =~= cwd@);
            }
            joined.push('/' as u8);
            let mut k: usize = 0;
            while k < stripped.len()
                invariant
                    k <= stripped@.len(),
                    joined@ =~= cwd@ + seq![('/' as u8)] + stripped@.subrange(0, k as int),
                decreases stripped@.len() - k,
            {
                joined.push(stripped[k]);
                proof {
                    assert(stripped@.subrange(0, k + 1 as int) =~= stripped@.subrange(
                        0,
                        k as int,
                    ).push(stripped@[k as int]));
                }
                k += 1;
            }
            proof {
                assert(stripped@.subrange(0, stripped@.len() as int) =~= stripped@);
            }
        }
        let mut out: Vec<u8> = Vec::new();
        let mut i: usize = 0;
        while i < joined.len()
            invariant
                i <= joined@.len(),
                out@.len() == i,
                forall|j: int|
                    0 <= j < i ==> out@[j] == (if joined@[j] == ('\\' as u8) {
                        ('/' as u8)
                    } else {
                        joined@[j]
                    }),
            decreases joined@.len() - i,
        {
            let b = joined[i];
            if b == ('\\' as u8) {
                out.push('/' as u8);
            } else {
                out.push(b);
            }
            i += 1;
        }
        proof {
            assert(out@ =~= map_slash(joined@));
        }
        DstRegistry { path: out }
    }

    /// The normalized path, for the mirror writer.
    pub fn path(&self) -> (r: &Vec<u8>)
        ensures
            r@ == self.spec_path(),
    {
        &self.path
    }
}

} // verus!
