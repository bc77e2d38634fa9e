//! The mirror's on-disk layout: the index path for a package name, the
//! config pointer's contents, the archive download URL and the registry
//! blob path, together with the page arithmetic of the top-downloads query,
//! the destination-directory path normalization, and the command-line
//! surface the program offers.

use vstd::prelude::*;

verus! {

/// An upper-case ASCII letter lowered; any other byte unchanged.
pub open spec fn lower_byte(b: u8) -> u8 {
    if ('A' as u8) <= b <= ('Z' as u8) {
        (b + 32) as u8
    } else {
        b
    }
}

/// The byte string lowered, byte for byte.
pub open spec fn lower_model(s: Seq<u8>) -> Seq<u8> {
    s.map_values(|b: u8| lower_byte(b))
}

/// Lowers a byte string's ASCII letters.
pub fn lower_bytes(s: &Vec<u8>) -> (r: Vec<u8>)
    ensures
        r@ == lower_model(s@),
{
    let mut r: Vec<u8> = Vec::new();
    let mut i: usize = 0;
    while i < s.len()
        invariant
            i <= s@.len(),
            r@.len() == i,
            forall|j: int| 0 <= j < i ==> r@[j] == lower_byte(s@[j]),
        decreases s@.len() - i,
    {
        let b = s[i];
        if ('A' as u8) <= b && b <= ('Z' as u8) {
            r.push(b + 32);
        } else {
            r.push(b);
        }
        i += 1;
    }
    proof {
        assert(r@ =~= lower_model(s@));
    }
    r
}

/// Where a package's index file lives under the index directory, relative:
/// one- to three-letter names use the literal directories `1`, `2` and `3`
/// (three-letter names with the first letter as a subdirectory), longer
/// names use their first two letters, then the next two; the file itself is
/// the lowercased name.
pub open spec fn index_rel_path_model(name: Seq<u8>) -> Seq<u8> {
    let ln = lower_model(name);
    if ln.len() == 1 {
        seq![('1' as u8), ('/' as u8)] + ln
    } else if ln.len() == 2 {
        seq![('2' as u8), ('/' as u8)] + ln
    } else if ln.len() == 3 {
        seq![('3' as u8), ('/' as u8)] + ln.subrange(0, 1) + seq![('/' as u8)] + ln
    } else {
        ln.subrange(0, 2) + seq![('/' as u8)] + ln.subrange(2, 4) + seq![('/' as u8)] + ln
    }
}

/// Computes the index file path of a package, relative to the index
/// directory.
pub fn crate_index_rel_path(name: &Vec<u8>) -> (r: Vec<u8>)
    requires
        name@.len() >= 1,
    ensures
        r@ == index_rel_path_model(name@),
{
    let ln = lower_bytes(name);
    let mut r: Vec<u8> = Vec::new();
    if ln.len() == 1 {
        r.push('1' as u8);
        r.push('/' as u8);
        r.push(ln[0]);
        proof {
            assert(r@ =~= index_rel_path_model(name@));
        }
    } else if ln.len() == 2 {
        r.push('2' as u8);
        r.push('/' as u8);
        r.push(ln[0]);
        r.push(ln[1]);
        proof {
            assert(r@ =~= index_rel_path_model(name@));
        }
    } else if ln.len() == 3 {
        r.push('3' as u8);
        r.push('/' as u8);
        r.push(ln[0]);
        r.push('/' as u8);
        r.push(ln[0]);
        r.push(ln[1]);
        r.push(ln[2]);
        proof {
            assert(r@ =~= index_rel_path_model(name@));
        }
    } else {
        r.push(ln[0]);
        r.push(ln[1]);
        r.push('/' as u8);
        r.push(ln[2]);
        r.push(ln[3]);
        r.push('/' as u8);
        let mut i: usize = 0;
        while i < ln.len()
            invariant
                i <= ln@.len(),
                ln@.len() >= 4,
                r@ =~= ln@.subrange(0, 2) + seq![('/' as u8)] + ln@.subrange(2, 4) + seq![
                    ('/' as u8),
                ] + ln@.subrange(0, i as int),
            decreases ln@.len() - i,
        {
            r.push(ln[i]);
            proof {
                assert(ln@.subrange(0, i + 1 as int) =~= ln@.subrange(0, i as int).push(
                    ln@[i as int],
                ));
            }
            i += 1;
        }
        proof {
            assert(ln@.subrange(0, ln@.len() as int) =~= ln@);
            assert(r@ =~= index_rel_path_model(name@));
        }
    }
    r
}

/// The contents of the index's config pointer: a JSON object whose `dl` key
/// points at the registry directory under the mirror, as a file URL.
pub open spec fn config_json_model(mirror_dir: Seq<u8>) -> Seq<u8> {
    seq![('{' as u8), ('\n' as u8), (' ' as u8), (' ' as u8), (' ' as u8), (' ' as u8), ('\"' as u8), ('d' as u8), ('l' as u8), ('\"' as u8), (':' as u8), (' ' as u8), ('\"' as u8), ('f' as u8), ('i' as u8), ('l' as u8), ('e' as u8), (':' as u8), ('/' as u8), ('/' as u8)] + mirror_dir + seq![('/' as u8), ('r' as u8), ('e' as u8), ('g' as u8), ('i' as u8), ('s' as u8), ('t' as u8), ('r' as u8), ('y' as u8), ('\"' as u8), ('\n' as u8), ('}' as u8)]
}

/// Writes the config pointer for a mirror directory.
pub fn config_json_contents(mirror_dir: &Vec<u8>) -> (r: Vec<u8>)
    ensures
        r@ == config_json_model(mirror_dir@),
{
    let mut r: Vec<u8> = Vec::new();
    r.push('{' as u8);
    r.push('\n' as u8);
    r.push(' ' as u8);
    r.push(' ' as u8);
    r.push(' ' as u8);
    r.push(' ' as u8);
    r.push('\"' as u8);
    r.push('d' as u8);
    r.push('l' as u8);
    r.push('\"' as u8);
    r.push(':' as u8);
    r.push(' ' as u8);
    r.push('\"' as u8);
    r.push('f' as u8);
    r.push('i' as u8);
    r.push('l' as u8);
    r.push('e' as u8);
    r.push(':' as u8);
    r.push('/' as u8);
    r.push('/' as u8);
    append_bytes(&mut r, mirror_dir);
    r.push('/' as u8);
    r.push('r' as u8);
    r.push('e' as u8);
    r.push('g' as u8);
    r.push('i' as u8);
    r.push('s' as u8);
    r.push('t' as u8);
    r.push('r' as u8);
    r.push('y' as u8);
    r.push('\"' as u8);
    r.push('\n' as u8);
    r.push('}' as u8);
    proof {
        assert(r@ =~= config_json_model(mirror_dir@));
    }
    r
}

/// The URL an archive blob is fetched from.
pub open spec fn download_url_model(name: Seq<u8>, version: Seq<u8>) -> Seq<u8> {
    seq![('h' as u8), ('t' as u8), ('t' as u8), ('p' as u8), ('s' as u8), (':' as u8), ('/' as u8), ('/' as u8), ('s' as u8), ('t' as u8), ('a' as u8), ('t' as u8), ('i' as u8), ('c' as u8), ('.' as u8), ('c' as u8), ('r' as u8), ('a' as u8), ('t' as u8), ('e' as u8), ('s' as u8), ('.' as u8), ('i' as u8), ('o' as u8), ('/' as u8), ('c' as u8), ('r' as u8), ('a' as u8), ('t' as u8), ('e' as u8), ('s' as u8), ('/' as u8)] + name + seq![('/' as u8)] + name + seq![('-' as u8)] + version + seq![('.' as u8), ('c' as u8), ('r' as u8), ('a' as u8), ('t' as u8), ('e' as u8)]
}

/// Writes the archive URL for a release.
pub fn download_url(name: &Vec<u8>, version: &Vec<u8>) -> (r: Vec<u8>)
    ensures
        r@ == download_url_model(name@, version@),
{
    let mut r: Vec<u8> = Vec::new();
    r.push('h' as u8);
    r.push('t' as u8);
    r.push('t' as u8);
    r.push('p' as u8);
    r.push('s' as u8);
    r.push(':' as u8);
    r.push('/' as u8);
    r.push('/' as u8);
    r.push('s' as u8);
    r.push('t' as u8);
    r.push('a' as u8);
    r.push('t' as u8);
    r.push('i' as u8);
    r.push('c' as u8);
    r.push('.' as u8);
    r.push('c' as u8);
    r.push('r' as u8);
    r.push('a' as u8);
    r.push('t' as u8);
    r.push('e' as u8);
    r.push('s' as u8);
    r.push('.' as u8);
    r.push('i' as u8);
    r.push('o' as u8);
    r.push('/' as u8);
    r.push('c' as u8);
    r.push('r' as u8);
    r.push('a' as u8);
    r.push('t' as u8);
    r.push('e' as u8);
    r.push('s' as u8);
    r.push('/' as u8);
    append_bytes(&mut r, name);
    r.push('/' as u8);
    append_bytes(&mut r, name);
    r.push('-' as u8);
    append_bytes(&mut r, version);
    r.push('.' as u8);
    r.push('c' as u8);
    r.push('r' as u8);
    r.push('a' as u8);
    r.push('t' as u8);
    r.push('e' as u8);
    proof {
        assert(r@ =~= download_url_model(name@, version@));
    }
    r
}

/// Where a release's archive blob lives under the registry directory,
/// relative.
pub open spec fn registry_rel_path_model(name: Seq<u8>, version: Seq<u8>) -> Seq<u8> {
    name + seq![('/' as u8)] + version + seq![('/' as u8), ('d' as u8), ('o' as u8), ('w' as u8), ('n' as u8), ('l' as u8), ('o' as u8), ('a' as u8), ('d' as u8)]
}

/// Computes the blob path of a release, relative to the registry directory.
pub fn registry_rel_path(name: &Vec<u8>, version: &Vec<u8>) -> (r: Vec<u8>)
    ensures
        r@ == registry_rel_path_model(name@, version@),
{
    let mut r: Vec<u8> = Vec::new();
    append_bytes(&mut r, name);
    r.push('/' as u8);
    append_bytes(&mut r, version);
    r.push('/' as u8);
    r.push('d' as u8);
    r.push('o' as u8);
    r.push('w' as u8);
    r.push('n' as u8);
    r.push('l' as u8);
    r.push('o' as u8);
    r.push('a' as u8);
    r.push('d' as u8);
    proof {
        assert(r@ =~= registry_rel_path_model(name@, version@));
    }
    r
}

/// Appends a byte string.
fn append_bytes(r: &mut Vec<u8>, s: &Vec<u8>)
    ensures
        final(r)@ == old(r)@ + s@,
{
    let mut i: usize = 0;
    while i < s.len()
        invariant
            i <= s@.len(),
            r@ =~= old(r)@ + s@.subrange(0, i as int),
        decreases s@.len() - i,
    {
        r.push(s[i]);
        proof {
            assert(s@.subrange(0, i + 1 as int) =~= s@.subrange(0, i as int).push(s@[i as int]));
        }
        i += 1;
    }
    proof {
        assert(s@.subrange(0, s@.len() as int) =~= s@);
        assert(r@ =~= old(r)@ + s@);
    }
}

/// How many pages of the given size cover `n` items, and whether the last
/// page is partial, so the results must be trimmed to `n`.
pub fn pages_needed(n: u64, page_size: u64) -> (r: (u64, bool))
    requires
        page_size >= 1,
    ensures
        r.1 == (n % page_size != 0),
        r.0 == n / page_size + if n % page_size != 0 {
            1u64
        } else {
            0u64
        },
{
    let q = n / page_size;
    if n % page_size != 0 {
        proof {
            assert(n / page_size < 0xFFFFFFFFFFFFFFFF) by (nonlinear_arith)
                requires
                    page_size >= 2,
                    n <= 0xFFFFFFFFFFFFFFFF,
            ;
        }
        (q + 1, true)
    } else {
        (q, false)
    }
}

} // verus!
