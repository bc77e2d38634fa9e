//! Release selection: given a dependency's version requirement, choose the
//! newest non-withdrawn release of the target package whose version satisfies
//! the requirement. Releases stand in repository order, so the scan walks the
//! package's release list backwards.

use vstd::prelude::*;

use crate::model::{Package, Release};
use crate::semver_engine::{
    parse_version, requirement_matches, requirement_matches_version, version_ok, ParsedRequirement,
};

verus! {

/// The outcome of scanning a package's releases for a requirement: the index
/// of the chosen release, no compatible release at all, or a candidate whose
/// version string does not parse (a fatal fault in the store's metadata).
pub enum Selection {
    Found(int),
    NoCompatible,
    BadVersion(int),
}

/// The outcome of the scan restricted to the oldest `i` releases (indices
/// `0 .. i`), newest first.
pub open spec fn select_from(rels: Seq<Release>, req: Seq<u8>, i: int) -> Selection
    decreases i,
{
    if i <= 0 {
        Selection::NoCompatible
    } else {
        let r = rels[i - 1];
        if r.withdrawn {
            select_from(rels, req, i - 1)
        } else if !version_ok(r.version@) {
            Selection::BadVersion(i - 1)
        } else if requirement_matches(req, r.version@) {
            Selection::Found(i - 1)
        } else {
            select_from(rels, req, i - 1)
        }
    }
}

/// The outcome of the scan over the whole package.
pub open spec fn select_spec(rels: Seq<Release>, req: Seq<u8>) -> Selection {
    select_from(rels, req, rels.len() as int)
}

/// Scans `pkg`'s releases newest-first, skipping withdrawn ones, and returns
/// the index of the first whose version satisfies `req`; `Ok(None)` when no
/// compatible release exists, and `Err(i)` when the candidate at index `i`
/// has an unparsable version string.
pub fn select_release(pkg: &Package, req: &ParsedRequirement) -> (r: Result<Option<usize>, usize>)
    ensures
        match r {
            Ok(Some(i)) => select_spec(pkg.releases@, req.spec_raw()) == Selection::Found(i as int)
                && i < pkg.releases@.len(),
            Ok(None) => select_spec(pkg.releases@, req.spec_raw()) == Selection::NoCompatible,
            Err(i) => select_spec(pkg.releases@, req.spec_raw()) == Selection::BadVersion(i as int)
                && i < pkg.releases@.len(),
        },
{
    let ghost rels = pkg.releases@;
    let ghost reqb = req.spec_raw();
    let mut i: usize = pkg.releases.len();
    while i > 0
        invariant
            i <= rels.len(),
            rels == pkg.releases@,
            reqb == req.spec_raw(),
            select_spec(rels, reqb) == select_from(rels, reqb, i as int),
        decreases i,
    {
        let rel = &pkg.releases[i - 1];
        if !rel.withdrawn {
            match parse_version(&rel.version) {
                None => {
                    return Err(i - 1);
                },
                Some(ver) => {
                    if requirement_matches_version(req, &ver) {
                        return Ok(Some(i - 1));
                    }
                },
            }
        }
        i -= 1;
    }
    Ok(None)
}

/// What each outcome of the scan says of the release it points at.
pub proof fn lemma_select_props(rels: Seq<Release>, req: Seq<u8>, n: int)
    requires
        n <= rels.len(),
    ensures
        select_from(rels, req, n) matches Selection::Found(i) ==> 0 <= i < n
            && !rels[i].withdrawn && version_ok(rels[i].version@) && requirement_matches(
            req,
            rels[i].version@,
        ),
        select_from(rels, req, n) matches Selection::BadVersion(i) ==> 0 <= i < n
            && !rels[i].withdrawn && !version_ok(rels[i].version@),
    decreases n,
{
    if n > 0 {
        lemma_select_props(rels, req, n - 1);
    }
}

} // verus!
