//! The semver engine: parsing of version strings and version-requirement
//! expressions, and the matching test between them. The semantics (caret,
//! tilde, wildcard, exact and comma-joined clauses, with prereleases only
//! satisfying requirements that permit them) is the upstream registry's own,
//! supplied by the `semver` crate behind the trusted items below; the rest of
//! the core speaks of it only through the named results `version_ok`,
//! `requirement_ok` and `requirement_matches`.

use vstd::prelude::*;

verus! {

#[verifier::external_type_specification]
#[verifier::external_body]
pub struct ExSemverVersion(semver::Version);

#[verifier::external_type_specification]
#[verifier::external_body]
pub struct ExSemverVersionReq(semver::VersionReq);

/// Whether `semver::Version::parse` accepts the byte string `s` (a byte
/// string that is not UTF-8 is accepted by nothing).
pub uninterp spec fn version_ok(s: Seq<u8>) -> bool;

/// Whether `semver::VersionReq::parse` accepts the byte string `s`.
pub uninterp spec fn requirement_ok(s: Seq<u8>) -> bool;

/// What `semver::VersionReq::matches` returns for the requirement parsed
/// from `req` and the version parsed from `ver`; meaningful only when both
/// parse (`requirement_ok(req)` and `version_ok(ver)`).
pub uninterp spec fn requirement_matches(req: Seq<u8>, ver: Seq<u8>) -> bool;

/// A version string together with its parse, built only by `parse_version`,
/// so that the parsed value always is the parse of `raw`.
pub struct ParsedVersion {
    raw: Vec<u8>,
    parsed: semver::Version,
}

/// A requirement expression together with its parse, built only by
/// `parse_requirement`.
pub struct ParsedRequirement {
    raw: Vec<u8>,
    parsed: semver::VersionReq,
}

impl ParsedVersion {
    /// The bytes this version was parsed from.
    pub closed spec fn spec_raw(&self) -> Seq<u8> {
        self.raw@
    }
}

impl ParsedRequirement {
    /// The bytes this requirement was parsed from.
    pub closed spec fn spec_raw(&self) -> Seq<u8> {
        self.raw@
    }
}

/// Relies on `semver::Version::parse`: it returns `Ok` exactly on the
/// strings the semver grammar accepts, and depends on its argument alone.
#[verifier::external_body]
pub fn parse_version(s: &Vec<u8>) -> (r: Option<ParsedVersion>)
    ensures
        r is Some <==> version_ok(s@),
        r matches Some(v) ==> v.spec_raw() == s@,
{
    let text = core::str::from_utf8(s).ok()?;
    let parsed = semver::Version::parse(text).ok()?;
    Some(ParsedVersion { raw: s.clone(), parsed })
}

/// Relies on `semver::VersionReq::parse`: it returns `Ok` exactly on the
/// requirement expressions the semver grammar accepts, and depends on its
/// argument alone.
#[verifier::external_body]
pub fn parse_requirement(s: &Vec<u8>) -> (r: Option<ParsedRequirement>)
    ensures
        r is Some <==> requirement_ok(s@),
        r matches Some(q) ==> q.spec_raw() == s@,
{
    let text = core::str::from_utf8(s).ok()?;
    let parsed = semver::VersionReq::parse(text).ok()?;
    Some(ParsedRequirement { raw: s.clone(), parsed })
}

/// Relies on `semver::VersionReq::matches`: whether the version satisfies
/// the requirement, a function of the two parsed values alone. Both
/// arguments can only have been built by the parse functions above, so the
/// parsed values are the parses of the raw bytes the contract speaks of.
#[verifier::external_body]
pub fn requirement_matches_version(req: &ParsedRequirement, ver: &ParsedVersion) -> (r: bool)
    ensures
        r == requirement_matches(req.spec_raw(), ver.spec_raw()),
{
    req.parsed.matches(&ver.parsed)
}

} // verus!
