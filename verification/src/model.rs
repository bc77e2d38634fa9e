//! The package/release data model the resolver works on: releases with their
//! dependency references and raw feature tables, packages grouping releases in
//! repository order, and the read-only version store.

use vstd::prelude::*;

use crate::bytestr::bytes_eq;

verus! {

/// True when `l` holds an element whose bytes are `x`.
pub open spec fn has_bytes(l: Seq<Vec<u8>>, x: Seq<u8>) -> bool {
    exists|i: int| 0 <= i < l.len() && l[i]@ == x
}

/// True when no two elements of `l` hold the same bytes.
pub open spec fn distinct_bytes(l: Seq<Vec<u8>>) -> bool {
    forall|i: int, j: int| 0 <= i < j < l.len() ==> l[i]@ != l[j]@
}

/// Searches a list of byte strings for `x`.
pub fn find_bytes(l: &Vec<Vec<u8>>, x: &Vec<u8>) -> (r: Option<usize>)
    ensures
        match r {
            Some(i) => i < l@.len() && l@[i as int]@ == x@,
            None => !has_bytes(l@, x@),
        },
{
    let mut i: usize = 0;
    while i < l.len()
        invariant
            i <= l@.len(),
            forall|j: int| 0 <= j < i ==> l@[j]@ != x@,
        decreases l@.len() - i,
    {
        if bytes_eq(&l[i], x) {
            return Some(i);
        }
        i += 1;
    }
    None
}

/// The kind of a dependency edge; the core considers only `Normal` and
/// `Build`, while `Dev` edges are ignored.
#[derive(Clone, Copy, PartialEq, Eq, Structural, Debug)]
pub enum DepKind {
    Normal,
    Build,
    Dev,
}

/// A release's declared edge to another package.
pub struct DependencyRef {
    /// The local alias used inside feature entries.
    pub ref_name: Vec<u8>,
    /// The target package's name (differs from `ref_name` when renamed).
    pub package_name: Vec<u8>,
    /// A version-requirement expression, parsed by the semver engine.
    pub requirement: Vec<u8>,
    pub kind: DepKind,
    pub optional: bool,
    /// When true, the target's implicit `default` feature is activated
    /// unless explicitly suppressed.
    pub default_features: bool,
    /// Features to activate unconditionally in the target.
    pub features: Vec<Vec<u8>>,
    /// Either a full target triple or a `cfg(...)` expression; absent means
    /// the dependency applies to every target.
    pub target_guard: Option<Vec<u8>>,
}

impl DependencyRef {
    /// True for the dependency kinds the core considers.
    pub open spec fn spec_considered(&self) -> bool {
        self.kind == DepKind::Normal || self.kind == DepKind::Build
    }

    /// Whether the resolver considers this edge at all (dev edges are not).
    pub fn considered(&self) -> (r: bool)
        ensures
            r == self.spec_considered(),
    {
        self.kind == DepKind::Normal || self.kind == DepKind::Build
    }
}

/// One named feature of a release, with its raw activation strings.
pub struct FeatureDef {
    pub name: Vec<u8>,
    pub entries: Vec<Vec<u8>>,
}

/// An immutable (package, version) record with the metadata the core reads.
pub struct Release {
    pub name: Vec<u8>,
    pub version: Vec<u8>,
    /// Withdrawn releases are never selected.
    pub withdrawn: bool,
    pub dependencies: Vec<DependencyRef>,
    pub features: Vec<FeatureDef>,
}

/// A named collection of releases, in repository order; the reverse of that
/// order is treated as newest first.
pub struct Package {
    pub name: Vec<u8>,
    pub releases: Vec<Release>,
}

impl Package {
    /// Every release of the package carries the package's own name, and no
    /// two releases share a version string.
    pub open spec fn wf(&self) -> bool {
        &&& forall|i: int|
            0 <= i < self.releases@.len() ==> (#[trigger] self.releases@[i]).name@ == self.name@
        &&& forall|i: int, j: int|
            0 <= i < j < self.releases@.len() ==> self.releases@[i].version@
                != self.releases@[j].version@
    }
}

/// Read-only random access to package metadata by name, populated once at
/// start from a fixed snapshot.
pub struct VersionStore {
    pub packages: Vec<Package>,
}

impl VersionStore {
    /// Distinct package names, and each release named after its package.
    pub open spec fn wf(&self) -> bool {
        &&& forall|i: int, j: int|
            0 <= i < j < self.packages@.len() ==> self.packages@[i].name@ != self.packages@[j].name@
        &&& forall|i: int| 0 <= i < self.packages@.len() ==> (#[trigger] self.packages@[i]).wf()
    }

    pub open spec fn spec_packages(&self) -> Seq<Package> {
        self.packages@
    }

    /// The package named `name`, if the store holds one.
    pub open spec fn spec_get(&self, name: Seq<u8>) -> Option<Package> {
        if exists|i: int| 0 <= i < self.packages@.len() && (#[trigger] self.packages@[i]).name@
            == name {
            Some(self.packages@[choose|i: int|
                0 <= i < self.packages@.len() && (#[trigger] self.packages@[i]).name@ == name])
        } else {
            None
        }
    }

    pub fn new() -> (r: Self)
        ensures
            r.wf(),
            r.spec_packages().len() == 0,
    {
        VersionStore { packages: Vec::new() }
    }

    /// Adds a package under a fresh name; refuses a duplicate name or a
    /// package that is not well formed (a release not named after it, or
    /// two releases sharing a version string).
    pub fn push_package(&mut self, p: Package) -> (r: bool)
        requires
            old(self).wf(),
        ensures
            final(self).wf(),
            r == (p.wf() && forall|i: int|
                0 <= i < old(self).packages@.len() ==> (#[trigger] old(
                    self,
                ).packages@[i]).name@ != p.name@),
            r ==> final(self).spec_packages() == old(self).spec_packages().push(p),
            !r ==> *final(self) == *old(self),
    {
        let mut k: usize = 0;
        while k < p.releases.len()
            invariant
                old(self).wf(),
                *self == *old(self),
                k <= p.releases@.len(),
                forall|i: int|
                    0 <= i < k ==> (#[trigger] p.releases@[i]).name@ == p.name@,
                forall|i: int, j: int|
                    0 <= i < j < k ==> p.releases@[i].version@ != p.releases@[j].version@,
            decreases p.releases@.len() - k,
        {
            if !bytes_eq(&p.releases[k].name, &p.name) {
                proof {
                    assert(!p.wf());
                }
                return false;
            }
            let mut k2: usize = 0;
            while k2 < k
                invariant
                    old(self).wf(),
                    *self == *old(self),
                    k2 <= k < p.releases@.len(),
                    forall|i: int|
                        0 <= i < k2 ==> p.releases@[i].version@ != p.releases@[k as int].version@,
                decreases k - k2,
            {
                if bytes_eq(&p.releases[k2].version, &p.releases[k].version) {
                    proof {
                        assert(!p.wf());
                    }
                    return false;
                }
                k2 += 1;
            }
            k += 1;
        }
        proof {
            assert(p.wf());
        }
        let mut i: usize = 0;
        while i < self.packages.len()
            invariant
                old(self).wf(),
                i <= self.packages@.len(),
                forall|j: int| 0 <= j < i ==> self.packages@[j].name@ != p.name@,
                *self == *old(self),
            decreases self.packages@.len() - i,
        {
            if bytes_eq(&self.packages[i].name, &p.name) {
                return false;
            }
            i += 1;
        }
        self.packages.push(p);
        true
    }

    /// Random access by package name.
    pub fn get(&self, name: &Vec<u8>) -> (r: Option<&Package>)
        requires
            self.wf(),
        ensures
            match r {
                Some(p) => self.spec_get(name@) == Some(*p) && p.wf(),
                None => self.spec_get(name@) is None,
            },
    {
        let mut i: usize = 0;
        while i < self.packages.len()
            invariant
                self.wf(),
                i <= self.packages@.len(),
                forall|j: int| 0 <= j < i ==> self.packages@[j].name@ != name@,
            decreases self.packages@.len() - i,
        {
            if bytes_eq(&self.packages[i].name, name) {
                return Some(&self.packages[i]);
            }
            i += 1;
        }
        None
    }
}

/// A (package name, version) pair: the identity of a release, and the key of
/// the closure.
#[derive(Debug)]
pub struct CrateVersion {
    pub name: Vec<u8>,
    pub version: Vec<u8>,
}

impl CrateVersion {
    pub fn new(name: Vec<u8>, version: Vec<u8>) -> (r: Self)
        ensures
            r.name@ == name@,
            r.version@ == version@,
    {
        CrateVersion { name, version }
    }
}

/// An ordered list of feature names without repetition.
#[derive(Debug)]
pub struct FeaturesList {
    pub list: Vec<Vec<u8>>,
}

impl FeaturesList {
    pub fn new() -> (r: Self)
        ensures
            r.list@.len() == 0,
            distinct_bytes(r.list@),
    {
        FeaturesList { list: Vec::new() }
    }

    /// Appends `feature` unless the list already holds it.
    pub fn add_feature(&mut self, feature: Vec<u8>) -> (added: bool)
        ensures
            added == !has_bytes(old(self).list@, feature@),
            added ==> final(self).list@ == old(self).list@.push(feature),
            !added ==> *final(self) == *old(self),
            distinct_bytes(old(self).list@) ==> distinct_bytes(final(self).list@),
            has_bytes(final(self).list@, feature@),
            forall|x: Seq<u8>| #[trigger]
                has_bytes(final(self).list@, x) <==> (has_bytes(old(self).list@, x) || x
                    == feature@),
    {
        match find_bytes(&self.list, &feature) {
            Some(_) => false,
            None => {
                let ghost before = self.list@;
                let ghost n = self.list@.len() as int;
                self.list.push(feature);
                proof {
                    assert(self.list@[n]@ == feature@);
                    assert forall|x: Seq<u8>| #[trigger]
                        has_bytes(self.list@, x) <==> (has_bytes(before, x) || x
                            == self.list@[n]@) by {
                        if has_bytes(self.list@, x) {
                            let w = choose|w: int| 0 <= w < self.list@.len() && self.list@[w]@ == x;
                            if w < n {
                                assert(before[w]@ == x);
                            }
                        }
                        if has_bytes(before, x) {
                            let w = choose|w: int| 0 <= w < before.len() && before[w]@ == x;
                            assert(self.list@[w]@ == x);
                        }
                    }
                }
                true
            },
        }
    }

    /// Whether the list holds `feature`.
    pub fn contains_feature(&self, feature: &Vec<u8>) -> (r: bool)
        ensures
            r == has_bytes(self.list@, feature@),
    {
        find_bytes(&self.list, feature).is_some()
    }

    pub fn len(&self) -> (r: usize)
        ensures
            r == self.list@.len(),
    {
        self.list.len()
    }
}

/// The byte strings of a list, as sequences.
pub open spec fn names_view(l: Seq<Vec<u8>>) -> Seq<Seq<u8>> {
    l.map_values(|v: Vec<u8>| v@)
}

/// Pushing onto a byte-string list holds exactly the old contents and the
/// new element.
pub broadcast proof fn lemma_has_bytes_push(l: Seq<Vec<u8>>, v: Vec<u8>, x: Seq<u8>)
    ensures
        #[trigger] has_bytes(l.push(v), x) <==> (has_bytes(l, x) || v@ == x),
{
    if has_bytes(l, x) {
        let i = choose|i: int| 0 <= i < l.len() && l[i]@ == x;
        assert(l.push(v)[i]@ == x);
    }
    if v@ == x {
        assert(l.push(v)[l.len() as int]@ == x);
    }
    if has_bytes(l.push(v), x) && !(v@ == x) {
        let i = choose|i: int| 0 <= i < l.push(v).len() && l.push(v)[i]@ == x;
        assert(l[i]@ == x);
    }
}

/// A byte string found in a prefix is found in the whole.
pub proof fn lemma_has_bytes_extend(a: Seq<Vec<u8>>, b: Seq<Vec<u8>>, x: Seq<u8>)
    requires
        a.is_prefix_of(b),
        has_bytes(a, x),
    ensures
        has_bytes(b, x),
{
    let w = choose|w: int| 0 <= w < a.len() && a[w]@ == x;
    assert(b[w] == a[w]);
}

/// The first release at or after `i` whose version string is `v`.
pub open spec fn release_index_from(rels: Seq<Release>, v: Seq<u8>, i: int) -> Option<int>
    decreases rels.len() - i,
{
    if i < 0 || i >= rels.len() {
        None
    } else if rels[i].version@ == v {
        Some(i)
    } else {
        release_index_from(rels, v, i + 1)
    }
}

/// The first release of the list whose version string is `v`.
pub open spec fn release_index(rels: Seq<Release>, v: Seq<u8>) -> Option<int> {
    release_index_from(rels, v, 0)
}

/// The release the store holds under (`name`, `version`), if any.
pub open spec fn store_release(store: VersionStore, name: Seq<u8>, version: Seq<u8>) -> Option<
    Release,
> {
    match store.spec_get(name) {
        None => None,
        Some(p) => match release_index(p.releases@, version) {
            None => None,
            Some(i) => Some(p.releases@[i]),
        },
    }
}

/// With distinct version strings, any release that carries `v` is the one
/// `release_index` finds.
pub proof fn lemma_release_index_unique(rels: Seq<Release>, v: Seq<u8>, idx: int)
    requires
        forall|i: int, j: int|
            0 <= i < j < rels.len() ==> rels[i].version@ != rels[j].version@,
        0 <= idx < rels.len(),
        rels[idx].version@ == v,
    ensures
        release_index(rels, v) == Some(idx),
{
    lemma_release_index_unique_from(rels, v, idx, 0);
}

proof fn lemma_release_index_unique_from(rels: Seq<Release>, v: Seq<u8>, idx: int, i: int)
    requires
        forall|a: int, j: int|
            0 <= a < j < rels.len() ==> rels[a].version@ != rels[j].version@,
        0 <= i <= idx < rels.len(),
        rels[idx].version@ == v,
    ensures
        release_index_from(rels, v, i) == Some(idx),
    decreases rels.len() - i,
{
    if i < idx {
        assert(rels[i].version@ != rels[idx].version@);
        lemma_release_index_unique_from(rels, v, idx, i + 1);
    }
}

/// Finds the release of `pkg` with the given version string.
pub fn find_release(pkg: &Package, version: &Vec<u8>) -> (r: Option<usize>)
    ensures
        match r {
            Some(i) => release_index(pkg.releases@, version@) == Some(i as int) && i
                < pkg.releases@.len(),
            None => release_index(pkg.releases@, version@) is None,
        },
{
    let mut i: usize = 0;
    while i < pkg.releases.len()
        invariant
            i <= pkg.releases@.len(),
            release_index(pkg.releases@, version@) == release_index_from(
                pkg.releases@,
                version@,
                i as int,
            ),
        decreases pkg.releases@.len() - i,
    {
        if bytes_eq(&pkg.releases[i].version, version) {
            return Some(i);
        }
        i += 1;
    }
    None
}

/// A list's name-sequence view holds `x` exactly when the list does.
pub proof fn lemma_names_view_has(l: Seq<Vec<u8>>, x: Seq<u8>)
    ensures
        names_view(l).contains(x) <==> has_bytes(l, x),
{
    if names_view(l).contains(x) {
        let i = choose|i: int| 0 <= i < names_view(l).len() && names_view(l)[i] == x;
        assert(l[i]@ == x);
    }
    if has_bytes(l, x) {
        let i = choose|i: int| 0 <= i < l.len() && l[i]@ == x;
        assert(names_view(l)[i] == x);
    }
}

} // verus!
