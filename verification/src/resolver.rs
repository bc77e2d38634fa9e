//! The closure walker: starting from the root releases it drives release
//! selection and the activation engine over the version store, producing the
//! full transitive release set, each entry flagged for download or index-only.
//! A release may be visited again when a later context enables more features
//! on it than an earlier one did; the walk re-enters it and only
//! short-circuits a request no stronger than what was already processed.

use vstd::prelude::*;
use vstd::pervasive::{unreached, VecAdditionalExecFns};

use crate::activation::{activation_for_dep, default_name, dep_activated, dep_feature_requested,
    extend_features, reachable_features, reachable};
use crate::bytestr::{bytes_clone, bytes_eq};
use crate::features::{build_feature_table, table_model, table_ok, FeatureTable, RowModel};
use crate::model::{
    distinct_bytes, find_release, has_bytes, lemma_release_index_unique, names_view,
    release_index, store_release, CrateVersion, DependencyRef, FeaturesList, Package, Release,
    VersionStore,
};
use crate::selection::{lemma_select_props, select_release, select_spec, Selection};
use crate::semver_engine::{parse_requirement, requirement_ok, version_ok};
use crate::target::{eval_guard, eval_guard_model, Target};

verus! {

/// A fatal fault of the walk; the resolver stops on the first one.
#[derive(Debug)]
pub enum ResolveError {
    /// A root's package is not in the store, or has no release under the
    /// requested version.
    RootNotFound { name: Vec<u8>, version: Vec<u8> },
    /// A root names a withdrawn release.
    RootWithdrawn { name: Vec<u8>, version: Vec<u8> },
    /// A dependency's target package is not in the store.
    PackageNotFound { name: Vec<u8> },
    /// A dependency's version requirement does not parse.
    BadRequirement {
        crate_name: Vec<u8>,
        crate_version: Vec<u8>,
        dependency: Vec<u8>,
        requirement: Vec<u8>,
    },
    /// A candidate release's version string does not parse.
    BadVersion { crate_name: Vec<u8>, version: Vec<u8> },
    /// A raw feature-table entry of a visited release is malformed.
    MalformedFeature {
        crate_name: Vec<u8>,
        crate_version: Vec<u8>,
        feature: Vec<u8>,
        entry: Vec<u8>,
    },
    /// A target guard of a visited release does not parse.
    BadGuard { crate_name: Vec<u8>, crate_version: Vec<u8>, guard: Vec<u8> },
    /// The walk exceeded its work budget, which is proportional to the
    /// store's total release and feature counts.
    BudgetExhausted,
}

/// A non-fatal condition; the walk records it and goes on.
#[derive(Debug)]
pub enum Warning {
    /// No non-withdrawn release of the dependency's target satisfies the
    /// requirement; the dependency is dropped for that context.
    NoCompatibleRelease {
        crate_name: Vec<u8>,
        crate_version: Vec<u8>,
        dependency: Vec<u8>,
    },
    /// An enabled feature name has no row in the release's table; it is
    /// skipped (empty names, from trailing separators, are skipped
    /// silently).
    UnknownFeature { crate_name: Vec<u8>, crate_version: Vec<u8>, feature: Vec<u8> },
    /// A `Dep` or `DepWeak` entry names a required dependency, which is
    /// malformed; the entry contributes nothing.
    WeakOnRequired { crate_name: Vec<u8>, crate_version: Vec<u8>, dependency: Vec<u8> },
}

/// One release of the computed closure: its identity, whether its archive
/// must be fetched, whether it was visited as a root, and the feature names
/// that were enabled on it.
#[derive(Debug)]
pub struct ClosureEntry {
    pub key: CrateVersion,
    pub download: bool,
    pub root: bool,
    pub enabled: FeaturesList,
    /// The feature names the contexts that pulled the release in asked to
    /// enable on it, with `default` dropped for a context that suppresses
    /// default features. Every requested name ends up enabled.
    pub requested: FeaturesList,
}

/// What the resolver hands back: the closure and the warnings of the walk.
#[derive(Debug)]
pub struct Resolution {
    pub closure: Vec<ClosureEntry>,
    pub warnings: Vec<Warning>,
}

/// Per-entry walk bookkeeping, index-aligned with the closure: whether the
/// entry's dependencies were processed, and under which download and root
/// flags.
struct WalkNote {
    done: bool,
    done_download: bool,
    done_root: bool,
}

/// A pending visit: a release with the features requested on it, the
/// default-features flag, the download flag of the context, and whether the
/// visit is a root visit.
struct Job {
    name: Vec<u8>,
    version: Vec<u8>,
    feats: Vec<Vec<u8>>,
    default_flag: bool,
    download: bool,
    root: bool,
}

/// The closure holds an entry under (`name`, `version`), and its download
/// flag is at least `dl`.
pub open spec fn closure_has(
    c: Seq<ClosureEntry>,
    name: Seq<u8>,
    version: Seq<u8>,
    dl: bool,
) -> bool {
    exists|i: int|
        0 <= i < c.len() && (#[trigger] c[i]).key.name@ == name && c[i].key.version@ == version
            && (dl ==> c[i].download)
}

/// The closure holds the selected child of a dependency: an entry under
/// (`name`, `version`) whose download flag is at least `dl` and whose
/// requested names hold every feature the parent's activation asks of the
/// target --- except `default` when the dependency suppresses default
/// features.
pub open spec fn closure_has_child(
    c: Seq<ClosureEntry>,
    name: Seq<u8>,
    version: Seq<u8>,
    dl: bool,
    tm: Seq<RowModel>,
    init: Seq<Seq<u8>>,
    d: DependencyRef,
    force: bool,
) -> bool {
    exists|i: int|
        0 <= i < c.len() && (#[trigger] c[i]).key.name@ == name && c[i].key.version@ == version
            && (dl ==> c[i].download) && (forall|g: Seq<u8>|
            dep_feature_requested(tm, init, d, force, g) && (d.default_features || g
                != default_name()) ==> has_bytes(c[i].requested.list@, g))
}

/// No two closure entries share a key.
pub open spec fn closure_distinct(c: Seq<ClosureEntry>) -> bool {
    forall|i: int, j: int|
        0 <= i < j < c.len() ==> !(c[i].key.name@ == c[j].key.name@ && c[i].key.version@
            == c[j].key.version@)
}

/// How a dependency's guard evaluates: absent means every target.
pub open spec fn guard_spec(d: DependencyRef, t: Target) -> Option<bool> {
    match d.target_guard {
        None => Some(true),
        Some(g) => eval_guard_model(g@, t),
    }
}

/// One dependency of a visited release is fully handled: its guard
/// evaluated, and, when the activation condition is met under the enabled
/// names `init` (with root force `dr`), its requirement parsed, its target
/// package found, and the selected release, if one exists, stands in the
/// closure with a download flag at least the visit's own (`dd`) and the
/// guard's conjunction.
pub open spec fn dep_handled(
    store: VersionStore,
    t: Target,
    c: Seq<ClosureEntry>,
    rel: Release,
    init: Seq<Seq<u8>>,
    dd: bool,
    dr: bool,
    d: DependencyRef,
) -> bool {
    d.spec_considered() ==> {
        &&& guard_spec(d, t) matches Some(gv)
        &&& (dep_activated(
            table_model(rel.features@, rel.dependencies@),
            init,
            d,
            dr && d.optional,
        ) ==> {
            &&& store.spec_get(d.package_name@) matches Some(pkg)
            &&& requirement_ok(d.requirement@)
            &&& (select_spec(pkg.releases@, d.requirement@) matches Selection::Found(idx)
                ==> closure_has_child(
                c,
                pkg.releases@[idx].name@,
                pkg.releases@[idx].version@,
                dd && (guard_spec(d, t) matches Some(gv2) && gv2),
                table_model(rel.features@, rel.dependencies@),
                init,
                d,
                dr && d.optional,
            ))
        })
    }
}

/// Every dependency of the release is handled.
pub open spec fn deps_handled(
    store: VersionStore,
    t: Target,
    c: Seq<ClosureEntry>,
    rel: Release,
    init: Seq<Seq<u8>>,
    dd: bool,
    dr: bool,
) -> bool {
    forall|di: int|
        0 <= di < rel.dependencies@.len() ==> dep_handled(
            store,
            t,
            c,
            rel,
            init,
            dd,
            dr,
            #[trigger] rel.dependencies@[di],
        )
}

/// A closure entry is closed: its release exists in the store and every one
/// of that release's dependencies is handled under the entry's enabled
/// names and flags.
pub open spec fn entry_closed(
    store: VersionStore,
    t: Target,
    c: Seq<ClosureEntry>,
    key: CrateVersion,
    enabled: Seq<Vec<u8>>,
    dd: bool,
    dr: bool,
) -> bool {
    store_release(store, key.name@, key.version@) matches Some(rel) && deps_handled(
        store,
        t,
        c,
        rel,
        names_view(enabled),
        dd,
        dr,
    )
}

/// `c2` extends `c1`: every entry of `c1` stands at the same place in `c2`
/// with the same key, flags at least as high, and no fewer enabled names.
pub open spec fn closure_extends(c1: Seq<ClosureEntry>, c2: Seq<ClosureEntry>) -> bool {
    &&& c1.len() <= c2.len()
    &&& forall|j: int|
        0 <= j < c1.len() ==> (#[trigger] c2[j]).key == c1[j].key && (c1[j].download
            ==> c2[j].download) && (c1[j].root ==> c2[j].root) && (forall|g: Seq<u8>|
            has_bytes(c1[j].enabled.list@, g) ==> has_bytes(c2[j].enabled.list@, g)) && (forall|
            g: Seq<u8>,
        |
            has_bytes(c1[j].requested.list@, g) ==> has_bytes(c2[j].requested.list@, g))
}

proof fn lemma_closure_has_child_monotone(
    c1: Seq<ClosureEntry>,
    c2: Seq<ClosureEntry>,
    name: Seq<u8>,
    version: Seq<u8>,
    dl: bool,
    tm: Seq<RowModel>,
    init: Seq<Seq<u8>>,
    d: DependencyRef,
    force: bool,
)
    requires
        closure_extends(c1, c2),
        closure_has_child(c1, name, version, dl, tm, init, d, force),
    ensures
        closure_has_child(c2, name, version, dl, tm, init, d, force),
{
    let i = choose|i: int|
        0 <= i < c1.len() && (#[trigger] c1[i]).key.name@ == name && c1[i].key.version@ == version
            && (dl ==> c1[i].download) && (forall|g: Seq<u8>|
            dep_feature_requested(tm, init, d, force, g) && (d.default_features || g
                != default_name()) ==> has_bytes(c1[i].requested.list@, g));
    assert(c2[i].key == c1[i].key && (c1[i].download ==> c2[i].download));
    assert forall|g: Seq<u8>|
        dep_feature_requested(tm, init, d, force, g) && (d.default_features || g
            != default_name()) implies has_bytes(c2[i].requested.list@, g) by {
        assert(has_bytes(c1[i].requested.list@, g));
    }
}

proof fn lemma_closure_has_monotone(
    c1: Seq<ClosureEntry>,
    c2: Seq<ClosureEntry>,
    name: Seq<u8>,
    version: Seq<u8>,
    dl: bool,
)
    requires
        closure_extends(c1, c2),
        closure_has(c1, name, version, dl),
    ensures
        closure_has(c2, name, version, dl),
{
    let i = choose|i: int|
        0 <= i < c1.len() && (#[trigger] c1[i]).key.name@ == name && c1[i].key.version@ == version
            && (dl ==> c1[i].download);
    assert(c2[i].key == c1[i].key && (c1[i].download ==> c2[i].download));
}

proof fn lemma_deps_handled_monotone(
    store: VersionStore,
    t: Target,
    c1: Seq<ClosureEntry>,
    c2: Seq<ClosureEntry>,
    rel: Release,
    init: Seq<Seq<u8>>,
    dd: bool,
    dr: bool,
)
    requires
        closure_extends(c1, c2),
        deps_handled(store, t, c1, rel, init, dd, dr),
    ensures
        deps_handled(store, t, c2, rel, init, dd, dr),
{
    assert forall|di: int| 0 <= di < rel.dependencies@.len() implies dep_handled(
        store,
        t,
        c2,
        rel,
        init,
        dd,
        dr,
        #[trigger] rel.dependencies@[di],
    ) by {
        let d = rel.dependencies@[di];
        assert(dep_handled(store, t, c1, rel, init, dd, dr, d));
        if d.spec_considered() {
            if dep_activated(table_model(rel.features@, rel.dependencies@), init, d, dr
                && d.optional) {
                let pkg = store.spec_get(d.package_name@).unwrap();
                match select_spec(pkg.releases@, d.requirement@) {
                    Selection::Found(idx) => {
                        lemma_closure_has_child_monotone(
                            c1,
                            c2,
                            pkg.releases@[idx].name@,
                            pkg.releases@[idx].version@,
                            dd && (guard_spec(d, t) matches Some(gv2) && gv2),
                            table_model(rel.features@, rel.dependencies@),
                            init,
                            d,
                            dr && d.optional,
                        );
                    },
                    _ => {},
                }
            }
        }
    }
}

/// Finds the closure entry under (`name`, `version`), if any.
fn closure_find(c: &Vec<ClosureEntry>, name: &Vec<u8>, version: &Vec<u8>) -> (r: Option<usize>)
    ensures
        match r {
            Some(i) => i < c@.len() && c@[i as int].key.name@ == name@ && c@[i as int].key.version@
                == version@,
            None => !closure_has(c@, name@, version@, false),
        },
{
    let mut i: usize = 0;
    while i < c.len()
        invariant
            i <= c@.len(),
            forall|j: int|
                0 <= j < i ==> !((#[trigger] c@[j]).key.name@ == name@ && c@[j].key.version@
                    == version@),
        decreases c@.len() - i,
    {
        if bytes_eq(&c[i].key.name, name) && bytes_eq(&c[i].key.version, version) {
            return Some(i);
        }
        i += 1;
    }
    None
}

/// Every name of `a` occurs in `b`.
pub open spec fn subset_bytes(a: Seq<Vec<u8>>, b: Seq<Vec<u8>>) -> bool {
    forall|j: int| 0 <= j < a.len() ==> has_bytes(b, (#[trigger] a[j])@)
}

/// Whether every name of `a` occurs in `b`.
fn subset_bytes_exec(a: &Vec<Vec<u8>>, b: &FeaturesList) -> (r: bool)
    ensures
        r == subset_bytes(a@, b.list@),
{
    let mut j: usize = 0;
    while j < a.len()
        invariant
            j <= a@.len(),
            forall|i: int| 0 <= i < j ==> has_bytes(b.list@, (#[trigger] a@[i])@),
        decreases a@.len() - j,
    {
        if !b.contains_feature(&a[j]) {
            return false;
        }
        j += 1;
    }
    true
}

/// The features one context hands a dependency's target, as they count
/// toward the target's requested names: `default` is dropped when the
/// context suppresses default features.
fn filter_request(feats: &Vec<Vec<u8>>, dflag: bool) -> (r: Vec<Vec<u8>>)
    ensures
        forall|g: Seq<u8>| #[trigger]
            has_bytes(r@, g) <==> (has_bytes(feats@, g) && (dflag || g != default_name())),
{
    let defname = crate::activation::default_feature_bytes();
    let mut r: Vec<Vec<u8>> = Vec::new();
    let mut i: usize = 0;
    while i < feats.len()
        invariant
            i <= feats@.len(),
            defname@ == default_name(),
            forall|g: Seq<u8>| #[trigger]
                has_bytes(r@, g) <==> ((exists|k: int|
                    0 <= k < i && (#[trigger] feats@[k])@ == g) && (dflag || g != default_name())),
        decreases feats@.len() - i,
    {
        let ghost r0 = r@;
        if dflag || !bytes_eq(&feats[i], &defname) {
            r.push(bytes_clone(&feats[i]));
        }
        proof {
            assert forall|g: Seq<u8>| #[trigger]
                has_bytes(r@, g) <==> ((exists|k: int|
                    0 <= k < i + 1 && (#[trigger] feats@[k])@ == g) && (dflag || g
                    != default_name())) by {
                if has_bytes(r@, g) {
                    let w = choose|w: int| 0 <= w < r@.len() && r@[w]@ == g;
                    if w < r0.len() {
                        assert(has_bytes(r0, g));
                        let k = choose|k: int| 0 <= k < i && (#[trigger] feats@[k])@ == g;
                    } else {
                        assert(g == feats@[i as int]@);
                        assert(0 <= i < i + 1 && feats@[i as int]@ == g);
                    }
                }
                if (exists|k: int| 0 <= k < i + 1 && (#[trigger] feats@[k])@ == g) && (dflag || g
                    != default_name()) {
                    let k = choose|k: int| 0 <= k < i + 1 && (#[trigger] feats@[k])@ == g;
                    if k < i {
                        assert(has_bytes(r0, g));
                        let w = choose|w: int| 0 <= w < r0.len() && r0[w]@ == g;
                        assert(r@[w]@ == g);
                    } else {
                        assert(r@[r@.len() - 1]@ == g);
                    }
                }
            }
        }
        i += 1;
    }
    r
}

/// Inserts or refreshes the closure entry under (`name`, `version`),
/// raising its download and root flags; a fresh entry starts unprocessed,
/// with no enabled names.
fn closure_upsert(
    c: &mut Vec<ClosureEntry>,
    st: &mut Vec<WalkNote>,
    name: &Vec<u8>,
    version: &Vec<u8>,
    dl: bool,
    rt: bool,
    req_add: &Vec<Vec<u8>>,
) -> (i: usize)
    requires
        old(c)@.len() == old(st)@.len(),
        closure_distinct(old(c)@),
        forall|j: int|
            0 <= j < old(c)@.len() ==> distinct_bytes((#[trigger] old(c)@[j]).requested.list@),
    ensures
        final(c)@.len() == final(st)@.len(),
        closure_distinct(final(c)@),
        closure_extends(old(c)@, final(c)@),
        i < final(c)@.len(),
        final(c)@[i as int].key.name@ == name@,
        final(c)@[i as int].key.version@ == version@,
        dl ==> final(c)@[i as int].download,
        rt ==> final(c)@[i as int].root,
        forall|j: int|
            0 <= j < final(c)@.len() && j != i ==> j < old(c)@.len() && (#[trigger] final(c)@[j]) == old(c)@[j],
        forall|j: int|
            0 <= j < old(st)@.len() ==> (#[trigger] final(st)@[j]) == old(st)@[j],
        i < old(c)@.len() ==> final(c)@.len() == old(c)@.len() && final(c)@[i as int].key == old(c)@[i as int].key && final(c)@[i as int].enabled == old(c)@[i as int].enabled && final(c)@[i as int].download == (old(c)@[i as int].download || dl) && final(c)@[i as int].root == (old(c)@[i as int].root || rt) && final(st)@ == old(st)@,
        i >= old(c)@.len() ==> i == old(c)@.len() && final(c)@.len() == old(c)@.len() + 1
            && final(c)@[i as int].download == dl && final(c)@[i as int].root == rt && final(c)@[i as int].enabled.list@.len() == 0 && !final(st)@[i as int].done && !final(st)@[i as int].done_download && !final(st)@[i as int].done_root,
        forall|g: Seq<u8>| #[trigger]
            has_bytes(final(c)@[i as int].requested.list@, g) <==> ((i < old(c)@.len()
                && has_bytes(old(c)@[i as int].requested.list@, g)) || has_bytes(req_add@, g)),
        distinct_bytes(final(c)@[i as int].requested.list@),
{
    match closure_find(c, name, version) {
        Some(i) => {
            let mut tmp = ClosureEntry {
                key: CrateVersion::new(Vec::new(), Vec::new()),
                download: false,
                root: false,
                enabled: FeaturesList::new(),
                requested: FeaturesList::new(),
            };
            c.set_and_swap(i, &mut tmp);
            tmp.download = tmp.download || dl;
            tmp.root = tmp.root || rt;
            extend_features(&mut tmp.requested, req_add);
            c.set_and_swap(i, &mut tmp);
            proof {
                assert(final(c)@ =~= old(c)@.update(
                    i as int,
                    final(c)@[i as int],
                ));
            }
            i
        },
        None => {
            let i = c.len();
            let mut requested = FeaturesList::new();
            extend_features(&mut requested, req_add);
            c.push(
                ClosureEntry {
                    key: CrateVersion::new(bytes_clone(name), bytes_clone(version)),
                    download: dl,
                    root: rt,
                    enabled: FeaturesList::new(),
                    requested,
                },
            );
            st.push(WalkNote { done: false, done_download: false, done_root: false });
            i
        },
    }
}

/// A pending visit under this key carries the download flag.
spec fn pending_job_dl(jobs: Seq<Job>, name: Seq<u8>, version: Seq<u8>) -> bool {
    exists|j: int|
        0 <= j < jobs.len() && (#[trigger] jobs[j]).name@ == name && jobs[j].version@ == version
            && jobs[j].download
}

/// A pending visit under this key is a root visit.
spec fn pending_job_rt(jobs: Seq<Job>, name: Seq<u8>, version: Seq<u8>) -> bool {
    exists|j: int|
        0 <= j < jobs.len() && (#[trigger] jobs[j]).name@ == name && jobs[j].version@ == version
            && jobs[j].root
}

/// Some visit under this key is pending.
spec fn pending_job_any(jobs: Seq<Job>, name: Seq<u8>, version: Seq<u8>) -> bool {
    exists|j: int|
        0 <= j < jobs.len() && (#[trigger] jobs[j]).name@ == name && jobs[j].version@ == version
}

/// An entry's flags are accounted for: each was either processed into the
/// walk note or a visit that carries it is still pending, and an entry not
/// yet processed has a pending visit.
spec fn note_pending(e: ClosureEntry, nte: WalkNote, jobs: Seq<Job>) -> bool {
    &&& (e.download ==> nte.done_download || pending_job_dl(jobs, e.key.name@, e.key.version@))
    &&& (e.root ==> nte.done_root || pending_job_rt(jobs, e.key.name@, e.key.version@))
    &&& (!nte.done ==> pending_job_any(jobs, e.key.name@, e.key.version@))
}

spec fn flags_pending(c: Seq<ClosureEntry>, st: Seq<WalkNote>, jobs: Seq<Job>) -> bool {
    forall|i: int| 0 <= i < c.len() ==> note_pending(#[trigger] c[i], st[i], jobs)
}

/// A processed note claims no more than the entry's flags.
spec fn note_ok(e: ClosureEntry, nte: WalkNote) -> bool {
    &&& (nte.done_download ==> e.download && nte.done)
    &&& (nte.done_root ==> e.root && nte.done)
}

spec fn notes_wf(c: Seq<ClosureEntry>, st: Seq<WalkNote>) -> bool {
    &&& c.len() == st.len()
    &&& forall|i: int| 0 <= i < c.len() ==> note_ok(#[trigger] c[i], st[i])
}

/// The entry's release exists in the store, is not withdrawn, and its
/// enabled names are without repetition.
pub open spec fn entry_wf(store: VersionStore, e: ClosureEntry) -> bool {
    &&& store_release(store, e.key.name@, e.key.version@) matches Some(rel) && !rel.withdrawn
    &&& distinct_bytes(e.enabled.list@)
    &&& distinct_bytes(e.requested.list@)
}

pub open spec fn entries_wf(store: VersionStore, c: Seq<ClosureEntry>) -> bool {
    forall|i: int| 0 <= i < c.len() ==> entry_wf(store, #[trigger] c[i])
}

/// Every pending visit's key has a closure entry whose flags cover the
/// visit's.
spec fn job_covered(c: Seq<ClosureEntry>, job: Job) -> bool {
    exists|i: int|
        0 <= i < c.len() && (#[trigger] c[i]).key.name@ == job.name@ && c[i].key.version@
            == job.version@ && (job.download ==> c[i].download) && (job.root ==> c[i].root)
}

spec fn jobs_wf(c: Seq<ClosureEntry>, jobs: Seq<Job>) -> bool {
    forall|j: int|
        0 <= j < jobs.len() ==> job_covered(c, #[trigger] jobs[j]) && (jobs[j].root
            ==> jobs[j].feats@.len() == 0)
}

/// Every processed entry is closed under its processed state.
spec fn closed_wf(
    store: VersionStore,
    t: Target,
    c: Seq<ClosureEntry>,
    st: Seq<WalkNote>,
) -> bool {
    forall|i: int|
        0 <= i < c.len() && st[i].done ==> entry_closed(
            store,
            t,
            c,
            (#[trigger] c[i]).key,
            c[i].enabled.list@,
            st[i].done_download,
            st[i].done_root,
        )
}

/// Every root stands in the closure, download-flagged.
pub open spec fn roots_in(c: Seq<ClosureEntry>, roots: Seq<CrateVersion>) -> bool {
    forall|r: int|
        0 <= r < roots.len() ==> closure_has(
            c,
            (#[trigger] roots[r]).name@,
            roots[r].version@,
            true,
        )
}

proof fn lemma_dep_handled_monotone(
    store: VersionStore,
    t: Target,
    c1: Seq<ClosureEntry>,
    c2: Seq<ClosureEntry>,
    rel: Release,
    init: Seq<Seq<u8>>,
    dd: bool,
    dr: bool,
    d: DependencyRef,
)
    requires
        closure_extends(c1, c2),
        dep_handled(store, t, c1, rel, init, dd, dr, d),
    ensures
        dep_handled(store, t, c2, rel, init, dd, dr, d),
{
    if d.spec_considered() {
        if dep_activated(table_model(rel.features@, rel.dependencies@), init, d, dr
            && d.optional) {
            let pkg = store.spec_get(d.package_name@).unwrap();
            match select_spec(pkg.releases@, d.requirement@) {
                Selection::Found(idx) => {
                    lemma_closure_has_child_monotone(
                        c1,
                        c2,
                        pkg.releases@[idx].name@,
                        pkg.releases@[idx].version@,
                        dd && (guard_spec(d, t) matches Some(gv2) && gv2),
                        table_model(rel.features@, rel.dependencies@),
                        init,
                        d,
                        dr && d.optional,
                    );
                },
                _ => {},
            }
        }
    }
}

proof fn lemma_closure_extends_trans(
    c1: Seq<ClosureEntry>,
    c2: Seq<ClosureEntry>,
    c3: Seq<ClosureEntry>,
)
    requires
        closure_extends(c1, c2),
        closure_extends(c2, c3),
    ensures
        closure_extends(c1, c3),
{
    assert forall|j: int| 0 <= j < c1.len() implies (#[trigger] c3[j]).key == c1[j].key && (
    c1[j].download ==> c3[j].download) && (c1[j].root ==> c3[j].root) && (forall|g: Seq<u8>|
        has_bytes(c1[j].enabled.list@, g) ==> has_bytes(c3[j].enabled.list@, g)) by {
        assert(c2[j].key == c1[j].key);
    }
}

/// One considered dependency of the release `prel`, activated when the
/// names of `init` are enabled on it (with root forcing `force_root`),
/// selects the release keyed (`cname`, `cversion`); with `dl`, the visiting
/// context was download-flagged (`dd`) and the guard evaluates true.
pub open spec fn edge_selects(
    store: VersionStore,
    t: Target,
    prel: Release,
    init: Seq<Seq<u8>>,
    force_root: bool,
    dd: bool,
    di: int,
    cname: Seq<u8>,
    cversion: Seq<u8>,
    dl: bool,
) -> bool {
    &&& 0 <= di < prel.dependencies@.len()
    &&& {
        let d = prel.dependencies@[di];
        &&& d.spec_considered()
        &&& dep_activated(
            table_model(prel.features@, prel.dependencies@),
            init,
            d,
            force_root && d.optional,
        )
        &&& store.spec_get(d.package_name@) matches Some(pkg) && (select_spec(
            pkg.releases@,
            d.requirement@,
        ) matches Selection::Found(idx) && pkg.releases@[idx].name@ == cname
            && pkg.releases@[idx].version@ == cversion)
        &&& (dl ==> dd && guard_spec(d, t) == Some(true))
    }
}

/// Closure entry `j` pulled entry `i` in: one of its release's dependencies,
/// activated under `j`'s enabled names and root forcing, selects `i`'s
/// release; with `dl`, `j` is download-flagged and the guard is true.
pub open spec fn pulled_by(
    store: VersionStore,
    t: Target,
    c: Seq<ClosureEntry>,
    i: int,
    j: int,
    di: int,
    dl: bool,
) -> bool {
    &&& 0 <= j < c.len()
    &&& 0 <= i < c.len()
    &&& store_release(store, c[j].key.name@, c[j].key.version@) matches Some(prel) && edge_selects(
        store,
        t,
        prel,
        names_view(c[j].enabled.list@),
        c[j].root,
        c[j].download,
        di,
        c[i].key.name@,
        c[i].key.version@,
        dl,
    )
}

/// The provenance of a closure entry: a non-root entry was pulled in by
/// some entry, and a download-flagged entry is a root or was pulled in by a
/// download-flagged entry through a guard-true dependency --- an index-only
/// parent never upgrades a child.
pub open spec fn entry_sourced(store: VersionStore, t: Target, c: Seq<ClosureEntry>, i: int) -> bool {
    &&& (!c[i].root ==> exists|j: int, di: int| #[trigger] pulled_by(store, t, c, i, j, di, false))
    &&& (c[i].download ==> c[i].root || exists|j: int, di: int|
        #[trigger] pulled_by(store, t, c, i, j, di, true))
}

spec fn sourced_wf(store: VersionStore, t: Target, c: Seq<ClosureEntry>) -> bool {
    forall|i: int| 0 <= i < c.len() ==> #[trigger] entry_sourced(store, t, c, i)
}

/// The provenance accounting while one release is being processed: a
/// witness may also be the in-flight visit itself, whose release `prel`,
/// enabled names `init`, download flag `dd` and root forcing `dr` will be
/// recorded on its entry when the visit completes.
spec fn entry_sourced_v(
    store: VersionStore,
    t: Target,
    c: Seq<ClosureEntry>,
    i: int,
    prel: Release,
    init: Seq<Seq<u8>>,
    dd: bool,
    dr: bool,
) -> bool {
    &&& (!c[i].root ==> (exists|j: int, di: int| #[trigger] pulled_by(store, t, c, i, j, di, false))
        || (exists|di: int|
        #[trigger] edge_selects(
            store,
            t,
            prel,
            init,
            dr,
            dd,
            di,
            c[i].key.name@,
            c[i].key.version@,
            false,
        )))
    &&& (c[i].download ==> c[i].root || (exists|j: int, di: int|
        #[trigger] pulled_by(store, t, c, i, j, di, true)) || (exists|di: int|
        #[trigger] edge_selects(
            store,
            t,
            prel,
            init,
            dr,
            dd,
            di,
            c[i].key.name@,
            c[i].key.version@,
            true,
        )))
}

spec fn sourced_v(
    store: VersionStore,
    t: Target,
    c: Seq<ClosureEntry>,
    prel: Release,
    init: Seq<Seq<u8>>,
    dd: bool,
    dr: bool,
) -> bool {
    forall|i: int|
        0 <= i < c.len() ==> #[trigger] entry_sourced_v(store, t, c, i, prel, init, dd, dr)
}

/// A pull witness survives any extension of the closure: keys stay, flags
/// and enabled names only grow, and activation is monotone in both.
proof fn lemma_pulled_monotone(
    store: VersionStore,
    t: Target,
    c1: Seq<ClosureEntry>,
    c2: Seq<ClosureEntry>,
    i: int,
    j: int,
    di: int,
    dl: bool,
)
    requires
        closure_extends(c1, c2),
        i < c1.len(),
        pulled_by(store, t, c1, i, j, di, dl),
    ensures
        pulled_by(store, t, c2, i, j, di, dl),
{
    assert(c2[j].key == c1[j].key && c2[i].key == c1[i].key);
    let prel = store_release(store, c1[j].key.name@, c1[j].key.version@).unwrap();
    let d = prel.dependencies@[di];
    assert forall|x: Seq<u8>|
        names_view(c1[j].enabled.list@).contains(x) implies names_view(
        c2[j].enabled.list@,
    ).contains(x) by {
        crate::model::lemma_names_view_has(c1[j].enabled.list@, x);
        crate::model::lemma_names_view_has(c2[j].enabled.list@, x);
    }
    crate::activation::lemma_dep_activated_monotone(
        table_model(prel.features@, prel.dependencies@),
        names_view(c1[j].enabled.list@),
        names_view(c2[j].enabled.list@),
        d,
        c1[j].root && d.optional,
        c2[j].root && d.optional,
    );
}

/// The walk's flag accounting, with one entry --- the one currently being
/// processed, at `ei` --- excused: its flags may instead be covered by the
/// processing flags `ddnew` and `drnew` that its walk note is about to
/// record.
spec fn flags_pending_except(
    c: Seq<ClosureEntry>,
    st: Seq<WalkNote>,
    jobs: Seq<Job>,
    ei: int,
    ddnew: bool,
    drnew: bool,
) -> bool {
    &&& forall|i: int| 0 <= i < c.len() && i != ei ==> note_pending(#[trigger] c[i], st[i], jobs)
    &&& (0 <= ei < c.len() ==> ((c[ei].download ==> ddnew || pending_job_dl(
        jobs,
        c[ei].key.name@,
        c[ei].key.version@,
    )) && (c[ei].root ==> drnew || pending_job_rt(jobs, c[ei].key.name@, c[ei].key.version@))))
}

/// A pending visit under this key asks for feature `g` (and does not drop
/// it as a suppressed `default`).
spec fn pending_feat(jobs: Seq<Job>, name: Seq<u8>, version: Seq<u8>, g: Seq<u8>) -> bool {
    exists|j: int|
        0 <= j < jobs.len() && (#[trigger] jobs[j]).name@ == name && jobs[j].version@ == version
            && has_bytes(jobs[j].feats@, g) && (jobs[j].default_flag || g != default_name())
}

/// Every requested name of every entry is enabled on it, was asked for by a
/// visit still pending, or --- for the entry at `ei`, whose visit is being
/// processed --- was asked for by that visit (`exfeats`, `exflag`).
spec fn requests_pending_except(
    c: Seq<ClosureEntry>,
    jobs: Seq<Job>,
    ei: int,
    exfeats: Seq<Vec<u8>>,
    exflag: bool,
) -> bool {
    forall|i: int, g: Seq<u8>|
        0 <= i < c.len() && #[trigger] has_bytes(c[i].requested.list@, g) ==> has_bytes(
            c[i].enabled.list@,
            g,
        ) || pending_feat(jobs, c[i].key.name@, c[i].key.version@, g) || (i == ei && has_bytes(
            exfeats,
            g,
        ) && (exflag || g != default_name()))
}

/// Inserts or refreshes the entry under the visited key and queues its
/// visit, keeping the walk invariants.
fn push_child(
    c: &mut Vec<ClosureEntry>,
    st: &mut Vec<WalkNote>,
    jobs: &mut Vec<Job>,
    name: &Vec<u8>,
    version: &Vec<u8>,
    dl: bool,
    rt: bool,
    feats: Vec<Vec<u8>>,
    dflag: bool,
    Ghost(store): Ghost<VersionStore>,
    Ghost(t): Ghost<Target>,
    Ghost(ei): Ghost<int>,
    Ghost(ddnew): Ghost<bool>,
    Ghost(drnew): Ghost<bool>,
    Ghost(exfeats): Ghost<Seq<Vec<u8>>>,
    Ghost(exflag): Ghost<bool>,
) -> (ci: usize)
    requires
        closure_distinct(old(c)@),
        notes_wf(old(c)@, old(st)@),
        entries_wf(store, old(c)@),
        jobs_wf(old(c)@, old(jobs)@),
        flags_pending_except(old(c)@, old(st)@, old(jobs)@, ei, ddnew, drnew),
        requests_pending_except(old(c)@, old(jobs)@, ei, exfeats, exflag),
        closed_wf(store, t, old(c)@, old(st)@),
        store_release(store, name@, version@) matches Some(rel) && !rel.withdrawn,
        rt ==> feats@.len() == 0,
        ei < old(c)@.len(),
        0 <= ei ==> old(c)@[ei].key.name@ != name@ || old(c)@[ei].key.version@ != version@ || !rt,
    ensures
        closure_distinct(final(c)@),
        notes_wf(final(c)@, final(st)@),
        entries_wf(store, final(c)@),
        jobs_wf(final(c)@, final(jobs)@),
        flags_pending_except(final(c)@, final(st)@, final(jobs)@, ei, ddnew, drnew),
        requests_pending_except(final(c)@, final(jobs)@, ei, exfeats, exflag),
        closed_wf(store, t, final(c)@, final(st)@),
        closure_extends(old(c)@, final(c)@),
        closure_has(final(c)@, name@, version@, dl),
        forall|j: int| 0 <= j < old(st)@.len() ==> (#[trigger] final(st)@[j]) == old(st)@[j],
        final(st)@.len() == final(c)@.len(),
        forall|j: int| 0 <= j < old(jobs)@.len() ==> (#[trigger] final(jobs)@[j]) == old(jobs)@[j],
        final(jobs)@.len() == old(jobs)@.len() + 1,
        0 <= ei < final(c)@.len() ==> final(c)@[ei].key == old(c)@[ei].key && final(c)@[ei].enabled == old(c)@[ei].enabled,
        ci < final(c)@.len(),
        final(c)@[ci as int].key.name@ == name@,
        final(c)@[ci as int].key.version@ == version@,
        forall|j: int|
            0 <= j < final(c)@.len() && j != ci ==> j < old(c)@.len() && (#[trigger] final(c)@[j]) == old(c)@[j],
        ci < old(c)@.len() ==> final(c)@.len() == old(c)@.len() && final(c)@[ci as int].key == old(c)@[ci as int].key && final(c)@[ci as int].enabled == old(c)@[ci as int].enabled && final(c)@[ci as int].download == (old(c)@[ci as int].download || dl) && final(c)@[ci as int].root == (old(c)@[ci as int].root || rt),
        ci >= old(c)@.len() ==> ci == old(c)@.len() && final(c)@.len() == old(c)@.len() + 1
            && final(c)@[ci as int].download == dl && final(c)@[ci as int].root == rt && final(c)@[ci as int].enabled.list@.len() == 0,
        forall|g: Seq<u8>| #[trigger]
            has_bytes(final(c)@[ci as int].requested.list@, g) <==> ((ci < old(c)@.len()
                && has_bytes(old(c)@[ci as int].requested.list@, g)) || (has_bytes(feats@, g) && (
            dflag || g != default_name()))),
        final(jobs)@[final(jobs)@.len() - 1].feats@ == feats@,
        final(jobs)@[final(jobs)@.len() - 1].default_flag == dflag,
        final(jobs)@[final(jobs)@.len() - 1].name@ == name@,
        final(jobs)@[final(jobs)@.len() - 1].version@ == version@,
{
    let ghost c0 = c@;
    let ghost st0 = st@;
    let ghost jobs0 = jobs@;
    let req = filter_request(&feats, dflag);
    proof {
        assert forall|j: int|
            0 <= j < c@.len() implies distinct_bytes((#[trigger] c@[j]).requested.list@) by {
            assert(entry_wf(store, c@[j]));
        }
    }
    let i = closure_upsert(c, st, name, version, dl, rt, &req);
    jobs.push(
        Job {
            name: bytes_clone(name),
            version: bytes_clone(version),
            feats,
            default_flag: dflag,
            download: dl,
            root: rt,
        },
    );
    proof {
        let jn = jobs@.len() - 1;
        assert(jobs@[jn].name@ == name@ && jobs@[jn].version@ == version@ && jobs@[jn].download
            == dl && jobs@[jn].root == rt);
        assert(c@[i as int].key.name@ == name@ && c@[i as int].key.version@ == version@);
        assert forall|k: int| 0 <= k < c@.len() implies note_ok(#[trigger] c@[k], st@[k]) by {
            if k != i {
                assert(c@[k] == c0[k] && st@[k] == st0[k]);
            } else {
                if i < c0.len() {
                    assert(st@[k] == st0[k]);
                    assert(note_ok(c0[k], st0[k]));
                }
            }
        }
        assert forall|k: int| 0 <= k < c@.len() implies entry_wf(store, #[trigger] c@[k]) by {
            if k != i {
                assert(c@[k] == c0[k]);
            } else {
                if i < c0.len() {
                    assert(c@[k].key == c0[k].key && c@[k].enabled == c0[k].enabled);
                    assert(entry_wf(store, c0[k]));
                }
            }
        }
        assert forall|j: int| 0 <= j < jobs@.len() implies job_covered(
            c@,
            #[trigger] jobs@[j],
        ) && (jobs@[j].root ==> jobs@[j].feats@.len() == 0) by {
            if j < jobs0.len() {
                assert(jobs@[j] == jobs0[j]);
                let w = choose|w: int|
                    0 <= w < c0.len() && (#[trigger] c0[w]).key.name@ == jobs0[j].name@
                        && c0[w].key.version@ == jobs0[j].version@ && (jobs0[j].download
                        ==> c0[w].download) && (jobs0[j].root ==> c0[w].root);
                if w == i {
                    assert(c@[w].key.name@ == jobs@[j].name@ && c@[w].key.version@
                        == jobs@[j].version@ && (jobs@[j].download ==> c@[w].download) && (
                    jobs@[j].root ==> c@[w].root));
                } else {
                    assert(c@[w] == c0[w]);
                }
            } else {
                assert(jobs@[j].name@ == name@);
            }
        }
        assert forall|k: int| 0 <= k < c@.len() && k != ei implies note_pending(
            #[trigger] c@[k],
            st@[k],
            jobs@,
        ) by {
            if k != i && k < c0.len() {
                assert(c@[k] == c0[k] && st@[k] == st0[k]);
                assert(note_pending(c0[k], st0[k], jobs0));
                if c0[k].download && !st0[k].done_download {
                    let w = choose|w: int|
                        0 <= w < jobs0.len() && (#[trigger] jobs0[w]).name@ == c0[k].key.name@
                            && jobs0[w].version@ == c0[k].key.version@ && jobs0[w].download;
                    assert(jobs@[w] == jobs0[w]);
                }
                if c0[k].root && !st0[k].done_root {
                    let w = choose|w: int|
                        0 <= w < jobs0.len() && (#[trigger] jobs0[w]).name@ == c0[k].key.name@
                            && jobs0[w].version@ == c0[k].key.version@ && jobs0[w].root;
                    assert(jobs@[w] == jobs0[w]);
                }
                if !st0[k].done {
                    let w = choose|w: int|
                        0 <= w < jobs0.len() && (#[trigger] jobs0[w]).name@ == c0[k].key.name@
                            && jobs0[w].version@ == c0[k].key.version@;
                    assert(jobs@[w] == jobs0[w]);
                }
            } else if k == i {
                assert(jobs@[jn].name@ == c@[k].key.name@ && jobs@[jn].version@
                    == c@[k].key.version@);
                if i < c0.len() {
                    assert(st@[k] == st0[k]);
                    assert(note_pending(c0[k], st0[k], jobs0));
                    if c@[k].download && !st@[k].done_download {
                        if c0[k].download {
                            let w = choose|w: int|
                                0 <= w < jobs0.len() && (#[trigger] jobs0[w]).name@
                                    == c0[k].key.name@ && jobs0[w].version@ == c0[k].key.version@
                                    && jobs0[w].download;
                            assert(jobs@[w] == jobs0[w]);
                            assert(pending_job_dl(jobs@, c@[k].key.name@, c@[k].key.version@));
                        } else {
                            assert(dl);
                            assert(jobs@[jn].download);
                        }
                    }
                    if c@[k].root && !st@[k].done_root {
                        if c0[k].root {
                            let w = choose|w: int|
                                0 <= w < jobs0.len() && (#[trigger] jobs0[w]).name@
                                    == c0[k].key.name@ && jobs0[w].version@ == c0[k].key.version@
                                    && jobs0[w].root;
                            assert(jobs@[w] == jobs0[w]);
                            assert(pending_job_rt(jobs@, c@[k].key.name@, c@[k].key.version@));
                        } else {
                            assert(rt);
                            assert(jobs@[jn].root);
                        }
                    }
                } else {
                    assert(!st@[k].done);
                    if c@[k].download {
                        assert(jobs@[jn].download);
                    }
                    if c@[k].root {
                        assert(jobs@[jn].root);
                    }
                }
            }
        }
        if 0 <= ei < c@.len() {
            assert(ei < c0.len());
            if ei == i {
                assert(c@[ei].key == c0[ei].key);
                if c@[ei].download && !ddnew {
                    if c0[ei].download {
                        let w = choose|w: int|
                            0 <= w < jobs0.len() && (#[trigger] jobs0[w]).name@ == c0[ei].key.name@
                                && jobs0[w].version@ == c0[ei].key.version@ && jobs0[w].download;
                        assert(jobs@[w] == jobs0[w]);
                        assert(pending_job_dl(jobs@, c@[ei].key.name@, c@[ei].key.version@));
                    } else {
                        assert(dl && jobs@[jn].download);
                        assert(pending_job_dl(jobs@, c@[ei].key.name@, c@[ei].key.version@));
                    }
                }
                if c@[ei].root && !drnew {
                    assert(!rt);
                    assert(c0[ei].root);
                    let w = choose|w: int|
                        0 <= w < jobs0.len() && (#[trigger] jobs0[w]).name@ == c0[ei].key.name@
                            && jobs0[w].version@ == c0[ei].key.version@ && jobs0[w].root;
                    assert(jobs@[w] == jobs0[w]);
                    assert(pending_job_rt(jobs@, c@[ei].key.name@, c@[ei].key.version@));
                }
            } else {
                assert(c@[ei] == c0[ei]);
                if c@[ei].download && !ddnew {
                    let w = choose|w: int|
                        0 <= w < jobs0.len() && (#[trigger] jobs0[w]).name@ == c0[ei].key.name@
                            && jobs0[w].version@ == c0[ei].key.version@ && jobs0[w].download;
                    assert(jobs@[w] == jobs0[w]);
                    assert(pending_job_dl(jobs@, c@[ei].key.name@, c@[ei].key.version@));
                }
                if c@[ei].root && !drnew {
                    let w = choose|w: int|
                        0 <= w < jobs0.len() && (#[trigger] jobs0[w]).name@ == c0[ei].key.name@
                            && jobs0[w].version@ == c0[ei].key.version@ && jobs0[w].root;
                    assert(jobs@[w] == jobs0[w]);
                    assert(pending_job_rt(jobs@, c@[ei].key.name@, c@[ei].key.version@));
                }
            }
        }
        assert forall|k: int|
            0 <= k < c@.len() && st@[k].done implies entry_closed(
            store,
            t,
            c@,
            (#[trigger] c@[k]).key,
            c@[k].enabled.list@,
            st@[k].done_download,
            st@[k].done_root,
        ) by {
            assert(k < c0.len() && st@[k] == st0[k]);
            if k == i {
                assert(c@[k].key == c0[k].key && c@[k].enabled == c0[k].enabled);
            } else {
                assert(c@[k] == c0[k]);
            }
            assert(entry_closed(
                store,
                t,
                c0,
                c0[k].key,
                c0[k].enabled.list@,
                st0[k].done_download,
                st0[k].done_root,
            ));
            let rel = store_release(store, c0[k].key.name@, c0[k].key.version@).unwrap();
            lemma_deps_handled_monotone(
                store,
                t,
                c0,
                c@,
                rel,
                names_view(c0[k].enabled.list@),
                st0[k].done_download,
                st0[k].done_root,
            );
        }
        assert forall|k: int, g: Seq<u8>|
            0 <= k < c@.len() && #[trigger] has_bytes(c@[k].requested.list@, g) implies has_bytes(
            c@[k].enabled.list@,
            g,
        ) || pending_feat(jobs@, c@[k].key.name@, c@[k].key.version@, g) || (k == ei && has_bytes(
            exfeats,
            g,
        ) && (exflag || g != default_name())) by {
            if k != i {
                assert(c@[k] == c0[k]);
                if has_bytes(c0[k].enabled.list@, g) {
                } else if pending_feat(jobs0, c0[k].key.name@, c0[k].key.version@, g) {
                    let w = choose|w: int|
                        0 <= w < jobs0.len() && (#[trigger] jobs0[w]).name@ == c0[k].key.name@
                            && jobs0[w].version@ == c0[k].key.version@ && has_bytes(
                            jobs0[w].feats@,
                            g,
                        ) && (jobs0[w].default_flag || g != default_name());
                    assert(jobs@[w] == jobs0[w]);
                    assert(pending_feat(jobs@, c@[k].key.name@, c@[k].key.version@, g));
                }
            } else {
                if i < c0.len() && has_bytes(c0[i as int].requested.list@, g) {
                    if has_bytes(c0[i as int].enabled.list@, g) {
                        assert(c@[i as int].enabled == c0[i as int].enabled);
                    } else if pending_feat(jobs0, c0[i as int].key.name@, c0[i as int].key.version@, g) {
                        let w = choose|w: int|
                            0 <= w < jobs0.len() && (#[trigger] jobs0[w]).name@
                                == c0[i as int].key.name@ && jobs0[w].version@
                                == c0[i as int].key.version@ && has_bytes(jobs0[w].feats@, g) && (
                            jobs0[w].default_flag || g != default_name());
                        assert(jobs@[w] == jobs0[w]);
                        assert(pending_feat(jobs@, c@[k].key.name@, c@[k].key.version@, g));
                    }
                } else {
                    assert(has_bytes(feats@, g) && (dflag || g != default_name()));
                    assert(jobs@[jn].feats@ == feats@ && jobs@[jn].default_flag == dflag);
                    assert(pending_feat(jobs@, c@[k].key.name@, c@[k].key.version@, g));
                }
            }
        }
    }
    i
}

/// The key stands in the root set.
pub open spec fn root_requested(roots: Seq<CrateVersion>, name: Seq<u8>, version: Seq<u8>) -> bool {
    exists|r: int|
        0 <= r < roots.len() && (#[trigger] roots[r]).name@ == name && roots[r].version@ == version
}

/// What each fatal error says of the inputs it was raised on.
pub open spec fn resolve_error_witnessed(
    store: VersionStore,
    t: Target,
    roots: Seq<CrateVersion>,
    e: ResolveError,
) -> bool {
    match e {
        ResolveError::RootNotFound { name, version } => root_requested(roots, name@, version@)
            && store_release(store, name@, version@) is None,
        ResolveError::RootWithdrawn { name, version } => root_requested(roots, name@, version@) && (
        store_release(store, name@, version@) matches Some(rel) && rel.withdrawn),
        ResolveError::PackageNotFound { name } => store.spec_get(name@) is None,
        ResolveError::BadRequirement { crate_name, crate_version, dependency, requirement } => {
            &&& !requirement_ok(requirement@)
            &&& store_release(store, crate_name@, crate_version@) matches Some(rel) && exists|
                di: int,
            |
                0 <= di < rel.dependencies@.len() && (#[trigger] rel.dependencies@[di]).ref_name@
                    == dependency@ && rel.dependencies@[di].requirement@ == requirement@
        },
        ResolveError::BadVersion { crate_name, version } => {
            &&& !version_ok(version@)
            &&& store.spec_get(crate_name@) matches Some(pkg) && exists|i: int|
                0 <= i < pkg.releases@.len() && (#[trigger] pkg.releases@[i]).version@ == version@
        },
        ResolveError::MalformedFeature { crate_name, crate_version, feature, entry } => {
            store_release(store, crate_name@, crate_version@) matches Some(rel) && !table_ok(
                rel.features@,
                rel.dependencies@,
            )
        },
        ResolveError::BadGuard { crate_name, crate_version, guard } => {
            &&& eval_guard_model(guard@, t) is None
            &&& store_release(store, crate_name@, crate_version@) matches Some(rel) && exists|
                di: int,
            |
                0 <= di < rel.dependencies@.len() && ((#[trigger] rel.dependencies@[di]).target_guard
                    matches Some(g) && g@ == guard@)
        },
        ResolveError::BudgetExhausted => true,
    }
}

/// Records the non-fatal oddities of one visit: enabled feature names with
/// no table row, and `Dep` or `DepWeak` entries aimed at a required
/// dependency. The warnings carry no contract; they are reported as data.
fn collect_visit_warnings(
    warnings: &mut Vec<Warning>,
    table: &FeatureTable,
    reach: &FeaturesList,
    deps: &Vec<DependencyRef>,
    crate_name: &Vec<u8>,
    crate_version: &Vec<u8>,
)
{
    let mut k: usize = 0;
    while k < reach.list.len()
        decreases reach.list@.len() - k,
    {
        let f = &reach.list[k];
        if f.len() > 0 && crate::activation::lookup_row(table, f).is_none() {
            warnings.push(
                Warning::UnknownFeature {
                    crate_name: bytes_clone(crate_name),
                    crate_version: bytes_clone(crate_version),
                    feature: bytes_clone(f),
                },
            );
        }
        k += 1;
    }
    let mut di: usize = 0;
    while di < deps.len()
        decreases deps@.len() - di,
    {
        let d = &deps[di];
        if d.considered() && !d.optional {
            let mut hit = false;
            let mut k2: usize = 0;
            while k2 < reach.list.len()
                decreases reach.list@.len() - k2,
            {
                match crate::activation::lookup_row(table, &reach.list[k2]) {
                    None => {},
                    Some(ri) => {
                        let row = &table.rows[ri];
                        let mut e: usize = 0;
                        while e < row.entries.len()
                            decreases row.entries@.len() - e,
                        {
                            match &row.entries[e] {
                                crate::features::FeatureEntry::Dep(m) => {
                                    if bytes_eq(m, &d.ref_name) {
                                        hit = true;
                                    }
                                },
                                crate::features::FeatureEntry::DepWeak(m, _) => {
                                    if bytes_eq(m, &d.ref_name) {
                                        hit = true;
                                    }
                                },
                                _ => {},
                            }
                            e += 1;
                        }
                    },
                }
                k2 += 1;
            }
            if hit {
                warnings.push(
                    Warning::WeakOnRequired {
                        crate_name: bytes_clone(crate_name),
                        crate_version: bytes_clone(crate_version),
                        dependency: bytes_clone(&d.ref_name),
                    },
                );
            }
        }
        di += 1;
    }
}

/// The resolver: the version store and the target descriptor it walks
/// against, both fixed at construction.
pub struct SrcRegistry<'i> {
    store: &'i VersionStore,
    target: &'i Target,
}

impl<'i> SrcRegistry<'i> {
    pub closed spec fn spec_store(&self) -> VersionStore {
        *self.store
    }

    pub closed spec fn spec_target(&self) -> Target {
        *self.target
    }

    pub fn new(store: &'i VersionStore, target: &'i Target) -> (r: Self)
        ensures
            r.spec_store() == *store,
            r.spec_target() == *target,
    {
        SrcRegistry { store, target }
    }

    /// Computes the closure of the root set. Downward, every entry is
    /// closed: each activated dependency's selected release stands in the
    /// closure, download-flagged no lower than the entry's own flag
    /// conjoined with the guard, and asked for every feature the activation
    /// computed --- and every requested feature ends up enabled. Upward,
    /// every entry is sourced: a non-root entry was pulled in by some
    /// entry's activated dependency, and a download flag comes from a root
    /// or from a download-flagged parent through a guard-true dependency,
    /// so an index-only parent never upgrades a child. Every root is in,
    /// download-flagged, and no withdrawn release appears.
    pub fn get_dependencies(&self, roots: &Vec<CrateVersion>) -> (r: Result<
        Resolution,
        ResolveError,
    >)
        requires
            self.spec_store().wf(),
        ensures
            match r {
                Ok(res) => {
                    &&& closure_distinct(res.closure@)
                    &&& entries_wf(self.spec_store(), res.closure@)
                    &&& roots_in(res.closure@, roots@)
                    &&& forall|i: int|
                        0 <= i < res.closure@.len() ==> entry_closed(
                            self.spec_store(),
                            self.spec_target(),
                            res.closure@,
                            (#[trigger] res.closure@[i]).key,
                            res.closure@[i].enabled.list@,
                            res.closure@[i].download,
                            res.closure@[i].root,
                        )
                    &&& forall|i: int|
                        0 <= i < res.closure@.len() ==> #[trigger] entry_sourced(
                            self.spec_store(),
                            self.spec_target(),
                            res.closure@,
                            i,
                        )
                    &&& forall|i: int, g: Seq<u8>|
                        0 <= i < res.closure@.len() && #[trigger] has_bytes(
                            res.closure@[i].requested.list@,
                            g,
                        ) ==> has_bytes(res.closure@[i].enabled.list@, g)
                },
                Err(e) => resolve_error_witnessed(
                    self.spec_store(),
                    self.spec_target(),
                    roots@,
                    e,
                ),
            },
    {
        let ghost storeg = *self.store;
        let ghost targetg = *self.target;
        let mut closure: Vec<ClosureEntry> = Vec::new();
        let mut st: Vec<WalkNote> = Vec::new();
        let mut jobs: Vec<Job> = Vec::new();
        let mut warnings: Vec<Warning> = Vec::new();
        let mut r: usize = 0;
        while r < roots.len()
            invariant
                r <= roots@.len(),
                storeg == *self.store,
                targetg == *self.target,
                storeg.wf(),
                closure_distinct(closure@),
                notes_wf(closure@, st@),
                entries_wf(storeg, closure@),
                jobs_wf(closure@, jobs@),
                flags_pending_except(closure@, st@, jobs@, -1, false, false),
                requests_pending_except(closure@, jobs@, -1, Seq::empty(), false),
                closed_wf(storeg, targetg, closure@, st@),
                forall|i: int| 0 <= i < closure@.len() ==> (#[trigger] closure@[i]).root,
                sourced_wf(storeg, targetg, closure@),
                forall|r2: int|
                    0 <= r2 < r ==> closure_has(
                        closure@,
                        (#[trigger] roots@[r2]).name@,
                        roots@[r2].version@,
                        true,
                    ),
            decreases roots@.len() - r,
        {
            let root = &roots[r];
            let pkg = match self.store.get(&root.name) {
                None => {
                    proof {
                        assert(store_release(storeg, root.name@, root.version@) is None);
                    }
                    return Err(
                        ResolveError::RootNotFound {
                            name: bytes_clone(&root.name),
                            version: bytes_clone(&root.version),
                        },
                    );
                },
                Some(p) => p,
            };
            let ri = match find_release(pkg, &root.version) {
                None => {
                    proof {
                        assert(store_release(storeg, root.name@, root.version@) is None);
                    }
                    return Err(
                        ResolveError::RootNotFound {
                            name: bytes_clone(&root.name),
                            version: bytes_clone(&root.version),
                        },
                    );
                },
                Some(i) => i,
            };
            if pkg.releases[ri].withdrawn {
                proof {
                    assert(store_release(storeg, root.name@, root.version@) == Some(
                        pkg.releases@[ri as int],
                    ));
                }
                return Err(
                    ResolveError::RootWithdrawn {
                        name: bytes_clone(&root.name),
                        version: bytes_clone(&root.version),
                    },
                );
            }
            proof {
                assert(store_release(storeg, root.name@, root.version@) == Some(
                    pkg.releases@[ri as int],
                ));
            }
            let ghost c_before = closure@;
            let ci = push_child(
                &mut closure,
                &mut st,
                &mut jobs,
                &root.name,
                &root.version,
                true,
                true,
                Vec::new(),
                true,
                Ghost(storeg),
                Ghost(targetg),
                Ghost(-1),
                Ghost(false),
                Ghost(false),
                Ghost(Seq::empty()),
                Ghost(false),
            );
            proof {
                assert forall|i: int| 0 <= i < closure@.len() implies (
                #[trigger] closure@[i]).root by {
                    if i != ci {
                        assert(closure@[i] == c_before[i]);
                    }
                }
                assert forall|i: int| 0 <= i < closure@.len() implies #[trigger] entry_sourced(
                    storeg,
                    targetg,
                    closure@,
                    i,
                ) by {
                    assert(closure@[i].root);
                }
                assert forall|r2: int| 0 <= r2 < r + 1 implies closure_has(
                    closure@,
                    (#[trigger] roots@[r2]).name@,
                    roots@[r2].version@,
                    true,
                ) by {
                    if r2 < r {
                        lemma_closure_has_monotone(
                            c_before,
                            closure@,
                            roots@[r2].name@,
                            roots@[r2].version@,
                            true,
                        );
                    }
                }
            }
            r += 1;
        }
        let mut acc: u128 = 16;
        let mut pi: usize = 0;
        while pi < self.store.packages.len()
            invariant
                16 <= acc <= 0x10000000100000,
            decreases self.store.packages@.len() - pi,
        {
            let pkg = &self.store.packages[pi];
            let mut rj: usize = 0;
            while rj < pkg.releases.len()
                invariant
                    16 <= acc <= 0x10000000100000,
                decreases pkg.releases@.len() - rj,
            {
                let rel = &pkg.releases[rj];
                let fl: u128 = if rel.features.len() > 0xFFFF {
                    0xFFFF
                } else {
                    rel.features.len() as u128
                };
                let dl: u128 = if rel.dependencies.len() > 0xFFFF {
                    0xFFFF
                } else {
                    rel.dependencies.len() as u128
                };
                if acc <= 0x10000000000000 {
                    acc = acc + fl + dl + 2;
                }
                rj += 1;
            }
            pi += 1;
        }
        proof {
            assert(acc * acc <= 0x10000000100000 * 0x10000000100000) by (nonlinear_arith)
                requires
                    16 <= acc <= 0x10000000100000,
            ;
        }
        let mut budget: u128 = acc * acc + (jobs.len() as u128) + 16;
        while jobs.len() > 0
            invariant
                storeg == *self.store,
                targetg == *self.target,
                storeg.wf(),
                closure_distinct(closure@),
                notes_wf(closure@, st@),
                entries_wf(storeg, closure@),
                jobs_wf(closure@, jobs@),
                flags_pending_except(closure@, st@, jobs@, -1, false, false),
                requests_pending_except(closure@, jobs@, -1, Seq::empty(), false),
                closed_wf(storeg, targetg, closure@, st@),
                sourced_wf(storeg, targetg, closure@),
                roots_in(closure@, roots@),
            decreases budget,
        {
            if budget == 0 {
                return Err(ResolveError::BudgetExhausted);
            }
            budget = budget - 1;
            let ghost jobs_before = jobs@;
            let job = match jobs.pop() {
                Some(j) => j,
                None => unreached(),
            };
            let ghost jobs_after_pop = jobs@;
            let ghost job_g = job;
            let ei = match closure_find(&closure, &job.name, &job.version) {
                Some(i) => i,
                None => {
                    proof {
                        assert(job_covered(closure@, job_g));
                        let w = choose|w: int|
                            0 <= w < closure@.len() && (#[trigger] closure@[w]).key.name@
                                == job_g.name@ && closure@[w].key.version@ == job_g.version@ && (
                            job_g.download ==> closure@[w].download) && (job_g.root
                                ==> closure@[w].root);
                        assert(closure_has(closure@, job_g.name@, job_g.version@, false));
                    }
                    unreached()
                },
            };
            proof {
                assert(job_covered(closure@, job_g));
                let w = choose|w: int|
                    0 <= w < closure@.len() && (#[trigger] closure@[w]).key.name@ == job_g.name@
                        && closure@[w].key.version@ == job_g.version@ && (job_g.download
                        ==> closure@[w].download) && (job_g.root ==> closure@[w].root);
                if w != ei {
                    assert(false);
                }
            }
            let ghost flag_dl_cover = closure@[ei as int].download;
            let pkg = match self.store.get(&job.name) {
                Some(p) => p,
                None => {
                    proof {
                        assert(entry_wf(storeg, closure@[ei as int]));
                    }
                    unreached()
                },
            };
            let ri = match find_release(pkg, &job.version) {
                Some(i) => i,
                None => {
                    proof {
                        assert(entry_wf(storeg, closure@[ei as int]));
                    }
                    unreached()
                },
            };
            let rel = &pkg.releases[ri];
            proof {
                assert(entry_wf(storeg, closure@[ei as int]));
                assert(store_release(storeg, job_g.name@, job_g.version@) == Some(
                    pkg.releases@[ri as int],
                ));
                assert(!rel.withdrawn);
            }
            let table = match build_feature_table(rel) {
                Ok(t) => t,
                Err(p) => {
                    return Err(
                        ResolveError::MalformedFeature {
                            crate_name: job.name,
                            crate_version: job.version,
                            feature: p.0,
                            entry: p.1,
                        },
                    );
                },
            };
            let mut einit: Vec<Vec<u8>> = Vec::new();
            if job.root {
                let mut ti: usize = 0;
                while ti < table.rows.len()
                    decreases table.rows@.len() - ti,
                {
                    einit.push(bytes_clone(&table.rows[ti].name));
                    ti += 1;
                }
            } else {
                einit = job.feats;
            }
            let ghost einit0 = einit@;
            let defname = crate::activation::default_feature_bytes();
            if job.default_flag {
                if crate::activation::lookup_row(&table, &defname).is_some() {
                    if crate::model::find_bytes(&einit, &defname).is_none() {
                        einit.push(defname);
                    }
                }
            } else {
                einit = filter_request(&einit, false);
            }
            proof {
                assert forall|g: Seq<u8>|
                    has_bytes(einit0, g) && (job_g.default_flag || g
                        != default_name()) implies #[trigger] has_bytes(einit@, g) by {
                    if job_g.default_flag {
                        let w = choose|w: int| 0 <= w < einit0.len() && einit0[w]@ == g;
                        assert(einit@[w]@ == g);
                    }
                }
            }
            let skip = !job.root && st[ei].done && subset_bytes_exec(&einit, &closure[ei].enabled)
                && (!job.download || st[ei].done_download);
            if skip {
                proof {
                    assert(jobs_before =~= jobs_after_pop.push(job_g));
                    assert forall|k: int| 0 <= k < closure@.len() implies note_pending(
                        #[trigger] closure@[k],
                        st@[k],
                        jobs@,
                    ) by {
                        assert(note_pending(closure@[k], st@[k], jobs_before));
                        let full = jobs_before;
                        if closure@[k].download && !st@[k].done_download {
                            let w = choose|w: int|
                                0 <= w < full.len() && (#[trigger] full[w]).name@
                                    == closure@[k].key.name@ && full[w].version@
                                    == closure@[k].key.version@ && full[w].download;
                            if w < jobs_after_pop.len() {
                                assert(jobs@[w] == full[w]);
                            } else {
                                assert(k == ei);
                                assert(st@[ei as int].done_download);
                                assert(false);
                            }
                        }
                        if closure@[k].root && !st@[k].done_root {
                            let w = choose|w: int|
                                0 <= w < full.len() && (#[trigger] full[w]).name@
                                    == closure@[k].key.name@ && full[w].version@
                                    == closure@[k].key.version@ && full[w].root;
                            if w < jobs_after_pop.len() {
                                assert(jobs@[w] == full[w]);
                            } else {
                                assert(!job_g.root);
                                assert(false);
                            }
                        }
                        if !st@[k].done {
                            let w = choose|w: int|
                                0 <= w < full.len() && (#[trigger] full[w]).name@
                                    == closure@[k].key.name@ && full[w].version@
                                    == closure@[k].key.version@;
                            if w < jobs_after_pop.len() {
                                assert(jobs@[w] == full[w]);
                            } else {
                                assert(k == ei);
                                assert(st@[ei as int].done);
                                assert(false);
                            }
                        }
                    }
                    assert forall|i2: int, g: Seq<u8>|
                        0 <= i2 < closure@.len() && #[trigger] has_bytes(
                        closure@[i2].requested.list@,
                        g,
                    ) implies has_bytes(closure@[i2].enabled.list@, g) || pending_feat(
                        jobs@,
                        closure@[i2].key.name@,
                        closure@[i2].key.version@,
                        g,
                    ) || (i2 == -1 && has_bytes(Seq::empty(), g) && (false || g
                        != default_name())) by {
                        if !has_bytes(closure@[i2].enabled.list@, g) {
                            assert(pending_feat(
                                jobs_before,
                                closure@[i2].key.name@,
                                closure@[i2].key.version@,
                                g,
                            ));
                            let w = choose|w: int|
                                0 <= w < jobs_before.len() && (#[trigger] jobs_before[w]).name@
                                    == closure@[i2].key.name@ && jobs_before[w].version@
                                    == closure@[i2].key.version@ && has_bytes(
                                    jobs_before[w].feats@,
                                    g,
                                ) && (jobs_before[w].default_flag || g != default_name());
                            if w < jobs_after_pop.len() {
                                assert(jobs@[w] == jobs_before[w]);
                                assert(pending_feat(
                                    jobs@,
                                    closure@[i2].key.name@,
                                    closure@[i2].key.version@,
                                    g,
                                ));
                            } else {
                                assert(jobs_before[w] == job_g);
                                assert(i2 == ei);
                                assert(has_bytes(einit@, g));
                                assert(subset_bytes(einit@, closure@[ei as int].enabled.list@));
                                let w2 = choose|w2: int|
                                    0 <= w2 < einit@.len() && einit@[w2]@ == g;
                                assert(has_bytes(closure@[ei as int].enabled.list@, g));
                                assert(false);
                            }
                        }
                    }
                }
            } else {
                let ghost c_begin = closure@;
                let ghost st_begin = st@;
                let ddnew = st[ei].done_download || job.download;
                let drnew = st[ei].done_root || job.root;
                let mut union = FeaturesList::new();
                crate::activation::extend_features(&mut union, &closure[ei].enabled.list);
                crate::activation::extend_features(&mut union, &einit);
                let reach = reachable_features(&table, &union.list);
                collect_visit_warnings(
                    &mut warnings,
                    &table,
                    &reach,
                    &rel.dependencies,
                    &job.name,
                    &job.version,
                );
                let ghost initv = names_view(union.list@);
                let ghost tm = table_model(rel.features@, rel.dependencies@);
                proof {
                    assert(jobs_before =~= jobs_after_pop.push(job_g));
                    assert forall|k: int|
                        0 <= k < closure@.len() && k != ei implies note_pending(
                        #[trigger] closure@[k],
                        st@[k],
                        jobs@,
                    ) by {
                        assert(note_pending(closure@[k], st@[k], jobs_before));
                        assert(!(closure@[k].key.name@ == closure@[ei as int].key.name@
                            && closure@[k].key.version@ == closure@[ei as int].key.version@));
                        if closure@[k].download && !st@[k].done_download {
                            let w = choose|w: int|
                                0 <= w < jobs_before.len() && (#[trigger] jobs_before[w]).name@
                                    == closure@[k].key.name@ && jobs_before[w].version@
                                    == closure@[k].key.version@ && jobs_before[w].download;
                            assert(w < jobs_after_pop.len());
                            assert(jobs@[w] == jobs_before[w]);
                        }
                        if closure@[k].root && !st@[k].done_root {
                            let w = choose|w: int|
                                0 <= w < jobs_before.len() && (#[trigger] jobs_before[w]).name@
                                    == closure@[k].key.name@ && jobs_before[w].version@
                                    == closure@[k].key.version@ && jobs_before[w].root;
                            assert(w < jobs_after_pop.len());
                            assert(jobs@[w] == jobs_before[w]);
                        }
                        if !st@[k].done {
                            let w = choose|w: int|
                                0 <= w < jobs_before.len() && (#[trigger] jobs_before[w]).name@
                                    == closure@[k].key.name@ && jobs_before[w].version@
                                    == closure@[k].key.version@;
                            assert(w < jobs_after_pop.len());
                            assert(jobs@[w] == jobs_before[w]);
                        }
                    }
                    if closure@[ei as int].download && !ddnew {
                        assert(note_pending(closure@[ei as int], st@[ei as int], jobs_before));
                        let w = choose|w: int|
                            0 <= w < jobs_before.len() && (#[trigger] jobs_before[w]).name@
                                == closure@[ei as int].key.name@ && jobs_before[w].version@
                                == closure@[ei as int].key.version@ && jobs_before[w].download;
                        if w < jobs_after_pop.len() {
                            assert(jobs@[w] == jobs_before[w]);
                        } else {
                            assert(jobs_before[w] == job_g);
                            assert(false);
                        }
                    }
                    if closure@[ei as int].root && !drnew {
                        assert(note_pending(closure@[ei as int], st@[ei as int], jobs_before));
                        let w = choose|w: int|
                            0 <= w < jobs_before.len() && (#[trigger] jobs_before[w]).name@
                                == closure@[ei as int].key.name@ && jobs_before[w].version@
                                == closure@[ei as int].key.version@ && jobs_before[w].root;
                        if w < jobs_after_pop.len() {
                            assert(jobs@[w] == jobs_before[w]);
                        } else {
                            assert(jobs_before[w] == job_g);
                            assert(false);
                        }
                    }
                    assert(flags_pending_except(closure@, st@, jobs@, ei as int, ddnew, drnew));
                    assert forall|i: int|
                        0 <= i < closure@.len() implies #[trigger] entry_sourced_v(
                        storeg,
                        targetg,
                        closure@,
                        i,
                        *rel,
                        initv,
                        ddnew,
                        drnew,
                    ) by {
                        assert(entry_sourced(storeg, targetg, closure@, i));
                        if !closure@[i].root {
                            let (j, dj) = choose|j: int, dj: int|
                                #[trigger] pulled_by(storeg, targetg, closure@, i, j, dj, false);
                            assert(pulled_by(storeg, targetg, closure@, i, j, dj, false));
                        }
                        if closure@[i].download && !closure@[i].root {
                            let (j, dj) = choose|j: int, dj: int|
                                #[trigger] pulled_by(storeg, targetg, closure@, i, j, dj, true);
                            assert(pulled_by(storeg, targetg, closure@, i, j, dj, true));
                        }
                    }
                    assert forall|i2: int, g: Seq<u8>|
                        0 <= i2 < closure@.len() && #[trigger] has_bytes(
                        closure@[i2].requested.list@,
                        g,
                    ) implies has_bytes(closure@[i2].enabled.list@, g) || pending_feat(
                        jobs@,
                        closure@[i2].key.name@,
                        closure@[i2].key.version@,
                        g,
                    ) || (i2 == ei && has_bytes(job_g.feats@, g) && (job_g.default_flag || g
                        != default_name())) by {
                        if !has_bytes(closure@[i2].enabled.list@, g) {
                            assert(pending_feat(
                                jobs_before,
                                closure@[i2].key.name@,
                                closure@[i2].key.version@,
                                g,
                            ));
                            let w = choose|w: int|
                                0 <= w < jobs_before.len() && (#[trigger] jobs_before[w]).name@
                                    == closure@[i2].key.name@ && jobs_before[w].version@
                                    == closure@[i2].key.version@ && has_bytes(
                                    jobs_before[w].feats@,
                                    g,
                                ) && (jobs_before[w].default_flag || g != default_name());
                            if w < jobs_after_pop.len() {
                                assert(jobs@[w] == jobs_before[w]);
                                assert(pending_feat(
                                    jobs@,
                                    closure@[i2].key.name@,
                                    closure@[i2].key.version@,
                                    g,
                                ));
                            } else {
                                assert(jobs_before[w] == job_g);
                                assert(i2 == ei);
                            }
                        }
                    }
                }
                let mut di: usize = 0;
                while di < rel.dependencies.len()
                    invariant
                        storeg == *self.store,
                        targetg == *self.target,
                        storeg.wf(),
                        di <= rel.dependencies@.len(),
                        rel == pkg.releases@[ri as int],
                        store_release(storeg, job_g.name@, job_g.version@) == Some(*rel),
                        job == job_g,
                        tm == table_model(rel.features@, rel.dependencies@),
                        table@ == tm,
                        initv == names_view(union.list@),
                        forall|g: Seq<u8>| #[trigger]
                            has_bytes(reach.list@, g) <==> reachable(table@, initv, g),
                        closure_distinct(closure@),
                        notes_wf(closure@, st@),
                        entries_wf(storeg, closure@),
                        jobs_wf(closure@, jobs@),
                        flags_pending_except(closure@, st@, jobs@, ei as int, ddnew, drnew),
                        requests_pending_except(
                            closure@,
                            jobs@,
                            ei as int,
                            job_g.feats@,
                            job_g.default_flag,
                        ),
                        closed_wf(storeg, targetg, closure@, st@),
                        sourced_v(storeg, targetg, closure@, *rel, initv, ddnew, drnew),
                        roots_in(closure@, roots@),
                        closure_extends(c_begin, closure@),
                        ei < closure@.len(),
                        closure@[ei as int].key == c_begin[ei as int].key,
                        closure@[ei as int].enabled == c_begin[ei as int].enabled,
                        closure@[ei as int].key.name@ == job_g.name@,
                        closure@[ei as int].key.version@ == job_g.version@,
                        st@.len() == closure@.len(),
                        forall|j: int|
                            0 <= j < st_begin.len() ==> (#[trigger] st@[j]) == st_begin[j],
                        st_begin.len() == c_begin.len(),
                        ei < c_begin.len(),
                        ddnew == st_begin[ei as int].done_download || job_g.download,
                        drnew == st_begin[ei as int].done_root || job_g.root,
                        job_g.download ==> flag_dl_cover,
                        flag_dl_cover ==> closure@[ei as int].download,
                        job_g.root ==> closure@[ei as int].root,
                        job_g.root ==> job_g.feats@.len() == 0,
                        forall|g: Seq<u8>|
                            !job_g.root && has_bytes(job_g.feats@, g) && (job_g.default_flag || g
                                != default_name()) ==> #[trigger] has_bytes(einit@, g),
                        forall|g: Seq<u8>| #[trigger]
                            has_bytes(einit@, g) ==> has_bytes(union.list@, g),
                        forall|di2: int|
                            0 <= di2 < di ==> dep_handled(
                                storeg,
                                targetg,
                                closure@,
                                *rel,
                                initv,
                                ddnew,
                                drnew,
                                #[trigger] rel.dependencies@[di2],
                            ),
                    decreases rel.dependencies@.len() - di,
                {
                    let ghost c_iter = closure@;
                    let d = &rel.dependencies[di];
                    if d.considered() {
                        let gv: bool = match &d.target_guard {
                            None => true,
                            Some(g) => {
                                match eval_guard(g, self.target) {
                                    None => {
                                        let err = ResolveError::BadGuard {
                                            crate_name: job.name,
                                            crate_version: job.version,
                                            guard: bytes_clone(g),
                                        };
                                        proof {
                                            assert(rel.dependencies@[di as int].target_guard
                                                matches Some(gg) && gg@ == g@);
                                            assert(resolve_error_witnessed(
                                                storeg,
                                                targetg,
                                                roots@,
                                                err,
                                            ));
                                        }
                                        return Err(err);
                                    },
                                    Some(v) => v,
                                }
                            },
                        };
                        proof {
                            assert(guard_spec(*d, targetg) == Some(gv));
                        }
                        let force = drnew && d.optional;
                        let act = activation_for_dep(&table, &reach, d, force, Ghost(initv));
                        if act.0 {
                            let req = match parse_requirement(&d.requirement) {
                                None => {
                                    let err = ResolveError::BadRequirement {
                                        crate_name: job.name,
                                        crate_version: job.version,
                                        dependency: bytes_clone(&d.ref_name),
                                        requirement: bytes_clone(&d.requirement),
                                    };
                                    proof {
                                        assert(rel.dependencies@[di as int].ref_name@ == d.ref_name@
                                            && rel.dependencies@[di as int].requirement@
                                            == d.requirement@);
                                        assert(resolve_error_witnessed(
                                            storeg,
                                            targetg,
                                            roots@,
                                            err,
                                        ));
                                    }
                                    return Err(err);
                                },
                                Some(q) => q,
                            };
                            let pkg2 = match self.store.get(&d.package_name) {
                                None => {
                                    return Err(
                                        ResolveError::PackageNotFound {
                                            name: bytes_clone(&d.package_name),
                                        },
                                    );
                                },
                                Some(p) => p,
                            };
                            match select_release(pkg2, &req) {
                                Err(bi) => {
                                    proof {
                                        lemma_select_props(
                                            pkg2.releases@,
                                            req.spec_raw(),
                                            pkg2.releases@.len() as int,
                                        );
                                        assert(!version_ok(pkg2.releases@[bi as int].version@));
                                    }
                                    let err = ResolveError::BadVersion {
                                        crate_name: bytes_clone(&d.package_name),
                                        version: bytes_clone(&pkg2.releases[bi].version),
                                    };
                                    proof {
                                        assert(storeg.spec_get(d.package_name@) == Some(*pkg2));
                                        match &err {
                                            ResolveError::BadVersion { crate_name, version } => {
                                                let pkgx = storeg.spec_get(
                                                    crate_name@,
                                                ).unwrap();
                                                assert(pkgx == *pkg2);
                                                assert(0 <= bi < pkgx.releases@.len()
                                                    && pkgx.releases@[bi as int].version@
                                                    == version@);
                                                assert(exists|i: int|
                                                    0 <= i < pkgx.releases@.len() && (
                                                    #[trigger] pkgx.releases@[i]).version@
                                                        == version@);
                                            },
                                            _ => {
                                                assert(false);
                                            },
                                        }
                                        assert(resolve_error_witnessed(
                                            storeg,
                                            targetg,
                                            roots@,
                                            err,
                                        ));
                                    }
                                    return Err(err);
                                },
                                Ok(None) => {
                                    warnings.push(
                                        Warning::NoCompatibleRelease {
                                            crate_name: bytes_clone(&job.name),
                                            crate_version: bytes_clone(&job.version),
                                            dependency: bytes_clone(&d.ref_name),
                                        },
                                    );
                                    proof {
                                        assert(dep_handled(
                                            storeg,
                                            targetg,
                                            closure@,
                                            *rel,
                                            initv,
                                            ddnew,
                                            drnew,
                                            *d,
                                        ));
                                    }
                                },
                                Ok(Some(idx)) => {
                                    let child = &pkg2.releases[idx];
                                    proof {
                                        lemma_select_props(
                                            pkg2.releases@,
                                            req.spec_raw(),
                                            pkg2.releases@.len() as int,
                                        );
                                        assert(!child.withdrawn);
                                        assert(pkg2.wf());
                                        assert(child.name@ == pkg2.name@);
                                        assert(storeg.spec_get(d.package_name@) == Some(*pkg2));
                                        assert(pkg2.name@ == d.package_name@);
                                        lemma_release_index_unique(
                                            pkg2.releases@,
                                            child.version@,
                                            idx as int,
                                        );
                                        assert(store_release(storeg, child.name@, child.version@)
                                            == Some(*child));
                                    }
                                    let dlc = ddnew && gv;
                                    let ghost c_pre = closure@;
                                    let ci = push_child(
                                        &mut closure,
                                        &mut st,
                                        &mut jobs,
                                        &child.name,
                                        &child.version,
                                        dlc,
                                        false,
                                        act.1.list,
                                        d.default_features,
                                        Ghost(storeg),
                                        Ghost(targetg),
                                        Ghost(ei as int),
                                        Ghost(ddnew),
                                        Ghost(drnew),
                                        Ghost(job_g.feats@),
                                        Ghost(job_g.default_flag),
                                    );
                                    proof {
                                        assert(closure_has(
                                            closure@,
                                            child.name@,
                                            child.version@,
                                            dlc,
                                        ));
                                        assert(dep_handled(
                                            storeg,
                                            targetg,
                                            closure@,
                                            *rel,
                                            initv,
                                            ddnew,
                                            drnew,
                                            *d,
                                        ));
                                        assert(edge_selects(
                                            storeg,
                                            targetg,
                                            *rel,
                                            initv,
                                            drnew,
                                            ddnew,
                                            di as int,
                                            child.name@,
                                            child.version@,
                                            false,
                                        ));
                                        if dlc {
                                            assert(edge_selects(
                                                storeg,
                                                targetg,
                                                *rel,
                                                initv,
                                                drnew,
                                                ddnew,
                                                di as int,
                                                child.name@,
                                                child.version@,
                                                true,
                                            ));
                                        }
                                        assert forall|i2: int|
                                            0 <= i2 < closure@.len() implies
                                        #[trigger] entry_sourced_v(
                                            storeg,
                                            targetg,
                                            closure@,
                                            i2,
                                            *rel,
                                            initv,
                                            ddnew,
                                            drnew,
                                        ) by {
                                            if i2 == ci {
                                                assert(closure@[i2].key.name@ == child.name@
                                                    && closure@[i2].key.version@
                                                    == child.version@);
                                                if !closure@[i2].root {
                                                    assert(edge_selects(
                                                        storeg,
                                                        targetg,
                                                        *rel,
                                                        initv,
                                                        drnew,
                                                        ddnew,
                                                        di as int,
                                                        closure@[i2].key.name@,
                                                        closure@[i2].key.version@,
                                                        false,
                                                    ));
                                                }
                                                if closure@[i2].download && !closure@[i2].root {
                                                    if ci < c_pre.len() && c_pre[i2].download {
                                                        assert(entry_sourced_v(
                                                            storeg,
                                                            targetg,
                                                            c_pre,
                                                            i2,
                                                            *rel,
                                                            initv,
                                                            ddnew,
                                                            drnew,
                                                        ));
                                                        assert(!c_pre[i2].root);
                                                        if exists|j: int, dj: int|
                                                            #[trigger] pulled_by(
                                                                storeg,
                                                                targetg,
                                                                c_pre,
                                                                i2,
                                                                j,
                                                                dj,
                                                                true,
                                                            ) {
                                                            let (j, dj) = choose|
                                                                j: int,
                                                                dj: int,
                                                            |
                                                                #[trigger] pulled_by(
                                                                    storeg,
                                                                    targetg,
                                                                    c_pre,
                                                                    i2,
                                                                    j,
                                                                    dj,
                                                                    true,
                                                                );
                                                            lemma_pulled_monotone(
                                                                storeg,
                                                                targetg,
                                                                c_pre,
                                                                closure@,
                                                                i2,
                                                                j,
                                                                dj,
                                                                true,
                                                            );
                                                        } else {
                                                            let dj = choose|dj: int|
                                                                #[trigger] edge_selects(
                                                                    storeg,
                                                                    targetg,
                                                                    *rel,
                                                                    initv,
                                                                    drnew,
                                                                    ddnew,
                                                                    dj,
                                                                    c_pre[i2].key.name@,
                                                                    c_pre[i2].key.version@,
                                                                    true,
                                                                );
                                                            assert(edge_selects(
                                                                storeg,
                                                                targetg,
                                                                *rel,
                                                                initv,
                                                                drnew,
                                                                ddnew,
                                                                dj,
                                                                closure@[i2].key.name@,
                                                                closure@[i2].key.version@,
                                                                true,
                                                            ));
                                                        }
                                                    } else {
                                                        assert(dlc);
                                                        assert(edge_selects(
                                                            storeg,
                                                            targetg,
                                                            *rel,
                                                            initv,
                                                            drnew,
                                                            ddnew,
                                                            di as int,
                                                            closure@[i2].key.name@,
                                                            closure@[i2].key.version@,
                                                            true,
                                                        ));
                                                    }
                                                }
                                            } else {
                                                assert(closure@[i2] == c_pre[i2]);
                                                assert(entry_sourced_v(
                                                    storeg,
                                                    targetg,
                                                    c_pre,
                                                    i2,
                                                    *rel,
                                                    initv,
                                                    ddnew,
                                                    drnew,
                                                ));
                                                if !closure@[i2].root {
                                                    if exists|j: int, dj: int|
                                                        #[trigger] pulled_by(
                                                            storeg,
                                                            targetg,
                                                            c_pre,
                                                            i2,
                                                            j,
                                                            dj,
                                                            false,
                                                        ) {
                                                        let (j, dj) = choose|j: int, dj: int|
                                                            #[trigger] pulled_by(
                                                                storeg,
                                                                targetg,
                                                                c_pre,
                                                                i2,
                                                                j,
                                                                dj,
                                                                false,
                                                            );
                                                        lemma_pulled_monotone(
                                                            storeg,
                                                            targetg,
                                                            c_pre,
                                                            closure@,
                                                            i2,
                                                            j,
                                                            dj,
                                                            false,
                                                        );
                                                    } else {
                                                        let dj = choose|dj: int|
                                                            #[trigger] edge_selects(
                                                                storeg,
                                                                targetg,
                                                                *rel,
                                                                initv,
                                                                drnew,
                                                                ddnew,
                                                                dj,
                                                                c_pre[i2].key.name@,
                                                                c_pre[i2].key.version@,
                                                                false,
                                                            );
                                                        assert(edge_selects(
                                                            storeg,
                                                            targetg,
                                                            *rel,
                                                            initv,
                                                            drnew,
                                                            ddnew,
                                                            dj,
                                                            closure@[i2].key.name@,
                                                            closure@[i2].key.version@,
                                                            false,
                                                        ));
                                                    }
                                                }
                                                if closure@[i2].download && !closure@[i2].root {
                                                    if exists|j: int, dj: int|
                                                        #[trigger] pulled_by(
                                                            storeg,
                                                            targetg,
                                                            c_pre,
                                                            i2,
                                                            j,
                                                            dj,
                                                            true,
                                                        ) {
                                                        let (j, dj) = choose|j: int, dj: int|
                                                            #[trigger] pulled_by(
                                                                storeg,
                                                                targetg,
                                                                c_pre,
                                                                i2,
                                                                j,
                                                                dj,
                                                                true,
                                                            );
                                                        lemma_pulled_monotone(
                                                            storeg,
                                                            targetg,
                                                            c_pre,
                                                            closure@,
                                                            i2,
                                                            j,
                                                            dj,
                                                            true,
                                                        );
                                                    } else {
                                                        let dj = choose|dj: int|
                                                            #[trigger] edge_selects(
                                                                storeg,
                                                                targetg,
                                                                *rel,
                                                                initv,
                                                                drnew,
                                                                ddnew,
                                                                dj,
                                                                c_pre[i2].key.name@,
                                                                c_pre[i2].key.version@,
                                                                true,
                                                            );
                                                        assert(edge_selects(
                                                            storeg,
                                                            targetg,
                                                            *rel,
                                                            initv,
                                                            drnew,
                                                            ddnew,
                                                            dj,
                                                            closure@[i2].key.name@,
                                                            closure@[i2].key.version@,
                                                            true,
                                                        ));
                                                    }
                                                }
                                            }
                                        }
                                    }
                                },
                            }
                        } else {
                            proof {
                                assert(dep_handled(
                                    storeg,
                                    targetg,
                                    closure@,
                                    *rel,
                                    initv,
                                    ddnew,
                                    drnew,
                                    *d,
                                ));
                            }
                        }
                    } else {
                        proof {
                            assert(dep_handled(
                                storeg,
                                targetg,
                                closure@,
                                *rel,
                                initv,
                                ddnew,
                                drnew,
                                *d,
                            ));
                        }
                    }
                    proof {
                        assert forall|di2: int| 0 <= di2 < di + 1 implies dep_handled(
                            storeg,
                            targetg,
                            closure@,
                            *rel,
                            initv,
                            ddnew,
                            drnew,
                            #[trigger] rel.dependencies@[di2],
                        ) by {
                            if di2 < di {
                                lemma_dep_handled_monotone(
                                    storeg,
                                    targetg,
                                    c_iter,
                                    closure@,
                                    *rel,
                                    initv,
                                    ddnew,
                                    drnew,
                                    rel.dependencies@[di2],
                                );
                            }
                        }
                        lemma_closure_extends_trans(c_begin, c_iter, closure@);
                        assert forall|r2: int| 0 <= r2 < roots@.len() implies closure_has(
                            closure@,
                            (#[trigger] roots@[r2]).name@,
                            roots@[r2].version@,
                            true,
                        ) by {
                            lemma_closure_has_monotone(
                                c_iter,
                                closure@,
                                roots@[r2].name@,
                                roots@[r2].version@,
                                true,
                            );
                        }
                    }
                    di += 1;
                }
                let mut tmp = ClosureEntry {
                    key: CrateVersion::new(Vec::new(), Vec::new()),
                    download: false,
                    root: false,
                    enabled: FeaturesList::new(),
                    requested: FeaturesList::new(),
                };
                let ghost c_penult = closure@;
                let ghost st_penult = st@;
                closure.set_and_swap(ei, &mut tmp);
                let newe = ClosureEntry {
                    key: tmp.key,
                    download: tmp.download,
                    root: tmp.root,
                    enabled: union,
                    requested: tmp.requested,
                };
                closure.set(ei, newe);
                st.set(ei, WalkNote { done: true, done_download: ddnew, done_root: drnew });
                proof {
                    assert(closure@.len() == c_penult.len());
                    assert forall|k: int| 0 <= k < closure@.len() && k != ei implies (
                    #[trigger] closure@[k]) == c_penult[k] && st@[k] == st_penult[k] by {}
                    assert(closure@[ei as int].key == c_penult[ei as int].key);
                    assert(closure@[ei as int].download == c_penult[ei as int].download);
                    assert(closure@[ei as int].root == c_penult[ei as int].root);
                    assert(closure@[ei as int].enabled.list@ == union.list@);
                    assert(closure_extends(c_penult, closure@));
                    assert(closure_distinct(closure@));
                    assert forall|k: int| 0 <= k < closure@.len() implies note_ok(
                        #[trigger] closure@[k],
                        st@[k],
                    ) by {
                        if k != ei {
                            assert(note_ok(c_penult[k], st_penult[k]));
                        } else {
                            assert(note_ok(c_penult[k], st_penult[k]));
                            assert(ddnew ==> closure@[ei as int].download);
                            assert(drnew ==> closure@[ei as int].root);
                        }
                    }
                    assert forall|k: int| 0 <= k < closure@.len() implies entry_wf(
                        storeg,
                        #[trigger] closure@[k],
                    ) by {
                        if k != ei {
                            assert(entry_wf(storeg, c_penult[k]));
                        } else {
                            assert(entry_wf(storeg, c_penult[k]));
                            assert(closure@[k].key == c_penult[k].key);
                            assert(distinct_bytes(union.list@));
                        }
                    }
                    assert forall|j: int| 0 <= j < jobs@.len() implies job_covered(
                        closure@,
                        #[trigger] jobs@[j],
                    ) by {
                        let w = choose|w: int|
                            0 <= w < c_penult.len() && (#[trigger] c_penult[w]).key.name@
                                == jobs@[j].name@ && c_penult[w].key.version@ == jobs@[j].version@
                                && (jobs@[j].download ==> c_penult[w].download) && (jobs@[j].root
                                ==> c_penult[w].root);
                        if w == ei {
                            assert(closure@[w].key == c_penult[w].key && closure@[w].download
                                == c_penult[w].download && closure@[w].root == c_penult[w].root);
                        } else {
                            assert(closure@[w] == c_penult[w]);
                        }
                    }
                    assert forall|k: int| 0 <= k < closure@.len() implies note_pending(
                        #[trigger] closure@[k],
                        st@[k],
                        jobs@,
                    ) by {
                        if k != ei {
                            assert(note_pending(c_penult[k], st_penult[k], jobs@));
                            assert(closure@[k] == c_penult[k] && st@[k] == st_penult[k]);
                        } else {
                            assert(st@[k].done);
                            if closure@[k].download && !ddnew {
                                assert(c_penult[ei as int].download);
                                assert(pending_job_dl(
                                    jobs@,
                                    c_penult[ei as int].key.name@,
                                    c_penult[ei as int].key.version@,
                                ));
                            }
                            if closure@[k].root && !drnew {
                                assert(c_penult[ei as int].root);
                                assert(pending_job_rt(
                                    jobs@,
                                    c_penult[ei as int].key.name@,
                                    c_penult[ei as int].key.version@,
                                ));
                            }
                        }
                    }
                    assert forall|k: int|
                        0 <= k < closure@.len() && st@[k].done implies entry_closed(
                        storeg,
                        targetg,
                        closure@,
                        (#[trigger] closure@[k]).key,
                        closure@[k].enabled.list@,
                        st@[k].done_download,
                        st@[k].done_root,
                    ) by {
                        if k != ei {
                            assert(st_penult[k].done && st@[k] == st_penult[k]);
                            assert(entry_closed(
                                storeg,
                                targetg,
                                c_penult,
                                c_penult[k].key,
                                c_penult[k].enabled.list@,
                                st_penult[k].done_download,
                                st_penult[k].done_root,
                            ));
                            let relk = store_release(
                                storeg,
                                c_penult[k].key.name@,
                                c_penult[k].key.version@,
                            ).unwrap();
                            lemma_deps_handled_monotone(
                                storeg,
                                targetg,
                                c_penult,
                                closure@,
                                relk,
                                names_view(c_penult[k].enabled.list@),
                                st_penult[k].done_download,
                                st_penult[k].done_root,
                            );
                            assert(closure@[k] == c_penult[k]);
                        } else {
                            assert(store_release(
                                storeg,
                                closure@[k].key.name@,
                                closure@[k].key.version@,
                            ) == Some(*rel));
                            assert(deps_handled(
                                storeg,
                                targetg,
                                c_penult,
                                *rel,
                                initv,
                                ddnew,
                                drnew,
                            ));
                            lemma_deps_handled_monotone(
                                storeg,
                                targetg,
                                c_penult,
                                closure@,
                                *rel,
                                initv,
                                ddnew,
                                drnew,
                            );
                        }
                    }
                    assert forall|r2: int| 0 <= r2 < roots@.len() implies closure_has(
                        closure@,
                        (#[trigger] roots@[r2]).name@,
                        roots@[r2].version@,
                        true,
                    ) by {
                        lemma_closure_has_monotone(
                            c_penult,
                            closure@,
                            roots@[r2].name@,
                            roots@[r2].version@,
                            true,
                        );
                    }
                    let ghost tmv = table_model(rel.features@, rel.dependencies@);
                    assert(names_view(closure@[ei as int].enabled.list@) == initv);
                    assert(drnew ==> closure@[ei as int].root) by {
                        if drnew {
                            if st_begin[ei as int].done_root {
                                assert(note_ok(c_penult[ei as int], st_penult[ei as int]));
                            }
                        }
                    }
                    assert(ddnew ==> closure@[ei as int].download) by {
                        if ddnew {
                            if st_begin[ei as int].done_download {
                                assert(note_ok(c_penult[ei as int], st_penult[ei as int]));
                            }
                        }
                    }
                    assert(store_release(
                        storeg,
                        closure@[ei as int].key.name@,
                        closure@[ei as int].key.version@,
                    ) == Some(*rel));
                    assert forall|i: int| 0 <= i < closure@.len() implies #[trigger] entry_sourced(
                        storeg,
                        targetg,
                        closure@,
                        i,
                    ) by {
                        assert(entry_sourced_v(
                            storeg,
                            targetg,
                            c_penult,
                            i,
                            *rel,
                            initv,
                            ddnew,
                            drnew,
                        ));
                        if !closure@[i].root {
                            assert(!c_penult[i].root);
                            if exists|j: int, dj: int|
                                #[trigger] pulled_by(storeg, targetg, c_penult, i, j, dj, false) {
                                let (j, dj) = choose|j: int, dj: int|
                                    #[trigger] pulled_by(
                                        storeg,
                                        targetg,
                                        c_penult,
                                        i,
                                        j,
                                        dj,
                                        false,
                                    );
                                lemma_pulled_monotone(
                                    storeg,
                                    targetg,
                                    c_penult,
                                    closure@,
                                    i,
                                    j,
                                    dj,
                                    false,
                                );
                            } else {
                                let dj = choose|dj: int|
                                    #[trigger] edge_selects(
                                        storeg,
                                        targetg,
                                        *rel,
                                        initv,
                                        drnew,
                                        ddnew,
                                        dj,
                                        c_penult[i].key.name@,
                                        c_penult[i].key.version@,
                                        false,
                                    );
                                let dv = rel.dependencies@[dj];
                                crate::activation::lemma_dep_activated_monotone(
                                    tmv,
                                    initv,
                                    names_view(closure@[ei as int].enabled.list@),
                                    dv,
                                    drnew && dv.optional,
                                    closure@[ei as int].root && dv.optional,
                                );
                                assert(edge_selects(
                                    storeg,
                                    targetg,
                                    *rel,
                                    names_view(closure@[ei as int].enabled.list@),
                                    closure@[ei as int].root,
                                    closure@[ei as int].download,
                                    dj,
                                    closure@[i].key.name@,
                                    closure@[i].key.version@,
                                    false,
                                ));
                                assert(pulled_by(
                                    storeg,
                                    targetg,
                                    closure@,
                                    i,
                                    ei as int,
                                    dj,
                                    false,
                                ));
                            }
                        }
                        if closure@[i].download && !closure@[i].root {
                            if exists|j: int, dj: int|
                                #[trigger] pulled_by(storeg, targetg, c_penult, i, j, dj, true) {
                                let (j, dj) = choose|j: int, dj: int|
                                    #[trigger] pulled_by(storeg, targetg, c_penult, i, j, dj, true);
                                lemma_pulled_monotone(
                                    storeg,
                                    targetg,
                                    c_penult,
                                    closure@,
                                    i,
                                    j,
                                    dj,
                                    true,
                                );
                            } else {
                                let dj = choose|dj: int|
                                    #[trigger] edge_selects(
                                        storeg,
                                        targetg,
                                        *rel,
                                        initv,
                                        drnew,
                                        ddnew,
                                        dj,
                                        c_penult[i].key.name@,
                                        c_penult[i].key.version@,
                                        true,
                                    );
                                let dv = rel.dependencies@[dj];
                                crate::activation::lemma_dep_activated_monotone(
                                    tmv,
                                    initv,
                                    names_view(closure@[ei as int].enabled.list@),
                                    dv,
                                    drnew && dv.optional,
                                    closure@[ei as int].root && dv.optional,
                                );
                                assert(edge_selects(
                                    storeg,
                                    targetg,
                                    *rel,
                                    names_view(closure@[ei as int].enabled.list@),
                                    closure@[ei as int].root,
                                    closure@[ei as int].download,
                                    dj,
                                    closure@[i].key.name@,
                                    closure@[i].key.version@,
                                    true,
                                ));
                                assert(pulled_by(
                                    storeg,
                                    targetg,
                                    closure@,
                                    i,
                                    ei as int,
                                    dj,
                                    true,
                                ));
                            }
                        }
                    }
                    assert forall|i2: int, g: Seq<u8>|
                        0 <= i2 < closure@.len() && #[trigger] has_bytes(
                        closure@[i2].requested.list@,
                        g,
                    ) implies has_bytes(closure@[i2].enabled.list@, g) || pending_feat(
                        jobs@,
                        closure@[i2].key.name@,
                        closure@[i2].key.version@,
                        g,
                    ) || (i2 == -1 && has_bytes(Seq::empty(), g) && (false || g
                        != default_name())) by {
                        if i2 != ei {
                            assert(closure@[i2] == c_penult[i2]);
                            assert(has_bytes(c_penult[i2].requested.list@, g));
                            if !has_bytes(c_penult[i2].enabled.list@, g) {
                                assert(pending_feat(
                                    jobs@,
                                    c_penult[i2].key.name@,
                                    c_penult[i2].key.version@,
                                    g,
                                ));
                            }
                        } else {
                            assert(closure@[i2].requested == c_penult[i2].requested);
                            assert(has_bytes(c_penult[i2].requested.list@, g));
                            if has_bytes(c_penult[i2].enabled.list@, g) {
                                assert(has_bytes(closure@[i2].enabled.list@, g));
                            } else if pending_feat(
                                jobs@,
                                c_penult[i2].key.name@,
                                c_penult[i2].key.version@,
                                g,
                            ) {
                            } else {
                                assert(has_bytes(job_g.feats@, g) && (job_g.default_flag || g
                                    != default_name()));
                                assert(!job_g.root);
                                assert(has_bytes(einit@, g));
                                assert(has_bytes(union.list@, g));
                                assert(has_bytes(closure@[i2].enabled.list@, g));
                            }
                        }
                    }
                }
            }
        }
        proof {
            assert forall|i: int, g: Seq<u8>|
                0 <= i < closure@.len() && #[trigger] has_bytes(
                closure@[i].requested.list@,
                g,
            ) implies has_bytes(closure@[i].enabled.list@, g) by {
                if pending_feat(jobs@, closure@[i].key.name@, closure@[i].key.version@, g) {
                    assert(false);
                }
            }
            assert forall|i: int| 0 <= i < closure@.len() implies entry_closed(
                storeg,
                targetg,
                closure@,
                (#[trigger] closure@[i]).key,
                closure@[i].enabled.list@,
                closure@[i].download,
                closure@[i].root,
            ) by {
                assert(note_pending(closure@[i], st@[i], jobs@));
                assert(st@[i].done);
                assert(closure@[i].download ==> st@[i].done_download);
                assert(closure@[i].root ==> st@[i].done_root);
                assert(note_ok(closure@[i], st@[i]));
                assert(st@[i].done_download == closure@[i].download);
                assert(st@[i].done_root == closure@[i].root);
            }
        }
        Ok(Resolution { closure, warnings })
    }
}

} // verus!
