//! The activation engine: given a release's parsed feature table and a set of
//! enabled feature names, decide for each dependency whether it is activated
//! and which features to enable in its target. Feature names activate further
//! feature names through `Feature` entries; the set so reachable drives the
//! dependency-directed entries.

use vstd::prelude::*;

use crate::bytestr::{bytes_clone, bytes_eq};
use crate::features::{EntryModel, FeatureEntry, FeatureTable, RowModel};
use crate::model::{distinct_bytes, has_bytes, lemma_has_bytes_extend, lemma_has_bytes_push,
    names_view, DependencyRef, FeaturesList};

verus! {

/// The entries of the first row named `f` at or after `i`, or none.
pub open spec fn entries_from(t: Seq<RowModel>, f: Seq<u8>, i: int) -> Seq<EntryModel>
    decreases t.len() - i,
{
    if i < 0 || i >= t.len() {
        Seq::empty()
    } else if t[i].name == f {
        t[i].entries
    } else {
        entries_from(t, f, i + 1)
    }
}

/// The entries feature `f` holds in table `t`: those of the first row named
/// `f`, or none when the table has no such row.
pub open spec fn entries_of(t: Seq<RowModel>, f: Seq<u8>) -> Seq<EntryModel> {
    entries_from(t, f, 0)
}

/// Feature `f` directly activates feature `g`.
pub open spec fn feature_step(t: Seq<RowModel>, f: Seq<u8>, g: Seq<u8>) -> bool {
    exists|e: int|
        0 <= e < entries_of(t, f).len() && (#[trigger] entries_of(t, f)[e]) == EntryModel::Feature(
            g,
        )
}

/// A chain of feature names: it starts in `init` and each name directly
/// activates the next.
pub open spec fn is_chain(t: Seq<RowModel>, init: Seq<Seq<u8>>, p: Seq<Seq<u8>>) -> bool {
    &&& p.len() > 0
    &&& init.contains(p[0])
    &&& forall|i: int| 0 <= i < p.len() - 1 ==> feature_step(t, #[trigger] p[i], p[i + 1])
}

/// Feature name `g` is enabled when the names in `init` are: some chain from
/// `init` ends in `g`. The names of `init` themselves count, whether or not
/// the table has a row for them.
pub open spec fn reachable(t: Seq<RowModel>, init: Seq<Seq<u8>>, g: Seq<u8>) -> bool {
    exists|p: Seq<Seq<u8>>| #[trigger] is_chain(t, init, p) && p.last() == g
}

/// Some entry of the row activates the dependency aliased `n`.
pub open spec fn row_activates(es: Seq<EntryModel>, n: Seq<u8>) -> bool {
    exists|e: int|
        0 <= e < es.len() && ((#[trigger] es[e]) == EntryModel::Dep(n) || (es[e] matches
        EntryModel::DepStrong(m, _) && m == n))
}

/// Some entry of the row strongly requests feature `g` of the dependency
/// aliased `n`.
pub open spec fn row_strong(es: Seq<EntryModel>, n: Seq<u8>, g: Seq<u8>) -> bool {
    exists|e: int| 0 <= e < es.len() && (#[trigger] es[e]) == EntryModel::DepStrong(n, g)
}

/// Some entry of the row weakly requests feature `g` of the dependency
/// aliased `n`.
pub open spec fn row_weak(es: Seq<EntryModel>, n: Seq<u8>, g: Seq<u8>) -> bool {
    exists|e: int| 0 <= e < es.len() && (#[trigger] es[e]) == EntryModel::DepWeak(n, g)
}

/// Whether dependency `d` is activated on a release with table `t` when the
/// names of `init` are enabled: required dependencies always are; optional
/// ones when forced (the root policy) or when an enabled feature's row
/// carries an activating entry for the alias.
pub open spec fn dep_activated(
    t: Seq<RowModel>,
    init: Seq<Seq<u8>>,
    d: DependencyRef,
    force: bool,
) -> bool {
    ||| !d.optional
    ||| force
    ||| exists|f: Seq<u8>|
        #[trigger] reachable(t, init, f) && row_activates(entries_of(t, f), d.ref_name@)
}

/// Some enabled feature strongly requests feature `g` of the alias `n`.
pub open spec fn strong_requested(
    t: Seq<RowModel>,
    init: Seq<Seq<u8>>,
    n: Seq<u8>,
    g: Seq<u8>,
) -> bool {
    exists|f: Seq<u8>| #[trigger] reachable(t, init, f) && row_strong(entries_of(t, f), n, g)
}

/// Some enabled feature weakly requests feature `g` of the alias `n`.
pub open spec fn weak_requested(
    t: Seq<RowModel>,
    init: Seq<Seq<u8>>,
    n: Seq<u8>,
    g: Seq<u8>,
) -> bool {
    exists|f: Seq<u8>| #[trigger] reachable(t, init, f) && row_weak(entries_of(t, f), n, g)
}

/// The name of the implicit `default` feature, as bytes.
pub open spec fn default_name() -> Seq<u8> {
    seq![('d' as u8), ('e' as u8), ('f' as u8), ('a' as u8), ('u' as u8), ('l' as u8), ('t' as u8)]
}

/// Whether feature `g` is to be enabled in the target of dependency `d`:
/// nothing when the dependency is not activated; otherwise `d`'s own feature
/// list, `default` when `d` asks for default features, every strongly
/// requested feature, and, for an optional dependency, every weakly
/// requested one (a weak request on a required dependency is malformed and
/// is dropped).
pub open spec fn dep_feature_requested(
    t: Seq<RowModel>,
    init: Seq<Seq<u8>>,
    d: DependencyRef,
    force: bool,
    g: Seq<u8>,
) -> bool {
    dep_activated(t, init, d, force) && {
        ||| has_bytes(d.features@, g)
        ||| (d.default_features && g == default_name())
        ||| strong_requested(t, init, d.ref_name@, g)
        ||| (d.optional && weak_requested(t, init, d.ref_name@, g))
    }
}

/// Finds the first row of the table named `f`, if any.
pub fn lookup_row(t: &FeatureTable, f: &Vec<u8>) -> (r: Option<usize>)
    ensures
        match r {
            Some(i) => i < t.rows@.len() && t@[i as int].name == f@ && t@[i as int].entries
                == entries_of(t@, f@),
            None => entries_of(t@, f@) == Seq::<EntryModel>::empty() && !exists|i: int|
                0 <= i < t@.len() && (#[trigger] t@[i]).name == f@,
        },
{
    let mut i: usize = 0;
    while i < t.rows.len()
        invariant
            i <= t.rows@.len(),
            forall|j: int| 0 <= j < i ==> (#[trigger] t@[j]).name != f@,
            entries_of(t@, f@) == entries_from(t@, f@, i as int),
        decreases t.rows@.len() - i,
    {
        if bytes_eq(&t.rows[i].name, f) {
            return Some(i);
        }
        i += 1;
    }
    None
}

/// The number of `Feature` entries at or after `e` in the row whose payload
/// `seen` does not hold yet.
spec fn pending_entries(es: Seq<EntryModel>, seen: Seq<Vec<u8>>, e: int) -> nat
    decreases es.len() - e,
{
    if e < 0 || e >= es.len() {
        0
    } else {
        (match es[e] {
            EntryModel::Feature(g) => if !has_bytes(seen, g) {
                1nat
            } else {
                0nat
            },
            _ => 0nat,
        }) + pending_entries(es, seen, e + 1)
    }
}

/// The number of such entries in the rows at or after `r`.
spec fn pending_rows(t: Seq<RowModel>, seen: Seq<Vec<u8>>, r: int) -> nat
    decreases t.len() - r,
{
    if r < 0 || r >= t.len() {
        0
    } else {
        pending_entries(t[r].entries, seen, 0) + pending_rows(t, seen, r + 1)
    }
}

/// The number of `Feature` entries anywhere in the table whose payload is
/// still missing from `seen`: the measure of the reachability scan.
spec fn pending_model(t: Seq<RowModel>, seen: Seq<Vec<u8>>) -> nat {
    pending_rows(t, seen, 0)
}

proof fn lemma_pending_entries_mono(es: Seq<EntryModel>, seen: Seq<Vec<u8>>, v: Vec<u8>, e: int)
    ensures
        pending_entries(es, seen.push(v), e) <= pending_entries(es, seen, e),
    decreases es.len() - e,
{
    broadcast use lemma_has_bytes_push;

    if 0 <= e < es.len() {
        lemma_pending_entries_mono(es, seen, v, e + 1);
    }
}

proof fn lemma_pending_rows_mono(t: Seq<RowModel>, seen: Seq<Vec<u8>>, v: Vec<u8>, r: int)
    ensures
        pending_rows(t, seen.push(v), r) <= pending_rows(t, seen, r),
    decreases t.len() - r,
{
    if 0 <= r < t.len() {
        lemma_pending_entries_mono(t[r].entries, seen, v, 0);
        lemma_pending_rows_mono(t, seen, v, r + 1);
    }
}

proof fn lemma_pending_entries_strict(
    es: Seq<EntryModel>,
    seen: Seq<Vec<u8>>,
    v: Vec<u8>,
    e: int,
    e0: int,
)
    requires
        0 <= e <= e0 < es.len(),
        es[e0] == EntryModel::Feature(v@),
        !has_bytes(seen, v@),
    ensures
        pending_entries(es, seen.push(v), e) < pending_entries(es, seen, e),
    decreases es.len() - e,
{
    broadcast use lemma_has_bytes_push;

    if e == e0 {
        lemma_pending_entries_mono(es, seen, v, e + 1);
    } else {
        lemma_pending_entries_strict(es, seen, v, e + 1, e0);
    }
}

proof fn lemma_pending_rows_strict(
    t: Seq<RowModel>,
    seen: Seq<Vec<u8>>,
    v: Vec<u8>,
    r: int,
    r0: int,
    e0: int,
)
    requires
        0 <= r <= r0 < t.len(),
        0 <= e0 < t[r0].entries.len(),
        t[r0].entries[e0] == EntryModel::Feature(v@),
        !has_bytes(seen, v@),
    ensures
        pending_rows(t, seen.push(v), r) < pending_rows(t, seen, r),
    decreases t.len() - r,
{
    if r == r0 {
        lemma_pending_entries_strict(t[r0].entries, seen, v, 0, e0);
        lemma_pending_rows_mono(t, seen, v, r + 1);
    } else {
        lemma_pending_entries_mono(t[r].entries, seen, v, 0);
        lemma_pending_rows_strict(t, seen, v, r + 1, r0, e0);
    }
}

/// A name in `init` is enabled by the one-step chain that is just itself.
proof fn lemma_reach_init(t: Seq<RowModel>, init: Seq<Seq<u8>>, g: Seq<u8>)
    requires
        init.contains(g),
    ensures
        reachable(t, init, g),
{
    let p: Seq<Seq<u8>> = seq![g];
    assert(is_chain(t, init, p));
    assert(p.last() == g);
}

/// A chain extends along a direct activation step.
proof fn lemma_reach_step(t: Seq<RowModel>, init: Seq<Seq<u8>>, f: Seq<u8>, g: Seq<u8>)
    requires
        reachable(t, init, f),
        feature_step(t, f, g),
    ensures
        reachable(t, init, g),
{
    let p = choose|p: Seq<Seq<u8>>| #[trigger] is_chain(t, init, p) && p.last() == f;
    let q = p.push(g);
    assert(q[0] == p[0]);
    assert forall|i: int| 0 <= i < q.len() - 1 implies feature_step(t, #[trigger] q[i], q[i + 1]) by {
        if i < p.len() - 1 {
            assert(q[i] == p[i] && q[i + 1] == p[i + 1]);
        } else {
            assert(q[i] == p.last() && q[i + 1] == g);
        }
    }
    assert(is_chain(t, init, q));
    assert(q.last() == g);
}

/// `seen` holds the payload of every `Feature` entry of every row named by
/// one of its own elements.
pub open spec fn closed_under_steps(t: Seq<RowModel>, seen: Seq<Vec<u8>>) -> bool {
    forall|j: int, e: int|
        0 <= j < seen.len() && 0 <= e < entries_of(t, seen[j]@).len() ==> ((#[trigger] entries_of(
            t,
            seen[j]@,
        )[e]) matches EntryModel::Feature(g) ==> has_bytes(seen, g))
}

/// Everything a chain reaches from a covered start lies inside a
/// step-closed list.
proof fn lemma_chain_covered(
    t: Seq<RowModel>,
    init: Seq<Seq<u8>>,
    seen: Seq<Vec<u8>>,
    p: Seq<Seq<u8>>,
)
    requires
        is_chain(t, init, p),
        closed_under_steps(t, seen),
        forall|g: Seq<u8>| init.contains(g) ==> has_bytes(seen, g),
    ensures
        has_bytes(seen, p.last()),
    decreases p.len(),
{
    if p.len() == 1 {
        assert(init.contains(p[0]));
    } else {
        let q = p.drop_last();
        assert(q[0] == p[0]);
        assert forall|i: int| 0 <= i < q.len() - 1 implies feature_step(t, #[trigger] q[i], q[i + 1]) by {
            assert(q[i] == p[i] && q[i + 1] == p[i + 1]);
        }
        assert(is_chain(t, init, q));
        lemma_chain_covered(t, init, seen, q);
        let f = p[p.len() - 2];
        assert(q.last() == f);
        assert(feature_step(t, f, p.last())) by {
            assert(feature_step(t, p[p.len() - 2], p[(p.len() - 2) + 1]));
        }
        let j = choose|j: int| 0 <= j < seen.len() && seen[j]@ == f;
        let e = choose|e: int|
            0 <= e < entries_of(t, f).len() && (#[trigger] entries_of(t, f)[e])
                == EntryModel::Feature(p.last());
        assert((entries_of(t, seen[j]@)[e]) matches EntryModel::Feature(g) && g == p.last());
    }
}

/// Computes the set of feature names enabled when the names of `init` are:
/// the least set holding `init` and closed under direct activation steps.
pub fn reachable_features(t: &FeatureTable, init: &Vec<Vec<u8>>) -> (r: FeaturesList)
    ensures
        distinct_bytes(r.list@),
        forall|g: Seq<u8>| #[trigger]
            has_bytes(r.list@, g) <==> reachable(t@, names_view(init@), g),
{
    broadcast use lemma_has_bytes_push;

    let ghost initv = names_view(init@);
    let mut seen = FeaturesList::new();
    let mut i: usize = 0;
    while i < init.len()
        invariant
            i <= init@.len(),
            initv == names_view(init@),
            distinct_bytes(seen.list@),
            forall|j: int| 0 <= j < i ==> has_bytes(seen.list@, (#[trigger] init@[j])@),
            forall|j: int|
                0 <= j < seen.list@.len() ==> reachable(t@, initv, (#[trigger] seen.list@[j])@),
        decreases init@.len() - i,
    {
        let ghost before = seen.list@;
        let item = bytes_clone(&init[i]);
        let ghost itemv = item@;
        seen.add_feature(item);
        proof {
            assert(initv[i as int] == init@[i as int]@);
            lemma_reach_init(t@, initv, init@[i as int]@);
            assert(before.is_prefix_of(seen.list@));
            assert forall|j: int|
                0 <= j < seen.list@.len() implies reachable(t@, initv, (#[trigger] seen.list@[j])@) by {
                if j < before.len() {
                    assert(seen.list@[j] == before[j]);
                } else {
                    assert(seen.list@[j]@ == itemv);
                }
            }
            assert forall|j: int| 0 <= j < i + 1 implies has_bytes(
                seen.list@,
                (#[trigger] init@[j])@,
            ) by {
                if j < i {
                    lemma_has_bytes_extend(before, seen.list@, init@[j]@);
                } else {
                    assert(has_bytes(seen.list@, itemv));
                }
            }
        }
        i += 1;
    }
    let mut k: usize = 0;
    while k < seen.len()
        invariant
            k <= seen.list@.len(),
            initv == names_view(init@),
            distinct_bytes(seen.list@),
            forall|j: int| 0 <= j < init@.len() ==> has_bytes(seen.list@, (#[trigger] init@[j])@),
            forall|j: int|
                0 <= j < seen.list@.len() ==> reachable(t@, initv, (#[trigger] seen.list@[j])@),
            forall|j: int, e: int|
                0 <= j < k && 0 <= e < entries_of(t@, seen.list@[j]@).len() ==> ((
                #[trigger] entries_of(t@, seen.list@[j]@)[e]) matches EntryModel::Feature(g)
                    ==> has_bytes(seen.list@, g)),
        decreases pending_model(t@, seen.list@), seen.list@.len() - k,
    {
        let ghost seen0 = seen.list@;
        let f = bytes_clone(&seen.list[k]);
        match lookup_row(t, &f) {
            None => {},
            Some(ri) => {
                let mut e: usize = 0;
                while e < t.rows[ri].entries.len()
                    invariant
                        initv == names_view(init@),
                        ri < t.rows@.len(),
                        t@[ri as int].entries == entries_of(t@, f@),
                        e <= t.rows@[ri as int].entries@.len(),
                        k < seen0.len(),
                        seen0[k as int]@ == f@,
                        seen0.is_prefix_of(seen.list@),
                        distinct_bytes(seen.list@),
                        forall|j: int|
                            0 <= j < init@.len() ==> has_bytes(
                                seen.list@,
                                (#[trigger] init@[j])@,
                            ),
                        forall|j: int|
                            0 <= j < seen.list@.len() ==> reachable(
                                t@,
                                initv,
                                (#[trigger] seen.list@[j])@,
                            ),
                        forall|j: int, e2: int|
                            0 <= j < k && 0 <= e2 < entries_of(t@, seen.list@[j]@).len() ==> ((
                            #[trigger] entries_of(t@, seen.list@[j]@)[e2]) matches
                                EntryModel::Feature(g) ==> has_bytes(seen.list@, g)),
                        forall|e2: int|
                            0 <= e2 < e ==> ((#[trigger] entries_of(t@, f@)[e2]) matches
                                EntryModel::Feature(g) ==> has_bytes(seen.list@, g)),
                        pending_model(t@, seen.list@) <= pending_model(t@, seen0),
                        seen.list@.len() > seen0.len() ==> pending_model(t@, seen.list@)
                            < pending_model(t@, seen0),
                    decreases t.rows@[ri as int].entries@.len() - e,
                {
                    let ghost before = seen.list@;
                    match &t.rows[ri].entries[e] {
                        FeatureEntry::Feature(g) => {
                            proof {
                                assert(t@[ri as int] == t.rows@[ri as int]@);
                                assert(t@[ri as int].entries[e as int] == (
                                t.rows@[ri as int].entries@[e as int])@);
                                assert(entries_of(t@, f@)[e as int] == EntryModel::Feature(g@));
                            }
                            let gv = bytes_clone(g);
                            let added = seen.add_feature(gv);
                            proof {
                                assert(before.is_prefix_of(seen.list@));
                                if added {
                                    assert(seen0[k as int] == before[k as int]);
                                    assert(before[k as int] == seen.list@[k as int]);
                                    assert(reachable(t@, initv, f@));
                                    assert(feature_step(t@, f@, g@));
                                    lemma_reach_step(t@, initv, f@, g@);
                                    let pushed = seen.list@[seen.list@.len() - 1];
                                    assert(before.push(pushed) == seen.list@);
                                    assert(pushed@ == g@);
                                    lemma_pending_rows_strict(
                                        t@,
                                        before,
                                        pushed,
                                        0,
                                        ri as int,
                                        e as int,
                                    );
                                    assert(pending_model(t@, seen.list@) < pending_model(
                                        t@,
                                        before,
                                    ));
                                    assert forall|j: int|
                                        0 <= j < seen.list@.len() implies reachable(
                                        t@,
                                        initv,
                                        (#[trigger] seen.list@[j])@,
                                    ) by {
                                        if j < before.len() {
                                            assert(seen.list@[j] == before[j]);
                                        } else {
                                            assert(seen.list@[j]@ == g@);
                                        }
                                    }
                                }
                                assert forall|j: int| 0 <= j < init@.len() implies has_bytes(
                                    seen.list@,
                                    (#[trigger] init@[j])@,
                                ) by {
                                    lemma_has_bytes_extend(before, seen.list@, init@[j]@);
                                }
                                assert forall|j: int, e2: int|
                                    0 <= j < k && 0 <= e2 < entries_of(
                                        t@,
                                        seen.list@[j]@,
                                    ).len() implies ((#[trigger] entries_of(
                                    t@,
                                    seen.list@[j]@,
                                )[e2]) matches EntryModel::Feature(g2) ==> has_bytes(
                                    seen.list@,
                                    g2,
                                )) by {
                                    assert(seen.list@[j] == before[j]);
                                    match entries_of(t@, before[j]@)[e2] {
                                        EntryModel::Feature(g2) => {
                                            lemma_has_bytes_extend(before, seen.list@, g2);
                                        },
                                        _ => {},
                                    }
                                }
                                assert forall|e2: int| 0 <= e2 < e + 1 implies ((
                                #[trigger] entries_of(t@, f@)[e2]) matches EntryModel::Feature(g2)
                                    ==> has_bytes(seen.list@, g2)) by {
                                    if e2 < e {
                                        match entries_of(t@, f@)[e2] {
                                            EntryModel::Feature(g2) => {
                                                lemma_has_bytes_extend(before, seen.list@, g2);
                                            },
                                            _ => {},
                                        }
                                    } else {
                                        assert(entries_of(t@, f@)[e2] == EntryModel::Feature(g@));
                                        assert(has_bytes(seen.list@, g@));
                                    }
                                }
                            }
                        },
                        _ => {},
                    }
                    e += 1;
                }
            },
        }
        k += 1;
        proof {
            assert forall|j: int, e2: int|
                0 <= j < k && 0 <= e2 < entries_of(t@, seen.list@[j]@).len() implies ((
            #[trigger] entries_of(t@, seen.list@[j]@)[e2]) matches EntryModel::Feature(g)
                ==> has_bytes(seen.list@, g)) by {
                if j == k - 1 {
                    assert(seen.list@[j]@ == seen0[j]@);
                }
            }
        }
    }
    proof {
        assert forall|g: Seq<u8>| #[trigger]
            has_bytes(seen.list@, g) <==> reachable(t@, initv, g) by {
            if reachable(t@, initv, g) {
                let p = choose|p: Seq<Seq<u8>>| #[trigger] is_chain(t@, initv, p) && p.last() == g;
                assert forall|x: Seq<u8>| initv.contains(x) implies has_bytes(seen.list@, x) by {
                    let j = choose|j: int| 0 <= j < initv.len() && initv[j] == x;
                    assert(init@[j]@ == x);
                }
                assert(closed_under_steps(t@, seen.list@));
                lemma_chain_covered(t@, initv, seen.list@, p);
            }
        }
    }
    seen
}

/// The mathematical form of an entry list.
pub open spec fn entries_view(es: Seq<FeatureEntry>) -> Seq<EntryModel> {
    es.map_values(|e: FeatureEntry| e@)
}

proof fn lemma_row_preds_push(es: Seq<EntryModel>, x: EntryModel, n: Seq<u8>, g: Seq<u8>)
    ensures
        row_strong(es.push(x), n, g) <==> (row_strong(es, n, g) || x == EntryModel::DepStrong(
            n,
            g,
        )),
        row_weak(es.push(x), n, g) <==> (row_weak(es, n, g) || x == EntryModel::DepWeak(n, g)),
        row_activates(es.push(x), n) <==> (row_activates(es, n) || x == EntryModel::Dep(n) || (
        x matches EntryModel::DepStrong(m, _) && m == n)),
{
    let esx = es.push(x);
    if row_strong(esx, n, g) {
        let e = choose|e: int| 0 <= e < esx.len() && (#[trigger] esx[e]) == EntryModel::DepStrong(n, g);
        if e < es.len() {
            assert(es[e] == esx[e]);
            assert(row_strong(es, n, g));
        }
    }
    if row_strong(es, n, g) {
        let e = choose|e: int| 0 <= e < es.len() && (#[trigger] es[e]) == EntryModel::DepStrong(n, g);
        assert(esx[e] == es[e]);
        assert(row_strong(esx, n, g));
    }
    if x == EntryModel::DepStrong(n, g) {
        assert(esx[es.len() as int] == x);
        assert(row_strong(esx, n, g));
    }
    if row_weak(esx, n, g) {
        let e = choose|e: int| 0 <= e < esx.len() && (#[trigger] esx[e]) == EntryModel::DepWeak(n, g);
        if e < es.len() {
            assert(es[e] == esx[e]);
            assert(row_weak(es, n, g));
        }
    }
    if row_weak(es, n, g) {
        let e = choose|e: int| 0 <= e < es.len() && (#[trigger] es[e]) == EntryModel::DepWeak(n, g);
        assert(esx[e] == es[e]);
        assert(row_weak(esx, n, g));
    }
    if x == EntryModel::DepWeak(n, g) {
        assert(esx[es.len() as int] == x);
        assert(row_weak(esx, n, g));
    }
    if row_activates(esx, n) {
        let e = choose|e: int|
            0 <= e < esx.len() && ((#[trigger] esx[e]) == EntryModel::Dep(n) || (esx[e] matches
            EntryModel::DepStrong(m, _) && m == n));
        if e < es.len() {
            assert(es[e] == esx[e]);
            assert(row_activates(es, n));
        }
    }
    if row_activates(es, n) {
        let e = choose|e: int|
            0 <= e < es.len() && ((#[trigger] es[e]) == EntryModel::Dep(n) || (es[e] matches
            EntryModel::DepStrong(m, _) && m == n));
        assert(esx[e] == es[e]);
        assert(row_activates(esx, n));
    }
    if x == EntryModel::Dep(n) || (x matches EntryModel::DepStrong(m, _) && m == n) {
        assert(esx[es.len() as int] == x);
        assert(row_activates(esx, n));
    }
}

/// Scans one row's entries for those directed at the alias of `d`,
/// collecting strongly and weakly requested features and reporting whether
/// an entry activates the dependency.
fn scan_row_for_dep(
    es: &Vec<FeatureEntry>,
    d: &DependencyRef,
    strongs: &mut FeaturesList,
    weaks: &mut FeaturesList,
) -> (act: bool)
    requires
        distinct_bytes(old(strongs).list@),
        distinct_bytes(old(weaks).list@),
    ensures
        act == row_activates(entries_view(es@), d.ref_name@),
        distinct_bytes(final(strongs).list@),
        distinct_bytes(final(weaks).list@),
        forall|g: Seq<u8>| #[trigger]
            has_bytes(final(strongs).list@, g) <==> (has_bytes(old(strongs).list@, g)
                || row_strong(entries_view(es@), d.ref_name@, g)),
        forall|g: Seq<u8>| #[trigger]
            has_bytes(final(weaks).list@, g) <==> (has_bytes(old(weaks).list@, g) || row_weak(
                entries_view(es@),
                d.ref_name@,
                g,
            )),
{
    broadcast use lemma_has_bytes_push;

    let ghost ev = entries_view(es@);
    let ghost n = d.ref_name@;
    let mut act = false;
    let mut e: usize = 0;
    while e < es.len()
        invariant
            e <= es@.len(),
            ev == entries_view(es@),
            n == d.ref_name@,
            distinct_bytes(strongs.list@),
            distinct_bytes(weaks.list@),
            act == row_activates(ev.take(e as int), n),
            forall|g: Seq<u8>| #[trigger]
                has_bytes(strongs.list@, g) <==> (has_bytes(old(strongs).list@, g) || row_strong(
                    ev.take(e as int),
                    n,
                    g,
                )),
            forall|g: Seq<u8>| #[trigger]
                has_bytes(weaks.list@, g) <==> (has_bytes(old(weaks).list@, g) || row_weak(
                    ev.take(e as int),
                    n,
                    g,
                )),
        decreases es@.len() - e,
    {
        let ghost pre = ev.take(e as int);
        let ghost x = ev[e as int];
        proof {
            assert(x == es@[e as int]@);
            assert(ev.take(e + 1 as int) =~= pre.push(x));
        }
        match &es[e] {
            FeatureEntry::Dep(m) => {
                let hit = bytes_eq(m, &d.ref_name);
                if hit {
                    act = true;
                }
                proof {
                    assert(x == EntryModel::Dep(m@));
                    lemma_row_preds_push(pre, x, n, Seq::empty());
                    assert forall|g: Seq<u8>| true implies ((#[trigger] row_strong(
                        ev.take(e + 1 as int),
                        n,
                        g,
                    ) == row_strong(pre, n, g)) && (row_weak(ev.take(e + 1 as int), n, g)
                        == row_weak(pre, n, g))) by {
                        lemma_row_preds_push(pre, x, n, g);
                    }
                }
            },
            FeatureEntry::DepStrong(m, gf) => {
                let hit = bytes_eq(m, &d.ref_name);
                let ghost strongs0 = strongs.list@;
                if hit {
                    act = true;
                    strongs.add_feature(bytes_clone(gf));
                }
                proof {
                    assert(x == EntryModel::DepStrong(m@, gf@));
                    lemma_row_preds_push(pre, x, n, Seq::empty());
                    assert forall|g: Seq<u8>| true implies ((#[trigger] row_strong(
                        ev.take(e + 1 as int),
                        n,
                        g,
                    ) <==> (row_strong(pre, n, g) || (m@ == n && g == gf@))) && (row_weak(
                        ev.take(e + 1 as int),
                        n,
                        g,
                    ) == row_weak(pre, n, g))) by {
                        lemma_row_preds_push(pre, x, n, g);
                    }
                }
            },
            FeatureEntry::DepWeak(m, gf) => {
                let hit = bytes_eq(m, &d.ref_name);
                let ghost weaks0 = weaks.list@;
                if hit {
                    weaks.add_feature(bytes_clone(gf));
                }
                proof {
                    assert(x == EntryModel::DepWeak(m@, gf@));
                    lemma_row_preds_push(pre, x, n, Seq::empty());
                    assert forall|g: Seq<u8>| true implies ((#[trigger] row_weak(
                        ev.take(e + 1 as int),
                        n,
                        g,
                    ) <==> (row_weak(pre, n, g) || (m@ == n && g == gf@))) && (row_strong(
                        ev.take(e + 1 as int),
                        n,
                        g,
                    ) == row_strong(pre, n, g))) by {
                        lemma_row_preds_push(pre, x, n, g);
                    }
                }
            },
            FeatureEntry::Feature(m) => {
                proof {
                    assert(x == EntryModel::Feature(m@));
                    lemma_row_preds_push(pre, x, n, Seq::empty());
                    assert forall|g: Seq<u8>| true implies ((#[trigger] row_strong(
                        ev.take(e + 1 as int),
                        n,
                        g,
                    ) == row_strong(pre, n, g)) && (row_weak(ev.take(e + 1 as int), n, g)
                        == row_weak(pre, n, g))) by {
                        lemma_row_preds_push(pre, x, n, g);
                    }
                }
            },
        }
        e += 1;
    }
    proof {
        assert(ev.take(es@.len() as int) =~= ev);
    }
    act
}

/// Adds every name of `src` to `out`.
pub(crate) fn extend_features(out: &mut FeaturesList, src: &Vec<Vec<u8>>)
    requires
        distinct_bytes(old(out).list@),
    ensures
        distinct_bytes(final(out).list@),
        forall|g: Seq<u8>| #[trigger]
            has_bytes(final(out).list@, g) <==> (has_bytes(old(out).list@, g) || has_bytes(
                src@,
                g,
            )),
{
    broadcast use lemma_has_bytes_push;

    let mut i: usize = 0;
    while i < src.len()
        invariant
            i <= src@.len(),
            distinct_bytes(out.list@),
            forall|g: Seq<u8>| #[trigger]
                has_bytes(out.list@, g) <==> (has_bytes(old(out).list@, g) || exists|j: int|
                    0 <= j < i && (#[trigger] src@[j])@ == g),
        decreases src@.len() - i,
    {
        let item = bytes_clone(&src[i]);
        let ghost itemv = item@;
        out.add_feature(item);
        proof {
            assert forall|g: Seq<u8>| #[trigger]
                has_bytes(out.list@, g) <==> (has_bytes(old(out).list@, g) || exists|j: int|
                    0 <= j < i + 1 && (#[trigger] src@[j])@ == g) by {
                if has_bytes(out.list@, g) && !has_bytes(old(out).list@, g) {
                    if g == itemv {
                        assert(0 <= i < i + 1 && src@[i as int]@ == g);
                    } else {
                        let j = choose|j: int| 0 <= j < i && (#[trigger] src@[j])@ == g;
                    }
                }
                if exists|j: int| 0 <= j < i + 1 && (#[trigger] src@[j])@ == g {
                    let j = choose|j: int| 0 <= j < i + 1 && (#[trigger] src@[j])@ == g;
                    if j < i {
                        assert(exists|j2: int| 0 <= j2 < i && (#[trigger] src@[j2])@ == g);
                    } else {
                        assert(g == itemv);
                    }
                    assert(has_bytes(out.list@, g));
                }
            }
        }
        i += 1;
    }
}

/// The byte string of the implicit `default` feature name.
pub fn default_feature_bytes() -> (r: Vec<u8>)
    ensures
        r@ == default_name(),
{
    let mut r: Vec<u8> = Vec::new();
    r.push('d' as u8);
    r.push('e' as u8);
    r.push('f' as u8);
    r.push('a' as u8);
    r.push('u' as u8);
    r.push('l' as u8);
    r.push('t' as u8);
    proof {
        assert(r@ =~= default_name());
    }
    r
}

/// Some row of the first `j` names of `rs` carries a `p`-entry for `n`: the
/// scan's progress predicates.
spec fn list_activates(t: Seq<RowModel>, rs: Seq<Vec<u8>>, j: int, n: Seq<u8>) -> bool {
    exists|i: int| 0 <= i < j && i < rs.len() && row_activates(entries_of(t, (#[trigger] rs[i])@), n)
}

spec fn list_strong(t: Seq<RowModel>, rs: Seq<Vec<u8>>, j: int, n: Seq<u8>, g: Seq<u8>) -> bool {
    exists|i: int| 0 <= i < j && i < rs.len() && row_strong(entries_of(t, (#[trigger] rs[i])@), n, g)
}

spec fn list_weak(t: Seq<RowModel>, rs: Seq<Vec<u8>>, j: int, n: Seq<u8>, g: Seq<u8>) -> bool {
    exists|i: int| 0 <= i < j && i < rs.len() && row_weak(entries_of(t, (#[trigger] rs[i])@), n, g)
}

/// Over the whole of an exact reachable list, the scan's progress
/// predicates say just what the enabled-feature predicates say.
proof fn lemma_list_to_requested(
    t: Seq<RowModel>,
    rs: Seq<Vec<u8>>,
    init: Seq<Seq<u8>>,
    n: Seq<u8>,
    g: Seq<u8>,
)
    requires
        forall|x: Seq<u8>| #[trigger] has_bytes(rs, x) <==> reachable(t, init, x),
    ensures
        list_strong(t, rs, rs.len() as int, n, g) == strong_requested(t, init, n, g),
        list_weak(t, rs, rs.len() as int, n, g) == weak_requested(t, init, n, g),
        list_activates(t, rs, rs.len() as int, n) == (exists|f: Seq<u8>|
            #[trigger] reachable(t, init, f) && row_activates(entries_of(t, f), n)),
{
    let l = rs.len() as int;
    if list_strong(t, rs, l, n, g) {
        let i = choose|i: int| 0 <= i < l && i < rs.len() && row_strong(entries_of(t, (#[trigger] rs[i])@), n, g);
        assert(has_bytes(rs, rs[i]@));
        assert(reachable(t, init, rs[i]@) && row_strong(entries_of(t, rs[i]@), n, g));
    }
    if strong_requested(t, init, n, g) {
        let f = choose|f: Seq<u8>| #[trigger] reachable(t, init, f) && row_strong(entries_of(t, f), n, g);
        assert(has_bytes(rs, f));
        let i = choose|i: int| 0 <= i < rs.len() && rs[i]@ == f;
        assert(row_strong(entries_of(t, rs[i]@), n, g));
        assert(list_strong(t, rs, l, n, g));
    }
    if list_weak(t, rs, l, n, g) {
        let i = choose|i: int| 0 <= i < l && i < rs.len() && row_weak(entries_of(t, (#[trigger] rs[i])@), n, g);
        assert(has_bytes(rs, rs[i]@));
        assert(reachable(t, init, rs[i]@) && row_weak(entries_of(t, rs[i]@), n, g));
    }
    if weak_requested(t, init, n, g) {
        let f = choose|f: Seq<u8>| #[trigger] reachable(t, init, f) && row_weak(entries_of(t, f), n, g);
        assert(has_bytes(rs, f));
        let i = choose|i: int| 0 <= i < rs.len() && rs[i]@ == f;
        assert(row_weak(entries_of(t, rs[i]@), n, g));
        assert(list_weak(t, rs, l, n, g));
    }
    if list_activates(t, rs, l, n) {
        let i = choose|i: int| 0 <= i < l && i < rs.len() && row_activates(entries_of(t, (#[trigger] rs[i])@), n);
        assert(has_bytes(rs, rs[i]@));
        assert(reachable(t, init, rs[i]@) && row_activates(entries_of(t, rs[i]@), n));
    }
    if exists|f: Seq<u8>| #[trigger] reachable(t, init, f) && row_activates(entries_of(t, f), n) {
        let f = choose|f: Seq<u8>| #[trigger] reachable(t, init, f) && row_activates(entries_of(t, f), n);
        assert(has_bytes(rs, f));
        let i = choose|i: int| 0 <= i < rs.len() && rs[i]@ == f;
        assert(row_activates(entries_of(t, rs[i]@), n));
        assert(list_activates(t, rs, l, n));
    }
}

/// Decides whether dependency `d` is activated under the enabled names
/// `init`, and computes the features to enable in its target, exactly as
/// `dep_activated` and `dep_feature_requested` describe. `reach` must be the
/// exact reachable set for `init`, as `reachable_features` computes it.
pub fn activation_for_dep(
    t: &FeatureTable,
    reach: &FeaturesList,
    d: &DependencyRef,
    force: bool,
    Ghost(init): Ghost<Seq<Seq<u8>>>,
) -> (r: (bool, FeaturesList))
    requires
        forall|g: Seq<u8>| #[trigger] has_bytes(reach.list@, g) <==> reachable(t@, init, g),
    ensures
        r.0 == dep_activated(t@, init, *d, force),
        distinct_bytes(r.1.list@),
        forall|g: Seq<u8>| #[trigger]
            has_bytes(r.1.list@, g) <==> dep_feature_requested(t@, init, *d, force, g),
{
    let ghost n = d.ref_name@;
    let mut strongs = FeaturesList::new();
    let mut weaks = FeaturesList::new();
    let mut found = false;
    let mut j: usize = 0;
    while j < reach.len()
        invariant
            j <= reach.list@.len(),
            n == d.ref_name@,
            forall|g: Seq<u8>| #[trigger] has_bytes(reach.list@, g) <==> reachable(t@, init, g),
            distinct_bytes(strongs.list@),
            distinct_bytes(weaks.list@),
            found == list_activates(t@, reach.list@, j as int, n),
            forall|g: Seq<u8>| #[trigger]
                has_bytes(strongs.list@, g) <==> list_strong(t@, reach.list@, j as int, n, g),
            forall|g: Seq<u8>| #[trigger]
                has_bytes(weaks.list@, g) <==> list_weak(t@, reach.list@, j as int, n, g),
        decreases reach.list@.len() - j,
    {
        let f = &reach.list[j];
        let ghost strongs0 = strongs.list@;
        let ghost weaks0 = weaks.list@;
        let ghost found0 = found;
        match lookup_row(t, f) {
            None => {
                proof {
                    assert(entries_of(t@, f@) =~= Seq::<EntryModel>::empty());
                }
            },
            Some(ri) => {
                proof {
                    assert(entries_view(t.rows@[ri as int].entries@) == t@[ri as int].entries);
                }
                let act = scan_row_for_dep(&t.rows[ri].entries, d, &mut strongs, &mut weaks);
                if act {
                    found = true;
                }
            },
        }
        proof {
            assert forall|g: Seq<u8>| #[trigger]
                has_bytes(strongs.list@, g) <==> list_strong(
                t@,
                reach.list@,
                j + 1 as int,
                n,
                g,
            ) by {
                if has_bytes(strongs.list@, g) {
                    if has_bytes(strongs0, g) {
                        let i = choose|i: int|
                            0 <= i < j && i < reach.list@.len() && row_strong(
                                entries_of(t@, (#[trigger] reach.list@[i])@),
                                n,
                                g,
                            );
                        assert(list_strong(t@, reach.list@, j + 1 as int, n, g));
                    } else {
                        assert(row_strong(entries_of(t@, reach.list@[j as int]@), n, g));
                        assert(list_strong(t@, reach.list@, j + 1 as int, n, g));
                    }
                }
                if list_strong(t@, reach.list@, j + 1 as int, n, g) {
                    let i = choose|i: int|
                        0 <= i < j + 1 && i < reach.list@.len() && row_strong(
                            entries_of(t@, (#[trigger] reach.list@[i])@),
                            n,
                            g,
                        );
                    if i < j {
                        assert(list_strong(t@, reach.list@, j as int, n, g));
                        assert(has_bytes(strongs0, g));
                    }
                    assert(has_bytes(strongs.list@, g));
                }
            }
            assert forall|g: Seq<u8>| #[trigger]
                has_bytes(weaks.list@, g) <==> list_weak(t@, reach.list@, j + 1 as int, n, g) by {
                if has_bytes(weaks.list@, g) {
                    if has_bytes(weaks0, g) {
                        let i = choose|i: int|
                            0 <= i < j && i < reach.list@.len() && row_weak(
                                entries_of(t@, (#[trigger] reach.list@[i])@),
                                n,
                                g,
                            );
                        assert(list_weak(t@, reach.list@, j + 1 as int, n, g));
                    } else {
                        assert(row_weak(entries_of(t@, reach.list@[j as int]@), n, g));
                        assert(list_weak(t@, reach.list@, j + 1 as int, n, g));
                    }
                }
                if list_weak(t@, reach.list@, j + 1 as int, n, g) {
                    let i = choose|i: int|
                        0 <= i < j + 1 && i < reach.list@.len() && row_weak(
                            entries_of(t@, (#[trigger] reach.list@[i])@),
                            n,
                            g,
                        );
                    if i < j {
                        assert(list_weak(t@, reach.list@, j as int, n, g));
                        assert(has_bytes(weaks0, g));
                    }
                    assert(has_bytes(weaks.list@, g));
                }
            }
            if found {
                if found0 {
                    let i = choose|i: int|
                        0 <= i < j && i < reach.list@.len() && row_activates(
                            entries_of(t@, (#[trigger] reach.list@[i])@),
                            n,
                        );
                    assert(list_activates(t@, reach.list@, j + 1 as int, n));
                } else {
                    assert(row_activates(entries_of(t@, reach.list@[j as int]@), n));
                    assert(list_activates(t@, reach.list@, j + 1 as int, n));
                }
            } else {
                if list_activates(t@, reach.list@, j + 1 as int, n) {
                    let i = choose|i: int|
                        0 <= i < j + 1 && i < reach.list@.len() && row_activates(
                            entries_of(t@, (#[trigger] reach.list@[i])@),
                            n,
                        );
                    if i < j {
                        assert(list_activates(t@, reach.list@, j as int, n));
                    }
                    assert(false);
                }
            }
        }
        j += 1;
    }
    proof {
        assert forall|g: Seq<u8>| true implies (#[trigger] list_strong(
            t@,
            reach.list@,
            reach.list@.len() as int,
            n,
            g,
        ) == strong_requested(t@, init, n, g) && list_weak(
            t@,
            reach.list@,
            reach.list@.len() as int,
            n,
            g,
        ) == weak_requested(t@, init, n, g)) by {
            lemma_list_to_requested(t@, reach.list@, init, n, g);
        }
        lemma_list_to_requested(t@, reach.list@, init, n, Seq::empty());
    }
    proof {
        let l = reach.list@.len() as int;
        assert(found == list_activates(t@, reach.list@, l, n));
        assert(forall|g: Seq<u8>| #[trigger]
            has_bytes(strongs.list@, g) <==> list_strong(t@, reach.list@, l, n, g));
        assert(forall|g: Seq<u8>| #[trigger]
            has_bytes(weaks.list@, g) <==> list_weak(t@, reach.list@, l, n, g));
    }
    let active = !d.optional || force || found;
    proof {
        assert(active == dep_activated(t@, init, *d, force));
    }
    if !active {
        let empty = FeaturesList::new();
        return (false, empty);
    }
    let mut out = FeaturesList::new();
    extend_features(&mut out, &d.features);
    if d.default_features {
        out.add_feature(default_feature_bytes());
    }
    let ghost base = out.list@;
    proof {
        broadcast use lemma_has_bytes_push;

        assert forall|g: Seq<u8>| #[trigger]
            has_bytes(base, g) <==> (has_bytes(d.features@, g) || (d.default_features && g
                == default_name())) by {}
    }
    extend_features(&mut out, &strongs.list);
    if d.optional {
        extend_features(&mut out, &weaks.list);
    }
    proof {
        assert forall|g: Seq<u8>| #[trigger]
            has_bytes(out.list@, g) <==> dep_feature_requested(t@, init, *d, force, g) by {
            lemma_list_to_requested(t@, reach.list@, init, n, g);
            assert(has_bytes(strongs.list@, g) == strong_requested(t@, init, n, g));
            assert(has_bytes(weaks.list@, g) == weak_requested(t@, init, n, g));
        }
    }
    (true, out)
}

/// A `Dep` entry in an enabled feature activates the dependency it names:
/// if some enabled feature of the release holds the entry `Dep(n)` for the
/// alias of `d`, then `d` is activated.
pub proof fn lemma_dep_entry_activates(
    t: Seq<RowModel>,
    init: Seq<Seq<u8>>,
    d: DependencyRef,
    force: bool,
    f: Seq<u8>,
    e: int,
)
    requires
        reachable(t, init, f),
        0 <= e < entries_of(t, f).len(),
        entries_of(t, f)[e] == EntryModel::Dep(d.ref_name@),
    ensures
        dep_activated(t, init, d, force),
{
    assert(row_activates(entries_of(t, f), d.ref_name@));
}

/// A `DepStrong` entry in an enabled feature activates the dependency it
/// names and additionally enables the named feature in it.
pub proof fn lemma_dep_strong_activates_and_adds(
    t: Seq<RowModel>,
    init: Seq<Seq<u8>>,
    d: DependencyRef,
    force: bool,
    f: Seq<u8>,
    e: int,
    g: Seq<u8>,
)
    requires
        reachable(t, init, f),
        0 <= e < entries_of(t, f).len(),
        entries_of(t, f)[e] == EntryModel::DepStrong(d.ref_name@, g),
    ensures
        dep_activated(t, init, d, force),
        dep_feature_requested(t, init, d, force, g),
{
    assert(row_activates(entries_of(t, f), d.ref_name@));
    assert(row_strong(entries_of(t, f), d.ref_name@, g));
    assert(strong_requested(t, init, d.ref_name@, g));
}

/// `DepWeak` entries alone do not activate: when every entry of every
/// enabled feature that names the alias of an optional, unforced dependency
/// is a `DepWeak` entry, the dependency stays inactive.
pub proof fn lemma_dep_weak_alone_does_not_activate(
    t: Seq<RowModel>,
    init: Seq<Seq<u8>>,
    d: DependencyRef,
)
    requires
        d.optional,
        forall|f: Seq<u8>, e: int|
            reachable(t, init, f) && 0 <= e < entries_of(t, f).len() && entry_names_alias(
                #[trigger] entries_of(t, f)[e],
                d.ref_name@,
            ) ==> (entries_of(t, f)[e] matches EntryModel::DepWeak(m, g)),
    ensures
        !dep_activated(t, init, d, false),
{
    if dep_activated(t, init, d, false) {
        let f = choose|f: Seq<u8>|
            #[trigger] reachable(t, init, f) && row_activates(entries_of(t, f), d.ref_name@);
        let e = choose|e: int|
            0 <= e < entries_of(t, f).len() && ((#[trigger] entries_of(t, f)[e])
                == EntryModel::Dep(d.ref_name@) || (entries_of(t, f)[e] matches
            EntryModel::DepStrong(m, _) && m == d.ref_name@));
        assert(entry_names_alias(entries_of(t, f)[e], d.ref_name@));
    }
}

/// True when the entry is directed at the dependency aliased `n`.
pub open spec fn entry_names_alias(x: EntryModel, n: Seq<u8>) -> bool {
    match x {
        EntryModel::Feature(_) => false,
        EntryModel::Dep(m) => m == n,
        EntryModel::DepStrong(m, _) => m == n,
        EntryModel::DepWeak(m, _) => m == n,
    }
}

/// Pairing a `DepWeak` entry with any activator for its dependency enables
/// the named feature in the dependency's target.
pub proof fn lemma_dep_weak_with_activator_adds(
    t: Seq<RowModel>,
    init: Seq<Seq<u8>>,
    d: DependencyRef,
    force: bool,
    f: Seq<u8>,
    e: int,
    g: Seq<u8>,
)
    requires
        d.optional,
        dep_activated(t, init, d, force),
        reachable(t, init, f),
        0 <= e < entries_of(t, f).len(),
        entries_of(t, f)[e] == EntryModel::DepWeak(d.ref_name@, g),
    ensures
        dep_feature_requested(t, init, d, force, g),
{
    assert(row_weak(entries_of(t, f), d.ref_name@, g));
    assert(weak_requested(t, init, d.ref_name@, g));
}

/// Enabling more names enables no fewer features.
pub proof fn lemma_reachable_monotone(
    t: Seq<RowModel>,
    init1: Seq<Seq<u8>>,
    init2: Seq<Seq<u8>>,
    g: Seq<u8>,
)
    requires
        forall|x: Seq<u8>| init1.contains(x) ==> init2.contains(x),
        reachable(t, init1, g),
    ensures
        reachable(t, init2, g),
{
    let p = choose|p: Seq<Seq<u8>>| #[trigger] is_chain(t, init1, p) && p.last() == g;
    assert(init2.contains(p[0]));
    assert(is_chain(t, init2, p));
}

/// Activation is monotone in the enabled names and in the forcing flag.
pub proof fn lemma_dep_activated_monotone(
    t: Seq<RowModel>,
    init1: Seq<Seq<u8>>,
    init2: Seq<Seq<u8>>,
    d: DependencyRef,
    f1: bool,
    f2: bool,
)
    requires
        forall|x: Seq<u8>| init1.contains(x) ==> init2.contains(x),
        f1 ==> f2,
        dep_activated(t, init1, d, f1),
    ensures
        dep_activated(t, init2, d, f2),
{
    if d.optional && !f1 {
        let f = choose|f: Seq<u8>|
            #[trigger] reachable(t, init1, f) && row_activates(entries_of(t, f), d.ref_name@);
        lemma_reachable_monotone(t, init1, init2, f);
    }
}

} // verus!
