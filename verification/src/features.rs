//! Feature-table parsing: each raw activation string of a release's feature
//! map is parsed into a tagged entry, and the table is then augmented with an
//! implicit feature for every optional dependency whose alias was never the
//! subject of a `dep:` prefix and is not already a key.

use vstd::prelude::*;

use crate::bytestr::{bytes_clone, bytes_eq, bytes_range, find_byte, scan_byte};
use crate::model::{find_bytes, has_bytes, DependencyRef, FeatureDef, Release};

verus! {

/// One parsed activation entry of a feature.
#[derive(Debug)]
pub enum FeatureEntry {
    /// Activate a feature of this release.
    Feature(Vec<u8>),
    /// Activate the optional dependency with this alias, and its implicit
    /// same-named feature unless suppressed.
    Dep(Vec<u8>),
    /// Activate the dependency with this alias and enable the named feature
    /// in it.
    DepStrong(Vec<u8>, Vec<u8>),
    /// If the dependency with this alias is otherwise activated, enable the
    /// named feature in it; do not activate the dependency by itself.
    DepWeak(Vec<u8>, Vec<u8>),
}

/// The mathematical form of a parsed entry.
pub enum EntryModel {
    Feature(Seq<u8>),
    Dep(Seq<u8>),
    DepStrong(Seq<u8>, Seq<u8>),
    DepWeak(Seq<u8>, Seq<u8>),
}

impl View for FeatureEntry {
    type V = EntryModel;

    open spec fn view(&self) -> EntryModel {
        match self {
            FeatureEntry::Feature(n) => EntryModel::Feature(n@),
            FeatureEntry::Dep(n) => EntryModel::Dep(n@),
            FeatureEntry::DepStrong(n, f) => EntryModel::DepStrong(n@, f@),
            FeatureEntry::DepWeak(n, f) => EntryModel::DepWeak(n@, f@),
        }
    }
}

/// One key of the parsed table with its entries.
#[derive(Debug)]
pub struct FeatureRow {
    pub name: Vec<u8>,
    pub entries: Vec<FeatureEntry>,
}

/// The mathematical form of a row.
#[verifier::ext_equal]
pub struct RowModel {
    pub name: Seq<u8>,
    pub entries: Seq<EntryModel>,
}

impl View for FeatureRow {
    type V = RowModel;

    open spec fn view(&self) -> RowModel {
        RowModel {
            name: self.name@,
            entries: self.entries@.map_values(|e: FeatureEntry| e@),
        }
    }
}

/// A release's parsed, normalized feature table: raw rows in order, followed
/// by the implicit rows.
#[derive(Debug)]
pub struct FeatureTable {
    pub rows: Vec<FeatureRow>,
}

impl View for FeatureTable {
    type V = Seq<RowModel>;

    open spec fn view(&self) -> Seq<RowModel> {
        rows_view(self.rows@)
    }
}

/// The mathematical form of a row list.
pub open spec fn rows_view(rs: Seq<FeatureRow>) -> Seq<RowModel> {
    rs.map_values(|r: FeatureRow| r@)
}

/// True when `n` is a key of the raw feature map.
pub open spec fn is_feature_key(defs: Seq<FeatureDef>, n: Seq<u8>) -> bool {
    exists|i: int| 0 <= i < defs.len() && (#[trigger] defs[i]).name@ == n
}

/// True when `n` is the alias of an optional normal-or-build dependency.
pub open spec fn is_optional_ref(deps: Seq<DependencyRef>, n: Seq<u8>) -> bool {
    exists|i: int|
        0 <= i < deps.len() && (#[trigger] deps[i]).spec_considered() && deps[i].optional
            && deps[i].ref_name@ == n
}

/// True when `n` is the alias of any normal-or-build dependency.
pub open spec fn is_considered_ref(deps: Seq<DependencyRef>, n: Seq<u8>) -> bool {
    exists|i: int|
        0 <= i < deps.len() && (#[trigger] deps[i]).spec_considered() && deps[i].ref_name@ == n
}

/// True when the raw entry begins with the `dep:` namespace prefix.
pub open spec fn has_dep_prefix(s: Seq<u8>) -> bool {
    s.len() >= 4 && s[0] == ('d' as u8) && s[1] == ('e' as u8) && s[2] == ('p' as u8) && s[3] == (':' as u8)
}

/// How one raw activation string of a release with raw feature map `defs`
/// and dependencies `deps` parses: the entry and whether it marks its alias
/// implicit-feature-suppressed, or nothing when the string is malformed.
///
/// The forms, checked in this order: a plain `name` is a feature of the
/// release, else an optional dependency alias; `dep:name` must be an
/// optional dependency alias; `name/feat` must be any dependency alias;
/// `name?/feat` must be an optional dependency alias; the `dep:` prefix
/// combines with the slash forms and marks the alias suppressed.
pub open spec fn parse_entry_model(
    raw: Seq<u8>,
    defs: Seq<FeatureDef>,
    deps: Seq<DependencyRef>,
) -> Option<(EntryModel, bool)> {
    let pref = has_dep_prefix(raw);
    let rest = if pref {
        raw.subrange(4, raw.len() as int)
    } else {
        raw
    };
    let slash = find_byte(rest, ('/' as u8), 0);
    if slash == rest.len() {
        if !pref && is_feature_key(defs, rest) {
            Some((EntryModel::Feature(rest), false))
        } else if is_optional_ref(deps, rest) {
            Some((EntryModel::Dep(rest), pref))
        } else {
            None
        }
    } else {
        let left = rest.subrange(0, slash);
        let feat = rest.subrange(slash + 1, rest.len() as int);
        if left.len() > 0 && left[left.len() - 1] == ('?' as u8) {
            let name = left.subrange(0, left.len() - 1);
            if is_optional_ref(deps, name) {
                Some((EntryModel::DepWeak(name, feat), pref))
            } else {
                None
            }
        } else {
            if is_considered_ref(deps, left) {
                Some((EntryModel::DepStrong(left, feat), pref))
            } else {
                None
            }
        }
    }
}

/// Looks `n` up among the raw feature-map keys.
pub fn is_feature_key_exec(defs: &Vec<FeatureDef>, n: &Vec<u8>) -> (r: bool)
    ensures
        r == is_feature_key(defs@, n@),
{
    let mut i: usize = 0;
    while i < defs.len()
        invariant
            i <= defs@.len(),
            forall|j: int| 0 <= j < i ==> (#[trigger] defs@[j]).name@ != n@,
        decreases defs@.len() - i,
    {
        if bytes_eq(&defs[i].name, n) {
            return true;
        }
        i += 1;
    }
    false
}

/// Looks `n` up among dependency aliases; with `need_optional`, only among
/// the optional ones.
pub fn is_ref_exec(deps: &Vec<DependencyRef>, n: &Vec<u8>, need_optional: bool) -> (r: bool)
    ensures
        need_optional ==> r == is_optional_ref(deps@, n@),
        !need_optional ==> r == is_considered_ref(deps@, n@),
{
    let mut i: usize = 0;
    while i < deps.len()
        invariant
            i <= deps@.len(),
            forall|j: int|
                0 <= j < i ==> !((#[trigger] deps@[j]).spec_considered() && (deps@[j].optional
                    || !need_optional) && deps@[j].ref_name@ == n@),
        decreases deps@.len() - i,
    {
        if deps[i].considered() && (deps[i].optional || !need_optional) && bytes_eq(
            &deps[i].ref_name,
            n,
        ) {
            return true;
        }
        i += 1;
    }
    false
}

/// Parses one raw activation string against the release's raw feature map
/// and dependencies, exactly as `parse_entry_model` describes.
pub fn parse_entry(
    raw: &Vec<u8>,
    defs: &Vec<FeatureDef>,
    deps: &Vec<DependencyRef>,
) -> (r: Option<(FeatureEntry, bool)>)
    ensures
        match r {
            Some(p) => parse_entry_model(raw@, defs@, deps@) == Some((p.0@, p.1)),
            None => parse_entry_model(raw@, defs@, deps@) is None,
        },
{
    let pref = raw.len() >= 4 && raw[0] == ('d' as u8) && raw[1] == ('e' as u8) && raw[2] == ('p' as u8) && raw[3]
        == (':' as u8);
    let rest = if pref {
        bytes_range(raw, 4, raw.len())
    } else {
        bytes_clone(raw)
    };
    let slash = scan_byte(&rest, ('/' as u8), 0);
    if slash == rest.len() {
        if !pref && is_feature_key_exec(defs, &rest) {
            Some((FeatureEntry::Feature(rest), false))
        } else if is_ref_exec(deps, &rest, true) {
            Some((FeatureEntry::Dep(rest), pref))
        } else {
            None
        }
    } else {
        let left = bytes_range(&rest, 0, slash);
        let feat = bytes_range(&rest, slash + 1, rest.len());
        if left.len() > 0 && left[left.len() - 1] == ('?' as u8) {
            let name = bytes_range(&left, 0, left.len() - 1);
            proof {
                assert(name@ =~= rest@.subrange(0, slash as int).subrange(
                    0,
                    slash as int - 1,
                ));
                assert(rest@.subrange(0, slash as int).subrange(0, slash as int - 1)
                    =~= rest@.subrange(0, slash as int - 1));
            }
            if is_ref_exec(deps, &name, true) {
                Some((FeatureEntry::DepWeak(name, feat), pref))
            } else {
                None
            }
        } else {
            if is_ref_exec(deps, &left, false) {
                Some((FeatureEntry::DepStrong(left, feat), pref))
            } else {
                None
            }
        }
    }
}

/// The alias a parsed entry names.
pub open spec fn entry_alias(e: EntryModel) -> Seq<u8> {
    match e {
        EntryModel::Feature(n) => n,
        EntryModel::Dep(n) => n,
        EntryModel::DepStrong(n, f) => n,
        EntryModel::DepWeak(n, f) => n,
    }
}

/// True when the raw entry parses and marks the alias `n` suppressed.
pub open spec fn sup_entry(
    raw: Seq<u8>,
    defs: Seq<FeatureDef>,
    deps: Seq<DependencyRef>,
    n: Seq<u8>,
) -> bool {
    parse_entry_model(raw, defs, deps) matches Some((e, true)) && entry_alias(e) == n
}

/// True when some raw entry strictly before position (`i`, `j`) --- row
/// major --- marks `n` suppressed.
pub open spec fn suppressed_before(
    defs: Seq<FeatureDef>,
    deps: Seq<DependencyRef>,
    i: int,
    j: int,
    n: Seq<u8>,
) -> bool {
    exists|a: int, b: int|
        0 <= a < defs.len() && 0 <= b < defs[a].entries@.len() && (a < i || (a == i && b < j))
            && #[trigger] sup_entry(defs[a].entries@[b]@, defs, deps, n)
}

/// True when some raw entry anywhere in the table marks `n` suppressed.
pub open spec fn suppressed(defs: Seq<FeatureDef>, deps: Seq<DependencyRef>, n: Seq<u8>) -> bool {
    suppressed_before(defs, deps, defs.len() as int, 0, n)
}

/// All raw entries of row `i` parse.
pub open spec fn entries_ok(defs: Seq<FeatureDef>, deps: Seq<DependencyRef>, i: int) -> bool {
    forall|j: int|
        0 <= j < defs[i].entries@.len() ==> parse_entry_model(
            (#[trigger] defs[i].entries@[j])@,
            defs,
            deps,
        ) is Some
}

/// The whole raw feature map parses.
pub open spec fn table_ok(defs: Seq<FeatureDef>, deps: Seq<DependencyRef>) -> bool {
    forall|i: int| 0 <= i < defs.len() ==> entries_ok(defs, deps, i)
}

/// The parsed form of raw row `i`; meaningful when its entries parse.
pub open spec fn parsed_row_model(
    defs: Seq<FeatureDef>,
    deps: Seq<DependencyRef>,
    i: int,
) -> RowModel {
    RowModel {
        name: defs[i].name@,
        entries: Seq::new(
            defs[i].entries@.len(),
            |j: int| parse_entry_model(defs[i].entries@[j]@, defs, deps).unwrap().0,
        ),
    }
}

/// The parsed raw rows, in order.
pub open spec fn def_rows_model(defs: Seq<FeatureDef>, deps: Seq<DependencyRef>) -> Seq<RowModel> {
    Seq::new(defs.len(), |i: int| parsed_row_model(defs, deps, i))
}

/// Whether dependency `i` receives the implicit feature: it is optional and
/// considered, its alias is not a raw key, was never suppressed, and no
/// earlier optional considered dependency shares the alias.
pub open spec fn gets_implicit(defs: Seq<FeatureDef>, deps: Seq<DependencyRef>, i: int) -> bool {
    &&& deps[i].spec_considered() && deps[i].optional
    &&& !is_feature_key(defs, deps[i].ref_name@)
    &&& !suppressed(defs, deps, deps[i].ref_name@)
    &&& forall|j: int|
        0 <= j < i ==> !((#[trigger] deps[j]).spec_considered() && deps[j].optional
            && deps[j].ref_name@ == deps[i].ref_name@)
}

/// The implicit row for dependency `i`.
pub open spec fn implicit_row(deps: Seq<DependencyRef>, i: int) -> RowModel {
    RowModel { name: deps[i].ref_name@, entries: seq![EntryModel::Dep(deps[i].ref_name@)] }
}

/// The implicit rows contributed by dependencies `i` onward, in order.
pub open spec fn implicit_rows_from(
    defs: Seq<FeatureDef>,
    deps: Seq<DependencyRef>,
    i: int,
) -> Seq<RowModel>
    decreases deps.len() - i,
{
    if i < 0 || i >= deps.len() {
        Seq::empty()
    } else {
        let rest = implicit_rows_from(defs, deps, i + 1);
        if gets_implicit(defs, deps, i) {
            seq![implicit_row(deps, i)] + rest
        } else {
            rest
        }
    }
}

/// The whole parsed table: raw rows, then implicit rows.
pub open spec fn table_model(defs: Seq<FeatureDef>, deps: Seq<DependencyRef>) -> Seq<RowModel> {
    def_rows_model(defs, deps) + implicit_rows_from(defs, deps, 0)
}

/// The alias field of a parsed entry.
pub fn alias_of(e: &FeatureEntry) -> (r: &Vec<u8>)
    ensures
        r@ == entry_alias(e@),
{
    match e {
        FeatureEntry::Feature(n) => n,
        FeatureEntry::Dep(n) => n,
        FeatureEntry::DepStrong(n, f) => n,
        FeatureEntry::DepWeak(n, f) => n,
    }
}

/// One raw entry further into row `i` moves the suppressed-before bound by
/// exactly that entry's own suppressions.
proof fn lemma_sup_step(
    defs: Seq<FeatureDef>,
    deps: Seq<DependencyRef>,
    i: int,
    j: int,
    n: Seq<u8>,
)
    requires
        0 <= i < defs.len(),
        0 <= j < defs[i].entries@.len(),
    ensures
        suppressed_before(defs, deps, i, j + 1, n) <==> (suppressed_before(defs, deps, i, j, n)
            || sup_entry(defs[i].entries@[j]@, defs, deps, n)),
{
    if suppressed_before(defs, deps, i, j + 1, n) {
        let (a, b) = choose|a: int, b: int|
            0 <= a < defs.len() && 0 <= b < defs[a].entries@.len() && (a < i || (a == i && b < j
                + 1)) && #[trigger] sup_entry(defs[a].entries@[b]@, defs, deps, n);
        if a < i || (a == i && b < j) {
            assert(suppressed_before(defs, deps, i, j, n));
        } else {
            assert(a == i && b == j);
        }
    }
    if suppressed_before(defs, deps, i, j, n) {
        let (a, b) = choose|a: int, b: int|
            0 <= a < defs.len() && 0 <= b < defs[a].entries@.len() && (a < i || (a == i && b < j))
                && #[trigger] sup_entry(defs[a].entries@[b]@, defs, deps, n);
        assert(suppressed_before(defs, deps, i, j + 1, n));
    }
    if sup_entry(defs[i].entries@[j]@, defs, deps, n) {
        assert(suppressed_before(defs, deps, i, j + 1, n));
    }
}

/// Finishing row `i` is the same suppressed-before bound as starting row
/// `i + 1`.
proof fn lemma_sup_row_step(defs: Seq<FeatureDef>, deps: Seq<DependencyRef>, i: int, n: Seq<u8>)
    requires
        0 <= i < defs.len(),
    ensures
        suppressed_before(defs, deps, i + 1, 0, n) <==> suppressed_before(
            defs,
            deps,
            i,
            defs[i].entries@.len() as int,
            n,
        ),
{
    if suppressed_before(defs, deps, i + 1, 0, n) {
        let (a, b) = choose|a: int, b: int|
            0 <= a < defs.len() && 0 <= b < defs[a].entries@.len() && (a < i + 1 || (a == i + 1 && b
                < 0)) && #[trigger] sup_entry(defs[a].entries@[b]@, defs, deps, n);
        assert(a < i || (a == i && b < defs[i].entries@.len()));
        assert(suppressed_before(defs, deps, i, defs[i].entries@.len() as int, n));
    }
    if suppressed_before(defs, deps, i, defs[i].entries@.len() as int, n) {
        let (a, b) = choose|a: int, b: int|
            0 <= a < defs.len() && 0 <= b < defs[a].entries@.len() && (a < i || (a == i && b
                < defs[i].entries@.len())) && #[trigger] sup_entry(defs[a].entries@[b]@, defs, deps, n);
        assert(suppressed_before(defs, deps, i + 1, 0, n));
    }
}

/// Parses a release's raw feature map and augments it with the implicit
/// features, exactly as `table_model` describes; a malformed raw entry is
/// fatal and comes back as the offending (feature name, raw entry) pair.
pub fn build_feature_table(rel: &Release) -> (r: Result<FeatureTable, (Vec<u8>, Vec<u8>)>)
    ensures
        match r {
            Ok(t) => table_ok(rel.features@, rel.dependencies@) && t@ == table_model(
                rel.features@,
                rel.dependencies@,
            ),
            Err(p) => !table_ok(rel.features@, rel.dependencies@) && parse_entry_model(
                p.1@,
                rel.features@,
                rel.dependencies@,
            ) is None && exists|i: int|
                0 <= i < rel.features@.len() && (#[trigger] rel.features@[i]).name@ == p.0@
                    && has_bytes(rel.features@[i].entries@, p.1@),
        },
{
    let defs = &rel.features;
    let deps = &rel.dependencies;
    let mut rows: Vec<FeatureRow> = Vec::new();
    let mut sup: Vec<Vec<u8>> = Vec::new();
    let mut i: usize = 0;
    while i < defs.len()
        invariant
            i <= defs@.len(),
            defs@ == rel.features@,
            deps@ == rel.dependencies@,
            rows@.len() == i,
            forall|k: int| 0 <= k < i ==> entries_ok(defs@, deps@, k),
            forall|k: int|
                0 <= k < i ==> rows_view(rows@)[k] =~= parsed_row_model(defs@, deps@, k),
            forall|n: Seq<u8>| #[trigger]
                has_bytes(sup@, n) <==> suppressed_before(defs@, deps@, i as int, 0, n),
        decreases defs@.len() - i,
    {
        let def = &defs[i];
        let mut entries: Vec<FeatureEntry> = Vec::new();
        let mut j: usize = 0;
        while j < def.entries.len()
            invariant
                i < defs@.len(),
                defs@ == rel.features@,
                deps@ == rel.dependencies@,
                def == defs@[i as int],
                j <= def.entries@.len(),
                entries@.len() == j,
                forall|b: int|
                    0 <= b < j ==> parse_entry_model(
                        (#[trigger] def.entries@[b])@,
                        defs@,
                        deps@,
                    ) is Some,
                forall|b: int|
                    0 <= b < j ==> (#[trigger] entries@[b])@ == parse_entry_model(
                        def.entries@[b]@,
                        defs@,
                        deps@,
                    ).unwrap().0,
                forall|n: Seq<u8>| #[trigger]
                    has_bytes(sup@, n) <==> suppressed_before(
                        defs@,
                        deps@,
                        i as int,
                        j as int,
                        n,
                    ),
            decreases def.entries@.len() - j,
        {
            let ghost old_sup = sup@;
            match parse_entry(&def.entries[j], defs, deps) {
                None => {
                    let bad = bytes_clone(&def.entries[j]);
                    let name = bytes_clone(&def.name);
                    proof {
                        assert(!entries_ok(defs@, deps@, i as int));
                        assert(!table_ok(defs@, deps@));
                        assert(has_bytes(defs@[i as int].entries@, bad@));
                    }
                    return Err((name, bad));
                },
                Some((e, s)) => {
                    if s {
                        let alias = bytes_clone(alias_of(&e));
                        sup.push(alias);
                    }
                    proof {
                        let raw = def.entries@[j as int]@;
                        assert forall|n: Seq<u8>| #[trigger]
                            has_bytes(sup@, n) <==> suppressed_before(
                            defs@,
                            deps@,
                            i as int,
                            j + 1 as int,
                            n,
                        ) by {
                            lemma_sup_step(defs@, deps@, i as int, j as int, n);
                            if s {
                                if has_bytes(sup@, n) {
                                    let w = choose|w: int|
                                        0 <= w < sup@.len() && sup@[w]@ == n;
                                    if w < old_sup.len() {
                                        assert(old_sup[w]@ == n);
                                        assert(has_bytes(old_sup, n));
                                    } else {
                                        assert(sup_entry(raw, defs@, deps@, n));
                                    }
                                }
                                if suppressed_before(defs@, deps@, i as int, j + 1 as int, n) {
                                    if has_bytes(old_sup, n) {
                                        let w = choose|w: int|
                                            0 <= w < old_sup.len() && old_sup[w]@ == n;
                                        assert(sup@[w]@ == n);
                                        assert(has_bytes(sup@, n));
                                    } else {
                                        assert(sup_entry(raw, defs@, deps@, n));
                                        assert(sup@[sup@.len() - 1]@ == n);
                                        assert(has_bytes(sup@, n));
                                    }
                                }
                            } else {
                                assert(!sup_entry(raw, defs@, deps@, n));
                            }
                        }
                    }
                    entries.push(e);
                },
            }
            j += 1;
        }
        let row = FeatureRow { name: bytes_clone(&def.name), entries };
        proof {
            assert(row@ =~= parsed_row_model(defs@, deps@, i as int)) by {
                assert(row@.entries.len() == def.entries@.len());
                assert forall|b: int| 0 <= b < def.entries@.len() implies row@.entries[b]
                    == parsed_row_model(defs@, deps@, i as int).entries[b] by {
                    assert(row@.entries[b] == row.entries@[b]@);
                }
                assert(row@.entries =~= parsed_row_model(defs@, deps@, i as int).entries);
            }
            assert(entries_ok(defs@, deps@, i as int));
            assert forall|n: Seq<u8>| #[trigger]
                has_bytes(sup@, n) <==> suppressed_before(
                defs@,
                deps@,
                i + 1 as int,
                0,
                n,
            ) by {
                lemma_sup_row_step(defs@, deps@, i as int, n);
            }
        }
        let ghost old_rows = rows@;
        rows.push(row);
        proof {
            assert forall|k: int| 0 <= k < i + 1 implies rows_view(rows@)[k] =~= parsed_row_model(
                defs@,
                deps@,
                k,
            ) by {
                if k < i {
                    assert(rows_view(old_rows)[k] =~= parsed_row_model(defs@, deps@, k));
                    assert(rows@[k] == old_rows[k]);
                }
            }
        }
        i += 1;
    }
    proof {
        assert(rows_view(rows@) =~= def_rows_model(defs@, deps@));
        assert(table_ok(defs@, deps@));
    }
    let mut k: usize = 0;
    while k < deps.len()
        invariant
            k <= deps@.len(),
            defs@ == rel.features@,
            deps@ == rel.dependencies@,
            table_ok(defs@, deps@),
            forall|n: Seq<u8>| #[trigger] has_bytes(sup@, n) <==> suppressed(defs@, deps@, n),
            rows_view(rows@) + implicit_rows_from(defs@, deps@, k as int) =~= table_model(
                defs@,
                deps@,
            ),
        decreases deps@.len() - k,
    {
        let d = &deps[k];
        let c_kind = d.considered();
        let c_key = is_feature_key_exec(defs, &d.ref_name);
        let c_sup = find_bytes(&sup, &d.ref_name);
        let c_dup = earlier_opt_ref(deps, k, &d.ref_name);
        let take = c_kind && d.optional && !c_key && c_sup.is_none() && !c_dup;
        proof {
            if c_sup is Some {
                assert(has_bytes(sup@, d.ref_name@));
            }
        }
        let ghost old_rows = rows@;
        if take {
            proof {
                assert(!has_bytes(sup@, d.ref_name@));
                assert(gets_implicit(defs@, deps@, k as int));
            }
            let mut entries: Vec<FeatureEntry> = Vec::new();
            entries.push(FeatureEntry::Dep(bytes_clone(&d.ref_name)));
            let row = FeatureRow { name: bytes_clone(&d.ref_name), entries };
            proof {
                assert(row@ =~= implicit_row(deps@, k as int)) by {
                    assert(row@.entries =~= seq![EntryModel::Dep(deps@[k as int].ref_name@)]);
                }
            }
            rows.push(row);
            proof {
                assert(rows_view(rows@) =~= rows_view(old_rows).push(implicit_row(deps@, k as int)));
                assert(rows_view(old_rows).push(implicit_row(deps@, k as int))
                    + implicit_rows_from(defs@, deps@, k + 1 as int) =~= rows_view(old_rows) + (seq![
                    implicit_row(deps@, k as int),
                ] + implicit_rows_from(defs@, deps@, k + 1 as int)));
                assert(implicit_rows_from(defs@, deps@, k as int) == seq![
                    implicit_row(deps@, k as int),
                ] + implicit_rows_from(defs@, deps@, k + 1 as int));
            }
        } else {
            proof {
                assert(!gets_implicit(defs@, deps@, k as int));
                assert(implicit_rows_from(defs@, deps@, k as int) == implicit_rows_from(
                    defs@,
                    deps@,
                    k + 1 as int,
                ));
            }
        }
        k += 1;
    }
    proof {
        assert(implicit_rows_from(defs@, deps@, deps@.len() as int) =~= Seq::<RowModel>::empty());
        assert(rows_view(rows@) =~= table_model(defs@, deps@));
    }
    Ok(FeatureTable { rows })
}

/// True when an optional considered dependency before index `k` has alias
/// `n`.
pub fn earlier_opt_ref(deps: &Vec<DependencyRef>, k: usize, n: &Vec<u8>) -> (r: bool)
    requires
        k <= deps@.len(),
    ensures
        r == exists|j: int|
            0 <= j < k && (#[trigger] deps@[j]).spec_considered() && deps@[j].optional
                && deps@[j].ref_name@ == n@,
{
    let mut i: usize = 0;
    while i < k
        invariant
            i <= k <= deps@.len(),
            forall|j: int|
                0 <= j < i ==> !((#[trigger] deps@[j]).spec_considered() && deps@[j].optional
                    && deps@[j].ref_name@ == n@),
        decreases k - i,
    {
        if deps[i].considered() && deps[i].optional && bytes_eq(&deps[i].ref_name, n) {
            return true;
        }
        i += 1;
    }
    false
}

/// Row `k` of the implicit rows from `i` onward is the implicit row of some
/// dependency at or after `i` that receives the implicit feature.
pub open spec fn implicit_source_ok(
    defs: Seq<FeatureDef>,
    deps: Seq<DependencyRef>,
    i: int,
    k: int,
) -> bool {
    exists|d: int|
        i <= d < deps.len() && #[trigger] gets_implicit(defs, deps, d) && implicit_rows_from(
            defs,
            deps,
            i,
        )[k] == implicit_row(deps, d)
}

/// Every implicit row comes from a dependency that receives the implicit
/// feature.
proof fn lemma_implicit_rows_sources(defs: Seq<FeatureDef>, deps: Seq<DependencyRef>, i: int)
    requires
        0 <= i <= deps.len(),
    ensures
        forall|k: int|
            0 <= k < implicit_rows_from(defs, deps, i).len() ==> #[trigger] implicit_source_ok(
                defs,
                deps,
                i,
                k,
            ),
    decreases deps.len() - i,
{
    if i < deps.len() {
        lemma_implicit_rows_sources(defs, deps, i + 1);
        assert forall|k: int|
            0 <= k < implicit_rows_from(defs, deps, i).len() implies #[trigger] implicit_source_ok(
            defs,
            deps,
            i,
            k,
        ) by {
            if gets_implicit(defs, deps, i) && k == 0 {
                assert(implicit_rows_from(defs, deps, i)[0] == implicit_row(deps, i));
            } else {
                let kk: int = if gets_implicit(defs, deps, i) {
                    k - 1
                } else {
                    k
                };
                assert(implicit_rows_from(defs, deps, i)[k] == implicit_rows_from(
                    defs,
                    deps,
                    i + 1,
                )[kk]);
                assert(implicit_source_ok(defs, deps, i + 1, kk));
                let d = choose|d: int|
                    i + 1 <= d < deps.len() && #[trigger] gets_implicit(defs, deps, d)
                        && implicit_rows_from(defs, deps, i + 1)[kk] == implicit_row(deps, d);
                assert(i <= d < deps.len() && gets_implicit(defs, deps, d) && implicit_rows_from(
                    defs,
                    deps,
                    i,
                )[k] == implicit_row(deps, d));
            }
        }
    }
}

/// Implicit-feature rule, suppressing direction: an alias that some `dep:`
/// entry marks suppressed receives no implicit row, so every row of the
/// parsed table under that name is one of the release's own raw rows.
pub proof fn lemma_implicit_feature_suppressed(
    defs: Seq<FeatureDef>,
    deps: Seq<DependencyRef>,
    n: Seq<u8>,
)
    requires
        suppressed(defs, deps, n),
    ensures
        forall|k: int|
            0 <= k < table_model(defs, deps).len() && (#[trigger] table_model(defs, deps)[k]).name
                == n ==> k < defs.len(),
{
    lemma_implicit_rows_sources(defs, deps, 0);
    let t = table_model(defs, deps);
    assert forall|k: int| 0 <= k < t.len() && (#[trigger] t[k]).name == n implies k
        < defs.len() by {
        if k >= defs.len() {
            let kk = k - defs.len();
            assert(t[k] == implicit_rows_from(defs, deps, 0)[kk]);
            assert(implicit_source_ok(defs, deps, 0, kk));
            let d = choose|d: int|
                0 <= d < deps.len() && #[trigger] gets_implicit(defs, deps, d)
                    && implicit_rows_from(defs, deps, 0)[kk] == implicit_row(deps, d);
            assert(deps[d].ref_name@ == n);
            assert(!suppressed(defs, deps, n));
        }
    }
}

/// The granting half of the implicit-feature rule, walked from index `i`.
proof fn lemma_implicit_present_from(
    defs: Seq<FeatureDef>,
    deps: Seq<DependencyRef>,
    i: int,
    n: Seq<u8>,
)
    requires
        0 <= i <= deps.len(),
        exists|d: int|
            i <= d < deps.len() && (#[trigger] deps[d]).spec_considered() && deps[d].optional
                && deps[d].ref_name@ == n,
        forall|j: int|
            0 <= j < i ==> !((#[trigger] deps[j]).spec_considered() && deps[j].optional
                && deps[j].ref_name@ == n),
        !is_feature_key(defs, n),
        !suppressed(defs, deps, n),
    ensures
        exists|k: int|
            0 <= k < implicit_rows_from(defs, deps, i).len() && (#[trigger] implicit_rows_from(
                defs,
                deps,
                i,
            )[k]).name == n && implicit_rows_from(defs, deps, i)[k].entries == seq![
                EntryModel::Dep(n),
            ],
    decreases deps.len() - i,
{
    let whole = implicit_rows_from(defs, deps, i);
    if deps[i].spec_considered() && deps[i].optional && deps[i].ref_name@ == n {
        assert(gets_implicit(defs, deps, i));
        assert(whole[0] == implicit_row(deps, i));
        assert(whole[0].name == n && whole[0].entries == seq![EntryModel::Dep(n)]);
    } else {
        let d0 = choose|d: int|
            i <= d < deps.len() && (#[trigger] deps[d]).spec_considered() && deps[d].optional
                && deps[d].ref_name@ == n;
        assert(d0 >= i + 1);
        assert forall|j: int| 0 <= j < i + 1 implies !((#[trigger] deps[j]).spec_considered()
            && deps[j].optional && deps[j].ref_name@ == n) by {}
        lemma_implicit_present_from(defs, deps, i + 1, n);
        let rest = implicit_rows_from(defs, deps, i + 1);
        let k0 = choose|k: int|
            0 <= k < rest.len() && (#[trigger] rest[k]).name == n && rest[k].entries == seq![
                EntryModel::Dep(n),
            ];
        if gets_implicit(defs, deps, i) {
            assert(whole[k0 + 1] == rest[k0]);
        } else {
            assert(whole == rest);
        }
    }
}

/// Implicit-feature rule, granting direction: an optional dependency alias
/// that no `dep:` entry suppresses and that is not already a key receives an
/// implicit row whose single entry activates that dependency.
pub proof fn lemma_implicit_feature_present(
    defs: Seq<FeatureDef>,
    deps: Seq<DependencyRef>,
    n: Seq<u8>,
)
    requires
        is_optional_ref(deps, n),
        !is_feature_key(defs, n),
        !suppressed(defs, deps, n),
    ensures
        exists|k: int|
            0 <= k < table_model(defs, deps).len() && (#[trigger] table_model(defs, deps)[k]).name
                == n && table_model(defs, deps)[k].entries == seq![EntryModel::Dep(n)],
{
    lemma_implicit_present_from(defs, deps, 0, n);
    let rows = implicit_rows_from(defs, deps, 0);
    let k0 = choose|k: int|
        0 <= k < rows.len() && (#[trigger] rows[k]).name == n && rows[k].entries == seq![
            EntryModel::Dep(n),
        ];
    let t = table_model(defs, deps);
    assert(t[defs.len() + k0] == rows[k0]);
}

} // verus!
