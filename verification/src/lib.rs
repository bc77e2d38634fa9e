//! A verified core for mirroring a subset of a package registry: given a
//! root set of releases, the resolver computes the exact transitive closure
//! a build tool would select --- semantic-version requirement matching,
//! conditional-compilation guards evaluated against a fixed target
//! descriptor, and a feature-activation calculus with normal, optional,
//! weak, strong and namespaced forms --- and flags each release for
//! download or index-only. Around it stand the mirror's on-disk index
//! layout and the path and page arithmetic the surrounding program needs.

use vstd::prelude::*;

mod activation;
mod bytestr;
mod cli;
mod dst_registry;
mod features;
mod layout;
mod model;
mod resolver;
mod selection;
mod semver_engine;
mod target;

pub use activation::{
    activation_for_dep, default_feature_bytes, dep_activated, dep_feature_requested, entries_of,
    feature_step, is_chain, lemma_dep_entry_activates, lemma_dep_strong_activates_and_adds,
    lemma_dep_weak_alone_does_not_activate, lemma_dep_weak_with_activator_adds, lookup_row,
    reachable, reachable_features, strong_requested, weak_requested,
};
pub use bytestr::bytes_eq;
pub use cli::Cli;
pub use dst_registry::{normalize_path_model, DstRegistry};
pub use features::{
    build_feature_table, is_feature_key, is_optional_ref, lemma_implicit_feature_present,
    lemma_implicit_feature_suppressed, parse_entry, suppressed, table_model, table_ok,
    EntryModel, FeatureEntry, FeatureRow, FeatureTable, RowModel,
};
pub use layout::{
    config_json_contents, crate_index_rel_path, download_url, index_rel_path_model, lower_bytes,
    pages_needed, registry_rel_path,
};
pub use model::{
    find_release, has_bytes, store_release, CrateVersion, DepKind, DependencyRef, FeatureDef,
    FeaturesList, Package, Release, VersionStore,
};
pub use resolver::{
    closure_has, closure_has_child, edge_selects, entry_closed, entry_sourced, guard_spec,
    pulled_by, resolve_error_witnessed, root_requested, ClosureEntry, Resolution, ResolveError,
    SrcRegistry, Warning,
};
pub use selection::{select_release, select_spec, Selection};
pub use semver_engine::{
    parse_requirement, parse_version, requirement_matches, requirement_matches_version,
    requirement_ok, version_ok, ParsedRequirement, ParsedVersion,
};
pub use target::{eval_guard, eval_guard_model, Target};

verus! {

} // verus!
