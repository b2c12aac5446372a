//! The plugin registry and lifecycle manager: deduplicates load requests,
//! tracks reference counts per running instance, and orchestrates manifest
//! resolution, process start, handshake and catalogue registration.
//!
//! The embedding application owns the outside work: it scans the plugin
//! directory and hands the discovered manifests in, spawns the plugin
//! process when a load asks for it, performs the handshake, and kills the
//! processes this registry hands back. Every decision in between is made
//! here. The application must serialize calls into one registry: one
//! exclusive lock around the whole check-or-start section.

use vstd::prelude::*;
use crate::catalogue_manager::CatalogueRegistry;
use crate::catalogue_manager::keys_with_prefix;
use crate::catalogue_manager::plugin_prefix;
use crate::catalogue_manager::remove_plugin_entries;
use crate::plugin_models::PactPlugin;
use crate::plugin_models::PactPluginManifest;
use crate::plugin_models::PactPluginManifestView;
use crate::plugin_models::PactPluginView;
use crate::plugin_models::PluginDependency;
use crate::plugin_models::PluginDependencyView;
use crate::strutil::str_eq;
use crate::versions::spec_version_lt;
use crate::versions::version_lt;

verus! {

/// Why a load failed. A failed load leaves the registries untouched.
#[derive(Clone, Copy, Debug, PartialEq, Eq, Structural)]
pub enum LoadError {
    /// No matching manifest, cached or discovered on disk.
    ManifestNotFound,
    /// The manifest names an execution model other than `exec`.
    UnsupportedExecutableType,
    /// The process could not be spawned, or never signalled readiness.
    StartError,
    /// The initialization exchange with the started process failed.
    HandshakeError,
}

/// The description `LoadError::message` gives of each failure.
pub open spec fn load_error_message(e: LoadError) -> Seq<char> {
    match e {
        LoadError::ManifestNotFound => "plugin manifest was not found"@,
        LoadError::UnsupportedExecutableType => "plugin executable type is not supported"@,
        LoadError::StartError => "plugin process failed to start"@,
        LoadError::HandshakeError => "init request to the plugin failed"@,
    }
}

impl LoadError {
    /// A short description of the failure.
    pub fn message(&self) -> (r: &'static str)
        ensures
            r@ == load_error_message(*self),
    {
        match self {
            LoadError::ManifestNotFound => "plugin manifest was not found",
            LoadError::UnsupportedExecutableType => "plugin executable type is not supported",
            LoadError::StartError => "plugin process failed to start",
            LoadError::HandshakeError => "init request to the plugin failed",
        }
    }
}

/// A running instance satisfies a dependency when the names agree and, if the
/// dependency pins a version, the versions agree.
pub open spec fn dep_matches_plugin(p: PactPluginView, dep: PluginDependencyView) -> bool {
    p.manifest.name == dep.name && match dep.version {
        Some(v) => p.manifest.version == v,
        None => true,
    }
}

/// As `dep_matches_plugin`, for a manifest.
pub open spec fn dep_matches_manifest(m: PactPluginManifestView, dep: PluginDependencyView) -> bool {
    m.name == dep.name && match dep.version {
        Some(v) => m.version == v,
        None => true,
    }
}

/// The instance a lookup settles on: among the instances matching `dep`, one
/// with the highest version; the earliest such when versions tie.
pub open spec fn best_plugin_index(s: Seq<PactPluginView>, dep: PluginDependencyView) -> Option<int>
    decreases s.len(),
{
    if s.len() == 0 {
        None
    } else {
        let prev = best_plugin_index(s.drop_last(), dep);
        let i = s.len() - 1;
        if !dep_matches_plugin(s[i], dep) {
            prev
        } else {
            match prev {
                None => Some(i as int),
                Some(j) => if spec_version_lt(s[j].manifest.version, s[i].manifest.version) {
                    Some(i as int)
                } else {
                    Some(j)
                },
            }
        }
    }
}

/// As `best_plugin_index`, over cached manifests.
pub open spec fn best_manifest_index(
    s: Seq<PactPluginManifestView>,
    dep: PluginDependencyView,
) -> Option<int>
    decreases s.len(),
{
    if s.len() == 0 {
        None
    } else {
        let prev = best_manifest_index(s.drop_last(), dep);
        let i = s.len() - 1;
        if !dep_matches_manifest(s[i], dep) {
            prev
        } else {
            match prev {
                None => Some(i as int),
                Some(j) => if spec_version_lt(s[j].version, s[i].version) {
                    Some(i as int)
                } else {
                    Some(j)
                },
            }
        }
    }
}

/// What a lookup promises: a chosen index matches the dependency and no
/// matching instance has a strictly higher version; absence means nothing
/// matches.
pub proof fn lemma_best_plugin_index(s: Seq<PactPluginView>, dep: PluginDependencyView)
    ensures
        match best_plugin_index(s, dep) {
            Some(i) => 0 <= i < s.len() && dep_matches_plugin(s[i], dep) && forall|j: int|
                0 <= j < s.len() && dep_matches_plugin(#[trigger] s[j], dep)
                    ==> !spec_version_lt(s[i].manifest.version, s[j].manifest.version),
            None => forall|j: int| 0 <= j < s.len() ==> !dep_matches_plugin(#[trigger] s[j], dep),
        },
    decreases s.len(),
{
    if s.len() > 0 {
        lemma_best_plugin_index(s.drop_last(), dep);
        let dl = s.drop_last();
        assert(forall|j: int| 0 <= j < dl.len() ==> dl[j] == s[j]);
        let i = s.len() - 1;
        match best_plugin_index(dl, dep) {
            None => {
                assert forall|j2: int| 0 <= j2 < dl.len() implies !dep_matches_plugin(
                    #[trigger] s[j2],
                    dep,
                ) by {
                    assert(!dep_matches_plugin(dl[j2], dep));
                }
                if dep_matches_plugin(s[i as int], dep) {
                    crate::versions::lemma_version_lt_irrefl(s[i as int].manifest.version);
                }
            },
            Some(j) => {
                assert(dep_matches_plugin(s[j], dep)) by {
                    assert(dep_matches_plugin(dl[j], dep));
                }
                assert forall|j2: int|
                    0 <= j2 < dl.len() && dep_matches_plugin(#[trigger] s[j2], dep)
                        implies !spec_version_lt(
                    s[j].manifest.version,
                    s[j2].manifest.version,
                ) by {
                    assert(dep_matches_plugin(dl[j2], dep));
                }
                if dep_matches_plugin(s[i as int], dep) && spec_version_lt(
                    s[j].manifest.version,
                    s[i as int].manifest.version,
                ) {
                    assert forall|j2: int|
                        0 <= j2 < s.len() && dep_matches_plugin(#[trigger] s[j2], dep)
                            implies !spec_version_lt(
                        s[i as int].manifest.version,
                        s[j2].manifest.version,
                    ) by {
                        if j2 == i as int {
                            crate::versions::lemma_version_lt_irrefl(s[i as int].manifest.version);
                        } else if spec_version_lt(
                            s[i as int].manifest.version,
                            s[j2].manifest.version,
                        ) {
                            crate::versions::lemma_version_lt_trans(
                                s[j].manifest.version,
                                s[i as int].manifest.version,
                                s[j2].manifest.version,
                            );
                        }
                    }
                } else if dep_matches_plugin(s[i as int], dep) {
                    assert(!spec_version_lt(s[j].manifest.version, s[i as int].manifest.version));
                }
            },
        }
    }
}

/// As `lemma_best_plugin_index`, over cached manifests.
pub proof fn lemma_best_manifest_index(s: Seq<PactPluginManifestView>, dep: PluginDependencyView)
    ensures
        match best_manifest_index(s, dep) {
            Some(i) => 0 <= i < s.len() && dep_matches_manifest(s[i], dep) && forall|j: int|
                0 <= j < s.len() && dep_matches_manifest(#[trigger] s[j], dep)
                    ==> !spec_version_lt(s[i].version, s[j].version),
            None => forall|j: int| 0 <= j < s.len() ==> !dep_matches_manifest(#[trigger] s[j], dep),
        },
    decreases s.len(),
{
    if s.len() > 0 {
        lemma_best_manifest_index(s.drop_last(), dep);
        let dl = s.drop_last();
        assert(forall|j: int| 0 <= j < dl.len() ==> dl[j] == s[j]);
        let i = s.len() - 1;
        match best_manifest_index(dl, dep) {
            None => {
                assert forall|j2: int| 0 <= j2 < dl.len() implies !dep_matches_manifest(
                    #[trigger] s[j2],
                    dep,
                ) by {
                    assert(!dep_matches_manifest(dl[j2], dep));
                }
                if dep_matches_manifest(s[i as int], dep) {
                    crate::versions::lemma_version_lt_irrefl(s[i as int].version);
                }
            },
            Some(j) => {
                assert(dep_matches_manifest(s[j], dep)) by {
                    assert(dep_matches_manifest(dl[j], dep));
                }
                assert forall|j2: int|
                    0 <= j2 < dl.len() && dep_matches_manifest(#[trigger] s[j2], dep)
                        implies !spec_version_lt(s[j].version, s[j2].version) by {
                    assert(dep_matches_manifest(dl[j2], dep));
                }
                if dep_matches_manifest(s[i as int], dep) && spec_version_lt(
                    s[j].version,
                    s[i as int].version,
                ) {
                    assert forall|j2: int|
                        0 <= j2 < s.len() && dep_matches_manifest(#[trigger] s[j2], dep)
                            implies !spec_version_lt(s[i as int].version, s[j2].version) by {
                        if j2 == i as int {
                            crate::versions::lemma_version_lt_irrefl(s[i as int].version);
                        } else if spec_version_lt(s[i as int].version, s[j2].version) {
                            crate::versions::lemma_version_lt_trans(
                                s[j].version,
                                s[i as int].version,
                                s[j2].version,
                            );
                        }
                    }
                } else if dep_matches_manifest(s[i as int], dep) {
                    assert(!spec_version_lt(s[j].version, s[i as int].version));
                }
            },
        }
    }
}

/// The first manifest in a discovered list that satisfies the dependency;
/// disk resolution adopts the first match.
pub open spec fn first_matching_manifest(
    s: Seq<PactPluginManifestView>,
    dep: PluginDependencyView,
) -> Option<int>
    decreases s.len(),
{
    if s.len() == 0 {
        None
    } else if dep_matches_manifest(s[0], dep) {
        Some(0)
    } else {
        match first_matching_manifest(s.drop_first(), dep) {
            None => None,
            Some(i) => Some(i + 1),
        }
    }
}

pub proof fn lemma_first_matching_manifest(s: Seq<PactPluginManifestView>, dep: PluginDependencyView)
    ensures
        match first_matching_manifest(s, dep) {
            Some(i) => 0 <= i < s.len() && dep_matches_manifest(s[i], dep) && forall|j: int|
                0 <= j < i ==> !dep_matches_manifest(#[trigger] s[j], dep),
            None => forall|j: int| 0 <= j < s.len() ==> !dep_matches_manifest(#[trigger] s[j], dep),
        },
    decreases s.len(),
{
    if s.len() > 0 && !dep_matches_manifest(s[0], dep) {
        lemma_first_matching_manifest(s.drop_first(), dep);
        let df = s.drop_first();
        assert(forall|j: int| 0 <= j < df.len() ==> df[j] == s[j + 1]);
        match first_matching_manifest(df, dep) {
            None => {
                assert forall|j: int| 0 <= j < s.len() implies !dep_matches_manifest(
                    #[trigger] s[j],
                    dep,
                ) by {
                    if j > 0 {
                        assert(df[j - 1] == s[j]);
                    }
                }
            },
            Some(i) => {
                assert(s[i + 1] == df[i]);
                assert forall|j: int| 0 <= j < i + 1 implies !dep_matches_manifest(
                    #[trigger] s[j],
                    dep,
                ) by {
                    if j > 0 {
                        assert(df[j - 1] == s[j]);
                    }
                }
            },
        }
    }
}

/// The record of a running instance after one more load: only the reference
/// count moves.
pub open spec fn loaded_view(p: PactPluginView) -> PactPluginView {
    PactPluginView { access_count: p.access_count + 1, ..p }
}

/// What `load_plugin` hands back on success.
#[derive(Debug)]
pub enum LoadOutcome {
    /// A matching instance was already running; its reference count was
    /// raised and this is a copy of its record.
    Running(PactPlugin),
    /// Nothing matching runs. The caller must start this manifest's process,
    /// perform the handshake, register the returned catalogue entries, and
    /// record the instance with `insert_plugin` — or, if any of that fails,
    /// kill the process and record nothing.
    StartRequired(PactPluginManifest),
}

/// Success of manifest resolution, as the executable type decides it.
pub open spec fn start_outcome(r: Result<LoadOutcome, LoadError>, m: PactPluginManifestView) -> bool {
    if m.executable_type == "exec"@ {
        r matches Ok(LoadOutcome::StartRequired(mm)) && mm@ == m
    } else {
        r == Err::<LoadOutcome, LoadError>(LoadError::UnsupportedExecutableType)
    }
}

/// The plugin registry: cached manifests and running instances. The
/// top-level facade of the lifecycle manager.
pub struct PluginRegistry {
    manifests: Vec<PactPluginManifest>,
    plugins: Vec<PactPlugin>,
}

impl PluginRegistry {
    /// The cached manifests, as mathematical values.
    pub closed spec fn manifests(self) -> Seq<PactPluginManifestView> {
        self.manifests@.map_values(|m: PactPluginManifest| m@)
    }

    /// The running instances, as mathematical values.
    pub closed spec fn plugins(self) -> Seq<PactPluginView> {
        self.plugins@.map_values(|p: PactPlugin| p@)
    }

    /// At most one running instance per (name, version); every instance is
    /// held by at least one outstanding load; cached manifests are keyed by
    /// (name, version) too.
    pub open spec fn wf(self) -> bool {
        &&& forall|i: int, j: int|
            0 <= i < j < self.plugins().len() ==> !((#[trigger] self.plugins()[i]).manifest.name
                == (#[trigger] self.plugins()[j]).manifest.name && self.plugins()[i].manifest.version
                == self.plugins()[j].manifest.version)
        &&& forall|i: int|
            0 <= i < self.plugins().len() ==> (#[trigger] self.plugins()[i]).access_count >= 1
        &&& forall|i: int, j: int|
            0 <= i < j < self.manifests().len() ==> !((#[trigger] self.manifests()[i]).name
                == (#[trigger] self.manifests()[j]).name && self.manifests()[i].version
                == self.manifests()[j].version)
    }

    /// An empty registry.
    pub fn new() -> (r: Self)
        ensures
            r.wf(),
            r.plugins() == Seq::<PactPluginView>::empty(),
            r.manifests() == Seq::<PactPluginManifestView>::empty(),
    {
        let r = PluginRegistry { manifests: Vec::new(), plugins: Vec::new() };
        proof {
            assert(r.plugins() =~= Seq::<PactPluginView>::empty());
            assert(r.manifests() =~= Seq::<PactPluginManifestView>::empty());
        }
        r
    }

    /// Index of the running instance a dependency resolves to: the exact
    /// name and version when the dependency pins one, else the highest
    /// version under that name.
    pub fn lookup_plugin_inner(&self, plugin: &PluginDependency) -> (r: Option<usize>)
        ensures
            match r {
                Some(i) => best_plugin_index(self.plugins(), plugin@) == Some(i as int),
                None => best_plugin_index(self.plugins(), plugin@) is None,
            },
    {
        let mut best: Option<usize> = None;
        let mut i: usize = 0;
        proof {
            assert(self.plugins().take(0) =~= Seq::<PactPluginView>::empty());
        }
        while i < self.plugins.len()
            invariant
                i <= self.plugins@.len(),
                self.plugins().len() == self.plugins@.len(),
                match best {
                    Some(b) => b < i && best_plugin_index(self.plugins().take(i as int), plugin@)
                        == Some(b as int),
                    None => best_plugin_index(self.plugins().take(i as int), plugin@) is None,
                },
            decreases self.plugins@.len() - i,
        {
            proof {
                assert(self.plugins().take(i + 1).drop_last() =~= self.plugins().take(i as int));
                assert(self.plugins().take(i + 1).last() == self.plugins()[i as int]);
            }
            if plugin_matches(&self.plugins[i], plugin) {
                match best {
                    None => {
                        best = Some(i);
                    },
                    Some(b) => {
                        if version_lt(
                            self.plugins[b].manifest.version.as_str(),
                            self.plugins[i].manifest.version.as_str(),
                        ) {
                            best = Some(i);
                        }
                    },
                }
            }
            i = i + 1;
        }
        proof {
            assert(self.plugins().take(self.plugins@.len() as int) =~= self.plugins());
        }
        best
    }

    /// Looks up a running instance; returns a copy of its record.
    pub fn lookup_plugin(&self, plugin: &PluginDependency) -> (r: Option<PactPlugin>)
        ensures
            match best_plugin_index(self.plugins(), plugin@) {
                Some(i) => r matches Some(p) && p@ == self.plugins()[i],
                None => r is None,
            },
    {
        proof {
            lemma_best_plugin_index(self.plugins(), plugin@);
        }
        match self.lookup_plugin_inner(plugin) {
            Some(i) => Some(self.plugins[i].clone()),
            None => None,
        }
    }

    /// Looks up a cached manifest: the exact name and version when the
    /// dependency pins one, else the highest version under that name.
    pub fn lookup_plugin_manifest(&self, plugin: &PluginDependency) -> (r: Option<
        PactPluginManifest,
    >)
        ensures
            match best_manifest_index(self.manifests(), plugin@) {
                Some(i) => r matches Some(m) && m@ == self.manifests()[i],
                None => r is None,
            },
    {
        let mut best: Option<usize> = None;
        let mut i: usize = 0;
        proof {
            assert(self.manifests().take(0) =~= Seq::<PactPluginManifestView>::empty());
        }
        while i < self.manifests.len()
            invariant
                i <= self.manifests@.len(),
                self.manifests().len() == self.manifests@.len(),
                match best {
                    Some(b) => b < i && best_manifest_index(
                        self.manifests().take(i as int),
                        plugin@,
                    ) == Some(b as int),
                    None => best_manifest_index(self.manifests().take(i as int), plugin@) is None,
                },
            decreases self.manifests@.len() - i,
        {
            proof {
                assert(self.manifests().take(i + 1).drop_last() =~= self.manifests().take(
                    i as int,
                ));
                assert(self.manifests().take(i + 1).last() == self.manifests()[i as int]);
            }
            if manifest_matches(&self.manifests[i], plugin) {
                match best {
                    None => {
                        best = Some(i);
                    },
                    Some(b) => {
                        if version_lt(
                            self.manifests[b].version.as_str(),
                            self.manifests[i].version.as_str(),
                        ) {
                            best = Some(i);
                        }
                    },
                }
            }
            i = i + 1;
        }
        proof {
            assert(self.manifests().take(self.manifests@.len() as int) =~= self.manifests());
        }
        match best {
            Some(i) => Some(self.manifests[i].clone()),
            None => None,
        }
    }

    /// Resolves the manifest for a dependency: a cached manifest wins;
    /// otherwise the first matching manifest among those discovered on disk
    /// is adopted and cached. `discovered` is the plugin directory's content
    /// as the embedding application read it.
    pub fn load_plugin_manifest(
        &mut self,
        plugin: &PluginDependency,
        discovered: &Vec<PactPluginManifest>,
    ) -> (r: Result<PactPluginManifest, LoadError>)
        requires
            old(self).wf(),
        ensures
            final(self).wf(),
            final(self).plugins() == old(self).plugins(),
            match best_manifest_index(old(self).manifests(), plugin@) {
                Some(i) => {
                    &&& final(self).manifests() == old(self).manifests()
                    &&& r matches Ok(m) && m@ == old(self).manifests()[i]
                },
                None => match first_matching_manifest(
                    discovered@.map_values(|m: PactPluginManifest| m@),
                    plugin@,
                ) {
                    Some(j) => {
                        &&& final(self).manifests() == old(self).manifests().push(discovered@[j]@)
                        &&& r matches Ok(m) && m@ == discovered@[j]@
                    },
                    None => {
                        &&& final(self).manifests() == old(self).manifests()
                        &&& r == Err::<PactPluginManifest, LoadError>(LoadError::ManifestNotFound)
                    },
                },
            },
    {
        match self.lookup_plugin_manifest(plugin) {
            Some(m) => Ok(m),
            None => {
                let ghost dviews = discovered@.map_values(|m: PactPluginManifest| m@);
                let mut j: usize = 0;
                while j < discovered.len()
                    invariant
                        j <= discovered@.len(),
                        dviews == discovered@.map_values(|m: PactPluginManifest| m@),
                        dviews.len() == discovered@.len(),
                        self.manifests() == old(self).manifests(),
                        self.plugins() == old(self).plugins(),
                        self.wf(),
                        best_manifest_index(old(self).manifests(), plugin@) is None,
                        forall|k: int|
                            0 <= k < j ==> !dep_matches_manifest(#[trigger] dviews[k], plugin@),
                    decreases discovered@.len() - j,
                {
                    if manifest_matches(&discovered[j], plugin) {
                        let m = discovered[j].clone();
                        let ghost old_views = self.manifests();
                        self.manifests.push(discovered[j].clone());
                        proof {
                            assert(dviews[j as int] == discovered@[j as int]@);
                            lemma_first_matching_manifest(dviews, plugin@);
                            match first_matching_manifest(dviews, plugin@) {
                                Some(f) => {
                                    if f < j as int {
                                        assert(dep_matches_manifest(dviews[f], plugin@));
                                    } else if f > j as int {
                                        assert(!dep_matches_manifest(dviews[j as int], plugin@));
                                    }
                                },
                                None => {
                                    assert(!dep_matches_manifest(dviews[j as int], plugin@));
                                },
                            }
                            assert(first_matching_manifest(dviews, plugin@) == Some(j as int));
                            assert(self.manifests() =~= old_views.push(discovered@[j as int]@));
                            lemma_best_manifest_index(old_views, plugin@);
                            assert forall|k: int|
                                0 <= k < old_views.len() implies !((#[trigger] old_views[k]).name
                                == dviews[j as int].name && old_views[k].version == dviews[
                                j as int
                            ].version) by {
                                if old_views[k].name == dviews[j as int].name && old_views[k].version
                                    == dviews[j as int].version {
                                    assert(dep_matches_manifest(old_views[k], plugin@));
                                }
                            }
                            assert forall|a: int, b: int|
                                0 <= a < b < self.manifests().len() implies !((
                            #[trigger] self.manifests()[a]).name == (
                            #[trigger] self.manifests()[b]).name && self.manifests()[a].version
                                == self.manifests()[b].version) by {
                                if b == self.manifests().len() - 1 {
                                    assert(self.manifests()[a] == old_views[a]);
                                } else {
                                    assert(self.manifests()[a] == old_views[a]);
                                    assert(self.manifests()[b] == old_views[b]);
                                }
                            }
                        }
                        return Ok(m);
                    }
                    j = j + 1;
                }
                proof {
                    lemma_first_matching_manifest(dviews, plugin@);
                    match first_matching_manifest(dviews, plugin@) {
                        Some(f) => {
                            assert(!dep_matches_manifest(dviews[f], plugin@));
                        },
                        None => {},
                    }
                }
                Err(LoadError::ManifestNotFound)
            },
        }
    }

    /// Records a started instance under its (name, version), replacing a
    /// stale record if one is present.
    pub fn insert_plugin(&mut self, plugin: PactPlugin)
        requires
            old(self).wf(),
            plugin.access_count >= 1,
        ensures
            final(self).wf(),
            final(self).manifests() == old(self).manifests(),
            ({
                let dep = PluginDependencyView {
                    name: plugin@.manifest.name,
                    version: Some(plugin@.manifest.version),
                };
                match best_plugin_index(old(self).plugins(), dep) {
                    Some(i) => final(self).plugins() == old(self).plugins().update(i, plugin@),
                    None => final(self).plugins() == old(self).plugins().push(plugin@),
                }
            }),
    {
        let dep = PluginDependency {
            name: plugin.manifest.name.clone(),
            version: Some(plugin.manifest.version.clone()),
        };
        let ghost depv = dep@;
        proof {
            lemma_best_plugin_index(self.plugins(), depv);
        }
        let ghost old_views = self.plugins();
        match self.lookup_plugin_inner(&dep) {
            Some(i) => {
                self.plugins.set(i, plugin);
                proof {
                    assert(self.plugins() =~= old_views.update(i as int, plugin@));
                    assert(old_views[i as int].manifest.name == plugin@.manifest.name);
                    assert(old_views[i as int].manifest.version == plugin@.manifest.version);
                    assert forall|a: int, b: int|
                        0 <= a < b < self.plugins().len() implies !((
                    #[trigger] self.plugins()[a]).manifest.name == (
                    #[trigger] self.plugins()[b]).manifest.name
                        && self.plugins()[a].manifest.version
                        == self.plugins()[b].manifest.version) by {
                        assert(old_views[a].manifest.name == self.plugins()[a].manifest.name
                            && old_views[a].manifest.version == self.plugins()[a].manifest.version);
                        assert(old_views[b].manifest.name == self.plugins()[b].manifest.name
                            && old_views[b].manifest.version == self.plugins()[b].manifest.version);
                    }
                    assert forall|a: int| 0 <= a < self.plugins().len() implies (
                    #[trigger] self.plugins()[a]).access_count >= 1 by {
                        if a != i as int {
                            assert(self.plugins()[a] == old_views[a]);
                        }
                    }
                    assert(self.manifests() == old(self).manifests());
                    assert forall|a: int, b: int|
                        0 <= a < b < self.manifests().len() implies !((
                    #[trigger] self.manifests()[a]).name == (
                    #[trigger] self.manifests()[b]).name && self.manifests()[a].version
                        == self.manifests()[b].version) by {
                        assert(self.manifests()[a] == old(self).manifests()[a]);
                        assert(self.manifests()[b] == old(self).manifests()[b]);
                    }
                }
            },
            None => {
                self.plugins.push(plugin);
                proof {
                    assert(self.plugins() =~= old_views.push(plugin@));
                    assert forall|a: int, b: int|
                        0 <= a < b < self.plugins().len() implies !((
                    #[trigger] self.plugins()[a]).manifest.name == (
                    #[trigger] self.plugins()[b]).manifest.name
                        && self.plugins()[a].manifest.version
                        == self.plugins()[b].manifest.version) by {
                        if b == self.plugins().len() - 1 {
                            assert(self.plugins()[a] == old_views[a]);
                            if old_views[a].manifest.name == plugin@.manifest.name
                                && old_views[a].manifest.version == plugin@.manifest.version {
                                assert(dep_matches_plugin(old_views[a], depv));
                            }
                        } else {
                            assert(self.plugins()[a] == old_views[a]);
                            assert(self.plugins()[b] == old_views[b]);
                        }
                    }
                    assert forall|a: int| 0 <= a < self.plugins().len() implies (
                    #[trigger] self.plugins()[a]).access_count >= 1 by {
                        if a < self.plugins().len() - 1 {
                            assert(self.plugins()[a] == old_views[a]);
                        }
                    }
                    assert(self.manifests() == old(self).manifests());
                    assert forall|a: int, b: int|
                        0 <= a < b < self.manifests().len() implies !((
                    #[trigger] self.manifests()[a]).name == (
                    #[trigger] self.manifests()[b]).name && self.manifests()[a].version
                        == self.manifests()[b].version) by {
                        assert(self.manifests()[a] == old(self).manifests()[a]);
                        assert(self.manifests()[b] == old(self).manifests()[b]);
                    }
                }
            },
        }
    }

    /// Loads the dependency: a running match has its reference count raised
    /// and is returned; otherwise the manifest is resolved (from the cache,
    /// else from `discovered`) and, when its execution model is supported,
    /// handed back for the caller to start. Any failure leaves the running
    /// instances untouched.
    pub fn load_plugin(
        &mut self,
        plugin: &PluginDependency,
        discovered: &Vec<PactPluginManifest>,
    ) -> (r: Result<LoadOutcome, LoadError>)
        requires
            old(self).wf(),
            match best_plugin_index(old(self).plugins(), plugin@) {
                Some(i) => old(self).plugins()[i].access_count < u64::MAX,
                None => true,
            },
        ensures
            final(self).wf(),
            match best_plugin_index(old(self).plugins(), plugin@) {
                Some(i) => {
                    &&& final(self).manifests() == old(self).manifests()
                    &&& final(self).plugins() == old(self).plugins().update(
                        i,
                        loaded_view(old(self).plugins()[i]),
                    )
                    &&& r matches Ok(LoadOutcome::Running(p)) && p@ == loaded_view(
                        old(self).plugins()[i],
                    )
                },
                None => {
                    &&& final(self).plugins() == old(self).plugins()
                    &&& match best_manifest_index(old(self).manifests(), plugin@) {
                        Some(mi) => {
                            &&& final(self).manifests() == old(self).manifests()
                            &&& start_outcome(r, old(self).manifests()[mi])
                        },
                        None => match first_matching_manifest(
                            discovered@.map_values(|m: PactPluginManifest| m@),
                            plugin@,
                        ) {
                            Some(di) => {
                                &&& final(self).manifests() == old(self).manifests().push(
                                    discovered@[di]@,
                                )
                                &&& start_outcome(r, discovered@[di]@)
                            },
                            None => {
                                &&& final(self).manifests() == old(self).manifests()
                                &&& r == Err::<LoadOutcome, LoadError>(LoadError::ManifestNotFound)
                            },
                        },
                    }
                },
            },
    {
        proof {
            lemma_best_plugin_index(self.plugins(), plugin@);
        }
        match self.lookup_plugin_inner(plugin) {
            Some(i) => {
                let mut updated = self.plugins[i].clone();
                updated.update_access();
                let result = updated.clone();
                let ghost old_p = self.plugins@;
                self.plugins.set(i, updated);
                proof {
                    assert(self.plugins() =~= old_p.map_values(|p: PactPlugin| p@).update(
                        i as int,
                        result@,
                    ));
                    assert(result@ == loaded_view(old_p.map_values(|p: PactPlugin| p@)[i as int]));
                }
                Ok(LoadOutcome::Running(result))
            },
            None => {
                match self.load_plugin_manifest(plugin, discovered) {
                    Ok(manifest) => {
                        if str_eq(manifest.executable_type.as_str(), "exec") {
                            Ok(LoadOutcome::StartRequired(manifest))
                        } else {
                            Err(LoadError::UnsupportedExecutableType)
                        }
                    },
                    Err(e) => Err(e),
                }
            },
        }
    }
}

/// The same record with another reference count.
pub open spec fn with_count(p: PactPluginView, c: int) -> PactPluginView {
    PactPluginView { access_count: c, ..p }
}

/// The record of a running instance after one release.
pub open spec fn released_view(p: PactPluginView) -> PactPluginView {
    with_count(p, p.access_count - 1)
}

/// The state after removing the catalogue entries of every given plugin.
pub open spec fn remove_all_plugins_spec(
    m: Map<Seq<char>, crate::catalogue_manager::CatalogueEntryView>,
    plugins: Seq<PactPluginView>,
) -> Map<Seq<char>, crate::catalogue_manager::CatalogueEntryView>
    decreases plugins.len(),
{
    if plugins.len() == 0 {
        m
    } else {
        remove_all_plugins_spec(
            m.remove_keys(keys_with_prefix(plugin_prefix(plugins[0].manifest.name))),
            plugins.drop_first(),
        )
    }
}

/// Removes a plugin's catalogue entries when it is shut down. Killing its
/// process is the embedding application's part: the process handle belongs
/// exclusively to the registry record being retired.
pub fn shutdown_plugin(catalogue: &mut CatalogueRegistry, plugin: &PactPlugin)
    requires
        old(catalogue).wf(),
    ensures
        final(catalogue).wf(),
        final(catalogue)@ == old(catalogue)@.remove_keys(
            keys_with_prefix(plugin_prefix(plugin@.manifest.name)),
        ),
{
    remove_plugin_entries(catalogue, plugin.manifest.name.as_str());
}

impl PluginRegistry {
    /// Releases one load of the dependency. A dependency with no running
    /// match is a no-op. Otherwise the matching instance's reference count
    /// drops by one; when the last outstanding load goes, its record is
    /// removed, its catalogue entries are cleared, and the child process id
    /// is handed back for the caller to kill.
    pub fn drop_plugin_access(
        &mut self,
        plugin: &PluginDependency,
        catalogue: &mut CatalogueRegistry,
    ) -> (r: Option<u64>)
        requires
            old(self).wf(),
            old(catalogue).wf(),
        ensures
            final(self).wf(),
            final(catalogue).wf(),
            final(self).manifests() == old(self).manifests(),
            match best_plugin_index(old(self).plugins(), plugin@) {
                None => {
                    &&& final(self).plugins() == old(self).plugins()
                    &&& final(catalogue)@ == old(catalogue)@
                    &&& r is None
                },
                Some(i) => if old(self).plugins()[i].access_count > 1 {
                    &&& final(self).plugins() == old(self).plugins().update(
                        i,
                        released_view(old(self).plugins()[i]),
                    )
                    &&& final(catalogue)@ == old(catalogue)@
                    &&& r is None
                } else {
                    &&& final(self).plugins() == old(self).plugins().remove(i)
                    &&& final(catalogue)@ == old(catalogue)@.remove_keys(
                        keys_with_prefix(plugin_prefix(old(self).plugins()[i].manifest.name)),
                    )
                    &&& r == Some(old(self).plugins()[i].child_pid)
                },
            },
    {
        proof {
            lemma_best_plugin_index(self.plugins(), plugin@);
        }
        match self.lookup_plugin_inner(plugin) {
            None => None,
            Some(i) => {
                let mut p = self.plugins[i].clone();
                let remaining = p.drop_access();
                let ghost old_views = self.plugins();
                if remaining == 0 {
                    let removed = self.plugins.remove(i);
                    shutdown_plugin(catalogue, &removed);
                    proof {
                        assert(removed@ == old_views[i as int]);
                        assert(self.plugins() =~= old_views.remove(i as int));
                        assert(forall|a: int|
                            0 <= a < self.plugins().len() ==> #[trigger] self.plugins()[a] == if a
                                < i as int {
                                old_views[a]
                            } else {
                                old_views[a + 1]
                            });
                        assert forall|a: int, b: int|
                            0 <= a < b < self.plugins().len() implies !((
                        #[trigger] self.plugins()[a]).manifest.name == (
                        #[trigger] self.plugins()[b]).manifest.name
                            && self.plugins()[a].manifest.version
                            == self.plugins()[b].manifest.version) by {}
                        assert(self.manifests() == old(self).manifests());
                    }
                    Some(removed.child_pid)
                } else {
                    self.plugins.set(i, p);
                    proof {
                        assert(self.plugins() =~= old_views.update(
                            i as int,
                            released_view(old_views[i as int]),
                        ));
                        assert forall|a: int, b: int|
                            0 <= a < b < self.plugins().len() implies !((
                        #[trigger] self.plugins()[a]).manifest.name == (
                        #[trigger] self.plugins()[b]).manifest.name
                            && self.plugins()[a].manifest.version
                            == self.plugins()[b].manifest.version) by {
                            assert(old_views[a].manifest == self.plugins()[a].manifest);
                            assert(old_views[b].manifest == self.plugins()[b].manifest);
                        }
                        assert forall|a: int| 0 <= a < self.plugins().len() implies (
                        #[trigger] self.plugins()[a]).access_count >= 1 by {
                            if a != i as int {
                                assert(self.plugins()[a] == old_views[a]);
                            }
                        }
                        assert(self.manifests() == old(self).manifests());
                    }
                    None
                }
            },
        }
    }

    /// Stops every running instance, whatever its reference count: clears
    /// all records, removes all of their catalogue entries, and returns the
    /// child process ids for the caller to kill. For host-process teardown.
    pub fn shutdown_plugins(&mut self, catalogue: &mut CatalogueRegistry) -> (r: Vec<u64>)
        requires
            old(self).wf(),
            old(catalogue).wf(),
        ensures
            final(self).wf(),
            final(catalogue).wf(),
            final(self).plugins() == Seq::<PactPluginView>::empty(),
            final(self).manifests() == old(self).manifests(),
            r@ == old(self).plugins().map_values(|p: PactPluginView| p.child_pid),
            final(catalogue)@ == remove_all_plugins_spec(old(catalogue)@, old(self).plugins()),
    {
        let ghost all = self.plugins();
        let ghost orig_cat = catalogue@;
        proof {
            assert(all.skip(0) =~= all);
        }
        let mut pids: Vec<u64> = Vec::new();
        let mut i: usize = 0;
        while i < self.plugins.len()
            invariant
                i <= self.plugins@.len(),
                self.plugins() == all,
                self.manifests() == old(self).manifests(),
                self.wf(),
                catalogue.wf(),
                pids@.len() == i,
                forall|j: int| 0 <= j < i ==> pids@[j] == all[j].child_pid,
                remove_all_plugins_spec(orig_cat, all) == remove_all_plugins_spec(
                    catalogue@,
                    all.skip(i as int),
                ),
            decreases self.plugins@.len() - i,
        {
            proof {
                assert(all.skip(i as int)[0] == all[i as int]);
                assert(all.skip(i as int).drop_first() =~= all.skip(i + 1));
            }
            remove_plugin_entries(catalogue, self.plugins[i].manifest.name.as_str());
            pids.push(self.plugins[i].child_pid);
            i = i + 1;
        }
        proof {
            assert(all.skip(all.len() as int) =~= Seq::<PactPluginView>::empty());
        }
        self.plugins.clear();
        proof {
            assert(self.plugins() =~= Seq::<PactPluginView>::empty());
            assert(pids@ =~= all.map_values(|p: PactPluginView| p.child_pid));
        }
        pids
    }
}

/// Two registries whose instances carry the same manifests resolve every
/// dependency to the same index: reference counts play no part in lookup.
pub proof fn lemma_best_index_ignores_counts(
    s: Seq<PactPluginView>,
    t: Seq<PactPluginView>,
    dep: PluginDependencyView,
)
    requires
        s.len() == t.len(),
        forall|j: int| 0 <= j < s.len() ==> (#[trigger] t[j]).manifest == s[j].manifest,
    ensures
        best_plugin_index(s, dep) == best_plugin_index(t, dep),
    decreases s.len(),
{
    if s.len() > 0 {
        assert(forall|j: int| 0 <= j < s.len() - 1 ==> s.drop_last()[j] == s[j]);
        assert(forall|j: int| 0 <= j < t.len() - 1 ==> t.drop_last()[j] == t[j]);
        assert forall|j: int| 0 <= j < s.drop_last().len() implies (
        #[trigger] t.drop_last()[j]).manifest == s.drop_last()[j].manifest by {
            assert(t[j].manifest == s[j].manifest);
        }
        lemma_best_index_ignores_counts(s.drop_last(), t.drop_last(), dep);
        assert(t[s.len() - 1].manifest == s[s.len() - 1].manifest);
        lemma_best_plugin_index(s.drop_last(), dep);
        match best_plugin_index(s.drop_last(), dep) {
            Some(j) => {
                assert(t[j].manifest == s[j].manifest);
            },
            None => {},
        }
    }
}

/// The registry after `n` further loads of the instance at `i`.
pub open spec fn loads_repeated(s: Seq<PactPluginView>, i: int, n: nat) -> Seq<PactPluginView>
    decreases n,
{
    if n == 0 {
        s
    } else {
        let prev = loads_repeated(s, i, (n - 1) as nat);
        prev.update(i, loaded_view(prev[i]))
    }
}

/// Repeated loads of a running dependency, with no release in between, keep
/// returning the same instance: the chosen index never moves, its reference
/// count counts the un-released loads, and nothing else in the registry
/// changes.
pub proof fn lemma_repeated_loads(
    s: Seq<PactPluginView>,
    dep: PluginDependencyView,
    i: int,
    n: nat,
)
    requires
        best_plugin_index(s, dep) == Some(i),
    ensures
        best_plugin_index(loads_repeated(s, i, n), dep) == Some(i),
        loads_repeated(s, i, n).len() == s.len(),
        loads_repeated(s, i, n)[i].access_count == s[i].access_count + n,
        loads_repeated(s, i, n)[i].manifest == s[i].manifest,
        loads_repeated(s, i, n)[i].child_pid == s[i].child_pid,
        forall|j: int| 0 <= j < s.len() && j != i ==> loads_repeated(s, i, n)[j] == s[j],
    decreases n,
{
    lemma_best_plugin_index(s, dep);
    if n > 0 {
        lemma_repeated_loads(s, dep, i, (n - 1) as nat);
        let prev = loads_repeated(s, i, (n - 1) as nat);
        let cur = prev.update(i, loaded_view(prev[i]));
        assert forall|j: int| 0 <= j < s.len() implies (#[trigger] cur[j]).manifest
            == prev[j].manifest by {}
        lemma_best_index_ignores_counts(prev, cur, dep);
    }
}

/// The registry after one release of the dependency.
pub open spec fn release_once(s: Seq<PactPluginView>, dep: PluginDependencyView) -> Seq<
    PactPluginView,
> {
    match best_plugin_index(s, dep) {
        None => s,
        Some(i) => if s[i].access_count > 1 {
            s.update(i, released_view(s[i]))
        } else {
            s.remove(i)
        },
    }
}

/// The registry after `n` releases of the dependency.
pub open spec fn releases_repeated(s: Seq<PactPluginView>, dep: PluginDependencyView, n: nat) -> Seq<
    PactPluginView,
>
    decreases n,
{
    if n == 0 {
        s
    } else {
        release_once(releases_repeated(s, dep, (n - 1) as nat), dep)
    }
}

/// Releasing a running instance exactly `referenceCount` times removes its
/// record (its process is stopped and its catalogue entries go with it); one
/// release fewer leaves it running, with one outstanding load left.
pub proof fn lemma_release_count(
    s: Seq<PactPluginView>,
    dep: PluginDependencyView,
    i: int,
    m: nat,
)
    requires
        best_plugin_index(s, dep) == Some(i),
        forall|j: int| 0 <= j < s.len() && j != i ==> !dep_matches_plugin(#[trigger] s[j], dep),
        s[i].access_count >= 1,
        m <= s[i].access_count,
    ensures
        m < s[i].access_count ==> releases_repeated(s, dep, m) == s.update(
            i,
            with_count(s[i], s[i].access_count - m),
        ),
        m == s[i].access_count ==> releases_repeated(s, dep, m) == s.remove(i),
    decreases m,
{
    lemma_best_plugin_index(s, dep);
    let c = s[i].access_count;
    if m == 0 {
        assert(with_count(s[i], c) == s[i]);
        assert(s.update(i, s[i]) =~= s);
    } else {
        lemma_release_count(s, dep, i, (m - 1) as nat);
        let prev = releases_repeated(s, dep, (m - 1) as nat);
        assert(prev == s.update(i, with_count(s[i], c - (m - 1))));
        assert forall|j: int| 0 <= j < s.len() implies (#[trigger] prev[j]).manifest
            == s[j].manifest by {}
        lemma_best_index_ignores_counts(s, prev, dep);
        assert(best_plugin_index(prev, dep) == Some(i));
        assert(prev[i].access_count == c - m + 1);
        if m < c {
            assert(release_once(prev, dep) =~= s.update(i, with_count(s[i], c - m)));
        } else {
            assert(release_once(prev, dep) =~= s.remove(i));
        }
    }
}

/// Once an instance for a dependency is recorded, a further load finds it:
/// under the registry's serialized load discipline, a second load of the
/// same not-yet-running plugin can never start a second process.
pub proof fn lemma_lookup_after_insert(
    s: Seq<PactPluginView>,
    p: PactPluginView,
    dep: PluginDependencyView,
)
    requires
        dep_matches_plugin(p, dep),
    ensures
        best_plugin_index(s.push(p), dep) is Some,
{
    lemma_best_plugin_index(s.push(p), dep);
    if best_plugin_index(s.push(p), dep) is None {
        assert(s.push(p)[s.len() as int] == p);
    }
}

/// The entry point a manifest prescribes for a platform: the entry listed
/// under the exact platform identifier first, then, on the Windows family,
/// the one under `windows`, else the generic entry point.
pub open spec fn spec_resolve_entry_point(
    m: PactPluginManifestView,
    os: Seq<char>,
    is_windows: bool,
) -> Seq<char> {
    match crate::catalogue_manager::assoc_get(m.entry_points, os) {
        Some(p) => p,
        None => if is_windows {
            match crate::catalogue_manager::assoc_get(m.entry_points, "windows"@) {
                Some(p) => p,
                None => m.entry_point,
            }
        } else {
            m.entry_point
        },
    }
}

/// Picks the platform-appropriate entry point of a manifest. `os` is the
/// platform identifier the embedding application detected; resolving the
/// returned path against the plugin directory, and launching it, are the
/// application's part.
pub fn resolve_entry_point(manifest: &PactPluginManifest, os: &str, is_windows: bool) -> (r: String)
    ensures
        r@ == spec_resolve_entry_point(manifest@, os@, is_windows),
{
    match crate::catalogue_manager::get_value(&manifest.entry_points, os) {
        Some(p) => p.clone(),
        None => {
            if is_windows {
                match crate::catalogue_manager::get_value(&manifest.entry_points, "windows") {
                    Some(p) => p.clone(),
                    None => manifest.entry_point.clone(),
                }
            } else {
                manifest.entry_point.clone()
            }
        },
    }
}

fn plugin_matches(p: &PactPlugin, dep: &PluginDependency) -> (r: bool)
    ensures
        r == dep_matches_plugin(p@, dep@),
{
    str_eq(p.manifest.name.as_str(), dep.name.as_str()) && match &dep.version {
        Some(v) => str_eq(p.manifest.version.as_str(), v.as_str()),
        None => true,
    }
}

fn manifest_matches(m: &PactPluginManifest, dep: &PluginDependency) -> (r: bool)
    ensures
        r == dep_matches_manifest(m@, dep@),
{
    str_eq(m.name.as_str(), dep.name.as_str()) && match &dep.version {
        Some(v) => str_eq(m.version.as_str(), v.as_str()),
        None => true,
    }
}

} // verus!
