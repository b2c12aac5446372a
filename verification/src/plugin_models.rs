//! Data model: plugin manifests, dependency specifications, and running
//! plugin instances.

use vstd::prelude::*;

verus! {

/// Mathematical image of a manifest: every text field as a character
/// sequence.
pub ghost struct PactPluginManifestView {
    pub plugin_dir: Seq<char>,
    pub entry_point: Seq<char>,
    pub entry_points: Seq<(Seq<char>, Seq<char>)>,
    pub name: Seq<char>,
    pub version: Seq<char>,
    pub executable_type: Seq<char>,
}

/// On-disk descriptor identifying a plugin, its version, and how to launch
/// it. Immutable once loaded.
#[derive(Debug, PartialEq, Eq)]
pub struct PactPluginManifest {
    /// Directory the manifest was loaded from.
    pub plugin_dir: String,
    /// Default entry point, relative to `plugin_dir` unless absolute.
    pub entry_point: String,
    /// Platform-specific entry points, keyed by platform identifier.
    pub entry_points: Vec<(String, String)>,
    pub name: String,
    pub version: String,
    /// Execution model; only `"exec"` is supported.
    pub executable_type: String,
}

impl View for PactPluginManifest {
    type V = PactPluginManifestView;

    open spec fn view(&self) -> PactPluginManifestView {
        PactPluginManifestView {
            plugin_dir: self.plugin_dir@,
            entry_point: self.entry_point@,
            entry_points: self.entry_points@.map_values(|p: (String, String)| (p.0@, p.1@)),
            name: self.name@,
            version: self.version@,
            executable_type: self.executable_type@,
        }
    }
}

/// Clones a list of string pairs, element for element.
pub fn clone_string_pairs(v: &Vec<(String, String)>) -> (r: Vec<(String, String)>)
    ensures
        r@ == v@,
{
    let mut r: Vec<(String, String)> = Vec::new();
    let mut i: usize = 0;
    while i < v.len()
        invariant
            i <= v@.len(),
            r@ =~= v@.take(i as int),
        decreases v@.len() - i,
    {
        r.push((v[i].0.clone(), v[i].1.clone()));
        proof {
            assert(v@.take(i + 1) =~= v@.take(i as int).push(v@[i as int]));
        }
        i = i + 1;
    }
    proof {
        assert(v@.take(v@.len() as int) =~= v@);
    }
    r
}

impl Clone for PactPluginManifest {
    fn clone(&self) -> (res: Self)
        ensures
            res@ == self@,
            res.name == self.name,
            res.version == self.version,
            res.executable_type == self.executable_type,
            res.entry_point == self.entry_point,
            res.plugin_dir == self.plugin_dir,
            res.entry_points@ == self.entry_points@,
    {
        PactPluginManifest {
            plugin_dir: self.plugin_dir.clone(),
            entry_point: self.entry_point.clone(),
            entry_points: clone_string_pairs(&self.entry_points),
            name: self.name.clone(),
            version: self.version.clone(),
            executable_type: self.executable_type.clone(),
        }
    }
}

/// Mathematical image of a dependency specification.
pub ghost struct PluginDependencyView {
    pub name: Seq<char>,
    pub version: Option<Seq<char>>,
}

/// A required plugin: a name, and an exact version or "highest available".
#[derive(Debug, PartialEq, Eq)]
pub struct PluginDependency {
    pub name: String,
    pub version: Option<String>,
}

impl View for PluginDependency {
    type V = PluginDependencyView;

    open spec fn view(&self) -> PluginDependencyView {
        PluginDependencyView {
            name: self.name@,
            version: match self.version {
                Some(ref v) => Some(v@),
                None => None,
            },
        }
    }
}

impl Clone for PluginDependency {
    fn clone(&self) -> (res: Self)
        ensures
            res == *self,
    {
        PluginDependency {
            name: self.name.clone(),
            version: match &self.version {
                Some(v) => Some(v.clone()),
                None => None,
            },
        }
    }
}

/// Mathematical image of a running plugin instance.
pub ghost struct PactPluginView {
    pub manifest: PactPluginManifestView,
    pub child_pid: u64,
    pub port: u16,
    pub access_count: int,
}

/// A running plugin instance: its manifest, the identifiers of the process
/// and RPC port the embedding application started for it, and the number of
/// loads not yet released. The process handle is owned exclusively by the
/// registry entry holding this record.
#[derive(Debug, PartialEq, Eq)]
pub struct PactPlugin {
    pub manifest: PactPluginManifest,
    /// Operating-system identifier of the child process.
    pub child_pid: u64,
    /// TCP port the plugin announced for RPC calls.
    pub port: u16,
    /// Number of loads not yet released.
    pub access_count: u64,
}

impl View for PactPlugin {
    type V = PactPluginView;

    open spec fn view(&self) -> PactPluginView {
        PactPluginView {
            manifest: self.manifest@,
            child_pid: self.child_pid,
            port: self.port,
            access_count: self.access_count as int,
        }
    }
}

impl Clone for PactPlugin {
    fn clone(&self) -> (res: Self)
        ensures
            res@ == self@,
            res.manifest@ == self.manifest@,
            res.child_pid == self.child_pid,
            res.port == self.port,
            res.access_count == self.access_count,
    {
        PactPlugin {
            manifest: self.manifest.clone(),
            child_pid: self.child_pid,
            port: self.port,
            access_count: self.access_count,
        }
    }
}

impl PactPlugin {
    /// A freshly started instance, counted as loaded once by its starter.
    pub fn new(manifest: PactPluginManifest, child_pid: u64, port: u16) -> (r: Self)
        ensures
            r.manifest == manifest,
            r.child_pid == child_pid,
            r.port == port,
            r.access_count == 1,
    {
        PactPlugin { manifest, child_pid, port, access_count: 1 }
    }

    /// Records one more outstanding load.
    pub fn update_access(&mut self)
        requires
            old(self).access_count < u64::MAX,
        ensures
            final(self).access_count == old(self).access_count + 1,
            final(self).manifest == old(self).manifest,
            final(self).child_pid == old(self).child_pid,
            final(self).port == old(self).port,
    {
        self.access_count = self.access_count + 1;
    }

    /// Records one release; returns the number of loads still outstanding.
    pub fn drop_access(&mut self) -> (r: u64)
        requires
            old(self).access_count > 0,
        ensures
            final(self).access_count == old(self).access_count - 1,
            r == final(self).access_count,
            final(self).manifest == old(self).manifest,
            final(self).child_pid == old(self).child_pid,
            final(self).port == old(self).port,
    {
        self.access_count = self.access_count - 1;
        self.access_count
    }
}

} // verus!
