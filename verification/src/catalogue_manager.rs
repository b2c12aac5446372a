//! The capability catalogue: a registry of namespaced keys to capability
//! entries, merged from core-provided and plugin-provided entries, with
//! content-type-pattern lookup.
//!
//! Core registrations never overwrite an existing key (first writer wins);
//! plugin registrations always overwrite (latest handshake wins); removal is
//! by plugin name and clears every key under `plugin/<name>/`.

use vstd::prelude::*;
use crate::plugin_models::PactPluginManifest;
use crate::plugin_models::PactPluginManifestView;
use crate::strutil::str_eq;
use crate::strutil::str_starts_with;

verus! {

/// Type of catalogue entry.
#[derive(Clone, Copy, Debug, PartialEq, Eq, Structural)]
#[allow(non_camel_case_types)]
pub enum CatalogueEntryType {
    /// Content matcher (selected by content type).
    CONTENT_MATCHER,
    /// Content generator (selected by content type).
    CONTENT_GENERATOR,
    /// Mock server.
    MOCK_SERVER,
    /// Matching rule.
    MATCHER,
    /// Interaction.
    INTERACTION,
}

/// The name an entry type carries inside a namespaced catalogue key.
pub open spec fn entry_type_name(t: CatalogueEntryType) -> Seq<char> {
    match t {
        CatalogueEntryType::CONTENT_MATCHER => "content-matcher"@,
        CatalogueEntryType::CONTENT_GENERATOR => "content-generator"@,
        CatalogueEntryType::MOCK_SERVER => "mock-server"@,
        CatalogueEntryType::MATCHER => "matcher"@,
        CatalogueEntryType::INTERACTION => "interaction"@,
    }
}

/// The entry type denoted by a name, if any.
pub open spec fn entry_type_of_name(s: Seq<char>) -> Option<CatalogueEntryType> {
    if s == "content-matcher"@ {
        Some(CatalogueEntryType::CONTENT_MATCHER)
    } else if s == "content-generator"@ {
        Some(CatalogueEntryType::CONTENT_GENERATOR)
    } else if s == "mock-server"@ {
        Some(CatalogueEntryType::MOCK_SERVER)
    } else if s == "matcher"@ {
        Some(CatalogueEntryType::MATCHER)
    } else if s == "interaction"@ {
        Some(CatalogueEntryType::INTERACTION)
    } else {
        None
    }
}

impl CatalogueEntryType {
    /// The name used inside namespaced catalogue keys.
    pub fn name_str(&self) -> (r: &'static str)
        ensures
            r@ == entry_type_name(*self),
    {
        match self {
            CatalogueEntryType::CONTENT_MATCHER => "content-matcher",
            CatalogueEntryType::CONTENT_GENERATOR => "content-generator",
            CatalogueEntryType::MOCK_SERVER => "mock-server",
            CatalogueEntryType::MATCHER => "matcher",
            CatalogueEntryType::INTERACTION => "interaction",
        }
    }

    /// Reads an entry type back from its name.
    pub fn parse_name(s: &str) -> (r: Option<CatalogueEntryType>)
        ensures
            r == entry_type_of_name(s@),
    {
        if str_eq(s, "content-matcher") {
            Some(CatalogueEntryType::CONTENT_MATCHER)
        } else if str_eq(s, "content-generator") {
            Some(CatalogueEntryType::CONTENT_GENERATOR)
        } else if str_eq(s, "mock-server") {
            Some(CatalogueEntryType::MOCK_SERVER)
        } else if str_eq(s, "matcher") {
            Some(CatalogueEntryType::MATCHER)
        } else if str_eq(s, "interaction") {
            Some(CatalogueEntryType::INTERACTION)
        } else {
            None
        }
    }
}

/// Provider of a catalogue entry.
#[derive(Clone, Copy, Debug, PartialEq, Eq, Structural)]
#[allow(non_camel_case_types)]
pub enum CatalogueEntryProviderType {
    /// The core framework itself.
    CORE,
    /// A plugin.
    PLUGIN,
}

/// Mathematical image of a catalogue entry.
pub ghost struct CatalogueEntryView {
    pub entry_type: CatalogueEntryType,
    pub provider_type: CatalogueEntryProviderType,
    pub plugin: Option<PactPluginManifestView>,
    pub key: Seq<char>,
    pub values: Seq<(Seq<char>, Seq<char>)>,
}

/// One named capability with a type, a provider, and free-form key/value
/// metadata.
#[derive(Debug, PartialEq, Eq)]
pub struct CatalogueEntry {
    /// Type of entry.
    pub entry_type: CatalogueEntryType,
    /// Provider of the entry.
    pub provider_type: CatalogueEntryProviderType,
    /// Manifest of the providing plugin, for plugin entries.
    pub plugin: Option<PactPluginManifest>,
    /// Entry key.
    pub key: String,
    /// Associated values; the first pair wins when a key repeats.
    pub values: Vec<(String, String)>,
}

impl View for CatalogueEntry {
    type V = CatalogueEntryView;

    open spec fn view(&self) -> CatalogueEntryView {
        CatalogueEntryView {
            entry_type: self.entry_type,
            provider_type: self.provider_type,
            plugin: match self.plugin {
                Some(ref m) => Some(m@),
                None => None,
            },
            key: self.key@,
            values: self.values@.map_values(|p: (String, String)| (p.0@, p.1@)),
        }
    }
}

impl Clone for CatalogueEntry {
    fn clone(&self) -> (res: Self)
        ensures
            res@ == self@,
    {
        CatalogueEntry {
            entry_type: self.entry_type,
            provider_type: self.provider_type,
            plugin: match &self.plugin {
                Some(m) => Some(m.clone()),
                None => None,
            },
            key: self.key.clone(),
            values: crate::plugin_models::clone_string_pairs(&self.values),
        }
    }
}

/// One entry as a plugin offers it during the initialization handshake.
#[derive(Debug, PartialEq, Eq)]
pub struct PluginCatalogueEntry {
    pub entry_type: CatalogueEntryType,
    pub key: String,
    pub values: Vec<(String, String)>,
}

/// Mathematical image of a handshake entry.
pub ghost struct PluginCatalogueEntryView {
    pub entry_type: CatalogueEntryType,
    pub key: Seq<char>,
    pub values: Seq<(Seq<char>, Seq<char>)>,
}

impl View for PluginCatalogueEntry {
    type V = PluginCatalogueEntryView;

    open spec fn view(&self) -> PluginCatalogueEntryView {
        PluginCatalogueEntryView {
            entry_type: self.entry_type,
            key: self.key@,
            values: self.values@.map_values(|p: (String, String)| (p.0@, p.1@)),
        }
    }
}

/// Namespaced key of a plugin-provided entry.
pub open spec fn plugin_entry_key(name: Seq<char>, t: CatalogueEntryType, key: Seq<char>) -> Seq<
    char,
> {
    "plugin/"@ + name + "/"@ + entry_type_name(t) + "/"@ + key
}

/// Namespaced key of a core-provided entry.
pub open spec fn core_entry_key(t: CatalogueEntryType, key: Seq<char>) -> Seq<char> {
    "core/"@ + entry_type_name(t) + "/"@ + key
}

/// The key prefix owned by a plugin name.
pub open spec fn plugin_prefix(name: Seq<char>) -> Seq<char> {
    "plugin/"@ + name + "/"@
}

/// All keys under a prefix.
pub open spec fn keys_with_prefix(prefix: Seq<char>) -> Set<Seq<char>> {
    Set::new(|k: Seq<char>| prefix.is_prefix_of(k))
}

/// The mapping a key/entry list denotes; a later pair shadows an earlier one
/// with the same key.
pub open spec fn entries_map(s: Seq<(String, CatalogueEntry)>) -> Map<Seq<char>, CatalogueEntryView>
    decreases s.len(),
{
    if s.len() == 0 {
        Map::empty()
    } else {
        entries_map(s.drop_last()).insert(s.last().0@, s.last().1@)
    }
}

/// No two pairs share a key.
pub open spec fn distinct_keys(s: Seq<(String, CatalogueEntry)>) -> bool {
    forall|i: int, j: int| 0 <= i < j < s.len() ==> s[i].0@ != s[j].0@
}

proof fn lemma_entries_map_contains(s: Seq<(String, CatalogueEntry)>, k: Seq<char>)
    ensures
        entries_map(s).contains_key(k) <==> exists|i: int|
            0 <= i < s.len() && (#[trigger] s[i].0@) == k,
    decreases s.len(),
{
    if s.len() > 0 {
        lemma_entries_map_contains(s.drop_last(), k);
        let dl = s.drop_last();
        assert(forall|i: int| 0 <= i < dl.len() ==> dl[i] == s[i]);
        if entries_map(s).contains_key(k) {
            if s.last().0@ == k {
                assert(s[s.len() - 1].0@ == k);
            } else {
                let i = choose|i: int| 0 <= i < dl.len() && (#[trigger] dl[i].0@) == k;
                assert(s[i].0@ == k);
            }
        }
        if exists|i: int| 0 <= i < s.len() && (#[trigger] s[i].0@) == k {
            let i = choose|i: int| 0 <= i < s.len() && (#[trigger] s[i].0@) == k;
            if i < s.len() - 1 {
                assert(dl[i].0@ == k);
            }
        }
    }
}

proof fn lemma_entries_map_value(s: Seq<(String, CatalogueEntry)>, i: int)
    requires
        distinct_keys(s),
        0 <= i < s.len(),
    ensures
        entries_map(s).contains_key(s[i].0@),
        entries_map(s)[s[i].0@] == s[i].1@,
    decreases s.len(),
{
    let dl = s.drop_last();
    assert(forall|j: int| 0 <= j < dl.len() ==> dl[j] == s[j]);
    if i == s.len() - 1 {
    } else {
        lemma_entries_map_value(dl, i);
        assert(s[i].0@ != s.last().0@);
    }
}

proof fn lemma_entries_map_update(s: Seq<(String, CatalogueEntry)>, i: int, p: (
    String,
    CatalogueEntry,
))
    requires
        distinct_keys(s),
        0 <= i < s.len(),
        p.0@ == s[i].0@,
    ensures
        entries_map(s.update(i, p)) == entries_map(s).insert(p.0@, p.1@),
    decreases s.len(),
{
    let su = s.update(i, p);
    let dl = s.drop_last();
    assert(forall|j: int| 0 <= j < dl.len() ==> dl[j] == s[j]);
    if i == s.len() - 1 {
        assert(su.drop_last() =~= dl);
        assert(su.last() == p);
        assert(entries_map(dl).insert(s.last().0@, s.last().1@).insert(p.0@, p.1@) =~= entries_map(
            dl,
        ).insert(p.0@, p.1@));
    } else {
        assert(su.drop_last() =~= dl.update(i, p));
        assert(su.last() == s.last());
        lemma_entries_map_update(dl, i, p);
        assert(p.0@ != s.last().0@);
        assert(entries_map(dl).insert(p.0@, p.1@).insert(s.last().0@, s.last().1@)
            =~= entries_map(dl).insert(s.last().0@, s.last().1@).insert(p.0@, p.1@));
    }
}

proof fn lemma_entries_map_remove(s: Seq<(String, CatalogueEntry)>, i: int)
    requires
        distinct_keys(s),
        0 <= i < s.len(),
    ensures
        entries_map(s.remove(i)) == entries_map(s).remove(s[i].0@),
    decreases s.len(),
{
    let sr = s.remove(i);
    let dl = s.drop_last();
    assert(forall|j: int| 0 <= j < dl.len() ==> dl[j] == s[j]);
    if i == s.len() - 1 {
        assert(sr =~= dl);
        lemma_entries_map_contains(dl, s[i].0@);
        assert(!entries_map(dl).contains_key(s[i].0@));
        assert(entries_map(dl).insert(s.last().0@, s.last().1@).remove(s[i].0@) =~= entries_map(
            dl,
        ));
    } else {
        assert(sr.drop_last() =~= dl.remove(i));
        assert(sr.last() == s.last());
        lemma_entries_map_remove(dl, i);
        assert(s[i].0@ != s.last().0@);
        assert(entries_map(dl).remove(s[i].0@).insert(s.last().0@, s.last().1@) =~= entries_map(
            dl,
        ).insert(s.last().0@, s.last().1@).remove(s[i].0@));
    }
}

/// Process-wide mapping of namespaced keys to capability entries.
pub struct CatalogueRegistry {
    entries: Vec<(String, CatalogueEntry)>,
}

impl View for CatalogueRegistry {
    type V = Map<Seq<char>, CatalogueEntryView>;

    closed spec fn view(&self) -> Map<Seq<char>, CatalogueEntryView> {
        entries_map(self.entries@)
    }
}

impl CatalogueRegistry {
    /// The registry's keys are a mapping: no key occurs twice.
    pub closed spec fn wf(self) -> bool {
        distinct_keys(self.entries@)
    }

    /// An empty catalogue.
    pub fn new() -> (r: Self)
        ensures
            r.wf(),
            r@ == Map::<Seq<char>, CatalogueEntryView>::empty(),
    {
        CatalogueRegistry { entries: Vec::new() }
    }

    fn index_of(&self, key: &str) -> (r: Option<usize>)
        ensures
            match r {
                Some(i) => i < self.entries@.len() && self.entries@[i as int].0@ == key@,
                None => forall|i: int|
                    0 <= i < self.entries@.len() ==> (#[trigger] self.entries@[i].0@) != key@,
            },
    {
        let mut i: usize = 0;
        while i < self.entries.len()
            invariant
                i <= self.entries@.len(),
                forall|j: int| 0 <= j < i ==> (#[trigger] self.entries@[j].0@) != key@,
            decreases self.entries@.len() - i,
        {
            if str_eq(self.entries[i].0.as_str(), key) {
                return Some(i);
            }
            i = i + 1;
        }
        None
    }

    /// True when the catalogue holds the given namespaced key.
    pub fn contains_key(&self, key: &str) -> (r: bool)
        ensures
            r == self@.contains_key(key@),
    {
        proof {
            lemma_entries_map_contains(self.entries@, key@);
        }
        self.index_of(key).is_some()
    }

    /// The entry stored under the given namespaced key.
    pub fn get(&self, key: &str) -> (r: Option<&CatalogueEntry>)
        requires
            self.wf(),
        ensures
            match r {
                Some(e) => self@.contains_key(key@) && e@ == self@[key@],
                None => !self@.contains_key(key@),
            },
    {
        proof {
            lemma_entries_map_contains(self.entries@, key@);
        }
        match self.index_of(key) {
            Some(i) => {
                proof {
                    lemma_entries_map_value(self.entries@, i as int);
                }
                Some(&self.entries[i].1)
            },
            None => None,
        }
    }

    /// Stores `entry` under `key`, replacing any entry already there.
    pub fn insert_entry(&mut self, key: String, entry: CatalogueEntry)
        requires
            old(self).wf(),
        ensures
            final(self).wf(),
            final(self)@ == old(self)@.insert(key@, entry@),
    {
        let ghost s0 = self.entries@;
        match self.index_of(key.as_str()) {
            Some(i) => {
                proof {
                    lemma_entries_map_update(s0, i as int, (key, entry));
                }
                self.entries.set(i, (key, entry));
                proof {
                    assert(distinct_keys(self.entries@));
                }
            },
            None => {
                self.entries.push((key, entry));
                proof {
                    assert(self.entries@.drop_last() =~= s0);
                    assert(distinct_keys(self.entries@));
                }
            },
        }
    }

    /// Removes every entry whose key starts with `prefix`.
    pub fn remove_prefixed(&mut self, prefix: &str)
        requires
            old(self).wf(),
        ensures
            final(self).wf(),
            final(self)@ == old(self)@.remove_keys(keys_with_prefix(prefix@)),
    {
        let ghost p = keys_with_prefix(prefix@);
        let ghost orig = entries_map(old(self).entries@);
        let mut i: usize = 0;
        while i < self.entries.len()
            invariant
                distinct_keys(self.entries@),
                i <= self.entries@.len(),
                forall|j: int| 0 <= j < i ==> !p.contains(#[trigger] self.entries@[j].0@),
                entries_map(self.entries@).remove_keys(p) == orig.remove_keys(p),
                p == keys_with_prefix(prefix@),
            decreases self.entries@.len() - i,
        {
            if str_starts_with(self.entries[i].0.as_str(), prefix) {
                let ghost s0 = self.entries@;
                let ghost k = self.entries@[i as int].0@;
                proof {
                    lemma_entries_map_remove(s0, i as int);
                }
                self.entries.remove(i);
                proof {
                    assert(self.entries@ =~= s0.remove(i as int));
                    assert(distinct_keys(self.entries@)) by {
                        assert(forall|m: int|
                            0 <= m < self.entries@.len() ==> #[trigger] self.entries@[m] == if m < i
                                as int {
                                s0[m]
                            } else {
                                s0[m + 1]
                            });
                    }
                    assert(p.contains(k));
                    assert(entries_map(s0).remove(k).remove_keys(p) =~= entries_map(
                        s0,
                    ).remove_keys(p));
                }
            } else {
                i = i + 1;
            }
        }
        proof {
            assert(entries_map(self.entries@).remove_keys(p) =~= entries_map(self.entries@)) by {
                assert forall|k: Seq<char>|
                    entries_map(self.entries@).contains_key(k) implies !p.contains(k) by {
                    lemma_entries_map_contains(self.entries@, k);
                }
            }
        }
    }
}

fn plugin_key_for(name: &str, t: CatalogueEntryType, key: &str) -> (r: String)
    ensures
        r@ == plugin_entry_key(name@, t, key@),
{
    let mut s = "plugin/".to_owned();
    s.append(name);
    s.append("/");
    s.append(t.name_str());
    s.append("/");
    s.append(key);
    proof {
        assert(s@ =~= plugin_entry_key(name@, t, key@));
    }
    s
}

fn core_key_for(t: CatalogueEntryType, key: &str) -> (r: String)
    ensures
        r@ == core_entry_key(t, key@),
{
    let mut s = "core/".to_owned();
    s.append(t.name_str());
    s.append("/");
    s.append(key);
    proof {
        assert(s@ =~= core_entry_key(t, key@));
    }
    s
}

/// The catalogue entry a handshake entry of `e` from plugin `m` turns into.
pub open spec fn plugin_entry_view(
    m: PactPluginManifestView,
    e: crate::catalogue_manager::PluginCatalogueEntryView,
) -> CatalogueEntryView {
    CatalogueEntryView {
        entry_type: e.entry_type,
        provider_type: CatalogueEntryProviderType::PLUGIN,
        plugin: Some(m),
        key: plugin_entry_key(m.name, e.entry_type, e.key),
        values: e.values,
    }
}

/// The catalogue after registering a plugin's handshake entries in order:
/// every entry is stored under its namespaced key, a later entry overwriting
/// an earlier one with the same key.
pub open spec fn register_plugin_spec(
    m: Map<Seq<char>, CatalogueEntryView>,
    manifest: PactPluginManifestView,
    entries: Seq<PluginCatalogueEntryView>,
) -> Map<Seq<char>, CatalogueEntryView>
    decreases entries.len(),
{
    if entries.len() == 0 {
        m
    } else {
        register_plugin_spec(
            m.insert(
                plugin_entry_key(manifest.name, entries[0].entry_type, entries[0].key),
                plugin_entry_view(manifest, entries[0]),
            ),
            manifest,
            entries.drop_first(),
        )
    }
}

/// Registers the entries a plugin offered during its handshake, overwriting
/// any prior state for the same keys.
pub fn register_plugin_entries(
    catalogue: &mut CatalogueRegistry,
    plugin: &PactPluginManifest,
    catalogue_list: &Vec<PluginCatalogueEntry>,
)
    requires
        old(catalogue).wf(),
    ensures
        final(catalogue).wf(),
        final(catalogue)@ == register_plugin_spec(
            old(catalogue)@,
            plugin@,
            catalogue_list@.map_values(|e: PluginCatalogueEntry| e@),
        ),
{
    let ghost evs = catalogue_list@.map_values(|e: PluginCatalogueEntry| e@);
    let ghost orig = catalogue@;
    proof {
        assert(evs.skip(0) =~= evs);
    }
    let mut i: usize = 0;
    while i < catalogue_list.len()
        invariant
            catalogue.wf(),
            i <= catalogue_list@.len(),
            evs == catalogue_list@.map_values(|e: PluginCatalogueEntry| e@),
            register_plugin_spec(orig, plugin@, evs) == register_plugin_spec(
                catalogue@,
                plugin@,
                evs.skip(i as int),
            ),
        decreases catalogue_list@.len() - i,
    {
        let e = &catalogue_list[i];
        let key = plugin_key_for(plugin.name.as_str(), e.entry_type, e.key.as_str());
        let entry = CatalogueEntry {
            entry_type: e.entry_type,
            provider_type: CatalogueEntryProviderType::PLUGIN,
            plugin: Some(plugin.clone()),
            key: key.clone(),
            values: crate::plugin_models::clone_string_pairs(&e.values),
        };
        proof {
            assert(evs[i as int] == e@);
            assert(entry@ == plugin_entry_view(plugin@, evs[i as int]));
            assert(evs.skip(i as int)[0] == evs[i as int]);
            assert(evs.skip(i as int).drop_first() =~= evs.skip(i + 1));
        }
        catalogue.insert_entry(key, entry);
        i = i + 1;
    }
    proof {
        assert(evs.skip(evs.len() as int) =~= Seq::<PluginCatalogueEntryView>::empty());
    }
}

/// The namespaced keys that registering core entries in order newly adds:
/// those whose key was still free when their entry's turn came.
pub open spec fn core_added_keys(
    m: Map<Seq<char>, CatalogueEntryView>,
    entries: Seq<CatalogueEntryView>,
) -> Seq<Seq<char>>
    decreases entries.len(),
{
    if entries.len() == 0 {
        Seq::empty()
    } else {
        let k = core_entry_key(entries[0].entry_type, entries[0].key);
        if m.contains_key(k) {
            core_added_keys(m, entries.drop_first())
        } else {
            seq![k] + core_added_keys(m.insert(k, entries[0]), entries.drop_first())
        }
    }
}

/// The catalogue after registering core entries in order: an entry is stored
/// under its namespaced key only when that key is still free.
pub open spec fn register_core_spec(
    m: Map<Seq<char>, CatalogueEntryView>,
    entries: Seq<CatalogueEntryView>,
) -> Map<Seq<char>, CatalogueEntryView>
    decreases entries.len(),
{
    if entries.len() == 0 {
        m
    } else {
        register_core_spec(
            if m.contains_key(core_entry_key(entries[0].entry_type, entries[0].key)) {
                m
            } else {
                m.insert(core_entry_key(entries[0].entry_type, entries[0].key), entries[0])
            },
            entries.drop_first(),
        )
    }
}

/// Registers core framework entries; a key already present keeps the entry
/// it has (first writer wins). Returns the keys that were newly added.
pub fn register_core_entries(catalogue: &mut CatalogueRegistry, entries: &Vec<CatalogueEntry>) -> (r:
    Vec<String>)
    requires
        old(catalogue).wf(),
    ensures
        final(catalogue).wf(),
        final(catalogue)@ == register_core_spec(
            old(catalogue)@,
            entries@.map_values(|e: CatalogueEntry| e@),
        ),
        r@.map_values(|k: String| k@) == core_added_keys(
            old(catalogue)@,
            entries@.map_values(|e: CatalogueEntry| e@),
        ),
{
    let ghost evs = entries@.map_values(|e: CatalogueEntry| e@);
    let ghost orig = catalogue@;
    proof {
        assert(evs.skip(0) =~= evs);
    }
    let mut added: Vec<String> = Vec::new();
    let mut i: usize = 0;
    while i < entries.len()
        invariant
            catalogue.wf(),
            i <= entries@.len(),
            evs == entries@.map_values(|e: CatalogueEntry| e@),
            register_core_spec(orig, evs) == register_core_spec(catalogue@, evs.skip(i as int)),
            core_added_keys(orig, evs) == added@.map_values(|k: String| k@) + core_added_keys(
                catalogue@,
                evs.skip(i as int),
            ),
        decreases entries@.len() - i,
    {
        let e = &entries[i];
        let key = core_key_for(e.entry_type, e.key.as_str());
        proof {
            assert(evs[i as int] == e@);
            assert(evs.skip(i as int)[0] == evs[i as int]);
            assert(evs.skip(i as int).drop_first() =~= evs.skip(i + 1));
        }
        let ghost added0 = added@.map_values(|k: String| k@);
        if !catalogue.contains_key(key.as_str()) {
            added.push(key.clone());
            catalogue.insert_entry(key, e.clone());
            proof {
                assert(added@.map_values(|k: String| k@) =~= added0.push(
                    core_entry_key(e@.entry_type, e@.key),
                ));
                assert(added0 + (seq![core_entry_key(e@.entry_type, e@.key)] + core_added_keys(
                    catalogue@,
                    evs.skip(i + 1),
                )) =~= added0.push(core_entry_key(e@.entry_type, e@.key)) + core_added_keys(
                    catalogue@,
                    evs.skip(i + 1),
                ));
            }
        }
        i = i + 1;
    }
    proof {
        assert(evs.skip(evs.len() as int) =~= Seq::<CatalogueEntryView>::empty());
        assert(core_added_keys(catalogue@, evs.skip(evs.len() as int)) =~= Seq::<Seq<char>>::empty());
        assert(added@.map_values(|k: String| k@) + Seq::<Seq<char>>::empty() =~= added@.map_values(
            |k: String| k@,
        ));
    }
    added
}

/// Removes every catalogue entry whose namespaced key lies under
/// `plugin/<name>/`, whatever version provided it.
pub fn remove_plugin_entries(catalogue: &mut CatalogueRegistry, name: &str)
    requires
        old(catalogue).wf(),
    ensures
        final(catalogue).wf(),
        final(catalogue)@ == old(catalogue)@.remove_keys(keys_with_prefix(plugin_prefix(name@))),
{
    let mut prefix = "plugin/".to_owned();
    prefix.append(name);
    prefix.append("/");
    proof {
        assert(prefix@ =~= plugin_prefix(name@));
    }
    catalogue.remove_prefixed(prefix.as_str());
}

/// Core catalogue registration is idempotent against pre-existing keys:
/// registering core entries never changes the entry a present key holds.
pub proof fn lemma_register_core_preserves_existing(
    m: Map<Seq<char>, CatalogueEntryView>,
    entries: Seq<CatalogueEntryView>,
    k: Seq<char>,
)
    requires
        m.contains_key(k),
    ensures
        register_core_spec(m, entries).contains_key(k),
        register_core_spec(m, entries)[k] == m[k],
    decreases entries.len(),
{
    if entries.len() > 0 {
        let k0 = core_entry_key(entries[0].entry_type, entries[0].key);
        if m.contains_key(k0) {
            lemma_register_core_preserves_existing(m, entries.drop_first(), k);
        } else {
            lemma_register_core_preserves_existing(m.insert(k0, entries[0]), entries.drop_first(), k);
        }
    }
}

/// The map a plugin's handshake entries denote on their own.
pub open spec fn plugin_entries_map(
    manifest: PactPluginManifestView,
    entries: Seq<PluginCatalogueEntryView>,
) -> Map<Seq<char>, CatalogueEntryView> {
    register_plugin_spec(Map::empty(), manifest, entries)
}

/// Registering a plugin's entries overlays them on the catalogue: keys of the
/// plugin's entries take their new values, every other key is untouched.
pub proof fn lemma_register_plugin_is_union(
    m: Map<Seq<char>, CatalogueEntryView>,
    manifest: PactPluginManifestView,
    entries: Seq<PluginCatalogueEntryView>,
)
    ensures
        register_plugin_spec(m, manifest, entries) == m.union_prefer_right(
            plugin_entries_map(manifest, entries),
        ),
    decreases entries.len(),
{
    if entries.len() == 0 {
        assert(m.union_prefer_right(Map::<Seq<char>, CatalogueEntryView>::empty()) =~= m);
    } else {
        let k0 = plugin_entry_key(manifest.name, entries[0].entry_type, entries[0].key);
        let v0 = plugin_entry_view(manifest, entries[0]);
        let rest = entries.drop_first();
        lemma_register_plugin_is_union(m.insert(k0, v0), manifest, rest);
        lemma_register_plugin_is_union(Map::empty().insert(k0, v0), manifest, rest);
        assert(m.insert(k0, v0).union_prefer_right(plugin_entries_map(manifest, rest))
            =~= m.union_prefer_right(
            Map::empty().insert(k0, v0).union_prefer_right(plugin_entries_map(manifest, rest)),
        ));
    }
}

/// Plugin catalogue registration is overwrite-on-reload: registering the same
/// plugin's entries a second time leaves exactly the catalogue of the first
/// registration.
pub proof fn lemma_register_plugin_twice(
    m: Map<Seq<char>, CatalogueEntryView>,
    manifest: PactPluginManifestView,
    entries: Seq<PluginCatalogueEntryView>,
)
    ensures
        register_plugin_spec(register_plugin_spec(m, manifest, entries), manifest, entries)
            == register_plugin_spec(m, manifest, entries),
{
    let d = plugin_entries_map(manifest, entries);
    lemma_register_plugin_is_union(m, manifest, entries);
    lemma_register_plugin_is_union(m.union_prefer_right(d), manifest, entries);
    assert(m.union_prefer_right(d).union_prefer_right(d) =~= m.union_prefer_right(d));
}

/// Every key a plugin registration adds lies under the plugin's prefix.
pub proof fn lemma_plugin_entry_key_prefix(name: Seq<char>, t: CatalogueEntryType, key: Seq<char>)
    ensures
        plugin_prefix(name).is_prefix_of(plugin_entry_key(name, t, key)),
{
    assert(plugin_prefix(name) =~= plugin_entry_key(name, t, key).subrange(
        0,
        plugin_prefix(name).len() as int,
    ));
}

proof fn lemma_register_plugin_dom(
    m: Map<Seq<char>, CatalogueEntryView>,
    manifest: PactPluginManifestView,
    entries: Seq<PluginCatalogueEntryView>,
    k: Seq<char>,
)
    ensures
        register_plugin_spec(m, manifest, entries).contains_key(k) ==> m.contains_key(k) || exists|
            i: int,
        |
            0 <= i < entries.len() && k == plugin_entry_key(
                manifest.name,
                (#[trigger] entries[i]).entry_type,
                entries[i].key,
            ),
    decreases entries.len(),
{
    if entries.len() > 0 {
        let k0 = plugin_entry_key(manifest.name, entries[0].entry_type, entries[0].key);
        let v0 = plugin_entry_view(manifest, entries[0]);
        let rest = entries.drop_first();
        lemma_register_plugin_dom(m.insert(k0, v0), manifest, rest, k);
        if register_plugin_spec(m, manifest, entries).contains_key(k) {
            if m.insert(k0, v0).contains_key(k) {
                if k == k0 && !m.contains_key(k) {
                    assert(k == plugin_entry_key(
                        manifest.name,
                        entries[0].entry_type,
                        entries[0].key,
                    ));
                }
            } else {
                let i = choose|i: int|
                    0 <= i < rest.len() && k == plugin_entry_key(
                        manifest.name,
                        (#[trigger] rest[i]).entry_type,
                        rest[i].key,
                    );
                assert(entries[i + 1] == rest[i]);
            }
        }
    }
}

/// Removing a plugin's catalogue entries right after registering them
/// restores exactly the catalogue without that plugin's prefix: nothing else
/// was touched.
pub proof fn lemma_remove_after_register(
    m: Map<Seq<char>, CatalogueEntryView>,
    manifest: PactPluginManifestView,
    entries: Seq<PluginCatalogueEntryView>,
)
    ensures
        register_plugin_spec(m, manifest, entries).remove_keys(
            keys_with_prefix(plugin_prefix(manifest.name)),
        ) == m.remove_keys(keys_with_prefix(plugin_prefix(manifest.name))),
{
    let p = keys_with_prefix(plugin_prefix(manifest.name));
    let reg = register_plugin_spec(m, manifest, entries);
    lemma_register_plugin_is_union(m, manifest, entries);
    assert forall|k: Seq<char>| !p.contains(k) && reg.contains_key(k) implies m.contains_key(k)
        && reg[k] == m[k] by {
        lemma_register_plugin_dom(m, manifest, entries, k);
        if !m.contains_key(k) || plugin_entries_map(manifest, entries).contains_key(k) {
            if plugin_entries_map(manifest, entries).contains_key(k) {
                lemma_register_plugin_dom(Map::empty(), manifest, entries, k);
                let i = choose|i: int|
                    0 <= i < entries.len() && k == plugin_entry_key(
                        manifest.name,
                        (#[trigger] entries[i]).entry_type,
                        entries[i].key,
                    );
                lemma_plugin_entry_key_prefix(manifest.name, entries[i].entry_type, entries[i].key);
            } else {
                let i = choose|i: int|
                    0 <= i < entries.len() && k == plugin_entry_key(
                        manifest.name,
                        (#[trigger] entries[i]).entry_type,
                        entries[i].key,
                    );
                lemma_plugin_entry_key_prefix(manifest.name, entries[i].entry_type, entries[i].key);
            }
        }
    }
    assert forall|k: Seq<char>| !p.contains(k) && m.contains_key(k) implies reg.contains_key(
        k,
    ) by {}
    assert(reg.remove_keys(p) =~= m.remove_keys(p));
}

/// Whether a pattern is a well-formed regular expression.
pub uninterp spec fn regex_pattern_ok(pattern: Seq<char>) -> bool;

/// Whether a well-formed regular expression matches somewhere in a text.
pub uninterp spec fn regex_is_match(pattern: Seq<char>, text: Seq<char>) -> bool;

/// Whether a string parses as a content type.
pub uninterp spec fn content_type_parses(ct: Seq<char>) -> bool;

/// The base `type/subtype` form of a content type that parses.
pub uninterp spec fn content_type_base(ct: Seq<char>) -> Seq<char>;

/// Relies on regex::Regex::new and regex::Regex::is_match: whether a pattern
/// compiles is a function of the pattern alone, and whether it matches is a
/// function of the pattern and the text alone. A pattern that does not
/// compile yields `None`.
#[verifier::external_body]
fn regex_match_str(pattern: &str, text: &str) -> (r: Option<bool>)
    ensures
        r is Some <==> regex_pattern_ok(pattern@),
        r matches Some(m) ==> m == regex_is_match(pattern@, text@),
{
    match regex::Regex::new(pattern) {
        Ok(re) => Some(re.is_match(text)),
        Err(_) => None,
    }
}

/// Relies on pact_models::content_types::ContentType::parse and
/// ContentType::base_type: whether a string parses, and the base form it
/// yields, are functions of the string alone. A string that does not parse
/// yields `None`.
#[verifier::external_body]
fn base_type_of(content_type: &str) -> (r: Option<String>)
    ensures
        r is Some <==> content_type_parses(content_type@),
        r matches Some(b) ==> b@ == content_type_base(content_type@),
{
    match pact_models::content_types::ContentType::parse(content_type) {
        Ok(ct) => Some(ct.base_type().to_string()),
        Err(_) => None,
    }
}

/// First value stored under `key` in an association list.
pub open spec fn assoc_get(values: Seq<(Seq<char>, Seq<char>)>, key: Seq<char>) -> Option<Seq<char>>
    decreases values.len(),
{
    if values.len() == 0 {
        None
    } else if values[0].0 == key {
        Some(values[0].1)
    } else {
        assoc_get(values.drop_first(), key)
    }
}

/// One content-type pattern (already trimmed) accepts the content type: the
/// pattern is a well-formed regular expression and matches the full
/// content-type string, or its base `type/subtype` form.
pub open spec fn pattern_matches_ct(p: Seq<char>, ct: Seq<char>) -> bool {
    regex_pattern_ok(p) && (regex_is_match(p, ct) || (content_type_parses(ct) && regex_is_match(
        p,
        content_type_base(ct),
    )))
}

/// One of the `;`-separated patterns in a `content-types` value accepts
/// `ct`.
pub open spec fn cts_patterns_match(v: Seq<char>, ct: Seq<char>) -> bool {
    exists|i: int|
        0 <= i < crate::strutil::spec_split(v, ';').len() && pattern_matches_ct(
            crate::strutil::spec_trim(#[trigger] crate::strutil::spec_split(v, ';')[i]),
            ct,
        )
}

/// As `cts_patterns_match`, over an optional value; a missing value accepts
/// nothing.
pub open spec fn cts_value_matches(cts: Option<Seq<char>>, ct: Seq<char>) -> bool {
    match cts {
        None => false,
        Some(v) => cts_patterns_match(v, ct),
    }
}

/// A catalogue entry provides capability `t` for content type `ct`: it has
/// that entry type, and one of the `;`-separated patterns in its
/// `content-types` value accepts `ct`.
pub open spec fn entry_matches_ct(
    e: CatalogueEntryView,
    t: CatalogueEntryType,
    ct: Seq<char>,
) -> bool {
    e.entry_type == t && cts_value_matches(assoc_get(e.values, "content-types"@), ct)
}

/// Some entry of the catalogue provides capability `t` for `ct`.
pub open spec fn some_entry_matches(
    m: Map<Seq<char>, CatalogueEntryView>,
    t: CatalogueEntryType,
    ct: Seq<char>,
) -> bool {
    exists|k: Seq<char>| #[trigger] m.contains_key(k) && entry_matches_ct(m[k], t, ct)
}

pub(crate) fn get_value<'a>(values: &'a Vec<(String, String)>, key: &str) -> (r: Option<&'a String>)
    ensures
        match r {
            Some(v) => assoc_get(values@.map_values(|p: (String, String)| (p.0@, p.1@)), key@)
                == Some(v@),
            None => assoc_get(values@.map_values(|p: (String, String)| (p.0@, p.1@)), key@)
                is None,
        },
{
    let ghost vs = values@.map_values(|p: (String, String)| (p.0@, p.1@));
    proof {
        assert(vs.skip(0) =~= vs);
    }
    let mut i: usize = 0;
    while i < values.len()
        invariant
            i <= values@.len(),
            vs == values@.map_values(|p: (String, String)| (p.0@, p.1@)),
            assoc_get(vs, key@) == assoc_get(vs.skip(i as int), key@),
        decreases values@.len() - i,
    {
        proof {
            assert(vs.skip(i as int)[0] == vs[i as int]);
            assert(vs.skip(i as int).drop_first() =~= vs.skip(i + 1));
        }
        if str_eq(values[i].0.as_str(), key) {
            return Some(&values[i].1);
        }
        i = i + 1;
    }
    proof {
        assert(vs.skip(vs.len() as int) =~= Seq::<(Seq<char>, Seq<char>)>::empty());
    }
    None
}

fn entry_matches(
    entry: &CatalogueEntry,
    t: CatalogueEntryType,
    content_type: &str,
    base: &Option<String>,
) -> (r: bool)
    requires
        match base {
            Some(b) => content_type_parses(content_type@) && b@ == content_type_base(
                content_type@,
            ),
            None => !content_type_parses(content_type@),
        },
    ensures
        r == entry_matches_ct(entry@, t, content_type@),
{
    if !(entry.entry_type == t) {
        return false;
    }
    let cts = match get_value(&entry.values, "content-types") {
        Some(v) => v,
        None => {
            return false;
        },
    };
    let parts = crate::strutil::split_str(cts.as_str(), ';');
    let ghost pieces = crate::strutil::spec_split(cts@, ';');
    proof {
        assert(parts@.map_values(|s: String| s@) == pieces);
    }
    let mut j: usize = 0;
    while j < parts.len()
        invariant
            j <= parts@.len(),
            parts@.map_values(|s: String| s@) == pieces,
            pieces == crate::strutil::spec_split(cts@, ';'),
            assoc_get(entry@.values, "content-types"@) == Some(cts@),
            entry@.entry_type == t,
            match base {
                Some(b) => content_type_parses(content_type@) && b@ == content_type_base(
                    content_type@,
                ),
                None => !content_type_parses(content_type@),
            },
            forall|jj: int|
                0 <= jj < j ==> !pattern_matches_ct(
                    crate::strutil::spec_trim(#[trigger] pieces[jj]),
                    content_type@,
                ),
        decreases parts@.len() - j,
    {
        let tp = crate::strutil::trim_str(parts[j].as_str());
        proof {
            assert(parts@[j as int]@ == pieces[j as int]);
        }
        match regex_match_str(tp.as_str(), content_type) {
            Some(true) => {
                proof {
                    assert(exists|i: int|
                        0 <= i < crate::strutil::spec_split(cts@, ';').len()
                            && pattern_matches_ct(
                            crate::strutil::spec_trim(
                                #[trigger] crate::strutil::spec_split(cts@, ';')[i],
                            ),
                            content_type@,
                        )) by {
                        assert((j as int) < crate::strutil::spec_split(cts@, ';').len()
                            && pattern_matches_ct(
                            crate::strutil::spec_trim(
                                crate::strutil::spec_split(cts@, ';')[j as int],
                            ),
                            content_type@,
                        ));
                    }
                    assert(cts_value_matches(Some(cts@), content_type@));
                    assert(entry_matches_ct(entry@, t, content_type@));
                }
                return true;
            },
            Some(false) => {
                match base {
                    Some(b) => {
                        match regex_match_str(tp.as_str(), b.as_str()) {
                            Some(true) => {
                                proof {
                                    assert(exists|i: int|
                                        0 <= i < crate::strutil::spec_split(cts@, ';').len()
                                            && pattern_matches_ct(
                                            crate::strutil::spec_trim(
                                                #[trigger] crate::strutil::spec_split(
                                                    cts@,
                                                    ';',
                                                )[i],
                                            ),
                                            content_type@,
                                        )) by {
                                        assert((j as int) < crate::strutil::spec_split(
                                            cts@,
                                            ';',
                                        ).len() && pattern_matches_ct(
                                            crate::strutil::spec_trim(
                                                crate::strutil::spec_split(cts@, ';')[j as int],
                                            ),
                                            content_type@,
                                        ));
                                    }
                                    assert(cts_value_matches(Some(cts@), content_type@));
                                    assert(entry_matches_ct(entry@, t, content_type@));
                                }
                                return true;
                            },
                            _ => {},
                        }
                    },
                    None => {},
                }
            },
            None => {},
        }
        j = j + 1;
    }
    false
}

fn find_entry_by_type(
    catalogue: &CatalogueRegistry,
    t: CatalogueEntryType,
    content_type: &str,
) -> (r: Option<CatalogueEntry>)
    requires
        catalogue.wf(),
    ensures
        match r {
            Some(e) => (exists|k: Seq<char>|
                #[trigger] catalogue@.contains_key(k) && catalogue@[k] == e@) && entry_matches_ct(
                e@,
                t,
                content_type@,
            ),
            None => !some_entry_matches(catalogue@, t, content_type@),
        },
{
    let base = base_type_of(content_type);
    let mut i: usize = 0;
    while i < catalogue.entries.len()
        invariant
            catalogue.wf(),
            i <= catalogue.entries@.len(),
            match base {
                Some(ref b) => content_type_parses(content_type@) && b@ == content_type_base(
                    content_type@,
                ),
                None => !content_type_parses(content_type@),
            },
            forall|j: int|
                0 <= j < i ==> !entry_matches_ct(
                    (#[trigger] catalogue.entries@[j]).1@,
                    t,
                    content_type@,
                ),
        decreases catalogue.entries@.len() - i,
    {
        if entry_matches(&catalogue.entries[i].1, t, content_type, &base) {
            let found = catalogue.entries[i].1.clone();
            proof {
                lemma_entries_map_value(catalogue.entries@, i as int);
                let ghost k = catalogue.entries@[i as int].0@;
                assert(catalogue@.contains_key(k) && catalogue@[k] == found@);
            }
            return Some(found);
        }
        i = i + 1;
    }
    proof {
        if some_entry_matches(catalogue@, t, content_type@) {
            let k = choose|k: Seq<char>|
                #[trigger] catalogue@.contains_key(k) && entry_matches_ct(
                    catalogue@[k],
                    t,
                    content_type@,
                );
            lemma_entries_map_contains(catalogue.entries@, k);
            let j = choose|j: int|
                0 <= j < catalogue.entries@.len() && (#[trigger] catalogue.entries@[j].0@) == k;
            lemma_entries_map_value(catalogue.entries@, j);
        }
    }
    None
}

/// Finds a content matcher for the given content type, or `None` when no
/// registered entry matches. When several entries match, which one is
/// returned is unspecified.
pub fn find_content_matcher(catalogue: &CatalogueRegistry, content_type: &str) -> (r: Option<
    CatalogueEntry,
>)
    requires
        catalogue.wf(),
    ensures
        match r {
            Some(e) => (exists|k: Seq<char>|
                #[trigger] catalogue@.contains_key(k) && catalogue@[k] == e@) && entry_matches_ct(
                e@,
                CatalogueEntryType::CONTENT_MATCHER,
                content_type@,
            ),
            None => !some_entry_matches(
                catalogue@,
                CatalogueEntryType::CONTENT_MATCHER,
                content_type@,
            ),
        },
{
    find_entry_by_type(catalogue, CatalogueEntryType::CONTENT_MATCHER, content_type)
}

/// Finds a content generator for the given content type, or `None` when no
/// registered entry matches. When several entries match, which one is
/// returned is unspecified.
pub fn find_content_generator(catalogue: &CatalogueRegistry, content_type: &str) -> (r: Option<
    CatalogueEntry,
>)
    requires
        catalogue.wf(),
    ensures
        match r {
            Some(e) => (exists|k: Seq<char>|
                #[trigger] catalogue@.contains_key(k) && catalogue@[k] == e@) && entry_matches_ct(
                e@,
                CatalogueEntryType::CONTENT_GENERATOR,
                content_type@,
            ),
            None => !some_entry_matches(
                catalogue@,
                CatalogueEntryType::CONTENT_GENERATOR,
                content_type@,
            ),
        },
{
    find_entry_by_type(catalogue, CatalogueEntryType::CONTENT_GENERATOR, content_type)
}

} // verus!
