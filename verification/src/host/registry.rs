//! The plugin registry's records and the hash checks behind installing and
//! verifying a plugin. Reading and writing the registry directory is left to
//! the caller.
use vstd::prelude::*;
use crate::errors::AsmError;
use crate::hash::{hex_lower, sha256_of, sha256_digest, hex_encode};
use crate::host::manifest::{PluginManifest, PluginMetadata, manifest_problem};
use crate::order::{lex_lt, lex_lt_from, lemma_lex_total, lemma_lex_transitive, lemma_lex_asymmetric, lemma_lex_irreflexive};
use vstd::string::StringSliceAdditionalSpecFns;
use vstd::utf8::encode_utf8;
use std::path::PathBuf;

verus! {

/// `std::path::PathBuf`, an owned file system path; opaque here.
#[verifier::external_type_specification]
#[verifier::external_body]
pub struct ExPathBuf(PathBuf);

/// Lowercase hexadecimal SHA-256 digest of some bytes.
pub open spec fn digest_hex(bytes: Seq<u8>) -> Seq<char> {
    hex_lower(sha256_of(bytes))
}

/// The hash recorded for a plugin binary: the lowercase hexadecimal SHA-256
/// digest of its bytes.
pub fn compute_plugin_hash(bytes: &[u8]) -> (h: String)
    ensures
        h@ == digest_hex(bytes@),
{
    let digest = sha256_digest(bytes);
    hex_encode(digest.as_slice())
}

/// What the registry records about an installed plugin.
#[derive(Debug, Clone, PartialEq, Eq)]
pub struct RegistryEntry {
    pub metadata: PluginMetadata,
    pub plugin_hash: Option<String>,
}

/// The bytes of an optional slice.
pub open spec fn bytes_view(b: Option<&[u8]>) -> Option<Seq<u8>> {
    match b {
        Some(x) => Some(x@),
        None => None,
    }
}

/// `entry` is what installing `manifest` records, given the manifest's
/// canonical JSON form and the plugin binary, if any: the manifest's
/// name, version, ABI version and capabilities, the digest of the JSON form,
/// and the digest of the binary.
pub open spec fn records_install(manifest: PluginManifest, manifest_json: Seq<u8>, plugin: Option<Seq<u8>>, entry: RegistryEntry) -> bool {
    &&& entry.metadata.name == manifest.name
    &&& entry.metadata.version == manifest.version
    &&& entry.metadata.abi_version == manifest.abi_version
    &&& entry.metadata.capabilities@ == manifest.capabilities@
    &&& entry.metadata.manifest_hash@ == digest_hex(manifest_json)
    &&& match plugin {
        Some(b) => entry.plugin_hash is Some && entry.plugin_hash->0@ == digest_hex(b),
        None => entry.plugin_hash is None,
    }
}

/// `refreshed` is `entry` with its metadata taken anew from `manifest` and
/// the digest of its canonical JSON form.
pub open spec fn manifest_refresh(entry: RegistryEntry, manifest: PluginManifest, manifest_json: Seq<u8>, refreshed: RegistryEntry) -> bool {
    &&& refreshed.plugin_hash == entry.plugin_hash
    &&& refreshed.metadata.name == manifest.name
    &&& refreshed.metadata.version == manifest.version
    &&& refreshed.metadata.abi_version == manifest.abi_version
    &&& refreshed.metadata.capabilities@ == manifest.capabilities@
    &&& refreshed.metadata.manifest_hash@ == digest_hex(manifest_json)
}

/// Verifying an installed plugin whose files are unchanged succeeds: the
/// installed binary passes the binary check whenever a hash was recorded,
/// the installed manifest passes the manifest check, and the entry the
/// manifest check gives back records the same installation.
pub proof fn lemma_install_then_verify(
    manifest: PluginManifest,
    manifest_json: Seq<u8>,
    plugin: Option<Seq<u8>>,
    entry: RegistryEntry,
    refreshed: RegistryEntry,
)
    requires
        records_install(manifest, manifest_json, plugin, entry),
    ensures
        entry.plugin_hash matches Some(h) ==> (plugin matches Some(b) && digest_hex(b) == h@),
        digest_hex(manifest_json) == entry.metadata.manifest_hash@,
        manifest_refresh(entry, manifest, manifest_json, refreshed) ==> records_install(manifest, manifest_json, plugin, refreshed),
{
}

/// A registry of installed plugins, one directory per plugin under `root`.
#[derive(Debug)]
pub struct PluginRegistry {
    root: PathBuf,
}

impl PluginRegistry {
    pub closed spec fn spec_root(&self) -> PathBuf {
        self.root
    }

    /// A registry kept under `root`.
    pub fn new(root: PathBuf) -> (r: PluginRegistry)
        ensures
            r.spec_root() == root,
    {
        PluginRegistry { root }
    }

    /// The directory of the registry.
    pub fn root(&self) -> (r: &PathBuf)
        ensures
            *r == self.spec_root(),
    {
        &self.root
    }

    /// The entry recorded when installing a plugin: the manifest must be
    /// valid; its metadata carries the hash of the manifest's canonical JSON
    /// form, and the binary's hash is recorded when there is a binary.
    pub fn install_entry(manifest: &PluginManifest, manifest_json: &[u8], plugin_bytes: Option<&[u8]>) -> (r: Result<RegistryEntry, AsmError>)
        ensures
            match manifest_problem(*manifest) {
                Some(e) => r == Err::<RegistryEntry, AsmError>(e),
                None => r matches Ok(entry) && records_install(*manifest, manifest_json@, bytes_view(plugin_bytes), entry),
            },
    {
        match manifest.validate() {
            Ok(()) => {},
            Err(e) => return Err(e),
        }
        let manifest_hash = compute_plugin_hash(manifest_json);
        let metadata = PluginMetadata::from_manifest(manifest, manifest_hash);
        let plugin_hash = match plugin_bytes {
            Some(b) => Some(compute_plugin_hash(b)),
            None => None,
        };
        Ok(RegistryEntry { metadata, plugin_hash })
    }

    /// Checks a stored plugin binary against the hash its entry records.
    pub fn check_plugin_hash(expected: &String, plugin_bytes: &[u8]) -> (r: Result<(), AsmError>)
        ensures
            r is Ok <==> digest_hex(plugin_bytes@) == expected@,
            match r {
                Ok(_) => true,
                Err(e) => e matches AsmError::RegistryHash { expected: x, actual: a } && x == *expected
                    && a@ == digest_hex(plugin_bytes@),
            },
    {
        let actual = compute_plugin_hash(plugin_bytes);
        if actual != *expected {
            return Err(AsmError::RegistryHash { expected: expected.clone(), actual });
        }
        Ok(())
    }

    /// Checks a stored manifest against the hash its entry records and, when
    /// they agree, refreshes the entry's metadata from the manifest.
    pub fn check_manifest_hash(entry: RegistryEntry, manifest: &PluginManifest, manifest_json: &[u8]) -> (r: Result<RegistryEntry, AsmError>)
        ensures
            r is Ok <==> digest_hex(manifest_json@) == entry.metadata.manifest_hash@,
            match r {
                Ok(e) => manifest_refresh(entry, *manifest, manifest_json@, e),
                Err(e) => e matches AsmError::RegistryManifestHash { expected: x, actual: a }
                    && x == entry.metadata.manifest_hash && a@ == digest_hex(manifest_json@),
            },
    {
        let manifest_hash = compute_plugin_hash(manifest_json);
        if manifest_hash != entry.metadata.manifest_hash {
            return Err(AsmError::RegistryManifestHash { expected: entry.metadata.manifest_hash.clone(), actual: manifest_hash });
        }
        let mut entry = entry;
        entry.metadata = PluginMetadata::from_manifest(manifest, manifest_hash);
        Ok(entry)
    }
}


/// Bytes as unsigned numbers, for comparing them in lexicographic order.
pub open spec fn widen(s: Seq<u8>) -> Seq<u64> {
    s.map_values(|b: u8| b as u64)
}

/// The sort key of an entry: the UTF-8 bytes of its plugin name.
pub open spec fn name_key(e: RegistryEntry) -> Seq<u64> {
    widen(encode_utf8(e.metadata.name@))
}

/// Entries in ascending byte-wise order of their names.
pub open spec fn by_name(s: Seq<RegistryEntry>) -> bool {
    forall|i: int, j: int| 0 <= i < j < s.len() ==> !lex_lt(name_key(#[trigger] s[j]), name_key(#[trigger] s[i]))
}

/// Whether an entry has the sort key `k`.
pub open spec fn named(k: Seq<u64>) -> spec_fn(RegistryEntry) -> bool {
    |e: RegistryEntry| name_key(e) == k
}

/// The entries of each name come in the same order in both lists.
pub open spec fn same_name_order(a: Seq<RegistryEntry>, b: Seq<RegistryEntry>) -> bool {
    forall|k: Seq<u64>| #[trigger] a.filter(named(k)) == b.filter(named(k))
}

/// Whether name `a` comes before name `b` byte-wise.
fn name_before(a: &String, b: &String) -> (r: bool)
    ensures
        r == lex_lt(widen(encode_utf8(a@)), widen(encode_utf8(b@))),
{
    let x = a.as_str().as_bytes();
    let y = b.as_str().as_bytes();
    let ghost wx = widen(x@);
    let ghost wy = widen(y@);
    proof {
        assert(x@ == encode_utf8(a@));
        assert(y@ == encode_utf8(b@));
    }
    let mut k: usize = 0;
    while k < x.len() && k < y.len()
        invariant
            k <= x@.len(),
            k <= y@.len(),
            wx == widen(x@),
            wy == widen(y@),
            wx == widen(encode_utf8(a@)),
            wy == widen(encode_utf8(b@)),
            lex_lt(wx, wy) == lex_lt_from(wx, wy, k as int),
        decreases x@.len() - k,
    {
        proof {
            assert(wx[k as int] == x@[k as int] as u64);
            assert(wy[k as int] == y@[k as int] as u64);
        }
        if x[k] < y[k] {
            return true;
        }
        if x[k] > y[k] {
            return false;
        }
        k = k + 1;
    }
    k < y.len()
}

/// `a` does not come after `c` when `a` does not come after `b` and `b` does
/// not come after `c`.
proof fn lemma_not_after_transitive(a: Seq<u64>, b: Seq<u64>, c: Seq<u64>)
    requires
        !lex_lt(b, a),
        !lex_lt(c, b),
    ensures
        !lex_lt(c, a),
{
    if lex_lt(c, a) {
        if a != b {
            lemma_lex_total(a, b, 0);
            if b != c {
                lemma_lex_total(b, c, 0);
                lemma_lex_transitive(a, b, c, 0);
                lemma_lex_asymmetric(a, c, 0);
            } else {
                lemma_lex_asymmetric(a, c, 0);
            }
        } else {
            if b != c {
                lemma_lex_total(b, c, 0);
                lemma_lex_asymmetric(a, c, 0);
            } else {
                lemma_lex_irreflexive(a, 0);
            }
        }
    }
}

/// Sorts registry entries by plugin name, keeping entries of the same name
/// in their given order.
pub fn sort_entries_by_name(entries: Vec<RegistryEntry>) -> (out: Vec<RegistryEntry>)
    ensures
        by_name(out@),
        same_name_order(out@, entries@),
{
    let ghost input = entries@;
    let mut rest = entries;
    let mut sorted: Vec<RegistryEntry> = Vec::new();
    proof {
        assert forall|k: Seq<u64>| #[trigger] sorted@.filter(named(k)) == input.skip(input.len() as int).filter(named(k)) by {
            assert(input.skip(input.len() as int) =~= Seq::<RegistryEntry>::empty());
            assert(sorted@ =~= Seq::<RegistryEntry>::empty());
            reveal(Seq::filter);
        }
    }
    while rest.len() > 0
        invariant
            rest@.len() <= input.len(),
            rest@ == input.take(rest@.len() as int),
            by_name(sorted@),
            forall|k: Seq<u64>| #[trigger] sorted@.filter(named(k)) == input.skip(rest@.len() as int).filter(named(k)),
        decreases rest@.len(),
    {
        let ghost m = rest@.len() as int;
        let x = match rest.pop() {
            Some(e) => e,
            None => return sorted,
        };
        proof {
            assert(x == input[m - 1]);
            assert(rest@ =~= input.take(m - 1));
        }
        let mut pos: usize = 0;
        while pos < sorted.len() && name_before(&sorted[pos].metadata.name, &x.metadata.name)
            invariant
                pos <= sorted@.len(),
                forall|i: int| 0 <= i < pos ==> lex_lt(name_key(#[trigger] sorted@[i]), name_key(x)),
            decreases sorted@.len() - pos,
        {
            pos = pos + 1;
        }
        let ghost old_sorted = sorted@;
        proof {
            assert forall|i: int| pos <= i < old_sorted.len() implies !lex_lt(name_key(#[trigger] old_sorted[i]), name_key(x)) by {
                assert(!lex_lt(name_key(old_sorted[pos as int]), name_key(x)));
                if i > pos {
                    assert(!lex_lt(name_key(old_sorted[i]), name_key(old_sorted[pos as int])));
                    lemma_not_after_transitive(name_key(x), name_key(old_sorted[pos as int]), name_key(old_sorted[i]));
                }
            }
        }
        sorted.insert(pos, x);
        proof {
            let ns = sorted@;
            assert(ns =~= old_sorted.insert(pos as int, x));
            assert forall|i: int, j: int| 0 <= i < j < ns.len() implies !lex_lt(name_key(#[trigger] ns[j]), name_key(#[trigger] ns[i])) by {
                if j < pos {
                    assert(ns[i] == old_sorted[i] && ns[j] == old_sorted[j]);
                } else if j == pos {
                    assert(ns[i] == old_sorted[i]);
                    lemma_lex_asymmetric(name_key(old_sorted[i]), name_key(x), 0);
                } else if i < pos {
                    assert(ns[i] == old_sorted[i] && ns[j] == old_sorted[j - 1]);
                } else if i == pos {
                    assert(ns[j] == old_sorted[j - 1]);
                } else {
                    assert(ns[i] == old_sorted[i - 1] && ns[j] == old_sorted[j - 1]);
                }
            }
            let front = old_sorted.take(pos as int);
            let back = old_sorted.skip(pos as int);
            assert(old_sorted =~= front + back);
            assert(ns =~= front + (seq![x] + back));
            assert(input.skip(m - 1) =~= seq![x] + input.skip(m));
            assert forall|k: Seq<u64>| #[trigger] ns.filter(named(k)) == input.skip(m - 1).filter(named(k)) by {
                Seq::filter_distributes_over_add(front, seq![x] + back, named(k));
                Seq::filter_distributes_over_add(front, back, named(k));
                back.lemma_filter_prepend(x, named(k));
                input.skip(m).lemma_filter_prepend(x, named(k));
                if name_key(x) == k {
                    assert forall|i: int| 0 <= i < front.len() implies !named(k)(#[trigger] front[i]) by {
                        assert(front[i] == old_sorted[i]);
                        lemma_lex_irreflexive(k, 0);
                    }
                    front.lemma_all_neg_filter_empty(named(k));
                    assert(front.filter(named(k)) =~= Seq::<RegistryEntry>::empty());
                    assert(ns.filter(named(k)) =~= seq![x] + back.filter(named(k)));
                    assert(old_sorted.filter(named(k)) =~= back.filter(named(k)));
                } else {
                    assert(ns.filter(named(k)) =~= front.filter(named(k)) + back.filter(named(k)));
                }
            }
        }
    }
    proof {
        assert(input.skip(0) =~= input);
    }
    sorted
}

} // verus!
