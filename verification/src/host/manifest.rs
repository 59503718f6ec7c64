//! Plugin manifests: validation and the capability mask they declare.
use vstd::prelude::*;
use crate::errors::AsmError;
use crate::host::abi::Capability;

verus! {

/// Characters with the Unicode `White_Space` property.
pub open spec fn is_white_space(c: char) -> bool {
    let v = c as int;
    ||| 0x09 <= v <= 0x0D
    ||| v == 0x20
    ||| v == 0x85
    ||| v == 0xA0
    ||| v == 0x1680
    ||| 0x2000 <= v <= 0x200A
    ||| v == 0x2028
    ||| v == 0x2029
    ||| v == 0x202F
    ||| v == 0x205F
    ||| v == 0x3000
}

/// The characters without their leading whitespace.
pub open spec fn trim_start_chars(s: Seq<char>) -> Seq<char>
    decreases s.len(),
{
    if s.len() > 0 && is_white_space(s[0]) {
        trim_start_chars(s.drop_first())
    } else {
        s
    }
}

/// The characters without their trailing whitespace.
pub open spec fn trim_end_chars(s: Seq<char>) -> Seq<char>
    decreases s.len(),
{
    if s.len() > 0 && is_white_space(s.last()) {
        trim_end_chars(s.drop_last())
    } else {
        s
    }
}

/// The characters without leading and trailing whitespace.
pub open spec fn trim_chars(s: Seq<char>) -> Seq<char> {
    trim_end_chars(trim_start_chars(s))
}

/// `str::trim`: the string without its leading and trailing characters that
/// have the Unicode `White_Space` property.
#[verifier::external_body]
pub(crate) fn trim_str(s: &str) -> (t: &str)
    ensures
        t@ == trim_chars(s@),
{
    s.trim()
}

/// A plugin's manifest as stored next to the plugin.
#[derive(Debug, Clone, PartialEq, Eq)]
pub struct PluginManifest {
    pub name: String,
    pub version: String,
    pub abi_version: u32,
    pub capabilities: Vec<String>,
    pub minimum_workspace: Option<String>,
    pub license: String,
    pub description: Option<String>,
}

/// The capability a manifest entry names, if it names one.
pub open spec fn capability_named(name: Seq<char>) -> Option<Capability> {
    if name == "graph"@ {
        Some(Capability::Graph)
    } else if name == "code"@ {
        Some(Capability::Code)
    } else if name == "spectrum"@ {
        Some(Capability::Spectrum)
    } else if name == "gauge"@ {
        Some(Capability::Gauge)
    } else if name == "interact"@ {
        Some(Capability::Interact)
    } else if name == "rg"@ {
        Some(Capability::Rg)
    } else if name == "exp"@ {
        Some(Capability::Exp)
    } else {
        None
    }
}

/// The union of the bits of the named capabilities; unknown names add nothing.
pub open spec fn capability_mask(names: Seq<String>) -> u32
    decreases names.len(),
{
    if names.len() == 0 {
        0
    } else {
        capability_mask(names.drop_last()) | match capability_named(names.last()@) {
            Some(c) => c.spec_flag(),
            None => 0,
        }
    }
}

/// A capability list sets exactly the bits of its names: one name sets the
/// bit of the capability of that name (graph 1, code 2, spectrum 4, gauge 8,
/// interact 16, rg 32, exp 64) and any other name sets none; appending a name
/// adds its bit to the mask of the list.
pub proof fn lemma_capability_bits(names: Seq<String>, name: String)
    ensures
        name@ == "graph"@ ==> capability_mask(seq![name]) == 1,
        name@ == "code"@ ==> capability_mask(seq![name]) == 2,
        name@ == "spectrum"@ ==> capability_mask(seq![name]) == 4,
        name@ == "gauge"@ ==> capability_mask(seq![name]) == 8,
        name@ == "interact"@ ==> capability_mask(seq![name]) == 16,
        name@ == "rg"@ ==> capability_mask(seq![name]) == 32,
        name@ == "exp"@ ==> capability_mask(seq![name]) == 64,
        name@ != "graph"@ && name@ != "code"@ && name@ != "spectrum"@ && name@ != "gauge"@ && name@ != "interact"@ && name@ != "rg"@ && name@ != "exp"@ ==> capability_mask(seq![name]) == 0,
        capability_mask(names.push(name)) == capability_mask(names) | capability_mask(seq![name]),
{
    reveal_strlit("graph");
    reveal_strlit("code");
    reveal_strlit("spectrum");
    reveal_strlit("gauge");
    reveal_strlit("interact");
    reveal_strlit("rg");
    reveal_strlit("exp");
    assert("code"@[0] != "graph"@[0]);
    assert("code"@ != "graph"@);
    assert("spectrum"@[0] != "graph"@[0]);
    assert("spectrum"@ != "graph"@);
    assert("spectrum"@[0] != "code"@[0]);
    assert("spectrum"@ != "code"@);
    assert("gauge"@[1] != "graph"@[1]);
    assert("gauge"@ != "graph"@);
    assert("gauge"@[0] != "code"@[0]);
    assert("gauge"@ != "code"@);
    assert("gauge"@[0] != "spectrum"@[0]);
    assert("gauge"@ != "spectrum"@);
    assert("interact"@[0] != "graph"@[0]);
    assert("interact"@ != "graph"@);
    assert("interact"@[0] != "code"@[0]);
    assert("interact"@ != "code"@);
    assert("interact"@[0] != "spectrum"@[0]);
    assert("interact"@ != "spectrum"@);
    assert("interact"@[0] != "gauge"@[0]);
    assert("interact"@ != "gauge"@);
    assert("rg"@[0] != "graph"@[0]);
    assert("rg"@ != "graph"@);
    assert("rg"@[0] != "code"@[0]);
    assert("rg"@ != "code"@);
    assert("rg"@[0] != "spectrum"@[0]);
    assert("rg"@ != "spectrum"@);
    assert("rg"@[0] != "gauge"@[0]);
    assert("rg"@ != "gauge"@);
    assert("rg"@[0] != "interact"@[0]);
    assert("rg"@ != "interact"@);
    assert("exp"@[0] != "graph"@[0]);
    assert("exp"@ != "graph"@);
    assert("exp"@[0] != "code"@[0]);
    assert("exp"@ != "code"@);
    assert("exp"@[0] != "spectrum"@[0]);
    assert("exp"@ != "spectrum"@);
    assert("exp"@[0] != "gauge"@[0]);
    assert("exp"@ != "gauge"@);
    assert("exp"@[0] != "interact"@[0]);
    assert("exp"@ != "interact"@);
    assert("exp"@[0] != "rg"@[0]);
    assert("exp"@ != "rg"@);
    let one = seq![name];
    assert(one.drop_last() =~= Seq::<String>::empty());
    assert(one.last() == name);
    assert(names.push(name).drop_last() =~= names);
    let b = match capability_named(name@) {
        Some(c) => c.spec_flag(),
        None => 0u32,
    };
    assert(capability_mask(one.drop_last()) == 0u32);
    assert(capability_mask(one) == 0u32 | b);
    assert(0u32 | b == b) by (bit_vector);
}

/// The first problem of a manifest: a blank name, version or license, in that order.
pub open spec fn manifest_problem(m: PluginManifest) -> Option<AsmError> {
    if trim_chars(m.name@).len() == 0 {
        Some(AsmError::ManifestName)
    } else if trim_chars(m.version@).len() == 0 {
        Some(AsmError::ManifestVersion)
    } else if trim_chars(m.license@).len() == 0 {
        Some(AsmError::ManifestLicense)
    } else {
        None
    }
}

/// The capability named by a manifest entry.
fn capability_from_name(name: &String) -> (c: Option<Capability>)
    ensures
        c == capability_named(name@),
{
    if *name == String::from_str("graph") {
        Some(Capability::Graph)
    } else if *name == String::from_str("code") {
        Some(Capability::Code)
    } else if *name == String::from_str("spectrum") {
        Some(Capability::Spectrum)
    } else if *name == String::from_str("gauge") {
        Some(Capability::Gauge)
    } else if *name == String::from_str("interact") {
        Some(Capability::Interact)
    } else if *name == String::from_str("rg") {
        Some(Capability::Rg)
    } else if *name == String::from_str("exp") {
        Some(Capability::Exp)
    } else {
        None
    }
}

impl PluginManifest {
    /// Checks that name, version and license are not blank.
    pub fn validate(&self) -> (r: Result<(), AsmError>)
        ensures
            match manifest_problem(*self) {
                Some(e) => r == Err::<(), AsmError>(e),
                None => r is Ok,
            },
    {
        if trim_str(self.name.as_str()).is_empty() {
            return Err(AsmError::ManifestName);
        }
        if trim_str(self.version.as_str()).is_empty() {
            return Err(AsmError::ManifestVersion);
        }
        if trim_str(self.license.as_str()).is_empty() {
            return Err(AsmError::ManifestLicense);
        }
        Ok(())
    }

    /// The capability mask declared by the manifest.
    pub fn capability_flags(&self) -> (mask: u32)
        ensures
            mask == capability_mask(self.capabilities@),
    {
        let mut mask: u32 = 0;
        let mut i: usize = 0;
        while i < self.capabilities.len()
            invariant
                i <= self.capabilities@.len(),
                mask == capability_mask(self.capabilities@.take(i as int)),
            decreases self.capabilities@.len() - i,
        {
            let flag: u32 = match capability_from_name(&self.capabilities[i]) {
                Some(c) => c.flag(),
                None => 0,
            };
            proof {
                assert(self.capabilities@.take(i + 1).drop_last() =~= self.capabilities@.take(i as int));
            }
            mask = mask | flag;
            i = i + 1;
        }
        proof {
            assert(self.capabilities@.take(self.capabilities@.len() as int) =~= self.capabilities@);
        }
        mask
    }
}

/// The facts about an installed plugin that the registry records.
#[derive(Debug, Clone, PartialEq, Eq)]
pub struct PluginMetadata {
    pub name: String,
    pub version: String,
    pub abi_version: u32,
    pub capabilities: Vec<String>,
    pub manifest_hash: String,
}

/// A copy of a list of strings.
fn copy_strings(v: &Vec<String>) -> (out: Vec<String>)
    ensures
        out@ == v@,
{
    let mut out: Vec<String> = Vec::new();
    let mut i: usize = 0;
    while i < v.len()
        invariant
            i <= v@.len(),
            out@ == v@.take(i as int),
        decreases v@.len() - i,
    {
        out.push(v[i].clone());
        proof {
            assert(v@.take(i + 1) =~= v@.take(i as int).push(v@[i as int]));
        }
        i = i + 1;
    }
    proof {
        assert(v@.take(v@.len() as int) =~= v@);
    }
    out
}

impl PluginMetadata {
    /// The metadata of a manifest, with the hash of its canonical form.
    pub fn from_manifest(manifest: &PluginManifest, manifest_hash: String) -> (m: PluginMetadata)
        ensures
            m == (PluginMetadata {
                name: manifest.name,
                version: manifest.version,
                abi_version: manifest.abi_version,
                capabilities: m.capabilities,
                manifest_hash,
            }),
            m.capabilities@ == manifest.capabilities@,
    {
        PluginMetadata {
            name: manifest.name.clone(),
            version: manifest.version.clone(),
            abi_version: manifest.abi_version,
            capabilities: copy_strings(&manifest.capabilities),
            manifest_hash,
        }
    }
}

} // verus!
