use asm_engine::errors::AsmError;
use asm_engine::host::abi::{verify_abi_compat, AsmStatus, Capability, ASM_ABI_VERSION};
use asm_engine::host::manifest::{PluginManifest, PluginMetadata};
use asm_engine::host::registry::{compute_plugin_hash, PluginRegistry};
use asm_engine::host::sandbox::{SandboxCaps, SandboxDecision, SandboxEvent, SandboxGuard};

#[test]
fn rejects_mismatched_abi() {
    let err = verify_abi_compat(ASM_ABI_VERSION + 1).expect_err("expected mismatch");
    assert_eq!(err.code(), "asm_host.abi_mismatch");
    assert_eq!(err, AsmError::AbiMismatch { plugin: 2, host: 1 });
}

#[test]
fn accepts_matching_abi() {
    verify_abi_compat(ASM_ABI_VERSION).expect("compatible ABI");
}

#[test]
fn detects_cpu_violation() {
    let caps = SandboxCaps { cpu_time_seconds: 2, max_rss_mb: 512, tmpdir_mb: 128, wall_seconds: 5 };
    let mut guard = SandboxGuard::new(caps);
    let decision = guard.observe(SandboxEvent::CpuSeconds(3));
    match decision {
        SandboxDecision::Exceeded { resource, .. } => assert_eq!(resource, "cpu"),
        other => panic!("unexpected decision: {other:?}"),
    }
    assert!(guard.ensure_within().is_err());
}

#[test]
fn stays_within_limits() {
    let caps = SandboxCaps { cpu_time_seconds: 5, max_rss_mb: 512, tmpdir_mb: 128, wall_seconds: 5 };
    let mut guard = SandboxGuard::new(caps);
    assert!(matches!(guard.observe(SandboxEvent::CpuSeconds(1)), SandboxDecision::Continue));
    assert!(guard.ensure_within().is_ok());
}

#[test]
fn sandbox_reports_each_resource() {
    let caps = SandboxCaps::relaxed();
    assert_eq!(caps, SandboxCaps { cpu_time_seconds: 600, max_rss_mb: 4096, tmpdir_mb: 1024, wall_seconds: 900 });
    let mut guard = SandboxGuard::new(caps);
    assert_eq!(guard.caps(), caps);
    assert_eq!(*guard.last_decision(), SandboxDecision::Continue);
    assert_eq!(
        guard.observe(SandboxEvent::MemoryMb(5000)),
        SandboxDecision::Exceeded { resource: "memory", limit: 4096, observed: 5000 }
    );
    let err = guard.ensure_within().unwrap_err();
    assert_eq!(err.code(), "asm_host.sandbox_limit");
    assert_eq!(err, AsmError::SandboxLimit { resource: "memory", limit: 4096, observed: 5000 });
    assert_eq!(guard.observe(SandboxEvent::TmpUsageMb(1024)), SandboxDecision::Continue);
    assert!(guard.ensure_within().is_ok());
    assert_eq!(
        guard.observe(SandboxEvent::TmpUsageMb(1025)),
        SandboxDecision::Exceeded { resource: "tmp", limit: 1024, observed: 1025 }
    );
    assert_eq!(
        guard.observe(SandboxEvent::WallSeconds(901)),
        SandboxDecision::Exceeded { resource: "wall", limit: 900, observed: 901 }
    );
    let _ = guard.elapsed();
}

#[test]
fn status_and_capability_bits() {
    assert!(AsmStatus::ok().is_ok());
    assert!(!AsmStatus { code: 3, message_len: 4 }.is_ok());
    let flags: Vec<u32> = [
        Capability::Graph,
        Capability::Code,
        Capability::Spectrum,
        Capability::Gauge,
        Capability::Interact,
        Capability::Rg,
        Capability::Exp,
    ]
    .iter()
    .map(|c| c.flag())
    .collect();
    assert_eq!(flags, vec![1, 2, 4, 8, 16, 32, 64]);
}

fn demo_manifest() -> PluginManifest {
    PluginManifest {
        name: "graph_smallworld".into(),
        version: "0.1.0".into(),
        abi_version: ASM_ABI_VERSION,
        capabilities: vec!["graph".into(), "exp".into(), "telepathy".into()],
        minimum_workspace: Some("0.16".into()),
        license: "MIT".into(),
        description: Some("demo plugin".into()),
    }
}

#[test]
fn manifest_validation_and_flags() {
    let manifest = demo_manifest();
    manifest.validate().expect("valid manifest");
    assert_eq!(manifest.capability_flags(), 65);
    let mut blank = demo_manifest();
    blank.name = " \t\n".into();
    assert_eq!(blank.validate(), Err(AsmError::ManifestName));
    assert_eq!(AsmError::ManifestName.code(), "asm_host.manifest_name");
    let mut no_version = demo_manifest();
    no_version.version = "\u{3000}".into();
    assert_eq!(no_version.validate(), Err(AsmError::ManifestVersion));
    let mut no_license = demo_manifest();
    no_license.license = String::new();
    assert_eq!(no_license.validate(), Err(AsmError::ManifestLicense));
    let meta = PluginMetadata::from_manifest(&manifest, "abc".into());
    assert_eq!(meta.name, "graph_smallworld");
    assert_eq!(meta.capabilities, manifest.capabilities);
    assert_eq!(meta.manifest_hash, "abc");
}

#[test]
fn plugin_hash_is_sha256_hex() {
    assert_eq!(
        compute_plugin_hash(b"abc"),
        "ba7816bf8f01cfea414140de5dae2223b00361a396177a9cb410ff61f20015ad"
    );
    assert_eq!(
        compute_plugin_hash(b""),
        "e3b0c44298fc1c149afbf4c8996fb92427ae41e4649b934ca495991b7852b855"
    );
}

#[test]
fn registry_entries_record_and_check_hashes() {
    let manifest = demo_manifest();
    let json = b"{\"name\":\"graph_smallworld\"}";
    let entry = PluginRegistry::install_entry(&manifest, json, Some(b"abc")).unwrap();
    assert_eq!(entry.metadata.manifest_hash, compute_plugin_hash(json));
    assert_eq!(
        entry.plugin_hash.as_deref(),
        Some("ba7816bf8f01cfea414140de5dae2223b00361a396177a9cb410ff61f20015ad")
    );
    let expected = entry.plugin_hash.clone().unwrap();
    assert!(PluginRegistry::check_plugin_hash(&expected, b"abc").is_ok());
    let err = PluginRegistry::check_plugin_hash(&expected, b"abd").unwrap_err();
    assert_eq!(err.code(), "asm_host.registry_hash");
    let checked = PluginRegistry::check_manifest_hash(entry.clone(), &manifest, json).unwrap();
    assert_eq!(checked, entry);
    let err = PluginRegistry::check_manifest_hash(entry, &manifest, b"{}").unwrap_err();
    assert_eq!(err.code(), "asm_host.registry_manifest_hash");
    let mut invalid = demo_manifest();
    invalid.license = "  ".into();
    assert_eq!(PluginRegistry::install_entry(&invalid, json, None), Err(AsmError::ManifestLicense));
    let no_binary = PluginRegistry::install_entry(&manifest, json, None).unwrap();
    assert_eq!(no_binary.plugin_hash, None);
    let registry = PluginRegistry::new(std::path::PathBuf::from("/tmp/registry"));
    assert_eq!(registry.root(), &std::path::PathBuf::from("/tmp/registry"));
}
