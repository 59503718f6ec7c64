use asm_engine::gauge;
use asm_engine::interaction::{
    default_basis, default_beta_window, default_bins, default_max_iters, default_model_variant,
    default_steps, effective_steps, seed_from_hash, CiMethod, KernelMode, MeasureOpts,
    ObservableKind, PrepTemplate,
};

#[test]
fn interaction_seed_xors_eight_digit_chunks() {
    assert_eq!(seed_from_hash(""), 0);
    assert_eq!(seed_from_hash("ff"), 255);
    assert_eq!(seed_from_hash("00000001"), 1);
    assert_eq!(seed_from_hash("0000000100000002"), 3);
    assert_eq!(seed_from_hash("abcdef0123"), 0xabcdef01 ^ 0x23);
    assert_eq!(seed_from_hash("ABCDEF01"), 0xabcdef01);
    assert_eq!(seed_from_hash("zz"), 0);
    assert_eq!(seed_from_hash("g1"), 1);
}

#[test]
fn gauge_seed_reads_sixteen_hex_digits() {
    assert_eq!(gauge::seed_from_hash(""), 0);
    assert_eq!(gauge::seed_from_hash("   "), 0);
    assert_eq!(gauge::seed_from_hash("  abc \n"), 0xabc);
    assert_eq!(gauge::seed_from_hash("0123456789abcdef0123"), 0x0123_4567_89ab_cdef);
    assert_eq!(gauge::seed_from_hash("+ff"), 255);
    assert_eq!(gauge::seed_from_hash("xyz"), 0);
    assert_eq!(gauge::seed_from_hash("+"), 0);
}

#[test]
fn kernel_steps_per_mode() {
    assert_eq!(KernelMode::default(), KernelMode::Light);
    assert_eq!(effective_steps(KernelMode::Light, 500), 128);
    assert_eq!(effective_steps(KernelMode::Light, 100), 100);
    assert_eq!(effective_steps(KernelMode::Fast, 500), 64);
    assert_eq!(effective_steps(KernelMode::Full, 500), 500);
    assert_eq!(default_steps(), 256);
}

#[test]
fn option_defaults() {
    assert_eq!(default_max_iters(), 64);
    assert_eq!(default_model_variant(), "default");
    assert_eq!(default_basis(), "modes");
    assert_eq!(default_beta_window(), 3);
    assert_eq!(default_bins(), 8);
    let opts = MeasureOpts::default();
    assert_eq!(opts.observables, vec![ObservableKind::CrossSection, ObservableKind::Amplitude]);
    assert_eq!(opts.ci_method, CiMethod::Bootstrap);
    assert_eq!(opts.bins, 8);
    assert_eq!(ObservableKind::default(), ObservableKind::CrossSection);
    assert_eq!(CiMethod::default(), CiMethod::Bootstrap);
    assert_eq!(PrepTemplate::TwoBody.participant_count(), 2);
    assert_eq!(PrepTemplate::ThreeBody.participant_count(), 3);
}

#[test]
fn gauge_options() {
    let rep = gauge::RepOpts::default();
    assert_eq!(rep.basis, "modes");
    assert_eq!(rep.max_generators, 3);
    assert_eq!(rep.seed, None);
    assert_eq!(gauge::default_generator_limit(), 3);
    assert_eq!(gauge::default_seed(), 0);
    assert_eq!(gauge::default_basis(), "modes");
    let kept = gauge::apply_seed_override(rep.clone(), 0);
    assert_eq!(kept.seed, None);
    let set = gauge::apply_seed_override(rep, 17);
    assert_eq!(set.seed, Some(17));
    assert_eq!(gauge::generator_count(0, 4, 9, 9), 0);
    assert_eq!(gauge::generator_count(10, 4, 7, 9), 2 + 3 + 1);
    assert_eq!(gauge::generator_count(2, 4, 7, 9), 2);
    assert_eq!(gauge::generator_count(10, 0, 5, 5), 1 + 2 + 1);
}
