//! Option types and seeding rules of the interaction pipeline: kernel modes,
//! observables, preparation templates and hash-derived seeds.
use vstd::prelude::*;
use crate::errors::AsmError;
use vstd::string::StringSliceAdditionalSpecFns;

verus! {

/// The value of a hexadecimal digit; other bytes count as zero.
pub open spec fn hex_value(b: u8) -> u64 {
    if 48 <= b <= 57 {
        (b - 48) as u64
    } else if 97 <= b <= 102 {
        (b - 87) as u64
    } else if 65 <= b <= 70 {
        (b - 55) as u64
    } else {
        0
    }
}

/// The number a string of hexadecimal digits denotes.
pub open spec fn hex_number(s: Seq<u8>) -> nat
    decreases s.len(),
{
    if s.len() == 0 {
        0
    } else {
        hex_number(s.drop_last()) * 16 + hex_value(s.last()) as nat
    }
}

/// The length of the first chunk of at most eight bytes.
pub open spec fn first_chunk_len(len: nat) -> nat {
    if len < 8 {
        len
    } else {
        8
    }
}

/// The bytes cut into chunks of eight (the last one shorter), each read as a
/// hexadecimal number, all combined by exclusive or.
pub open spec fn xor_of_chunks(s: Seq<u8>) -> u64
    decreases s.len(),
{
    if s.len() == 0 {
        0
    } else {
        let k = first_chunk_len(s.len()) as int;
        (hex_number(s.take(k)) as u64) ^ xor_of_chunks(s.skip(k))
    }
}

pub proof fn lemma_hex_number_bound(s: Seq<u8>)
    ensures
        hex_number(s) < pow16(s.len()),
    decreases s.len(),
{
    if s.len() > 0 {
        lemma_hex_number_bound(s.drop_last());
        assert(hex_value(s.last()) < 16);
        assert(pow16(s.len()) == pow16((s.len() - 1) as nat) * 16);
    }
}

/// Sixteen to the power `n`.
pub open spec fn pow16(n: nat) -> nat
    decreases n,
{
    if n == 0 {
        1
    } else {
        pow16((n - 1) as nat) * 16
    }
}

/// The digit value of one byte.
fn digit_of(byte: u8) -> (d: u64)
    ensures
        d == hex_value(byte),
{
    if 48 <= byte && byte <= 57 {
        (byte - 48) as u64
    } else if 97 <= byte && byte <= 102 {
        (byte - 87) as u64
    } else if 65 <= byte && byte <= 70 {
        (byte - 55) as u64
    } else {
        0
    }
}

/// Converts a hexadecimal hash string into a deterministic seed: its bytes
/// in chunks of eight, each read as a hexadecimal number (non-digits count as
/// zero), combined by exclusive or.
pub fn seed_from_hash(hash: &str) -> (seed: u64)
    ensures
        seed == xor_of_chunks(hash.spec_bytes()),
{
    let bytes = hash.as_bytes();
    let ghost all = bytes@;
    let mut acc: u64 = 0;
    let mut start: usize = 0;
    proof {
        assert(all.skip(0) =~= all);
        let x = xor_of_chunks(all);
        assert(0u64 ^ x == x) by (bit_vector);
    }
    while start < bytes.len()
        invariant
            start <= bytes@.len(),
            all == bytes@,
            all == hash.spec_bytes(),
            acc ^ xor_of_chunks(all.skip(start as int)) == xor_of_chunks(all),
        decreases bytes@.len() - start,
    {
        let end = if bytes.len() - start < 8 {
            bytes.len()
        } else {
            start + 8
        };
        let ghost rest = all.skip(start as int);
        let ghost chunk = rest.take((end - start) as int);
        let mut value: u64 = 0;
        let mut j: usize = start;
        while j < end
            invariant
                start <= j <= end,
                end <= bytes@.len(),
                end - start <= 8,
                all == bytes@,
                chunk == all.subrange(start as int, end as int),
                value == hex_number(all.subrange(start as int, j as int)),
            decreases end - j,
        {
            let digit = digit_of(bytes[j]);
            proof {
                let s = all.subrange(start as int, j + 1);
                assert(s.drop_last() =~= all.subrange(start as int, j as int));
                lemma_hex_number_bound(all.subrange(start as int, j as int));
                assert(pow16(7) == 268435456) by {
                    reveal_with_fuel(pow16, 8);
                }
                lemma_pow16_mono((j - start) as nat, 7);
                assert(value < 268435456);
                assert(digit < 16);
                assert(((value << 4u64) | digit) == value * 16 + digit) by (bit_vector)
                    requires
                        value < 268435456,
                        digit < 16,
                ;
            }
            value = (value << 4u64) | digit;
            j = j + 1;
        }
        proof {
            assert(chunk =~= rest.take(first_chunk_len(rest.len()) as int));
            assert(rest.skip(first_chunk_len(rest.len()) as int) =~= all.skip(end as int));
            assert(xor_of_chunks(rest) == (hex_number(chunk) as u64) ^ xor_of_chunks(all.skip(end as int)));
            let r = xor_of_chunks(all.skip(end as int));
            assert((acc ^ value) ^ r == acc ^ (value ^ r)) by (bit_vector);
        }
        acc = acc ^ value;
        start = end;
    }
    proof {
        assert(all.skip(all.len() as int) =~= Seq::<u8>::empty());
        assert(acc ^ 0u64 == acc) by (bit_vector);
    }
    acc
}

/// Sixteen to a power grows with the power.
pub proof fn lemma_pow16_mono(a: nat, b: nat)
    requires
        a <= b,
    ensures
        pow16(a) <= pow16(b),
    decreases b,
{
    if a < b {
        lemma_pow16_mono(a, (b - 1) as nat);
    }
}

/// Kernel execution mode used for determinism guidance.
#[derive(Debug, Clone, Copy, PartialEq, Eq)]
pub enum KernelMode {
    /// Light mode intended for CI.
    Light,
    /// Full fidelity mode used during HPC runs.
    Full,
    /// Fast exploratory mode.
    Fast,
}

impl Default for KernelMode {
    fn default() -> (m: KernelMode)
        ensures
            m == KernelMode::Light,
    {
        KernelMode::Light
    }
}

/// The number of steps a kernel run takes: light mode caps the requested
/// steps at 128, fast mode at 64, full mode takes them all.
pub fn effective_steps(mode: KernelMode, steps: usize) -> (n: usize)
    ensures
        n == match mode {
            KernelMode::Light => if steps < 128 {
                steps
            } else {
                128
            },
            KernelMode::Fast => if steps < 64 {
                steps
            } else {
                64
            },
            KernelMode::Full => steps,
        },
{
    match mode {
        KernelMode::Light => if steps < 128 {
            steps
        } else {
            128
        },
        KernelMode::Fast => if steps < 64 {
            steps
        } else {
            64
        },
        KernelMode::Full => steps,
    }
}

/// The default number of kernel steps.
pub fn default_steps() -> (n: usize)
    ensures
        n == 256,
{
    256
}

/// The default iteration budget of a couplings fit.
pub fn default_max_iters() -> (n: usize)
    ensures
        n == 64,
{
    64
}

/// The default model variant of a couplings fit.
pub fn default_model_variant() -> (s: String)
    ensures
        s@ == "default"@,
{
    String::from_str("default")
}

/// The default basis label of a prepared state.
pub fn default_basis() -> (s: String)
    ensures
        s@ == "modes"@,
{
    String::from_str("modes")
}

/// The default window of the running-coupling estimate.
pub fn default_beta_window() -> (n: usize)
    ensures
        n == 3,
{
    3
}

/// The default number of histogram bins.
pub fn default_bins() -> (n: usize)
    ensures
        n == 8,
{
    8
}

/// Supported observable selectors.
#[derive(Debug, Clone, Copy, PartialEq, Eq)]
pub enum ObservableKind {
    /// Inclusive cross section observable.
    CrossSection,
    /// Elastic phase shift observable.
    PhaseShift,
    /// Transition amplitude observable.
    Amplitude,
}

impl Default for ObservableKind {
    fn default() -> (k: ObservableKind)
        ensures
            k == ObservableKind::CrossSection,
    {
        ObservableKind::CrossSection
    }
}

/// Confidence interval estimation method.
#[derive(Debug, Clone, Copy, PartialEq, Eq)]
pub enum CiMethod {
    /// Deterministic bootstrap with canonical seeding.
    Bootstrap,
    /// Direct propagation of linearised errors.
    Propagation,
}

impl Default for CiMethod {
    fn default() -> (m: CiMethod)
        ensures
            m == CiMethod::Bootstrap,
    {
        CiMethod::Bootstrap
    }
}

/// Measurement configuration controlling observable extraction.
#[derive(Debug, Clone, PartialEq, Eq)]
pub struct MeasureOpts {
    /// Observables to compute.
    pub observables: Vec<ObservableKind>,
    /// Confidence interval method.
    pub ci_method: CiMethod,
    /// Number of histogram bins when accumulating inclusive observables.
    pub bins: usize,
}

impl Default for MeasureOpts {
    /// Cross section and amplitude, bootstrap intervals, eight bins.
    fn default() -> (o: MeasureOpts)
        ensures
            o.observables@ == seq![ObservableKind::CrossSection, ObservableKind::Amplitude],
            o.ci_method == CiMethod::Bootstrap,
            o.bins == 8,
    {
        let o = MeasureOpts {
            observables: vec![ObservableKind::CrossSection, ObservableKind::Amplitude],
            ci_method: CiMethod::Bootstrap,
            bins: default_bins(),
        };
        assert(o.observables@ =~= seq![ObservableKind::CrossSection, ObservableKind::Amplitude]);
        o
    }
}

/// Participant template variants supported by the preparation stage.
#[derive(Debug, Clone, Copy, PartialEq, Eq)]
pub enum PrepTemplate {
    /// Two-body excitation template selecting the lowest momentum modes.
    TwoBody,
    /// Three-body excitation template selecting the lowest momentum modes.
    ThreeBody,
}

impl PrepTemplate {
    /// How many participants the template prepares.
    pub fn participant_count(&self) -> (n: usize)
        ensures
            n == match self {
                PrepTemplate::TwoBody => 2usize,
                PrepTemplate::ThreeBody => 3usize,
            },
    {
        match self {
            PrepTemplate::TwoBody => 2,
            PrepTemplate::ThreeBody => 3,
        }
    }
}

/// Checks the sizes a measurement works on: a trajectory of `steps` steps
/// (at least one) and `bins` bins (at least one), in that order.
pub fn check_measure_inputs(steps: usize, bins: usize) -> (r: Result<(), AsmError>)
    ensures
        r == if steps == 0 {
            Err::<(), AsmError>(AsmError::EmptyTrajectory)
        } else if bins == 0 {
            Err(AsmError::ZeroBins)
        } else {
            Ok(())
        },
{
    if steps == 0 {
        return Err(AsmError::EmptyTrajectory);
    }
    if bins == 0 {
        return Err(AsmError::ZeroBins);
    }
    Ok(())
}

/// Checks that a coupling fit has an observable: some cross-section or some
/// amplitude.
pub fn check_fit_inputs(xsec_count: usize, amplitude_count: usize) -> (r: Result<(), AsmError>)
    ensures
        r == if xsec_count == 0 && amplitude_count == 0 {
            Err::<(), AsmError>(AsmError::InsufficientObservables)
        } else {
            Ok(())
        },
{
    if xsec_count == 0 && amplitude_count == 0 {
        return Err(AsmError::InsufficientObservables);
    }
    Ok(())
}

} // verus!
