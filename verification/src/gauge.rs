//! Option types and seeding rules of the gauge analysis.
use vstd::prelude::*;
use vstd::string::StringSliceAdditionalSpecFns;
use vstd::utf8::{encode_utf8, is_char_boundary};
use crate::host::manifest::{trim_chars, trim_str};
use crate::interaction::{hex_number, pow16};

verus! {

/// The default basis label of a representation.
pub fn default_basis() -> (s: String)
    ensures
        s@ == "modes"@,
{
    String::from_str("modes")
}

/// The default number of generators to synthesise.
pub fn default_generator_limit() -> (n: usize)
    ensures
        n == 3,
{
    3
}

/// The default master seed (zero: no override).
pub fn default_seed() -> (n: u64)
    ensures
        n == 0,
{
    0
}

/// Options controlling representation construction.
#[derive(Debug, Clone, PartialEq, Eq)]
pub struct RepOpts {
    /// Basis descriptor recorded in the output payload.
    pub basis: String,
    /// Maximum number of generators to synthesise from the automorphism report.
    pub max_generators: usize,
    /// Optional deterministic seed overriding the provenance derived from hashes.
    pub seed: Option<u64>,
}

impl Default for RepOpts {
    /// The `modes` basis, three generators, no seed.
    fn default() -> (o: RepOpts)
        ensures
            o.basis@ == "modes"@,
            o.max_generators == 3,
            o.seed is None,
    {
        RepOpts { basis: default_basis(), max_generators: default_generator_limit(), seed: None }
    }
}

/// Applies a master seed to the representation options: a non-zero seed
/// replaces theirs, zero keeps them as they are.
pub fn apply_seed_override(rep_opts: RepOpts, seed: u64) -> (o: RepOpts)
    ensures
        o.basis == rep_opts.basis,
        o.max_generators == rep_opts.max_generators,
        o.seed == if seed != 0 {
            Some(seed)
        } else {
            rep_opts.seed
        },
{
    let mut rep_opts = rep_opts;
    if seed != 0 {
        rep_opts.seed = Some(seed);
    }
    rep_opts
}

/// A hexadecimal digit byte.
pub open spec fn is_hex_byte(b: u8) -> bool {
    (48 <= b <= 57) || (97 <= b <= 102) || (65 <= b <= 70)
}

/// The digits of a number text: everything after an optional leading `+`.
pub open spec fn unsigned_digits(s: Seq<u8>) -> Seq<u8> {
    if s.len() > 0 && s[0] == 43 {
        s.drop_first()
    } else {
        s
    }
}

/// Every byte is a hexadecimal digit.
pub open spec fn all_hex(d: Seq<u8>) -> bool {
    forall|i: int| 0 <= i < d.len() ==> is_hex_byte(#[trigger] d[i])
}

/// What `u64::from_str_radix(_, 16)` gives for some bytes: an optional `+`
/// followed by one or more hexadecimal digits denoting a value that fits.
pub open spec fn parse_hex_u64(s: Seq<u8>) -> Option<u64> {
    let digits = unsigned_digits(s);
    if digits.len() == 0 {
        None
    } else if !all_hex(digits) {
        None
    } else if hex_number(digits) > u64::MAX {
        None
    } else {
        Some(hex_number(digits) as u64)
    }
}

/// The seed a hash gives: its first sixteen bytes once trimmed, read as a
/// hexadecimal number, or zero when they are not one.
pub open spec fn hash_seed(hash: Seq<char>) -> u64 {
    let b = encode_utf8(trim_chars(hash));
    let len = if b.len() < 16 {
        b.len()
    } else {
        16
    };
    if len == 0 {
        0
    } else {
        match parse_hex_u64(b.take(len as int)) {
            Some(v) => v,
            None => 0,
        }
    }
}

/// Parses an optional `+` and hexadecimal digits.
fn parse_hex(bytes: &[u8]) -> (r: Option<u64>)
    requires
        bytes@.len() <= 16,
    ensures
        r == parse_hex_u64(bytes@),
{
    let ghost s = bytes@;
    let start: usize = if bytes.len() > 0 && bytes[0] == 43 {
        1
    } else {
        0
    };
    let ghost digits = s.skip(start as int);
    proof {
        if start == 1 {
            assert(digits =~= s.drop_first());
        } else {
            assert(digits =~= s);
        }
    }
    if start == bytes.len() {
        return None;
    }
    let mut value: u64 = 0;
    let mut j: usize = start;
    while j < bytes.len()
        invariant
            start <= j <= bytes@.len(),
            bytes@.len() <= 16,
            s == bytes@,
            digits == s.skip(start as int),
            digits == unsigned_digits(s),
            start as int == s.len() - digits.len(),
            forall|i: int| 0 <= i < j - start ==> is_hex_byte(#[trigger] digits[i]),
            value == hex_number(digits.take(j - start)),
        decreases bytes@.len() - j,
    {
        let b = bytes[j];
        if !((48 <= b && b <= 57) || (97 <= b && b <= 102) || (65 <= b && b <= 70)) {
            proof {
                assert(digits[j - start] == b);
                assert(!is_hex_byte(digits[j - start]));
                assert(!all_hex(digits));
            }
            return None;
        }
        let d: u64 = if 48 <= b && b <= 57 {
            (b - 48) as u64
        } else if 97 <= b && b <= 102 {
            (b - 87) as u64
        } else {
            (b - 55) as u64
        };
        proof {
            let t = digits.take(j - start + 1);
            assert(t.drop_last() =~= digits.take(j - start));
            assert(t.last() == b);
            crate::interaction::lemma_hex_number_bound(digits.take(j - start));
            crate::interaction::lemma_pow16_mono((j - start) as nat, 15);
            assert(pow16(15) == 1152921504606846976) by {
                reveal_with_fuel(pow16, 16);
            }
        }
        value = value * 16 + d;
        j = j + 1;
    }
    proof {
        assert(digits.take(digits.len() as int) =~= digits);
    }
    Some(value)
}

/// The deterministic seed derived from a provenance hash: its first sixteen
/// bytes once trimmed, read as a hexadecimal number, or zero when they are
/// not one (or the trimmed hash is empty).
pub fn seed_from_hash(hash: &str) -> (seed: u64)
    requires
        encode_utf8(trim_chars(hash@)).len() > 16 ==> is_char_boundary(encode_utf8(trim_chars(hash@)), 16),
    ensures
        seed == hash_seed(hash@),
{
    let trimmed = trim_str(hash);
    proof {
        assert(trimmed.spec_bytes() == encode_utf8(trim_chars(hash@)));
        vstd::utf8::encode_utf8_valid_utf8(trimmed@);
    }
    let byte_len = trimmed.as_bytes().len();
    let len = if byte_len < 16 {
        byte_len
    } else {
        16
    };
    if len == 0 {
        return 0;
    }
    proof {
        if len == trimmed.spec_bytes().len() {
            vstd::utf8::is_char_boundary_start_end_of_seq(trimmed.spec_bytes());
        }
    }
    let (prefix, _) = trimmed.split_at(len);
    match parse_hex(prefix.as_bytes()) {
        Some(v) => v,
        None => 0,
    }
}

/// How many generators a representation gets: none when the limit is zero;
/// otherwise one more than the graph automorphism order modulo (modes + 1)
/// plus the code automorphism order modulo (modes + 2), capped by the limit.
/// `modes` counts the dispersion modes, at least one.
pub fn generator_count(max_generators: usize, mode_count: usize, graph_aut_order: u64, code_aut_order: u64) -> (n: usize)
    requires
        mode_count < usize::MAX / 2,
    ensures
        n == ({
            let modes = if mode_count < 1 {
                1
            } else {
                mode_count
            };
            let base = (graph_aut_order as usize) % ((modes + 1) as usize) + (code_aut_order as usize) % ((modes
                + 2) as usize) + 1;
            let cap = if max_generators < 1 {
                1
            } else {
                max_generators
            };
            if max_generators == 0 {
                0
            } else if base < cap {
                base
            } else {
                cap as int
            }
        }),
{
    let modes = if mode_count < 1 {
        1
    } else {
        mode_count
    };
    if max_generators == 0 {
        return 0;
    }
    let base = (graph_aut_order as usize) % (modes + 1) + (code_aut_order as usize) % (modes + 2) + 1;
    let cap = if max_generators < 1 {
        1
    } else {
        max_generators
    };
    if base < cap {
        base
    } else {
        cap
    }
}

} // verus!
