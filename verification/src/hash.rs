//! Canonical structural hash of a hypergraph: the SHA-256 digest, in lowercase
//! hexadecimal, of a byte encoding of its configuration, its live node count
//! and the signatures of its live hyperedges in ascending order.
use vstd::prelude::*;
use vstd::string::StringSliceAdditionalSpecFns;
use crate::errors::AsmError;
use crate::flags::{HypergraphConfig, KUniformity};
use crate::graph_spec::GraphView;
use crate::hypergraph::{EdgeSignature, HypergraphImpl, edge_raw_ids};
use crate::ids::{raw_ids, strictly_sorted, EdgeId};
use crate::order::{SigView, lex_lt, lex_lt_from, sig_lt, sorted_sigs, lemma_lex_equal, lemma_sig_total, lemma_sig_transitive, lemma_sorted_sigs_unique};

verus! {

/// What SHA-256 gives for a byte string (the digest is not modelled here).
pub uninterp spec fn sha256_of(data: Seq<u8>) -> Seq<u8>;

/// `sha2::Sha256::digest`: the 32-byte SHA-256 digest of `data`. The contract
/// names the digest and gives its length; the digest itself is not modelled.
#[verifier::external_body]
pub(crate) fn sha256_digest(data: &[u8]) -> (d: Vec<u8>)
    ensures
        d@ == sha256_of(data@),
        d@.len() == 32,
{
    <sha2::Sha256 as sha2::Digest>::digest(data).to_vec()
}

/// The lowercase hexadecimal digit for a value below sixteen.
pub open spec fn hex_digit(v: int) -> char {
    if v < 10 {
        (v + 48) as char
    } else {
        (v + 87) as char
    }
}

/// Each byte as two lowercase hexadecimal digits, high nibble first.
pub open spec fn hex_lower(bytes: Seq<u8>) -> Seq<char> {
    Seq::new(
        2 * bytes.len(),
        |i: int|
            if i % 2 == 0 {
                hex_digit(bytes[i / 2] as int / 16)
            } else {
                hex_digit(bytes[i / 2] as int % 16)
            },
    )
}

/// `hex::encode`: each byte becomes two lowercase hexadecimal digits, high
/// nibble first (the crate's lowercase table `0123456789abcdef`).
#[verifier::external_body]
pub(crate) fn hex_encode(bytes: &[u8]) -> (s: String)
    ensures
        s@ == hex_lower(bytes@),
{
    hex::encode(bytes)
}

/// The `n` low-order bytes of `x`, least significant first.
pub open spec fn le_bytes(x: nat, n: nat) -> Seq<u8>
    decreases n,
{
    if n == 0 {
        Seq::empty()
    } else {
        seq![(x % 256) as u8] + le_bytes(x / 256, (n - 1) as nat)
    }
}

/// Little-endian encoding of a 64-bit value.
pub open spec fn u64_le(x: u64) -> Seq<u8> {
    le_bytes(x as nat, 8)
}

/// Little-endian encoding of a 32-bit value.
pub open spec fn u32_le(x: u32) -> Seq<u8> {
    le_bytes(x as nat, 4)
}

/// A labelled optional cap: the label, then `:some` and the value, or `:none`.
pub open spec fn option_bytes(label: Seq<u8>, value: Option<usize>) -> Seq<u8> {
    match value {
        Some(v) => label + ":some".spec_bytes() + u64_le(v as u64),
        None => label + ":none".spec_bytes(),
    }
}

/// Encoding of the graph configuration.
pub open spec fn config_bytes(c: HypergraphConfig) -> Seq<u8> {
    let mode = if c.causal_mode {
        "causal".spec_bytes()
    } else {
        "acyclic-off".spec_bytes()
    };
    let uniform = match c.k_uniform {
        None => "kuniform:none".spec_bytes(),
        Some(KUniformity::Balanced { sources, destinations }) => "kuniform:balanced".spec_bytes()
            + u64_le(sources as u64) + u64_le(destinations as u64),
        Some(KUniformity::Total { total, min_sources }) => "kuniform:total".spec_bytes() + u64_le(
            total as u64,
        ) + u64_le(min_sources as u64),
    };
    mode + option_bytes("max-in".spec_bytes(), c.max_in_degree) + option_bytes(
        "max-out".spec_bytes(),
        c.max_out_degree,
    ) + uniform + u32_le(c.schema_version.major) + u32_le(c.schema_version.minor) + u32_le(
        c.schema_version.patch,
    )
}

/// The entries of an id list, each as eight little-endian bytes.
pub open spec fn items_bytes(s: Seq<u64>) -> Seq<u8>
    decreases s.len(),
{
    if s.len() == 0 {
        Seq::empty()
    } else {
        items_bytes(s.drop_last()) + u64_le(s.last())
    }
}

/// An id list: its length, then its entries.
pub open spec fn list_bytes(s: Seq<u64>) -> Seq<u8> {
    u64_le(s.len() as u64) + items_bytes(s)
}

/// Signatures one after the other: sources, then destinations.
pub open spec fn sigs_bytes(s: Seq<SigView>) -> Seq<u8>
    decreases s.len(),
{
    if s.len() == 0 {
        Seq::empty()
    } else {
        sigs_bytes(s.drop_last()) + list_bytes(s.last().0) + list_bytes(s.last().1)
    }
}

/// The number of `true` entries.
pub open spec fn count_true(s: Seq<bool>) -> nat
    decreases s.len(),
{
    if s.len() == 0 {
        0
    } else {
        count_true(s.drop_last()) + if s.last() {
            1nat
        } else {
            0nat
        }
    }
}

/// The signatures of the live hyperedges.
pub open spec fn sig_set(g: GraphView) -> Set<SigView> {
    Set::new(
        |p: SigView|
            exists|e: int|
                #[trigger] g.edge_alive(e) && g.edges[e].sources == p.0 && g.edges[e].destinations
                    == p.1,
    )
}

/// The signatures of a set in ascending order.
pub open spec fn ascending(sigs: Set<SigView>) -> Seq<SigView> {
    choose|s: Seq<SigView>| sorted_sigs(s) && s.to_set() == sigs
}

/// The signatures of the live hyperedges in ascending order.
pub open spec fn ordered_signatures(g: GraphView) -> Seq<SigView> {
    ascending(sig_set(g))
}

/// The bytes the canonical hash digests.
pub open spec fn canonical_preimage(g: GraphView) -> Seq<u8> {
    config_bytes(g.config) + u64_le(count_true(g.nodes) as u64) + u64_le(
        ordered_signatures(g).len() as u64,
    ) + sigs_bytes(ordered_signatures(g))
}

/// The canonical hash of a graph: lowercase hex of the SHA-256 digest of its encoding.
pub open spec fn canonical_hash_of(g: GraphView) -> Seq<char> {
    hex_lower(sha256_of(canonical_preimage(g)))
}

proof fn lemma_le_step(x: nat, n: nat)
    requires
        n > 0,
    ensures
        le_bytes(x, n) == seq![(x % 256) as u8] + le_bytes(x / 256, (n - 1) as nat),
{
}

/// Appends the `width` low-order bytes of `x`, least significant first.
fn push_le(out: &mut Vec<u8>, x: u64, width: usize)
    requires
        width <= 8,
    ensures
        final(out)@ == old(out)@ + le_bytes(x as nat, width as nat),
{
    let ghost start = old(out)@;
    let mut v: u64 = x;
    let mut k: usize = 0;
    while k < width
        invariant
            k <= width,
            out@ + le_bytes(v as nat, (width - k) as nat) == start + le_bytes(x as nat, width as nat),
        decreases width - k,
    {
        proof {
            lemma_le_step(v as nat, (width - k) as nat);
            assert(out@.push((v % 256) as u8) + le_bytes((v / 256) as nat, (width - (k + 1)) as nat)
                =~= out@ + le_bytes(v as nat, (width - k) as nat));
        }
        out.push((v % 256) as u8);
        v = v / 256;
        k = k + 1;
    }
    proof {
        assert(le_bytes(v as nat, 0) =~= Seq::<u8>::empty());
        assert(out@ =~= out@ + le_bytes(v as nat, 0));
    }
}

/// Appends the bytes of a string.
fn push_str(out: &mut Vec<u8>, s: &str)
    ensures
        final(out)@ == old(out)@ + s.spec_bytes(),
{
    let b = s.as_bytes();
    let mut i: usize = 0;
    let ghost start = old(out)@;
    while i < b.len()
        invariant
            i <= b@.len(),
            b@ == s.spec_bytes(),
            out@ == start + b@.take(i as int),
        decreases b@.len() - i,
    {
        out.push(b[i]);
        proof {
            assert(b@.take(i + 1) =~= b@.take(i as int).push(b@[i as int]));
        }
        i = i + 1;
    }
    proof {
        assert(b@.take(b@.len() as int) =~= b@);
    }
}

fn encode_option_usize(label: &str, value: Option<usize>, out: &mut Vec<u8>)
    ensures
        final(out)@ == old(out)@ + option_bytes(label.spec_bytes(), value),
{
    match value {
        Some(v) => {
            push_str(out, label);
            push_str(out, ":some");
            push_le(out, v as u64, 8);
        },
        None => {
            push_str(out, label);
            push_str(out, ":none");
        },
    }
    proof {
        match value {
            Some(v) => {
                assert(final(out)@ =~= old(out)@ + option_bytes(label.spec_bytes(), value));
            },
            None => {
                assert(final(out)@ =~= old(out)@ + option_bytes(label.spec_bytes(), value));
            },
        }
    }
}

fn encode_config(config: &HypergraphConfig, out: &mut Vec<u8>)
    ensures
        final(out)@ == old(out)@ + config_bytes(*config),
{
    let ghost start = old(out)@;
    if config.causal_mode {
        push_str(out, "causal");
    } else {
        push_str(out, "acyclic-off");
    }
    let ghost after_mode = out@;
    encode_option_usize("max-in", config.max_in_degree, out);
    encode_option_usize("max-out", config.max_out_degree, out);
    let ghost after_caps = out@;
    match config.k_uniform {
        None => push_str(out, "kuniform:none"),
        Some(KUniformity::Balanced { sources, destinations }) => {
            push_str(out, "kuniform:balanced");
            push_le(out, sources as u64, 8);
            push_le(out, destinations as u64, 8);
        },
        Some(KUniformity::Total { total, min_sources }) => {
            push_str(out, "kuniform:total");
            push_le(out, total as u64, 8);
            push_le(out, min_sources as u64, 8);
        },
    }
    let ghost after_uniform = out@;
    push_le(out, config.schema_version.major as u64, 4);
    push_le(out, config.schema_version.minor as u64, 4);
    push_le(out, config.schema_version.patch as u64, 4);
    proof {
        let c = *config;
        let uniform = match c.k_uniform {
            None => "kuniform:none".spec_bytes(),
            Some(KUniformity::Balanced { sources, destinations }) => "kuniform:balanced".spec_bytes()
                + u64_le(sources as u64) + u64_le(destinations as u64),
            Some(KUniformity::Total { total, min_sources }) => "kuniform:total".spec_bytes()
                + u64_le(total as u64) + u64_le(min_sources as u64),
        };
        assert(after_uniform =~= after_caps + uniform);
        assert(out@ =~= start + config_bytes(c));
    }
}

/// Appends an id list: its length, then its entries.
fn update_slice(values: &[u64], out: &mut Vec<u8>)
    ensures
        final(out)@ == old(out)@ + list_bytes(values@),
{
    let ghost start = old(out)@;
    push_le(out, values.len() as u64, 8);
    let mut i: usize = 0;
    while i < values.len()
        invariant
            i <= values@.len(),
            out@ == start + u64_le(values@.len() as u64) + items_bytes(values@.take(i as int)),
        decreases values@.len() - i,
    {
        push_le(out, values[i], 8);
        proof {
            assert(values@.take(i + 1).drop_last() =~= values@.take(i as int));
            assert(out@ =~= start + u64_le(values@.len() as u64) + items_bytes(values@.take(i + 1)));
        }
        i = i + 1;
    }
    proof {
        assert(values@.take(values@.len() as int) =~= values@);
    }
}

/// Whether `a` comes before `b` in lexicographic order.
fn lex_less(a: &[u64], b: &[u64]) -> (r: bool)
    ensures
        r == lex_lt(a@, b@),
{
    let mut k: usize = 0;
    while k < a.len() && k < b.len()
        invariant
            k <= a@.len(),
            k <= b@.len(),
            lex_lt(a@, b@) == lex_lt_from(a@, b@, k as int),
        decreases a@.len() - k,
    {
        if a[k] < b[k] {
            return true;
        }
        if a[k] > b[k] {
            return false;
        }
        k = k + 1;
    }
    k < b.len()
}

pub open spec fn sig_view(s: EdgeSignature) -> SigView {
    (s.spec_sources(), s.spec_destinations())
}

pub open spec fn sigs_view(v: Seq<EdgeSignature>) -> Seq<SigView> {
    v.map_values(|s: EdgeSignature| sig_view(s))
}

/// Whether signature `a` comes before signature `b`.
fn sig_less(a: &EdgeSignature, b: &EdgeSignature) -> (r: bool)
    ensures
        r == sig_lt(sig_view(*a), sig_view(*b)),
{
    let (sa, sb) = (a.raw_sources(), b.raw_sources());
    if lex_less(sa, sb) {
        return true;
    }
    if lex_less(sb, sa) {
        return false;
    }
    proof {
        lemma_lex_equal(sa@, sb@);
    }
    lex_less(a.raw_destinations(), b.raw_destinations())
}


/// The signature of hyperedge slot `e`.
pub open spec fn edge_sig(g: GraphView, e: u64) -> SigView {
    (g.edges[e as int].sources, g.edges[e as int].destinations)
}

/// The signatures of the hyperedges listed in `ids[..i]`.
pub open spec fn listed_sigs(g: GraphView, ids: Seq<EdgeId>, i: int) -> Set<SigView> {
    Set::new(|p: SigView| exists|k: int| 0 <= k < i && #[trigger] edge_sig(g, ids[k].raw) == p)
}

/// Inserting `p` at `pos` keeps a signature list sorted when everything
/// before `pos` is smaller than `p` and everything from `pos` on is larger.
proof fn lemma_insert_sorted(s: Seq<SigView>, pos: int, p: SigView)
    requires
        sorted_sigs(s),
        0 <= pos <= s.len(),
        forall|k: int| 0 <= k < pos ==> sig_lt(#[trigger] s[k], p),
        forall|k: int| pos <= k < s.len() ==> sig_lt(p, #[trigger] s[k]),
    ensures
        sorted_sigs(s.insert(pos, p)),
        s.insert(pos, p).to_set() == s.to_set().insert(p),
{
    let t = s.insert(pos, p);
    assert forall|i: int, j: int| 0 <= i < j < t.len() implies sig_lt(#[trigger] t[i], #[trigger] t[j]) by {
        if j < pos {
            assert(t[i] == s[i] && t[j] == s[j]);
        } else if j == pos {
            assert(t[i] == s[i]);
        } else if i < pos {
            assert(t[i] == s[i] && t[j] == s[j - 1]);
        } else if i == pos {
            assert(t[j] == s[j - 1]);
        } else {
            assert(t[i] == s[i - 1] && t[j] == s[j - 1]);
        }
    }
    assert forall|x: SigView| #[trigger] t.to_set().contains(x) <==> s.to_set().insert(p).contains(x) by {
        if t.to_set().contains(x) {
            let i = choose|i: int| 0 <= i < t.len() && t[i] == x;
            if i < pos {
                assert(s[i] == x);
            } else if i > pos {
                assert(s[i - 1] == x);
            }
        }
        if s.to_set().contains(x) {
            let i = choose|i: int| 0 <= i < s.len() && s[i] == x;
            if i < pos {
                assert(t[i] == x);
            } else {
                assert(t[i + 1] == x);
            }
        }
        if x == p {
            assert(t[pos] == p);
        }
    }
    assert(t.to_set() =~= s.to_set().insert(p));
}

/// The signatures of the graph's live hyperedges in ascending order.
fn sorted_signatures(graph: &HypergraphImpl) -> (v: Vec<EdgeSignature>)
    requires
        graph.wf(),
    ensures
        sorted_sigs(sigs_view(v@)),
        sigs_view(v@).to_set() == sig_set(graph@),
{
    let ids = graph.edges();
    let ghost g = graph@;
    proof {
        graph.lemma_wf_sets_finite();
    }
    let mut sorted: Vec<EdgeSignature> = Vec::new();
    let mut i: usize = 0;
    proof {
        assert(sigs_view(sorted@).to_set() =~= listed_sigs(g, ids@, 0));
    }
    while i < ids.len()
        invariant
            graph.wf(),
            g == graph@,
            g.well_formed(),
            i <= ids@.len(),
            strictly_sorted(edge_raw_ids(ids@)),
            forall|e: u64| edge_raw_ids(ids@).contains(e) <==> g.edge_alive(e as int),
            sorted_sigs(sigs_view(sorted@)),
            sigs_view(sorted@).to_set() == listed_sigs(g, ids@, i as int),
        decreases ids@.len() - i,
    {
        let id = ids[i];
        proof {
            assert(edge_raw_ids(ids@)[i as int] == id.raw);
            assert(edge_raw_ids(ids@).contains(id.raw));
        }
        let sig = match graph.hyperedge(id) {
            Ok(ep) => EdgeSignature::new(ep.sources.as_slice(), ep.destinations.as_slice()),
            Err(_) => {
                proof {
                    assert(false);
                }
                return sorted;
            },
        };
        let ghost p = sig_view(sig);
        proof {
            assert(p == edge_sig(g, id.raw));
            if sigs_view(sorted@).to_set().contains(p) {
                let k = choose|k: int| 0 <= k < i && #[trigger] edge_sig(g, ids@[k].raw) == p;
                assert(edge_raw_ids(ids@)[k] == ids@[k].raw);
                assert(edge_raw_ids(ids@).contains(ids@[k].raw));
                assert(g.edge_alive(ids@[k].raw as int));
                assert(ids@[k].raw != id.raw);
                assert(g.edges[ids@[k].raw as int] == g.edges[ids@[k].raw as int]);
                assert(g.edges[id.raw as int] == g.edges[id.raw as int]);
            }
        }
        let mut pos: usize = 0;
        while pos < sorted.len() && sig_less(&sorted[pos], &sig)
            invariant
                pos <= sorted@.len(),
                p == sig_view(sig),
                forall|k: int| 0 <= k < pos ==> sig_lt(#[trigger] sigs_view(sorted@)[k], p),
            decreases sorted@.len() - pos,
        {
            pos = pos + 1;
        }
        let ghost before = sigs_view(sorted@);
        proof {
            assert forall|k: int| pos <= k < before.len() implies sig_lt(p, #[trigger] before[k]) by {
                assert(before.to_set().contains(before[pos as int]));
                lemma_sig_total(before[pos as int], p);
                if k > pos {
                    lemma_sig_transitive(p, before[pos as int], before[k]);
                }
            }
            lemma_insert_sorted(before, pos as int, p);
        }
        sorted.insert(pos, sig);
        proof {
            assert(sigs_view(sorted@) =~= before.insert(pos as int, p));
            assert forall|x: SigView| #[trigger] listed_sigs(g, ids@, i + 1).contains(x)
                <==> before.to_set().insert(p).contains(x) by {
                if listed_sigs(g, ids@, i + 1).contains(x) {
                    let k = choose|k: int| 0 <= k < i + 1 && #[trigger] edge_sig(g, ids@[k].raw) == x;
                    if k < i {
                        assert(listed_sigs(g, ids@, i as int).contains(x));
                    }
                }
                if before.to_set().contains(x) {
                    assert(listed_sigs(g, ids@, i as int).contains(x));
                    let k = choose|k: int| 0 <= k < i && #[trigger] edge_sig(g, ids@[k].raw) == x;
                    assert(edge_sig(g, ids@[k].raw) == x);
                }
                if x == p {
                    assert(edge_sig(g, ids@[i as int].raw) == x);
                }
            }
            assert(listed_sigs(g, ids@, i + 1) =~= before.to_set().insert(p));
        }
        i = i + 1;
    }
    proof {
        assert forall|x: SigView| #[trigger] sig_set(g).contains(x) <==> listed_sigs(g, ids@, ids@.len() as int).contains(x) by {
            if sig_set(g).contains(x) {
                let e = choose|e: int| #[trigger] g.edge_alive(e) && g.edges[e].sources == x.0 && g.edges[e].destinations == x.1;
                assert(edge_raw_ids(ids@).contains(e as u64));
                let k = choose|k: int| 0 <= k < edge_raw_ids(ids@).len() && edge_raw_ids(ids@)[k] == e as u64;
                assert(edge_sig(g, ids@[k].raw) == x);
            }
            if listed_sigs(g, ids@, ids@.len() as int).contains(x) {
                let k = choose|k: int| 0 <= k < ids@.len() && #[trigger] edge_sig(g, ids@[k].raw) == x;
                assert(edge_raw_ids(ids@)[k] == ids@[k].raw);
                assert(edge_raw_ids(ids@).contains(ids@[k].raw));
                assert(g.edge_alive(ids@[k].raw as int));
            }
        }
        assert(sig_set(g) =~= listed_sigs(g, ids@, ids@.len() as int));
    }
    sorted
}

/// The number of live nodes.
fn live_node_count(graph: &HypergraphImpl) -> (n: u64)
    requires
        graph.wf(),
    ensures
        n == count_true(graph@.nodes),
{
    let states = graph.node_states();
    proof {
        graph.lemma_wf_sets_finite();
    }
    let mut n: u64 = 0;
    let mut i: usize = 0;
    while i < states.len()
        invariant
            i <= states@.len(),
            states@ == graph@.nodes,
            states@.len() < usize::MAX,
            n == count_true(states@.take(i as int)),
            n <= i,
        decreases states@.len() - i,
    {
        proof {
            assert(states@.take(i + 1).drop_last() =~= states@.take(i as int));
        }
        if states[i] {
            n = n + 1;
        }
        i = i + 1;
    }
    proof {
        assert(states@.take(states@.len() as int) =~= states@);
    }
    n
}

/// The bytes the canonical hash digests: the configuration, the number of
/// live nodes, then the number of live hyperedges and their signatures in
/// ascending order, each id list as its length followed by its entries,
/// every number little-endian.
pub fn canonical_encoding(graph: &HypergraphImpl) -> (bytes: Vec<u8>)
    requires
        graph.wf(),
    ensures
        bytes@ == canonical_preimage(graph@),
{
    let mut bytes: Vec<u8> = Vec::new();
    encode_config(graph.config(), &mut bytes);
    let live = live_node_count(graph);
    push_le(&mut bytes, live, 8);
    let signatures = sorted_signatures(graph);
    push_le(&mut bytes, signatures.len() as u64, 8);
    let ghost head = bytes@;
    let ghost sv = sigs_view(signatures@);
    let mut i: usize = 0;
    while i < signatures.len()
        invariant
            i <= signatures@.len(),
            sv == sigs_view(signatures@),
            bytes@ == head + sigs_bytes(sv.take(i as int)),
        decreases signatures@.len() - i,
    {
        update_slice(signatures[i].raw_sources(), &mut bytes);
        update_slice(signatures[i].raw_destinations(), &mut bytes);
        proof {
            assert(sv.take(i + 1).drop_last() =~= sv.take(i as int));
            assert(sv[i as int] == sig_view(signatures@[i as int]));
            assert(bytes@ =~= head + sigs_bytes(sv.take(i + 1)));
        }
        i = i + 1;
    }
    proof {
        assert(sv.take(sv.len() as int) =~= sv);
        let o = ordered_signatures(graph@);
        assert(sorted_sigs(o) && o.to_set() == sig_set(graph@));
        lemma_sorted_sigs_unique(sv, o);
        assert(bytes@ =~= canonical_preimage(graph@));
    }
    bytes
}

/// Computes the canonical structural hash for the provided graph: the
/// lowercase hexadecimal SHA-256 digest of its canonical encoding. Graphs
/// with the same configuration, live node count and hyperedge endpoints hash
/// the same.
pub fn canonical_hash(graph: &HypergraphImpl) -> (r: Result<String, AsmError>)
    requires
        graph.wf(),
    ensures
        match r {
            Ok(h) => h@ == canonical_hash_of(graph@),
            Err(_) => false,
        },
{
    let bytes = canonical_encoding(graph);
    let digest = sha256_digest(bytes.as_slice());
    Ok(hex_encode(digest.as_slice()))
}

} // verus!
