//! Lexicographic order on id lists and on hyperedge signatures (sources
//! first, then destinations), with the facts that make it a strict total order.
use vstd::prelude::*;

verus! {

/// `a` comes before `b` when they are compared from position `k` on: at the
/// first position where they differ the entry of `a` is smaller, or `a` ends first.
pub open spec fn lex_lt_from(a: Seq<u64>, b: Seq<u64>, k: int) -> bool
    decreases a.len() - k,
{
    if k >= a.len() {
        k < b.len()
    } else if k >= b.len() {
        false
    } else if a[k] < b[k] {
        true
    } else if a[k] > b[k] {
        false
    } else {
        lex_lt_from(a, b, k + 1)
    }
}

/// Lexicographic order on id lists, a proper prefix coming first.
pub open spec fn lex_lt(a: Seq<u64>, b: Seq<u64>) -> bool {
    lex_lt_from(a, b, 0)
}

/// A hyperedge signature: sorted raw sources and sorted raw destinations.
pub type SigView = (Seq<u64>, Seq<u64>);

/// Signatures are ordered by sources, then by destinations.
pub open spec fn sig_lt(a: SigView, b: SigView) -> bool {
    lex_lt(a.0, b.0) || (a.0 == b.0 && lex_lt(a.1, b.1))
}

/// Every earlier signature is smaller than every later one.
pub open spec fn sorted_sigs(s: Seq<SigView>) -> bool {
    forall|i: int, j: int| 0 <= i < j < s.len() ==> sig_lt(#[trigger] s[i], #[trigger] s[j])
}

pub proof fn lemma_lex_irreflexive(a: Seq<u64>, k: int)
    requires
        0 <= k,
    ensures
        !lex_lt_from(a, a, k),
    decreases a.len() - k,
{
    if k < a.len() {
        lemma_lex_irreflexive(a, k + 1);
    }
}

pub proof fn lemma_lex_asymmetric(a: Seq<u64>, b: Seq<u64>, k: int)
    requires
        0 <= k,
        lex_lt_from(a, b, k),
    ensures
        !lex_lt_from(b, a, k),
    decreases a.len() - k,
{
    if k < a.len() && k < b.len() && a[k] == b[k] {
        lemma_lex_asymmetric(a, b, k + 1);
    }
}

pub proof fn lemma_lex_transitive(a: Seq<u64>, b: Seq<u64>, c: Seq<u64>, k: int)
    requires
        0 <= k,
        lex_lt_from(a, b, k),
        lex_lt_from(b, c, k),
    ensures
        lex_lt_from(a, c, k),
    decreases a.len() - k,
{
    if k < a.len() && k < b.len() && k < c.len() && a[k] == b[k] && b[k] == c[k] {
        lemma_lex_transitive(a, b, c, k + 1);
    }
}

pub proof fn lemma_lex_total(a: Seq<u64>, b: Seq<u64>, k: int)
    requires
        0 <= k <= a.len(),
        k <= b.len(),
        forall|i: int| 0 <= i < k ==> a[i] == b[i],
        a != b,
    ensures
        lex_lt_from(a, b, k) || lex_lt_from(b, a, k),
    decreases a.len() - k,
{
    if k == a.len() && k == b.len() {
        assert(a =~= b);
    } else if k < a.len() && k < b.len() && a[k] == b[k] {
        lemma_lex_total(a, b, k + 1);
    }
}

/// Two id lists neither of which comes before the other are equal.
pub proof fn lemma_lex_equal(a: Seq<u64>, b: Seq<u64>)
    requires
        !lex_lt(a, b),
        !lex_lt(b, a),
    ensures
        a == b,
{
    if a != b {
        lemma_lex_total(a, b, 0);
    }
}

pub proof fn lemma_sig_irreflexive(a: SigView)
    ensures
        !sig_lt(a, a),
{
    lemma_lex_irreflexive(a.0, 0);
    lemma_lex_irreflexive(a.1, 0);
}

pub proof fn lemma_sig_asymmetric(a: SigView, b: SigView)
    requires
        sig_lt(a, b),
    ensures
        !sig_lt(b, a),
{
    if lex_lt(a.0, b.0) {
        lemma_lex_asymmetric(a.0, b.0, 0);
        if b.0 == a.0 {
            lemma_lex_irreflexive(a.0, 0);
        }
    } else {
        lemma_lex_irreflexive(a.0, 0);
        lemma_lex_asymmetric(a.1, b.1, 0);
    }
}

pub proof fn lemma_sig_transitive(a: SigView, b: SigView, c: SigView)
    requires
        sig_lt(a, b),
        sig_lt(b, c),
    ensures
        sig_lt(a, c),
{
    if lex_lt(a.0, b.0) && lex_lt(b.0, c.0) {
        lemma_lex_transitive(a.0, b.0, c.0, 0);
    } else if lex_lt(a.1, b.1) && a.0 == b.0 && b.0 == c.0 && lex_lt(b.1, c.1) {
        lemma_lex_transitive(a.1, b.1, c.1, 0);
    }
}

pub proof fn lemma_sig_total(a: SigView, b: SigView)
    requires
        a != b,
    ensures
        sig_lt(a, b) || sig_lt(b, a),
{
    if a.0 != b.0 {
        lemma_lex_total(a.0, b.0, 0);
    } else {
        assert(a.1 != b.1);
        lemma_lex_total(a.1, b.1, 0);
    }
}

/// A sorted signature list has no element twice, and dropping its first
/// element removes exactly that element from its set.
proof fn lemma_sorted_drop_first(s: Seq<SigView>)
    requires
        sorted_sigs(s),
        s.len() > 0,
    ensures
        sorted_sigs(s.drop_first()),
        s.drop_first().to_set() == s.to_set().remove(s[0]),
{
    let t = s.drop_first();
    assert forall|i: int, j: int| 0 <= i < j < t.len() implies sig_lt(#[trigger] t[i], #[trigger] t[j]) by {
        assert(t[i] == s[i + 1] && t[j] == s[j + 1]);
    }
    assert forall|x: SigView| #[trigger] t.to_set().contains(x) <==> s.to_set().remove(s[0]).contains(x) by {
        if t.to_set().contains(x) {
            let i = choose|i: int| 0 <= i < t.len() && t[i] == x;
            assert(s[i + 1] == x);
            assert(sig_lt(s[0], s[i + 1]));
            lemma_sig_irreflexive(x);
        }
        if s.to_set().remove(s[0]).contains(x) {
            let i = choose|i: int| 0 <= i < s.len() && s[i] == x;
            assert(i != 0);
            assert(t[i - 1] == x);
        }
    }
    assert(t.to_set() =~= s.to_set().remove(s[0]));
}

/// Two sorted signature lists holding the same signatures are equal.
pub proof fn lemma_sorted_sigs_unique(s1: Seq<SigView>, s2: Seq<SigView>)
    requires
        sorted_sigs(s1),
        sorted_sigs(s2),
        s1.to_set() == s2.to_set(),
    ensures
        s1 == s2,
    decreases s1.len(),
{
    if s1.len() == 0 {
        if s2.len() > 0 {
            assert(s2.to_set().contains(s2[0]));
        }
        assert(s1 =~= s2);
    } else {
        assert(s1.to_set().contains(s1[0]));
        assert(s2.len() > 0);
        assert(s2.to_set().contains(s2[0]));
        let j = choose|j: int| 0 <= j < s2.len() && s2[j] == s1[0];
        let k = choose|k: int| 0 <= k < s1.len() && s1[k] == s2[0];
        if j > 0 {
            assert(sig_lt(s2[0], s2[j]));
            if k > 0 {
                assert(sig_lt(s1[0], s1[k]));
                lemma_sig_asymmetric(s2[0], s1[0]);
            } else {
                lemma_sig_irreflexive(s1[0]);
            }
        }
        assert(s1[0] == s2[0]);
        lemma_sorted_drop_first(s1);
        lemma_sorted_drop_first(s2);
        lemma_sorted_sigs_unique(s1.drop_first(), s2.drop_first());
        assert(s1 =~= seq![s1[0]] + s1.drop_first());
        assert(s2 =~= seq![s2[0]] + s2.drop_first());
    }
}

} // verus!
