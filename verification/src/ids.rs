//! Node and edge identifiers and canonical (sorted, duplicate-free) id lists.
use vstd::prelude::*;

verus! {

/// Identifier of a node: the index of its slot in the graph.
#[derive(Debug, Clone, Copy, PartialEq, Eq, Hash, PartialOrd, Ord, Structural)]
pub struct NodeId {
    pub raw: u64,
}

/// Identifier of a hyperedge: the index of its slot in the graph.
#[derive(Debug, Clone, Copy, PartialEq, Eq, Hash, PartialOrd, Ord, Structural)]
pub struct EdgeId {
    pub raw: u64,
}

impl NodeId {
    /// Wraps a raw identifier.
    pub fn from_raw(raw: u64) -> (id: NodeId)
        ensures
            id.raw == raw,
    {
        NodeId { raw }
    }

    /// Returns the raw identifier.
    pub fn as_raw(&self) -> (raw: u64)
        ensures
            raw == self.raw,
    {
        self.raw
    }
}

impl EdgeId {
    /// Wraps a raw identifier.
    pub fn from_raw(raw: u64) -> (id: EdgeId)
        ensures
            id.raw == raw,
    {
        EdgeId { raw }
    }

    /// Returns the raw identifier.
    pub fn as_raw(&self) -> (raw: u64)
        ensures
            raw == self.raw,
    {
        self.raw
    }
}

/// The raw identifiers of a sequence of node ids, in order.
pub open spec fn raw_ids(ids: Seq<NodeId>) -> Seq<u64> {
    ids.map_values(|n: NodeId| n.raw)
}

/// The node ids wrapping a sequence of raw identifiers, in order.
pub open spec fn wrap_ids(raw: Seq<u64>) -> Seq<NodeId> {
    raw.map_values(|r: u64| NodeId { raw: r })
}

/// The sequence is strictly increasing (hence sorted and free of duplicates).
pub open spec fn strictly_sorted(s: Seq<u64>) -> bool {
    forall|i: int, j: int| 0 <= i < j < s.len() ==> s[i] < s[j]
}

/// The canonical form of a list of identifiers: the strictly increasing
/// sequence holding exactly the same identifiers.
pub open spec fn canonical_of(s: Seq<u64>) -> Seq<u64> {
    choose|t: Seq<u64>| strictly_sorted(t) && t.to_set() == s.to_set()
}

/// Two strictly increasing sequences with the same elements are equal.
pub proof fn lemma_sorted_same_set_equal(a: Seq<u64>, b: Seq<u64>)
    requires
        strictly_sorted(a),
        strictly_sorted(b),
        a.to_set() == b.to_set(),
    ensures
        a == b,
    decreases a.len(),
{
    if a.len() == 0 {
        if b.len() > 0 {
            assert(b.to_set().contains(b[0]));
        }
        assert(b.len() == 0);
        assert(a =~= b);
    } else {
        if b.len() == 0 {
            assert(a.to_set().contains(a[0]));
        }
        assert(a.to_set().contains(a[0]));
        assert(b.to_set().contains(a[0]));
        let j = choose|j: int| 0 <= j < b.len() && b[j] == a[0];
        assert(b.to_set().contains(b[0]));
        assert(a.to_set().contains(b[0]));
        let i = choose|i: int| 0 <= i < a.len() && a[i] == b[0];
        assert(a[0] <= a[i]);
        assert(b[0] <= b[j]);
        assert(a[0] == b[0]);
        let a1 = a.drop_first();
        let b1 = b.drop_first();
        assert forall|x: u64| a1.to_set().contains(x) implies b1.to_set().contains(x) by {
            let k = choose|k: int| 0 <= k < a1.len() && a1[k] == x;
            assert(a[k + 1] == x);
            assert(a.to_set().contains(x));
            assert(b.to_set().contains(x));
            let m = choose|m: int| 0 <= m < b.len() && b[m] == x;
            assert(m != 0);
            assert(b1[m - 1] == x);
        }
        assert forall|x: u64| b1.to_set().contains(x) implies a1.to_set().contains(x) by {
            let k = choose|k: int| 0 <= k < b1.len() && b1[k] == x;
            assert(b[k + 1] == x);
            assert(b.to_set().contains(x));
            assert(a.to_set().contains(x));
            let m = choose|m: int| 0 <= m < a.len() && a[m] == x;
            assert(m != 0);
            assert(a1[m - 1] == x);
        }
        assert(a1.to_set() =~= b1.to_set());
        lemma_sorted_same_set_equal(a1, b1);
        assert(a =~= b) by {
            assert forall|k: int| 0 <= k < a.len() implies a[k] == b[k] by {
                if k > 0 {
                    assert(a[k] == a1[k - 1]);
                    assert(b[k] == b1[k - 1]);
                }
            }
        }
    }
}

/// A strictly increasing sequence is the canonical form of any sequence with the same elements.
pub proof fn lemma_canonical_of(t: Seq<u64>, s: Seq<u64>)
    requires
        strictly_sorted(t),
        t.to_set() == s.to_set(),
    ensures
        canonical_of(s) == t,
{
    let c = canonical_of(s);
    assert(strictly_sorted(c) && c.to_set() == s.to_set());
    lemma_sorted_same_set_equal(c, t);
}

/// A strictly increasing sequence holds no element twice, so its length is the size of its set.
pub proof fn lemma_sorted_len(s: Seq<u64>)
    requires
        strictly_sorted(s),
    ensures
        s.no_duplicates(),
        s.to_set().len() == s.len(),
        s.to_set().finite(),
{
    assert(s.no_duplicates()) by {
        assert forall|i: int, j: int| 0 <= i < s.len() && 0 <= j < s.len() && i != j implies s[i]
            != s[j] by {
            if i < j {
                assert(s[i] < s[j]);
            } else {
                assert(s[j] < s[i]);
            }
        }
    }
    s.unique_seq_to_set();
    vstd::seq_lib::seq_to_set_is_finite(s);
}

proof fn lemma_sorted_ge_index(s: Seq<u64>, i: int)
    requires
        strictly_sorted(s),
        0 <= i < s.len(),
    ensures
        s[i] >= i,
    decreases i,
{
    if i > 0 {
        lemma_sorted_ge_index(s, i - 1);
    }
}

/// A strictly increasing sequence of values below `m` has at most `m` elements.
pub proof fn lemma_sorted_bounded_len(s: Seq<u64>, m: int)
    requires
        strictly_sorted(s),
        0 <= m,
        forall|i: int| 0 <= i < s.len() ==> s[i] < m,
    ensures
        s.len() <= m,
{
    if s.len() > 0 {
        lemma_sorted_ge_index(s, s.len() - 1);
        assert(s[s.len() - 1] < m);
    }
}

/// Whether `x` occurs in `v`, scanning the whole vector.
pub fn contains_raw(v: &Vec<u64>, x: u64) -> (found: bool)
    ensures
        found == v@.contains(x),
{
    let mut i: usize = 0;
    while i < v.len()
        invariant
            i <= v.len(),
            forall|k: int| 0 <= k < i ==> v@[k] != x,
        decreases v.len() - i,
    {
        if v[i] == x {
            return true;
        }
        i = i + 1;
    }
    false
}

/// Inserts `x` into a strictly increasing vector, keeping it strictly increasing.
pub fn insert_sorted(v: &mut Vec<u64>, x: u64)
    requires
        strictly_sorted(old(v)@),
    ensures
        strictly_sorted(final(v)@),
        final(v)@.to_set() == old(v)@.to_set().insert(x),
        old(v)@.contains(x) ==> final(v)@ == old(v)@,
        !old(v)@.contains(x) ==> final(v)@.len() == old(v)@.len() + 1,
{
    let mut i: usize = 0;
    while i < v.len() && v[i] < x
        invariant
            i <= v.len(),
            strictly_sorted(v@),
            forall|k: int| 0 <= k < i ==> v@[k] < x,
        decreases v.len() - i,
    {
        i = i + 1;
    }
    if i < v.len() && v[i] == x {
        assert(v@.to_set() =~= v@.to_set().insert(x));
        return;
    }
    let ghost old_v = v@;
    proof {
        assert forall|k: int| i <= k < old_v.len() implies old_v[k] > x by {
            if k > i {
                assert(old_v[i as int] < old_v[k]);
            }
        }
        assert(!old_v.contains(x));
    }
    v.insert(i, x);
    proof {
        let nv = v@;
        assert forall|a: int, b: int| 0 <= a < b < nv.len() implies nv[a] < nv[b] by {
            if b < i {
            } else if b == i {
            } else if a < i {
                assert(nv[b] == old_v[b - 1]);
            } else if a == i {
                assert(nv[b] == old_v[b - 1]);
            } else {
                assert(nv[a] == old_v[a - 1]);
                assert(nv[b] == old_v[b - 1]);
            }
        }
        assert forall|y: u64| nv.to_set().contains(y) <==> old_v.to_set().insert(x).contains(y) by {
            if nv.to_set().contains(y) {
                let k = choose|k: int| 0 <= k < nv.len() && nv[k] == y;
                if k < i {
                    assert(old_v[k] == y);
                } else if k > i {
                    assert(old_v[k - 1] == y);
                }
            }
            if old_v.to_set().contains(y) {
                let k = choose|k: int| 0 <= k < old_v.len() && old_v[k] == y;
                if k < i {
                    assert(nv[k] == y);
                } else {
                    assert(nv[k + 1] == y);
                }
            }
            if y == x {
                assert(nv[i as int] == x);
            }
        }
        assert(nv.to_set() =~= old_v.to_set().insert(x));
    }
}

/// Removes `x` from a strictly increasing vector, keeping it strictly increasing.
pub fn remove_sorted(v: &mut Vec<u64>, x: u64)
    requires
        strictly_sorted(old(v)@),
    ensures
        strictly_sorted(final(v)@),
        final(v)@.to_set() == old(v)@.to_set().remove(x),
{
    let mut i: usize = 0;
    while i < v.len() && v[i] != x
        invariant
            i <= v.len(),
            forall|k: int| 0 <= k < i ==> v@[k] != x,
        decreases v.len() - i,
    {
        i = i + 1;
    }
    if i == v.len() {
        assert(v@.to_set() =~= v@.to_set().remove(x));
        return;
    }
    let ghost old_v = v@;
    v.remove(i);
    proof {
        let nv = v@;
        assert forall|a: int, b: int| 0 <= a < b < nv.len() implies nv[a] < nv[b] by {
            if a < i && b < i {
            } else if a < i {
                assert(nv[b] == old_v[b + 1]);
            } else {
                assert(nv[a] == old_v[a + 1]);
                assert(nv[b] == old_v[b + 1]);
            }
        }
        assert forall|y: u64| nv.to_set().contains(y) <==> old_v.to_set().remove(x).contains(y) by {
            if nv.to_set().contains(y) {
                let k = choose|k: int| 0 <= k < nv.len() && nv[k] == y;
                if k < i {
                    assert(old_v[k] == y);
                    assert(old_v[k] < old_v[i as int]);
                } else {
                    assert(old_v[k + 1] == y);
                    assert(old_v[i as int] < old_v[k + 1]);
                }
            }
            if old_v.to_set().remove(x).contains(y) {
                let k = choose|k: int| 0 <= k < old_v.len() && old_v[k] == y;
                assert(k != i);
                if k < i {
                    assert(nv[k] == y);
                } else {
                    assert(nv[k - 1] == y);
                }
            }
        }
        assert(nv.to_set() =~= old_v.to_set().remove(x));
    }
}

/// Sorts a list of node ids and drops duplicates.
pub fn canonicalize_nodes(nodes: &[NodeId]) -> (out: Vec<u64>)
    ensures
        strictly_sorted(out@),
        out@.to_set() == raw_ids(nodes@).to_set(),
        out@ == canonical_of(raw_ids(nodes@)),
{
    let mut out: Vec<u64> = Vec::new();
    let mut i: usize = 0;
    while i < nodes.len()
        invariant
            i <= nodes@.len(),
            strictly_sorted(out@),
            out@.to_set() == raw_ids(nodes@.take(i as int)).to_set(),
        decreases nodes@.len() - i,
    {
        insert_sorted(&mut out, nodes[i].raw);
        proof {
            let prev = raw_ids(nodes@.take(i as int));
            let next = raw_ids(nodes@.take(i + 1));
            assert(next =~= prev.push(nodes@[i as int].raw));
            prev.lemma_push_to_set_commute(nodes@[i as int].raw);
        }
        i = i + 1;
    }
    proof {
        assert(nodes@.take(nodes@.len() as int) =~= nodes@);
        lemma_canonical_of(out@, raw_ids(nodes@));
    }
    out
}

/// Wraps raw identifiers into node ids.
pub fn to_node_ids(raw: &Vec<u64>) -> (ids: Vec<NodeId>)
    ensures
        ids@ == wrap_ids(raw@),
        raw_ids(ids@) == raw@,
{
    let mut ids: Vec<NodeId> = Vec::new();
    let mut i: usize = 0;
    while i < raw.len()
        invariant
            i <= raw@.len(),
            ids@ == wrap_ids(raw@.take(i as int)),
        decreases raw@.len() - i,
    {
        ids.push(NodeId { raw: raw[i] });
        proof {
            assert(wrap_ids(raw@.take(i + 1)) =~= wrap_ids(raw@.take(i as int)).push(
                NodeId { raw: raw@[i as int] },
            ));
        }
        i = i + 1;
    }
    proof {
        assert(raw@.take(raw@.len() as int) =~= raw@);
        assert(raw_ids(ids@) =~= raw@);
    }
    ids
}

/// Whether two vectors of raw identifiers are equal.
pub fn vec_eq_raw(a: &Vec<u64>, b: &Vec<u64>) -> (eq: bool)
    ensures
        eq == (a@ == b@),
{
    if a.len() != b.len() {
        return false;
    }
    let mut i: usize = 0;
    while i < a.len()
        invariant
            a@.len() == b@.len(),
            i <= a@.len(),
            forall|k: int| 0 <= k < i ==> a@[k] == b@[k],
        decreases a@.len() - i,
    {
        if a[i] != b[i] {
            return false;
        }
        i = i + 1;
    }
    assert(a@ =~= b@);
    true
}

/// Copies a vector of raw identifiers.
pub fn copy_raw(v: &Vec<u64>) -> (out: Vec<u64>)
    ensures
        out@ == v@,
{
    let mut out: Vec<u64> = Vec::new();
    let mut i: usize = 0;
    while i < v.len()
        invariant
            i <= v@.len(),
            out@ == v@.take(i as int),
        decreases v@.len() - i,
    {
        out.push(v[i]);
        proof {
            assert(v@.take(i + 1) =~= v@.take(i as int).push(v@[i as int]));
        }
        i = i + 1;
    }
    proof {
        assert(v@.take(v@.len() as int) =~= v@);
    }
    out
}

} // verus!
