//! Ordered map over `InternalKey`, implemented as a skip list.
//!
//! Nodes live in an arena (`nodes`) and are addressed by stable integer
//! indices; slot 0 is the sentinel head. Each node carries one forward
//! link per level of its randomly chosen height; index 0 marks the end of
//! a chain. A deleted node is unlinked from every chain but its slot is
//! not reused. The abstract value of the list is the finite map from key
//! to value over the level-0 chain.

use vstd::prelude::*;
use vstd::set_lib::lemma_len_subset;

use crate::encoding::copy_bytes;
use crate::internal_key::{
    key_model_lt, lemma_key_lt_connex, lemma_key_lt_irreflexive, lemma_key_lt_transitive,
    InternalKey, KeyModel, KeyType,
};
use crate::storage_errors::StorageError;

verus! {

/// The largest height a node can draw; bounds search cost at
/// O(log n) with high probability for lists up to 2^12 entries.
pub const MAX_HEIGHT: usize = 12;

struct Node {
    key: InternalKey,
    value: Vec<u8>,
    forwards: Vec<usize>,
}

/// The finite map described by a sequence of key/value pairs, later pairs
/// overriding earlier ones.
pub open spec fn entries_map(s: Seq<(KeyModel, Seq<u8>)>) -> Map<KeyModel, Seq<u8>>
    decreases s.len(),
{
    if s.len() == 0 {
        Map::empty()
    } else {
        entries_map(s.drop_last()).insert(s.last().0, s.last().1)
    }
}

/// The keys of a pair sequence are pairwise distinct.
pub open spec fn distinct_keys(s: Seq<(KeyModel, Seq<u8>)>) -> bool {
    forall|p: int, q: int| 0 <= p < q < s.len() ==> (#[trigger] s[p]).0 != (#[trigger] s[q]).0
}

/// A key is in the map iff some pair carries it.
pub proof fn lemma_entries_map_contains(s: Seq<(KeyModel, Seq<u8>)>, k: KeyModel)
    ensures
        entries_map(s).contains_key(k) <==> exists|p: int| 0 <= p < s.len() && (#[trigger] s[p]).0
            == k,
    decreases s.len(),
{
    if s.len() > 0 {
        lemma_entries_map_contains(s.drop_last(), k);
        if s.last().0 == k {
            assert(s[s.len() - 1].0 == k);
        } else if entries_map(s).contains_key(k) {
            let p = choose|p: int| 0 <= p < s.drop_last().len() && (#[trigger] s.drop_last()[p]).0
                == k;
            assert(s[p].0 == k);
        } else {
            assert forall|p: int| 0 <= p < s.len() implies (#[trigger] s[p]).0 != k by {
                if p < s.len() - 1 {
                    assert(s.drop_last()[p].0 == s[p].0);
                }
            }
        }
    }
}

/// With distinct keys, the map sends each listed key to its listed value.
pub proof fn lemma_entries_map_index(s: Seq<(KeyModel, Seq<u8>)>, p: int)
    requires
        distinct_keys(s),
        0 <= p < s.len(),
    ensures
        entries_map(s).contains_key(s[p].0),
        entries_map(s)[s[p].0] == s[p].1,
    decreases s.len(),
{
    if p == s.len() - 1 {
    } else {
        assert(s.drop_last()[p] == s[p]);
        lemma_entries_map_index(s.drop_last(), p);
    }
}

/// With distinct keys, the map has exactly one entry per pair.
pub proof fn lemma_entries_map_len(s: Seq<(KeyModel, Seq<u8>)>)
    requires
        distinct_keys(s),
    ensures
        entries_map(s).dom().finite(),
        entries_map(s).dom().len() == s.len(),
    decreases s.len(),
{
    if s.len() > 0 {
        lemma_entries_map_len(s.drop_last());
        lemma_entries_map_contains(s.drop_last(), s.last().0);
        assert(forall|p: int| 0 <= p < s.drop_last().len() ==> (#[trigger] s.drop_last()[p]).0
            != s.last().0);
        assert(!entries_map(s.drop_last()).contains_key(s.last().0));
        assert(entries_map(s).dom() =~= entries_map(s.drop_last()).dom().insert(s.last().0));
    }
}

/// Inserting a pair with a fresh key anywhere in the sequence inserts it
/// into the map.
pub proof fn lemma_entries_map_insert(s: Seq<(KeyModel, Seq<u8>)>, p: int, k: KeyModel, v: Seq<u8>)
    requires
        0 <= p <= s.len(),
        forall|q: int| 0 <= q < s.len() ==> (#[trigger] s[q]).0 != k,
    ensures
        entries_map(s.insert(p, (k, v))) == entries_map(s).insert(k, v),
    decreases s.len(),
{
    let t = s.insert(p, (k, v));
    if p == s.len() {
        assert(t.drop_last() =~= s);
        assert(t.last() == (k, v));
    } else {
        assert(t.drop_last() =~= s.drop_last().insert(p, (k, v)));
        assert(t.last() == s.last());
        assert(forall|q: int| 0 <= q < s.drop_last().len() ==> (#[trigger] s.drop_last()[q]).0
            != k);
        lemma_entries_map_insert(s.drop_last(), p, k, v);
        assert(s[s.len() - 1].0 != k);
        assert(entries_map(t) =~= entries_map(s).insert(k, v));
    }
}

/// Replacing the value of the pair at one position overwrites that key in
/// the map.
pub proof fn lemma_entries_map_update(s: Seq<(KeyModel, Seq<u8>)>, p: int, v: Seq<u8>)
    requires
        distinct_keys(s),
        0 <= p < s.len(),
    ensures
        entries_map(s.update(p, (s[p].0, v))) == entries_map(s).insert(s[p].0, v),
    decreases s.len(),
{
    let t = s.update(p, (s[p].0, v));
    if p == s.len() - 1 {
        assert(t.drop_last() =~= s.drop_last());
        assert(t.last() == (s[p].0, v));
        lemma_entries_map_contains(s.drop_last(), s[p].0);
        assert(forall|q: int| 0 <= q < s.drop_last().len() ==> (#[trigger] s.drop_last()[q]).0
            != s[p].0);
        assert(!entries_map(s.drop_last()).contains_key(s[p].0));
        assert(entries_map(t) =~= entries_map(s).insert(s[p].0, v));
    } else {
        assert(t.drop_last() =~= s.drop_last().update(p, (s[p].0, v)));
        assert(t.last() == s.last());
        assert(s.drop_last()[p] == s[p]);
        lemma_entries_map_update(s.drop_last(), p, v);
        assert(s[s.len() - 1].0 != s[p].0);
        assert(entries_map(t) =~= entries_map(s).insert(s[p].0, v));
    }
}

/// Removing the pair at one position removes that key from the map.
pub proof fn lemma_entries_map_remove(s: Seq<(KeyModel, Seq<u8>)>, p: int)
    requires
        distinct_keys(s),
        0 <= p < s.len(),
    ensures
        entries_map(s.remove(p)) == entries_map(s).remove(s[p].0),
    decreases s.len(),
{
    let t = s.remove(p);
    if p == s.len() - 1 {
        assert(t =~= s.drop_last());
        lemma_entries_map_contains(s.drop_last(), s[p].0);
        assert(forall|q: int| 0 <= q < s.drop_last().len() ==> (#[trigger] s.drop_last()[q]).0
            != s[p].0);
        assert(!entries_map(s.drop_last()).contains_key(s[p].0));
        assert(entries_map(t) =~= entries_map(s).remove(s[p].0));
    } else {
        assert(t.drop_last() =~= s.drop_last().remove(p));
        assert(t.last() == s.last());
        assert(s.drop_last()[p] == s[p]);
        lemma_entries_map_remove(s.drop_last(), p);
        assert(s[s.len() - 1].0 != s[p].0);
        assert(entries_map(t) =~= entries_map(s).remove(s[p].0));
    }
}

// ---------------------------------------------------------------------------
// Chain predicates over the node arena
// ---------------------------------------------------------------------------

spec fn node_key(nodes: Seq<Node>, i: int) -> KeyModel {
    nodes[i].key@
}

spec fn node_val(nodes: Seq<Node>, i: int) -> Seq<u8> {
    nodes[i].value@
}

spec fn node_height(nodes: Seq<Node>, i: int) -> int {
    nodes[i].forwards@.len() as int
}

spec fn fwd(nodes: Seq<Node>, i: int, l: int) -> int {
    nodes[i].forwards@[l] as int
}

/// The chain `c` is the well-linked, strictly sorted list of the nodes on
/// level `l`.
spec fn chain_wf(nodes: Seq<Node>, c: Seq<int>, l: int) -> bool {
    &&& forall|p: int| 0 <= p < c.len() ==> 1 <= #[trigger] c[p] < nodes.len()
    &&& forall|p: int| 0 <= p < c.len() ==> l < node_height(nodes, #[trigger] c[p])
    &&& forall|p: int, q: int|
        0 <= p < q < c.len() ==> key_model_lt(
            node_key(nodes, #[trigger] c[p]),
            node_key(nodes, #[trigger] c[q]),
        )
    &&& fwd(nodes, 0, l) == if c.len() > 0 {
        c[0]
    } else {
        0
    }
    &&& forall|p: int|
        0 <= p < c.len() ==> fwd(nodes, #[trigger] c[p], l) == if p + 1 < c.len() {
            c[p + 1]
        } else {
            0
        }
}

/// A node stands on the chain of level `l` exactly when it is live (on the
/// level-0 chain) and tall enough.
spec fn chain_members(nodes: Seq<Node>, c0: Seq<int>, c: Seq<int>, l: int) -> bool {
    &&& forall|p: int| 0 <= p < c.len() ==> c0.contains(#[trigger] c[p])
    &&& forall|p: int|
        0 <= p < c0.len() && l < node_height(nodes, #[trigger] c0[p]) ==> c.contains(c0[p])
}

/// `u` is the chain element just before position `m`, and every element
/// before `m` sorts before `k`.
spec fn cursor_ok(nodes: Seq<Node>, c: Seq<int>, k: KeyModel, u: int, m: int) -> bool {
    &&& 0 <= m <= c.len()
    &&& forall|p: int| 0 <= p < m ==> key_model_lt(node_key(nodes, #[trigger] c[p]), k)
    &&& u == if m == 0 {
        0int
    } else {
        c[m - 1]
    }
}

/// `u` is the predecessor of `k` on the chain: position `m` splits the
/// chain into the elements before `k` and the rest.
spec fn pred_ok(nodes: Seq<Node>, c: Seq<int>, k: KeyModel, u: int, m: int) -> bool {
    &&& cursor_ok(nodes, c, k, u, m)
    &&& forall|p: int| m <= p < c.len() ==> !key_model_lt(node_key(nodes, #[trigger] c[p]), k)
}

/// On a sorted chain, once one element fails to sort before `k`, so do all
/// the later ones.
proof fn lemma_no_more_lt(nodes: Seq<Node>, c: Seq<int>, l: int, k: KeyModel, m: int)
    requires
        chain_wf(nodes, c, l),
        0 <= m <= c.len(),
        m < c.len() ==> !key_model_lt(node_key(nodes, c[m]), k),
    ensures
        forall|p: int| m <= p < c.len() ==> !key_model_lt(node_key(nodes, #[trigger] c[p]), k),
{
    assert forall|p: int| m <= p < c.len() implies !key_model_lt(
        node_key(nodes, #[trigger] c[p]),
        k,
    ) by {
        if p > m && key_model_lt(node_key(nodes, c[p]), k) {
            lemma_key_lt_transitive(node_key(nodes, c[m]), node_key(nodes, c[p]), k);
        }
    }
}

/// The bytes accounted for one entry: the encoded key length, the value
/// length, and a fixed per-entry overhead.
pub open spec fn entry_cost(k: KeyModel, v: Seq<u8>) -> int {
    k.user_key.len() as int + 9 + v.len() as int + 64
}

/// The accounted bytes of a whole entry sequence.
pub open spec fn cost_sum(s: Seq<(KeyModel, Seq<u8>)>) -> int
    decreases s.len(),
{
    if s.len() == 0 {
        0
    } else {
        cost_sum(s.drop_last()) + entry_cost(s.last().0, s.last().1)
    }
}

/// Inserting an entry adds its cost to the total.
proof fn lemma_cost_sum_insert(s: Seq<(KeyModel, Seq<u8>)>, p: int, e: (KeyModel, Seq<u8>))
    requires
        0 <= p <= s.len(),
    ensures
        cost_sum(s.insert(p, e)) == cost_sum(s) + entry_cost(e.0, e.1),
    decreases s.len(),
{
    let t = s.insert(p, e);
    if p == s.len() {
        assert(t.drop_last() =~= s);
        assert(t.last() == e);
    } else {
        assert(t.drop_last() =~= s.drop_last().insert(p, e));
        assert(t.last() == s.last());
        lemma_cost_sum_insert(s.drop_last(), p, e);
    }
}

/// Replacing the entry at one position swaps its cost in the total.
proof fn lemma_cost_sum_update(s: Seq<(KeyModel, Seq<u8>)>, p: int, e: (KeyModel, Seq<u8>))
    requires
        0 <= p < s.len(),
    ensures
        cost_sum(s.update(p, e)) == cost_sum(s) - entry_cost(s[p].0, s[p].1) + entry_cost(e.0, e.1),
    decreases s.len(),
{
    let t = s.update(p, e);
    if p == s.len() - 1 {
        assert(t.drop_last() =~= s.drop_last());
        assert(t.last() == e);
    } else {
        assert(t.drop_last() =~= s.drop_last().update(p, e));
        assert(t.last() == s.last());
        assert(s.drop_last()[p] == s[p]);
        lemma_cost_sum_update(s.drop_last(), p, e);
    }
}

/// Removing the entry at one position subtracts its cost from the total.
proof fn lemma_cost_sum_remove(s: Seq<(KeyModel, Seq<u8>)>, p: int)
    requires
        0 <= p < s.len(),
    ensures
        cost_sum(s.remove(p)) == cost_sum(s) - entry_cost(s[p].0, s[p].1),
    decreases s.len(),
{
    let t = s.remove(p);
    if p == s.len() - 1 {
        assert(t =~= s.drop_last());
    } else {
        assert(t.drop_last() =~= s.drop_last().remove(p));
        assert(t.last() == s.last());
        assert(s.drop_last()[p] == s[p]);
        lemma_cost_sum_remove(s.drop_last(), p);
    }
}

/// The total is never negative and covers each single entry.
proof fn lemma_cost_sum_bound(s: Seq<(KeyModel, Seq<u8>)>, p: int)
    requires
        -1 <= p < s.len(),
    ensures
        cost_sum(s) >= 0,
        0 <= p ==> cost_sum(s) >= entry_cost(s[p].0, s[p].1),
    decreases s.len(),
{
    if s.len() > 0 {
        if p == s.len() - 1 {
            lemma_cost_sum_bound(s.drop_last(), -1);
        } else {
            lemma_cost_sum_bound(s.drop_last(), p);
            if p >= 0 {
                assert(s.drop_last()[p] == s[p]);
            }
        }
    }
}

/// The accounted cost of a list is nonnegative and at least the cost of
/// any one live entry.
pub proof fn lemma_total_cost_bounds(s: SkipList, k: KeyModel)
    requires
        s.wf(),
    ensures
        s.total_cost() >= 0,
        s@.contains_key(k) ==> s.total_cost() >= entry_cost(k, s@[k]),
{
    s.lemma_entries_distinct();
    lemma_cost_sum_bound(s.entries(), -1);
    if s@.contains_key(k) {
        lemma_entries_map_contains(s.entries(), k);
        let p = choose|p: int| 0 <= p < s.entries().len() && (#[trigger] s.entries()[p]).0 == k;
        lemma_entries_map_index(s.entries(), p);
        lemma_cost_sum_bound(s.entries(), p);
    }
}

/// A lookup reflects the most recent update: after an insert, the exact
/// key inserted maps to the new value; after a removal it maps to
/// nothing; every other key keeps its binding either way. Together with
/// the contracts of `insert`, `delete` and `get`, this says that `get`
/// returns the most recently inserted value for a key not yet deleted,
/// and nothing after a successful delete.
pub proof fn lemma_get_reflects_updates(
    m: Map<KeyModel, Seq<u8>>,
    k: KeyModel,
    other: KeyModel,
    v: Seq<u8>,
)
    ensures
        m.insert(k, v).contains_key(k) && m.insert(k, v)[k] == v,
        !m.remove(k).contains_key(k),
        other != k ==> m.insert(k, v).contains_key(other) == m.contains_key(other),
        other != k && m.contains_key(other) ==> m.insert(k, v)[other] == m[other],
        other != k ==> m.remove(k).contains_key(other) == m.contains_key(other),
        other != k && m.contains_key(other) ==> m.remove(k)[other] == m[other],
{
}

/// The number of live entries counts each distinct key once: a fresh key
/// grows it by one, an overwrite leaves it unchanged, a successful
/// removal shrinks it by one, and removing an absent key changes nothing.
pub proof fn lemma_live_key_count(s: SkipList, k: KeyModel, v: Seq<u8>)
    requires
        s.wf(),
    ensures
        s@.dom().finite(),
        !s@.contains_key(k) ==> s@.insert(k, v).dom().len() == s@.dom().len() + 1,
        s@.contains_key(k) ==> s@.insert(k, v).dom().len() == s@.dom().len(),
        s@.contains_key(k) ==> s@.remove(k).dom().len() == s@.dom().len() - 1,
        !s@.contains_key(k) ==> s@.remove(k) == s@,
{
    s.lemma_entries_distinct();
    lemma_entries_map_len(s.entries());
    assert(s@.insert(k, v).dom() =~= s@.dom().insert(k));
    assert(s@.remove(k).dom() =~= s@.dom().remove(k));
    vstd::set::axiom_set_insert_len(s@.dom(), k);
    vstd::set::axiom_set_remove_len(s@.dom(), k);
    if !s@.contains_key(k) {
        assert(s@.remove(k) =~= s@);
    }
}

/// Inserting the same exact key twice keeps the key set of the first
/// insertion, and a lookup of that key yields the latest value.
pub proof fn lemma_idempotent_overwrite(
    m: Map<KeyModel, Seq<u8>>,
    k: KeyModel,
    v1: Seq<u8>,
    v2: Seq<u8>,
)
    ensures
        m.insert(k, v1).insert(k, v2) == m.insert(k, v2),
        m.insert(k, v1).insert(k, v2).dom().len() == m.insert(k, v1).dom().len(),
        m.insert(k, v1).insert(k, v2)[k] == v2,
{
    assert(m.insert(k, v1).insert(k, v2) =~= m.insert(k, v2));
    assert(m.insert(k, v1).insert(k, v2).dom() =~= m.insert(k, v1).dom());
}

/// An element is on `s.insert(i, v)` iff it is on `s` or is `v`.
proof fn lemma_insert_contains(s: Seq<int>, i: int, v: int, x: int)
    requires
        0 <= i <= s.len(),
    ensures
        s.insert(i, v).contains(x) <==> (s.contains(x) || x == v),
{
    let t = s.insert(i, v);
    s.insert_ensures(i, v);
    if s.contains(x) {
        let p = choose|p: int| 0 <= p < s.len() && s[p] == x;
        if p < i {
            assert(t[p] == x);
        } else {
            assert(t[p + 1] == x);
        }
    }
    if x == v {
        assert(t[i] == x);
    }
    if t.contains(x) {
        let p = choose|p: int| 0 <= p < t.len() && t[p] == x;
        if p < i {
            assert(s[p] == x);
        } else if p == i {
        } else {
            assert(s[p - 1] == x);
        }
    }
}

/// The elements of a well-formed chain are pairwise distinct.
proof fn lemma_chain_wf_distinct(nodes: Seq<Node>, c: Seq<int>, l: int)
    requires
        chain_wf(nodes, c, l),
    ensures
        forall|p: int, q: int| 0 <= p < q < c.len() ==> #[trigger] c[p] != #[trigger] c[q],
{
    assert forall|p: int, q: int| 0 <= p < q < c.len() implies #[trigger] c[p]
        != #[trigger] c[q] by {
        if c[p] == c[q] {
            assert(key_model_lt(node_key(nodes, c[p]), node_key(nodes, c[q])));
            lemma_key_lt_irreflexive(node_key(nodes, c[p]));
        }
    }
}

/// Splicing a fresh node of height `h` in after its predecessors keeps the
/// chain of each level well formed: below `h` the chain gains the node at
/// its split position, above it stays as it was.
proof fn lemma_splice_level(
    old_nodes: Seq<Node>,
    a: Seq<Node>,
    c: Seq<int>,
    l: int,
    k: KeyModel,
    n: int,
    h: int,
    u: int,
    m: int,
)
    requires
        1 <= n == old_nodes.len(),
        a.len() == n + 1,
        node_height(old_nodes, 0) == MAX_HEIGHT,
        0 <= l < MAX_HEIGHT,
        1 <= h <= MAX_HEIGHT,
        forall|i: int|
            0 <= i < n ==> (#[trigger] a[i]).key == old_nodes[i].key && a[i].forwards@.len()
                == old_nodes[i].forwards@.len(),
        forall|i: int|
            0 <= i < n && 0 <= l < node_height(old_nodes, i) && i != u ==> fwd(a, i, l) == fwd(
                old_nodes,
                i,
                l,
            ),
        a[n].key@ == k,
        node_height(a, n) == h,
        chain_wf(old_nodes, c, l),
        forall|p: int| 0 <= p < c.len() ==> node_key(old_nodes, #[trigger] c[p]) != k,
        l < h ==> pred_ok(old_nodes, c, k, u, m),
        l < h ==> 0 <= u < n && l < node_height(old_nodes, u) && fwd(a, u, l) == n,
        l < h ==> fwd(a, n, l) == (if m < c.len() {
            c[m]
        } else {
            0
        }),
        l >= h ==> u == -1,
    ensures
        chain_wf(
            a,
            if l < h {
                c.insert(m, n)
            } else {
                c
            },
            l,
        ),
{
    lemma_chain_wf_distinct(old_nodes, c, l);
    if l >= h {
        assert forall|p: int| 0 <= p < c.len() implies fwd(a, #[trigger] c[p], l) == (if p + 1
            < c.len() {
            c[p + 1]
        } else {
            0
        }) by {
            assert(fwd(a, c[p], l) == fwd(old_nodes, c[p], l));
        }
        assert(fwd(a, 0, l) == fwd(old_nodes, 0, l));
    } else {
        let t = c.insert(m, n);
        c.insert_ensures(m, n);
        // keys around the split position
        assert forall|p: int| m <= p < c.len() implies key_model_lt(
            k,
            node_key(old_nodes, #[trigger] c[p]),
        ) by {
            if !key_model_lt(k, node_key(old_nodes, c[p])) {
                lemma_key_lt_connex(k, node_key(old_nodes, c[p]));
            }
        }
        // bounds and heights
        assert forall|p: int| 0 <= p < t.len() implies 1 <= #[trigger] t[p] < a.len() && l
            < node_height(a, t[p]) by {
            if p < m {
                assert(t[p] == c[p]);
            } else if p == m {
                assert(t[p] == n);
            } else {
                assert(t[p] == c[p - 1]);
            }
        }
        // sortedness
        assert forall|p: int, q: int| 0 <= p < q < t.len() implies key_model_lt(
            node_key(a, #[trigger] t[p]),
            node_key(a, #[trigger] t[q]),
        ) by {
            if p < m {
                assert(node_key(a, t[p]) == node_key(old_nodes, c[p]));
            } else if p == m {
                assert(node_key(a, t[p]) == k);
            } else {
                assert(node_key(a, t[p]) == node_key(old_nodes, c[p - 1]));
            }
            if q < m {
                assert(node_key(a, t[q]) == node_key(old_nodes, c[q]));
            } else if q == m {
                assert(node_key(a, t[q]) == k);
            } else {
                assert(node_key(a, t[q]) == node_key(old_nodes, c[q - 1]));
            }
        }
        // head link
        if m == 0 {
            assert(u == 0);
            assert(fwd(a, 0, l) == n == t[0]);
        } else {
            assert(u == c[m - 1] && c[m - 1] >= 1);
            assert(fwd(a, 0, l) == fwd(old_nodes, 0, l));
            assert(t[0] == c[0]);
        }
        // links
        assert forall|p: int| 0 <= p < t.len() implies fwd(a, #[trigger] t[p], l) == (if p + 1
            < t.len() {
            t[p + 1]
        } else {
            0
        }) by {
            if p < m - 1 {
                assert(t[p] == c[p] && c[p] != c[m - 1]);
                assert(fwd(a, c[p], l) == fwd(old_nodes, c[p], l));
                assert(t[p + 1] == c[p + 1]);
            } else if m >= 1 && p == m - 1 {
                assert(t[p] == c[m - 1] == u);
                assert(fwd(a, u, l) == n == t[m]);
            } else if p == m {
                assert(t[p] == n);
                if m < c.len() {
                    assert(t[m + 1] == c[m]);
                }
            } else {
                assert(t[p] == c[p - 1] && p - 1 >= m);
                if m >= 1 {
                    assert(c[p - 1] != c[m - 1]);
                }
                assert(c[p - 1] >= 1);
                assert(fwd(a, c[p - 1], l) == fwd(old_nodes, c[p - 1], l));
                if p + 1 < t.len() {
                    assert(t[p + 1] == c[p]);
                }
            }
        }
    }
}

/// Splicing a fresh node in keeps the chains nested: each level's chain
/// still holds exactly the live nodes tall enough for it.
proof fn lemma_splice_members(
    old_nodes: Seq<Node>,
    a: Seq<Node>,
    c0: Seq<int>,
    c: Seq<int>,
    l: int,
    n: int,
    h: int,
    m0: int,
    m: int,
)
    requires
        n == old_nodes.len(),
        a.len() == n + 1,
        forall|i: int|
            0 <= i < n ==> (#[trigger] a[i]).forwards@.len() == old_nodes[i].forwards@.len(),
        node_height(a, n) == h,
        1 <= l < MAX_HEIGHT,
        1 <= h,
        0 <= m0 <= c0.len(),
        l < h ==> 0 <= m <= c.len(),
        chain_members(old_nodes, c0, c, l),
        forall|p: int| 0 <= p < c.len() ==> 0 <= #[trigger] c[p] < n,
        forall|p: int| 0 <= p < c0.len() ==> 0 <= #[trigger] c0[p] < n,
    ensures
        chain_members(
            a,
            c0.insert(m0, n),
            if l < h {
                c.insert(m, n)
            } else {
                c
            },
            l,
        ),
{
    let d0 = c0.insert(m0, n);
    let d = if l < h {
        c.insert(m, n)
    } else {
        c
    };
    c0.insert_ensures(m0, n);
    if l < h {
        c.insert_ensures(m, n);
    }
    assert forall|p: int| 0 <= p < d.len() implies d0.contains(#[trigger] d[p]) by {
        if l < h && p == m {
            lemma_insert_contains(c0, m0, n, n);
        } else {
            let x = if l < h && p > m {
                c[p - 1]
            } else {
                c[p]
            };
            assert(d[p] == x);
            assert(c.contains(x));
            assert(c0.contains(x));
            lemma_insert_contains(c0, m0, n, x);
        }
    }
    assert forall|p: int| 0 <= p < d0.len() && l < node_height(a, #[trigger] d0[p]) implies
        d.contains(d0[p]) by {
        if p == m0 {
            assert(d0[p] == n);
            assert(l < h);
            lemma_insert_contains(c, m, n, n);
        } else {
            let x = if p > m0 {
                c0[p - 1]
            } else {
                c0[p]
            };
            assert(d0[p] == x);
            assert(c0.contains(x));
            assert(node_height(a, x) == node_height(old_nodes, x));
            assert(c.contains(x));
            if l < h {
                lemma_insert_contains(c, m, n, x);
            }
        }
    }
}

/// Changing one node's stored value leaves every chain well formed and
/// nested, since no key, height or link moves.
proof fn lemma_value_update_preserves_chain(
    old_nodes: Seq<Node>,
    a: Seq<Node>,
    c0: Seq<int>,
    c: Seq<int>,
    l: int,
    t: int,
)
    requires
        a.len() == old_nodes.len(),
        0 <= t < old_nodes.len(),
        forall|i: int| 0 <= i < old_nodes.len() && i != t ==> #[trigger] a[i] == old_nodes[i],
        a[t].key == old_nodes[t].key,
        a[t].forwards == old_nodes[t].forwards,
        forall|p: int| 0 <= p < c.len() ==> 0 <= #[trigger] c[p] < old_nodes.len(),
        forall|p: int| 0 <= p < c0.len() ==> 0 <= #[trigger] c0[p] < old_nodes.len(),
        chain_wf(old_nodes, c, l),
        l >= 1 ==> chain_members(old_nodes, c0, c, l),
    ensures
        chain_wf(a, c, l),
        l >= 1 ==> chain_members(a, c0, c, l),
{
    assert forall|i: int| 0 <= i < old_nodes.len() implies (#[trigger] a[i]).key
        == old_nodes[i].key && a[i].forwards == old_nodes[i].forwards by {}
}

/// Relies on rand::random: draws one uniformly distributed boolean from
/// the thread-local generator.
#[verifier::external_body]
fn coin_flip() -> bool {
    rand::random::<bool>()
}

/// Draws a node height by repeated fair coin flips: starting at 1, each
/// success grows the height by one, stopping at the first failure or at
/// `MAX_HEIGHT`.
fn random_height() -> (h: usize)
    ensures
        1 <= h <= MAX_HEIGHT,
{
    let mut height: usize = 1;
    loop
        invariant
            1 <= height <= MAX_HEIGHT,
        ensures
            1 <= height <= MAX_HEIGHT,
        decreases MAX_HEIGHT - height,
    {
        if height >= MAX_HEIGHT {
            break;
        }
        if !coin_flip() {
            break;
        }
        height = height + 1;
    }
    height
}

/// One step of the splice loop: writing the predecessor of level `j`
/// advances the link-preservation picture from `j` to `j + 1`.
proof fn lemma_splice_step(
    old_nodes: Seq<Node>,
    prev: Seq<Node>,
    cur: Seq<Node>,
    n: int,
    upd: Seq<int>,
    h: int,
    j: int,
    u: int,
)
    requires
        n == old_nodes.len(),
        0 <= n <= usize::MAX,
        prev.len() == n + 1,
        cur.len() == n + 1,
        0 <= j < h,
        h <= upd.len(),
        u == upd[j],
        0 <= u < n,
        j < node_height(old_nodes, u),
        forall|i: int|
            0 <= i < n ==> (#[trigger] prev[i]).forwards@.len() == old_nodes[i].forwards@.len(),
        forall|i: int, lv: int|
            0 <= i < n && 0 <= lv < node_height(old_nodes, i) ==> #[trigger] fwd(prev, i, lv) == (
            if lv < j && upd[lv] == i {
                n
            } else {
                fwd(old_nodes, i, lv)
            }),
        forall|i: int| 0 <= i < prev.len() && i != u ==> #[trigger] cur[i] == prev[i],
        cur[u].forwards@ == prev[u].forwards@.update(j, n as usize),
    ensures
        forall|i: int, lv: int|
            0 <= i < n && 0 <= lv < node_height(old_nodes, i) ==> #[trigger] fwd(cur, i, lv) == (
            if lv < j + 1 && upd[lv] == i {
                n
            } else {
                fwd(old_nodes, i, lv)
            }),
{
    assert forall|i: int, lv: int|
        0 <= i < n && 0 <= lv < node_height(old_nodes, i) implies #[trigger] fwd(cur, i, lv) == (
    if lv < j + 1 && upd[lv] == i {
        n
    } else {
        fwd(old_nodes, i, lv)
    }) by {
        if i == u {
            if lv == j {
                assert(cur[i].forwards@[lv] == n as usize);
            } else {
                assert(cur[i].forwards@[lv] == prev[i].forwards@[lv]);
                assert(fwd(prev, i, lv) == (if lv < j && upd[lv] == i {
                    n
                } else {
                    fwd(old_nodes, i, lv)
                }));
            }
        } else {
            assert(cur[i] == prev[i]);
            assert(fwd(prev, i, lv) == (if lv < j && upd[lv] == i {
                n
            } else {
                fwd(old_nodes, i, lv)
            }));
        }
    }
}

/// All proof work that commits an insertion: with the links spliced and
/// the ghost chains extended, every chain is well formed, nesting holds,
/// and chains above the new top level are empty.
proof fn lemma_insert_commit(
    old_nodes: Seq<Node>,
    a: Seq<Node>,
    old_chains: Seq<Seq<int>>,
    new_chains: Seq<Seq<int>>,
    k: KeyModel,
    n: int,
    h: int,
    upd: Seq<int>,
    mpos: Seq<int>,
    old_cml: int,
    new_cml: int,
)
    requires
        1 <= n == old_nodes.len(),
        a.len() == n + 1,
        node_height(old_nodes, 0) == MAX_HEIGHT,
        old_chains.len() == MAX_HEIGHT,
        new_chains.len() == MAX_HEIGHT,
        1 <= h <= MAX_HEIGHT,
        upd.len() >= h,
        mpos.len() >= h,
        0 <= old_cml < MAX_HEIGHT,
        new_cml == if h > old_cml + 1 {
            h - 1
        } else {
            old_cml
        },
        forall|i: int|
            0 <= i < n ==> (#[trigger] a[i]).key == old_nodes[i].key && a[i].value
                == old_nodes[i].value && a[i].forwards@.len() == old_nodes[i].forwards@.len(),
        forall|i: int, lv: int|
            0 <= i < n && 0 <= lv < node_height(old_nodes, i) ==> #[trigger] fwd(a, i, lv) == (if lv
                < h && upd[lv] == i {
                n
            } else {
                fwd(old_nodes, i, lv)
            }),
        a[n].key@ == k,
        node_height(a, n) == h,
        forall|lv: int|
            0 <= lv < h ==> #[trigger] fwd(a, n, lv) == (if mpos[lv] < old_chains[lv].len() {
                old_chains[lv][mpos[lv]]
            } else {
                0
            }),
        forall|l: int| 0 <= l < MAX_HEIGHT ==> chain_wf(old_nodes, #[trigger] old_chains[l], l),
        forall|l: int|
            1 <= l < MAX_HEIGHT ==> chain_members(
                old_nodes,
                old_chains[0],
                #[trigger] old_chains[l],
                l,
            ),
        forall|l: int| old_cml < l < MAX_HEIGHT ==> (#[trigger] old_chains[l]).len() == 0,
        forall|l: int|
            0 <= l < h ==> pred_ok(old_nodes, #[trigger] old_chains[l], k, upd[l], mpos[l]),
        forall|p: int|
            0 <= p < old_chains[0].len() ==> node_key(old_nodes, #[trigger] old_chains[0][p]) != k,
        forall|l: int|
            0 <= l < MAX_HEIGHT ==> #[trigger] new_chains[l] == (if l < h {
                old_chains[l].insert(mpos[l], n)
            } else {
                old_chains[l]
            }),
    ensures
        forall|l: int| 0 <= l < MAX_HEIGHT ==> chain_wf(a, #[trigger] new_chains[l], l),
        forall|l: int|
            1 <= l < MAX_HEIGHT ==> chain_members(a, new_chains[0], #[trigger] new_chains[l], l),
        forall|l: int| new_cml < l < MAX_HEIGHT ==> (#[trigger] new_chains[l]).len() == 0,
        new_chains[0].len() == old_chains[0].len() + 1,
{
    // every chain's keys avoid k
    assert forall|l: int, p: int|
        0 <= l < MAX_HEIGHT && 0 <= p < old_chains[l].len() implies node_key(
        old_nodes,
        #[trigger] old_chains[l][p],
    ) != k by {
        if l >= 1 {
            assert(chain_members(old_nodes, old_chains[0], old_chains[l], l));
            assert(old_chains[0].contains(old_chains[l][p]));
            let q = choose|q: int|
                0 <= q < old_chains[0].len() && old_chains[0][q] == old_chains[l][p];
            assert(node_key(old_nodes, old_chains[0][q]) != k);
        }
    }
    assert forall|l: int| 0 <= l < MAX_HEIGHT implies chain_wf(a, #[trigger] new_chains[l], l) by {
        if l < h {
            lemma_splice_level(
                old_nodes,
                a,
                old_chains[l],
                l,
                k,
                n,
                h,
                upd[l],
                mpos[l],
            );
        } else {
            lemma_splice_level(old_nodes, a, old_chains[l], l, k, n, h, -1, 0);
        }
    }
    assert forall|l: int| 1 <= l < MAX_HEIGHT implies chain_members(
        a,
        new_chains[0],
        #[trigger] new_chains[l],
        l,
    ) by {
        assert(pred_ok(old_nodes, old_chains[0], k, upd[0], mpos[0]));
        assert(l < h ==> pred_ok(old_nodes, old_chains[l], k, upd[l], mpos[l]));
        assert(chain_wf(old_nodes, old_chains[0], 0));
        assert(chain_wf(old_nodes, old_chains[l], l));
        assert(chain_members(old_nodes, old_chains[0], old_chains[l], l));
        lemma_splice_members(
            old_nodes,
            a,
            old_chains[0],
            old_chains[l],
            l,
            n,
            h,
            mpos[0],
            if l < h {
                mpos[l]
            } else {
                0
            },
        );
    }
    assert forall|l: int| new_cml < l < MAX_HEIGHT implies (#[trigger] new_chains[l]).len()
        == 0 by {
        assert(l >= h);
        assert(l > old_cml);
    }
    assert(pred_ok(old_nodes, old_chains[0], k, upd[0], mpos[0]));
    old_chains[0].insert_ensures(mpos[0], n);
}

/// An element is on `s.remove(i)` iff it is on `s` and is not the removed
/// element (for sequences without duplicates).
proof fn lemma_remove_contains(s: Seq<int>, i: int, x: int)
    requires
        0 <= i < s.len(),
        forall|p: int, q: int| 0 <= p < q < s.len() ==> #[trigger] s[p] != #[trigger] s[q],
    ensures
        s.remove(i).contains(x) <==> (s.contains(x) && x != s[i]),
{
    let t = s.remove(i);
    s.remove_ensures(i);
    if s.contains(x) && x != s[i] {
        let p = choose|p: int| 0 <= p < s.len() && s[p] == x;
        if p < i {
            assert(t[p] == x);
        } else {
            assert(t[p - 1] == x);
        }
    }
    if t.contains(x) {
        let p = choose|p: int| 0 <= p < t.len() && t[p] == x;
        if p < i {
            assert(s[p] == x);
            assert(s[p] != s[i]);
        } else {
            assert(s[p + 1] == x);
            assert(s[p + 1] != s[i]);
        }
    }
}

/// One step of the unlink loop: rewiring the predecessor of level `j`
/// around the victim advances the link-preservation picture to `j + 1`.
proof fn lemma_unlink_step(
    old_nodes: Seq<Node>,
    prev: Seq<Node>,
    cur: Seq<Node>,
    n: int,
    victim: int,
    upd: Seq<int>,
    vh: int,
    j: int,
    u: int,
)
    requires
        n == old_nodes.len(),
        0 <= n <= usize::MAX,
        prev.len() == n,
        cur.len() == n,
        0 <= j < vh,
        vh <= upd.len(),
        u == upd[j],
        0 <= u < n,
        j < node_height(old_nodes, u),
        0 <= victim < n,
        j < node_height(old_nodes, victim),
        forall|i: int|
            0 <= i < n ==> (#[trigger] prev[i]).forwards@.len() == old_nodes[i].forwards@.len(),
        forall|i: int, lv: int|
            0 <= i < n && 0 <= lv < node_height(old_nodes, i) ==> #[trigger] fwd(prev, i, lv) == (
            if lv < j && upd[lv] == i {
                fwd(old_nodes, victim, lv)
            } else {
                fwd(old_nodes, i, lv)
            }),
        forall|i: int| 0 <= i < prev.len() && i != u ==> #[trigger] cur[i] == prev[i],
        cur[u].forwards@ == prev[u].forwards@.update(j, fwd(old_nodes, victim, j) as usize),
        0 <= fwd(old_nodes, victim, j) <= usize::MAX,
    ensures
        forall|i: int, lv: int|
            0 <= i < n && 0 <= lv < node_height(old_nodes, i) ==> #[trigger] fwd(cur, i, lv) == (if lv
                < j + 1 && upd[lv] == i {
                fwd(old_nodes, victim, lv)
            } else {
                fwd(old_nodes, i, lv)
            }),
{
    assert forall|i: int, lv: int|
        0 <= i < n && 0 <= lv < node_height(old_nodes, i) implies #[trigger] fwd(cur, i, lv) == (
    if lv < j + 1 && upd[lv] == i {
        fwd(old_nodes, victim, lv)
    } else {
        fwd(old_nodes, i, lv)
    }) by {
        if i == u {
            if lv == j {
                assert(cur[i].forwards@[lv] == fwd(old_nodes, victim, j) as usize);
            } else {
                assert(cur[i].forwards@[lv] == prev[i].forwards@[lv]);
                assert(fwd(prev, i, lv) == (if lv < j && upd[lv] == i {
                    fwd(old_nodes, victim, lv)
                } else {
                    fwd(old_nodes, i, lv)
                }));
            }
        } else {
            assert(cur[i] == prev[i]);
            assert(fwd(prev, i, lv) == (if lv < j && upd[lv] == i {
                fwd(old_nodes, victim, lv)
            } else {
                fwd(old_nodes, i, lv)
            }));
        }
    }
}

/// Unlinking the victim keeps the chain of each level well formed: below
/// the victim's height the chain loses its entry, above it stays as it
/// was.
proof fn lemma_unlink_level(
    old_nodes: Seq<Node>,
    a: Seq<Node>,
    c: Seq<int>,
    l: int,
    victim: int,
    vh: int,
    u: int,
    m: int,
)
    requires
        1 <= old_nodes.len(),
        a.len() == old_nodes.len(),
        node_height(old_nodes, 0) == MAX_HEIGHT,
        0 <= l < MAX_HEIGHT,
        1 <= vh,
        0 <= victim < old_nodes.len(),
        node_height(old_nodes, victim) == vh,
        forall|i: int|
            0 <= i < old_nodes.len() ==> (#[trigger] a[i]).key == old_nodes[i].key
                && a[i].forwards@.len() == old_nodes[i].forwards@.len(),
        forall|i: int|
            0 <= i < old_nodes.len() && 0 <= l < node_height(old_nodes, i) && i != u ==> fwd(
                a,
                i,
                l,
            ) == fwd(old_nodes, i, l),
        chain_wf(old_nodes, c, l),
        l < vh ==> 0 <= m < c.len() && c[m] == victim && u == (if m == 0 {
            0int
        } else {
            c[m - 1]
        }) && 0 <= u < old_nodes.len() && l < node_height(old_nodes, u) && fwd(a, u, l) == fwd(
            old_nodes,
            victim,
            l,
        ),
        l >= vh ==> u == -1,
    ensures
        chain_wf(
            a,
            if l < vh {
                c.remove(m)
            } else {
                c
            },
            l,
        ),
{
    lemma_chain_wf_distinct(old_nodes, c, l);
    if l >= vh {
        assert forall|p: int| 0 <= p < c.len() implies fwd(a, #[trigger] c[p], l) == (if p + 1
            < c.len() {
            c[p + 1]
        } else {
            0
        }) by {
            assert(fwd(a, c[p], l) == fwd(old_nodes, c[p], l));
        }
        assert(fwd(a, 0, l) == fwd(old_nodes, 0, l));
    } else {
        let t = c.remove(m);
        c.remove_ensures(m);
        // bounds, heights and sortedness carry over from the old chain
        assert forall|p: int| 0 <= p < t.len() implies 1 <= #[trigger] t[p] < a.len() && l
            < node_height(a, t[p]) by {
            if p < m {
                assert(t[p] == c[p]);
            } else {
                assert(t[p] == c[p + 1]);
            }
        }
        assert forall|p: int, q: int| 0 <= p < q < t.len() implies key_model_lt(
            node_key(a, #[trigger] t[p]),
            node_key(a, #[trigger] t[q]),
        ) by {
            let p2 = if p < m {
                p
            } else {
                p + 1
            };
            let q2 = if q < m {
                q
            } else {
                q + 1
            };
            assert(t[p] == c[p2] && t[q] == c[q2]);
        }
        // head link
        if m == 0 {
            assert(u == 0);
            assert(fwd(a, 0, l) == fwd(old_nodes, victim, l));
            if c.len() > 1 {
                assert(fwd(old_nodes, victim, l) == c[1]);
                assert(t[0] == c[1]);
            } else {
                assert(fwd(old_nodes, victim, l) == 0);
            }
        } else {
            assert(u == c[m - 1] && c[m - 1] >= 1);
            assert(fwd(a, 0, l) == fwd(old_nodes, 0, l));
            assert(t[0] == c[0]);
        }
        // links
        assert forall|p: int| 0 <= p < t.len() implies fwd(a, #[trigger] t[p], l) == (if p + 1
            < t.len() {
            t[p + 1]
        } else {
            0
        }) by {
            if p < m - 1 {
                assert(t[p] == c[p] && c[p] != c[m - 1]);
                assert(fwd(a, c[p], l) == fwd(old_nodes, c[p], l));
                assert(t[p + 1] == c[p + 1]);
            } else if m >= 1 && p == m - 1 {
                assert(t[p] == c[m - 1] == u);
                assert(fwd(a, u, l) == fwd(old_nodes, victim, l));
                if m + 1 < c.len() {
                    assert(fwd(old_nodes, victim, l) == c[m + 1]);
                    assert(t[m] == c[m + 1]);
                } else {
                    assert(fwd(old_nodes, victim, l) == 0);
                }
            } else {
                assert(t[p] == c[p + 1] && p + 1 > m);
                if m >= 1 {
                    assert(c[p + 1] != c[m - 1]);
                }
                assert(c[p + 1] >= 1);
                assert(fwd(a, c[p + 1], l) == fwd(old_nodes, c[p + 1], l));
                if p + 1 < t.len() {
                    assert(t[p + 1] == c[p + 2]);
                }
            }
        }
    }
}

/// Unlinking the victim keeps the chains nested.
proof fn lemma_unlink_members(
    old_nodes: Seq<Node>,
    a: Seq<Node>,
    c0: Seq<int>,
    c: Seq<int>,
    l: int,
    victim: int,
    vh: int,
    m0: int,
    m: int,
)
    requires
        a.len() == old_nodes.len(),
        forall|i: int|
            0 <= i < old_nodes.len() ==> (#[trigger] a[i]).forwards@.len()
                == old_nodes[i].forwards@.len(),
        1 <= l < MAX_HEIGHT,
        1 <= vh,
        0 <= victim < old_nodes.len(),
        node_height(old_nodes, victim) == vh,
        0 <= m0 < c0.len(),
        c0[m0] == victim,
        l < vh ==> 0 <= m < c.len() && c[m] == victim,
        chain_members(old_nodes, c0, c, l),
        forall|p: int, q: int| 0 <= p < q < c0.len() ==> #[trigger] c0[p] != #[trigger] c0[q],
        forall|p: int, q: int| 0 <= p < q < c.len() ==> #[trigger] c[p] != #[trigger] c[q],
        forall|p: int| 0 <= p < c.len() ==> l < node_height(old_nodes, #[trigger] c[p]),
        forall|p: int| 0 <= p < c.len() ==> 0 <= #[trigger] c[p] < old_nodes.len(),
        forall|p: int| 0 <= p < c0.len() ==> 0 <= #[trigger] c0[p] < old_nodes.len(),
    ensures
        chain_members(
            a,
            c0.remove(m0),
            if l < vh {
                c.remove(m)
            } else {
                c
            },
            l,
        ),
{
    let d0 = c0.remove(m0);
    let d = if l < vh {
        c.remove(m)
    } else {
        c
    };
    c0.remove_ensures(m0);
    if l < vh {
        c.remove_ensures(m);
    }
    assert forall|p: int| 0 <= p < d.len() implies d0.contains(#[trigger] d[p]) by {
        let x = if l < vh && p >= m {
            c[p + 1]
        } else {
            c[p]
        };
        assert(d[p] == x);
        assert(c.contains(x));
        if l < vh {
            assert(x != c[m]);
        } else {
            // every element of this chain is taller than the victim allows
            assert(l < node_height(old_nodes, x));
            assert(x != victim);
        }
        assert(c0.contains(x));
        lemma_remove_contains(c0, m0, x);
    }
    assert forall|p: int| 0 <= p < d0.len() && l < node_height(a, #[trigger] d0[p]) implies
        d.contains(d0[p]) by {
        let x = if p >= m0 {
            c0[p + 1]
        } else {
            c0[p]
        };
        assert(d0[p] == x);
        assert(c0.contains(x));
        assert(x != c0[m0]);
        assert(node_height(a, x) == node_height(old_nodes, x));
        assert(c.contains(x));
        if l < vh {
            lemma_remove_contains(c, m, x);
        }
    }
}

/// The chain of level `l` holds `victim` at position `m`.
spec fn chain_has_at(chains: Seq<Seq<int>>, l: int, victim: int, m: int) -> bool {
    0 <= m < chains[l].len() && chains[l][m] == victim
}

/// The exact match found by a search stands on every chain its height
/// reaches, at that level's split position; its height never exceeds the
/// current top level by more than one.
proof fn lemma_victim_positions(
    nodes: Seq<Node>,
    chains: Seq<Seq<int>>,
    cml: int,
    k: KeyModel,
    upd: Seq<int>,
    mpos: Seq<int>,
    victim: int,
    vh: int,
)
    requires
        chains.len() == MAX_HEIGHT,
        0 <= cml < MAX_HEIGHT,
        forall|l: int| 0 <= l < MAX_HEIGHT ==> chain_wf(nodes, #[trigger] chains[l], l),
        forall|l: int| 1 <= l < MAX_HEIGHT ==> chain_members(nodes, chains[0], #[trigger] chains[l], l),
        forall|l: int| cml < l < MAX_HEIGHT ==> (#[trigger] chains[l]).len() == 0,
        forall|p: int|
            0 <= p < chains[0].len() ==> node_height(nodes, #[trigger] chains[0][p]) <= MAX_HEIGHT,
        upd.len() == cml + 1,
        mpos.len() == upd.len(),
        forall|l: int|
            0 <= l < upd.len() ==> pred_ok(nodes, chains[l], k, #[trigger] upd[l], mpos[l]),
        0 <= mpos[0] < chains[0].len(),
        victim == chains[0][mpos[0]],
        node_key(nodes, victim) == k,
        vh == node_height(nodes, victim),
    ensures
        1 <= vh <= cml + 1,
        forall|l: int| 0 <= l < vh ==> #[trigger] chain_has_at(chains, l, victim, mpos[l]),
{
    let c0 = chains[0];
    assert(chain_wf(nodes, c0, 0));
    assert(0 < vh);
    assert(vh <= MAX_HEIGHT);
    if vh > cml + 1 {
        let lx = cml + 1;
        assert(lx < MAX_HEIGHT);
        assert(chain_members(nodes, c0, chains[lx], lx));
        assert(c0.contains(victim));
        assert(chains[lx].contains(victim));
        assert(chains[lx].len() == 0);
    }
    assert forall|l: int| 0 <= l < vh implies #[trigger] chain_has_at(chains, l, victim, mpos[l]) by {
        let c = chains[l];
        assert(chain_wf(nodes, c, l));
        if l == 0 {
            assert(mpos[0] < c.len() && c[mpos[0]] == victim);
        } else {
            assert(chain_members(nodes, c0, c, l));
            assert(c0.contains(victim));
            assert(c.contains(victim));
            let q = choose|q: int| 0 <= q < c.len() && c[q] == victim;
            let m = mpos[l];
            assert(pred_ok(nodes, c, k, upd[l], m));
            if q < m {
                assert(key_model_lt(node_key(nodes, c[q]), k));
                lemma_key_lt_irreflexive(k);
            }
            if q > m {
                assert(key_model_lt(node_key(nodes, c[m]), node_key(nodes, c[q])));
                assert(!key_model_lt(node_key(nodes, c[m]), k));
            }
            assert(q == m);
        }
    }
}

/// All proof work that commits a deletion: with the victim unlinked and
/// the ghost chains shortened, every chain is well formed and nesting
/// holds.
proof fn lemma_delete_commit(
    old_nodes: Seq<Node>,
    a: Seq<Node>,
    old_chains: Seq<Seq<int>>,
    new_chains: Seq<Seq<int>>,
    victim: int,
    vh: int,
    upd: Seq<int>,
    mpos: Seq<int>,
)
    requires
        1 <= old_nodes.len(),
        a.len() == old_nodes.len(),
        node_height(old_nodes, 0) == MAX_HEIGHT,
        old_chains.len() == MAX_HEIGHT,
        new_chains.len() == MAX_HEIGHT,
        1 <= vh <= MAX_HEIGHT,
        vh <= upd.len(),
        vh <= mpos.len(),
        0 <= victim < old_nodes.len(),
        node_height(old_nodes, victim) == vh,
        forall|i: int|
            0 <= i < old_nodes.len() ==> (#[trigger] a[i]).key == old_nodes[i].key && a[i].value
                == old_nodes[i].value && a[i].forwards@.len() == old_nodes[i].forwards@.len(),
        forall|i: int, lv: int|
            0 <= i < old_nodes.len() && 0 <= lv < node_height(old_nodes, i) ==> #[trigger] fwd(
                a,
                i,
                lv,
            ) == (if lv < vh && upd[lv] == i {
                fwd(old_nodes, victim, lv)
            } else {
                fwd(old_nodes, i, lv)
            }),
        forall|l: int| 0 <= l < MAX_HEIGHT ==> chain_wf(old_nodes, #[trigger] old_chains[l], l),
        forall|l: int|
            1 <= l < MAX_HEIGHT ==> chain_members(
                old_nodes,
                old_chains[0],
                #[trigger] old_chains[l],
                l,
            ),
        forall|l: int| 0 <= l < vh ==> #[trigger] chain_has_at(old_chains, l, victim, mpos[l]),
        forall|l: int|
            0 <= l < vh ==> #[trigger] upd[l] == (if mpos[l] == 0 {
                0int
            } else {
                old_chains[l][mpos[l] - 1]
            }),
        forall|l: int|
            0 <= l < MAX_HEIGHT ==> #[trigger] new_chains[l] == (if l < vh {
                old_chains[l].remove(mpos[l])
            } else {
                old_chains[l]
            }),
    ensures
        forall|l: int| 0 <= l < MAX_HEIGHT ==> chain_wf(a, #[trigger] new_chains[l], l),
        forall|l: int|
            1 <= l < MAX_HEIGHT ==> chain_members(a, new_chains[0], #[trigger] new_chains[l], l),
        new_chains[0].len() == old_chains[0].len() - 1,
{
    assert forall|l: int| 0 <= l < MAX_HEIGHT implies chain_wf(a, #[trigger] new_chains[l], l) by {
        assert(chain_wf(old_nodes, old_chains[l], l));
        if l < vh {
            let c = old_chains[l];
            let m = mpos[l];
            let u = upd[l];
            assert(chain_has_at(old_chains, l, victim, m));
            lemma_chain_wf_distinct(old_nodes, c, l);
            assert(fwd(a, u, l) == fwd(old_nodes, victim, l)) by {
                if m == 0 {
                    assert(u == 0);
                } else {
                    assert(u == c[m - 1] && u != victim);
                    assert(0 <= u < old_nodes.len() && l < node_height(old_nodes, u));
                }
            }
            if m == 0 {
                lemma_unlink_level(old_nodes, a, c, l, victim, vh, 0, m);
            } else {
                lemma_unlink_level(old_nodes, a, c, l, victim, vh, c[m - 1], m);
            }
        } else {
            lemma_unlink_level(old_nodes, a, old_chains[l], l, victim, vh, -1, 0);
        }
    }
    assert forall|l: int| 1 <= l < MAX_HEIGHT implies chain_members(
        a,
        new_chains[0],
        #[trigger] new_chains[l],
        l,
    ) by {
        assert(chain_wf(old_nodes, old_chains[0], 0));
        assert(chain_wf(old_nodes, old_chains[l], l));
        assert(chain_members(old_nodes, old_chains[0], old_chains[l], l));
        lemma_chain_wf_distinct(old_nodes, old_chains[0], 0);
        lemma_chain_wf_distinct(old_nodes, old_chains[l], l);
        assert(chain_has_at(old_chains, 0, victim, mpos[0]));
        assert(l < vh ==> chain_has_at(old_chains, l, victim, mpos[l]));
        lemma_unlink_members(
            old_nodes,
            a,
            old_chains[0],
            old_chains[l],
            l,
            victim,
            vh,
            mpos[0],
            if l < vh {
                mpos[l]
            } else {
                0
            },
        );
    }
    assert(chain_has_at(old_chains, 0, victim, mpos[0]));
    old_chains[0].remove_ensures(mpos[0]);
}

/// The step of `lemma_descend` stated over explicit chains.
#[verifier::rlimit(50)]
proof fn lemma_descend_chain(
    nodes: Seq<Node>,
    c0: Seq<int>,
    c: Seq<int>,
    d: Seq<int>,
    l: int,
    k: KeyModel,
    u: int,
    m: int,
) -> (m2: int)
    requires
        l >= 1,
        chain_wf(nodes, c, l),
        chain_wf(nodes, d, l - 1),
        chain_members(nodes, c0, c, l),
        l - 1 == 0 ==> d == c0,
        l - 1 >= 1 ==> chain_members(nodes, c0, d, l - 1),
        cursor_ok(nodes, c, k, u, m),
    ensures
        cursor_ok(nodes, d, k, u, m2),
{
    if m == 0 {
        0
    } else {
        assert(c[m - 1] == u && 0 <= m - 1 < c.len());
        assert(c0.contains(u));
        assert(key_model_lt(node_key(nodes, u), k));
        if l - 1 == 0 {
            assert(d.contains(u));
        } else {
            let p0 = choose|p0: int| 0 <= p0 < c0.len() && c0[p0] == u;
            assert(l < node_height(nodes, u));
            assert(l - 1 < node_height(nodes, c0[p0]));
            assert(d.contains(c0[p0]));
        }
        let q = choose|q: int| 0 <= q < d.len() && d[q] == u;
        assert forall|p: int| 0 <= p < q + 1 implies key_model_lt(
            node_key(nodes, #[trigger] d[p]),
            k,
        ) by {
            if p < q {
                assert(key_model_lt(node_key(nodes, d[p]), node_key(nodes, d[q])));
                lemma_key_lt_transitive(node_key(nodes, d[p]), node_key(nodes, u), k);
            }
        }
        q + 1
    }
}

pub struct SkipList {
    nodes: Vec<Node>,
    current_max_level: usize,
    length: usize,
    chains: Ghost<Seq<Seq<int>>>,
}

impl View for SkipList {
    type V = Map<KeyModel, Seq<u8>>;

    closed spec fn view(&self) -> Map<KeyModel, Seq<u8>> {
        entries_map(self.entries())
    }
}

impl SkipList {
    /// The live entries in key order.
    pub closed spec fn entries(self) -> Seq<(KeyModel, Seq<u8>)> {
        Seq::new(
            self.chains@[0].len(),
            |p: int|
                (
                    node_key(self.nodes@, self.chains@[0][p]),
                    node_val(self.nodes@, self.chains@[0][p]),
                ),
        )
    }

    /// The accounted bytes of all live entries.
    pub closed spec fn total_cost(self) -> int {
        cost_sum(self.entries())
    }

    /// Structural invariant: twelve well-formed chains, nested by height,
    /// empty above the tracked top level, with the tracked length counting
    /// the level-0 chain.
    pub closed spec fn wf(self) -> bool {
        &&& 1 <= self.nodes@.len()
        &&& node_height(self.nodes@, 0) == MAX_HEIGHT
        &&& self.chains@.len() == MAX_HEIGHT
        &&& self.current_max_level < MAX_HEIGHT
        &&& self.length == self.chains@[0].len()
        &&& forall|l: int| 0 <= l < MAX_HEIGHT ==> chain_wf(self.nodes@, #[trigger] self.chains@[l], l)
        &&& forall|l: int|
            1 <= l < MAX_HEIGHT ==> chain_members(
                self.nodes@,
                self.chains@[0],
                #[trigger] self.chains@[l],
                l,
            )
        &&& forall|l: int|
            self.current_max_level < l < MAX_HEIGHT ==> (#[trigger] self.chains@[l]).len() == 0
        &&& forall|p: int|
            0 <= p < self.chains@[0].len() ==> node_height(
                self.nodes@,
                #[trigger] self.chains@[0][p],
            ) <= MAX_HEIGHT
    }

    /// The elements of a well-formed chain are pairwise distinct.
    proof fn lemma_chain_distinct(self, l: int)
        requires
            self.wf(),
            0 <= l < MAX_HEIGHT,
        ensures
            forall|p: int, q: int|
                0 <= p < q < self.chains@[l].len() ==> #[trigger] self.chains@[l][p]
                    != #[trigger] self.chains@[l][q],
    {
        let c = self.chains@[l];
        assert forall|p: int, q: int| 0 <= p < q < c.len() implies #[trigger] c[p]
            != #[trigger] c[q] by {
            if c[p] == c[q] {
                assert(key_model_lt(node_key(self.nodes@, c[p]), node_key(self.nodes@, c[q])));
                lemma_key_lt_irreflexive(node_key(self.nodes@, c[p]));
            }
        }
    }

    /// The keys of the live entries are pairwise distinct.
    proof fn lemma_entries_distinct(self)
        requires
            self.wf(),
        ensures
            distinct_keys(self.entries()),
    {
        let s = self.entries();
        let c = self.chains@[0];
        assert forall|p: int, q: int| 0 <= p < q < s.len() implies (#[trigger] s[p]).0
            != (#[trigger] s[q]).0 by {
            assert(key_model_lt(node_key(self.nodes@, c[p]), node_key(self.nodes@, c[q])));
            lemma_key_lt_irreflexive(node_key(self.nodes@, c[p]));
        }
    }

    /// A chain of distinct indices drawn from `1..nodes.len()` is shorter
    /// than the arena.
    proof fn lemma_chain_len_bound(self, l: int)
        requires
            self.wf(),
            0 <= l < MAX_HEIGHT,
        ensures
            self.chains@[l].len() < self.nodes@.len(),
    {
        let c = self.chains@[l];
        self.lemma_chain_distinct(l);
        let s = c.to_set();
        c.unique_seq_to_set();
        let n = self.nodes@.len() as int;
        let bound = vstd::set_lib::set_int_range(1, n);
        assert forall|x: int| s.contains(x) implies bound.contains(x) by {
            let p = choose|p: int| 0 <= p < c.len() && c[p] == x;
            assert(1 <= c[p] < n);
        }
        vstd::set_lib::lemma_int_range(1, n);
        lemma_len_subset(s, bound);
    }

    /// Carries a search cursor down one level: the node it rests on also
    /// stands on the chain below, at some position all of whose
    /// predecessors sort before the key.
    proof fn lemma_descend(self, l: int, k: KeyModel, u: int, m: int) -> (m2: int)
        requires
            self.wf(),
            1 <= l < MAX_HEIGHT,
            cursor_ok(self.nodes@, self.chains@[l], k, u, m),
        ensures
            cursor_ok(self.nodes@, self.chains@[l - 1], k, u, m2),
    {
        let c0 = self.chains@[0];
        let c = self.chains@[l];
        let d = self.chains@[l - 1];
        assert(chain_wf(self.nodes@, c, l));
        assert(chain_wf(self.nodes@, d, l - 1));
        assert(chain_members(self.nodes@, c0, c, l));
        assert(l - 1 >= 1 ==> chain_members(self.nodes@, c0, d, l - 1));
        lemma_descend_chain(self.nodes@, c0, c, d, l, k, u, m)
    }

    /// Walks each level from the top down, recording at every level the
    /// last node that sorts before `key` (index 0 standing for the head).
    /// Also returns, per level, the position in that level's chain where
    /// `key` would sit.
    fn search(&self, key: &InternalKey) -> (r: (Vec<usize>, Ghost<Seq<int>>))
        requires
            self.wf(),
        ensures
            r.0@.len() == self.current_max_level + 1,
            r.1@.len() == self.current_max_level + 1,
            forall|l: int|
                0 <= l <= self.current_max_level ==> pred_ok(
                    self.nodes@,
                    self.chains@[l],
                    key@,
                    #[trigger] r.0@[l] as int,
                    r.1@[l],
                ),
    {
        let ghost k = key@;
        let mut update: Vec<usize> = vec![0usize; self.current_max_level + 1];
        let ghost mut positions: Seq<int> = Seq::new((self.current_max_level + 1) as nat, |l: int| 0int);
        let mut cur: usize = 0;
        let ghost mut pos: int = 0;
        let mut level: usize = self.current_max_level;
        loop
            invariant
                self.wf(),
                level <= self.current_max_level,
                update@.len() == self.current_max_level + 1,
                positions.len() == self.current_max_level + 1,
                cursor_ok(self.nodes@, self.chains@[level as int], k, cur as int, pos),
                forall|l: int|
                    level < l <= self.current_max_level ==> pred_ok(
                        self.nodes@,
                        self.chains@[l],
                        k,
                        #[trigger] update@[l] as int,
                        positions[l],
                    ),
                k == key@,
            ensures
                update@.len() == self.current_max_level + 1,
                positions.len() == self.current_max_level + 1,
                forall|l: int|
                    0 <= l <= self.current_max_level ==> pred_ok(
                        self.nodes@,
                        self.chains@[l],
                        k,
                        #[trigger] update@[l] as int,
                        positions[l],
                    ),
            decreases level,
        {
            let ghost c = self.chains@[level as int];
            loop
                invariant
                    self.wf(),
                    level <= self.current_max_level,
                    c == self.chains@[level as int],
                    cursor_ok(self.nodes@, c, k, cur as int, pos),
                    k == key@,
                ensures
                    pred_ok(self.nodes@, c, k, cur as int, pos),
                decreases c.len() - pos,
            {
                let nxt = self.nodes[cur].forwards[level];
                if nxt == 0 {
                    proof {
                        assert(pos == c.len());
                    }
                    break;
                }
                proof {
                    assert(pos < c.len() && nxt == c[pos]);
                }
                if self.nodes[nxt].key.precedes(key) {
                    cur = nxt;
                    proof {
                        pos = pos + 1;
                    }
                } else {
                    proof {
                        lemma_no_more_lt(self.nodes@, c, level as int, k, pos);
                    }
                    break;
                }
            }
            update[level] = cur;
            proof {
                positions = positions.update(level as int, pos);
            }
            if level == 0 {
                break;
            }
            proof {
                pos = self.lemma_descend(level as int, k, cur as int, pos);
            }
            level = level - 1;
        }
        (update, Ghost(positions))
    }

    /// No live node carries `k` when the element at the split position of
    /// the level-0 chain (if any) does not.
    proof fn lemma_keys_ne(self, k: KeyModel, u: int, m: int)
        requires
            self.wf(),
            pred_ok(self.nodes@, self.chains@[0], k, u, m),
            m == self.chains@[0].len() || node_key(self.nodes@, self.chains@[0][m]) != k,
        ensures
            forall|p: int|
                0 <= p < self.chains@[0].len() ==> node_key(self.nodes@, #[trigger] self.chains@[0][p])
                    != k,
    {
        let c = self.chains@[0];
        assert forall|p: int| 0 <= p < c.len() implies node_key(self.nodes@, #[trigger] c[p])
            != k by {
            if p < m {
                if node_key(self.nodes@, c[p]) == k {
                    lemma_key_lt_irreflexive(k);
                }
            } else if p > m {
                if node_key(self.nodes@, c[p]) == k {
                    assert(key_model_lt(node_key(self.nodes@, c[m]), node_key(self.nodes@, c[p])));
                }
            }
        }
    }

    /// No live entry carries `k` when the element at the split position of
    /// the level-0 chain (if any) does not.
    proof fn lemma_no_entry(self, k: KeyModel, u: int, m: int)
        requires
            self.wf(),
            pred_ok(self.nodes@, self.chains@[0], k, u, m),
            m == self.chains@[0].len() || node_key(self.nodes@, self.chains@[0][m]) != k,
        ensures
            !self@.contains_key(k),
    {
        let c = self.chains@[0];
        self.lemma_keys_ne(k, u, m);
        lemma_entries_map_contains(self.entries(), k);
        assert forall|p: int| 0 <= p < self.entries().len() implies (#[trigger] self.entries()[p]).0
            != k by {
            assert(self.entries()[p].0 == node_key(self.nodes@, c[p]));
        }
    }

    /// The entry at position `m` of the level-0 chain is in the map with
    /// its stored value.
    proof fn lemma_entry_at(self, m: int)
        requires
            self.wf(),
            0 <= m < self.chains@[0].len(),
        ensures
            self@.contains_key(node_key(self.nodes@, self.chains@[0][m])),
            self@[node_key(self.nodes@, self.chains@[0][m])] == node_val(
                self.nodes@,
                self.chains@[0][m],
            ),
    {
        self.lemma_entries_distinct();
        lemma_entries_map_index(self.entries(), m);
    }

    /// Looks up the value stored under an exact key.
    pub fn get(&self, key: &InternalKey) -> (r: Option<Vec<u8>>)
        requires
            self.wf(),
        ensures
            match r {
                Some(v) => self@.contains_key(key@) && v@ == self@[key@],
                None => !self@.contains_key(key@),
            },
    {
        let (update, positions) = self.search(key);
        let ghost m0 = positions@[0];
        let ghost c0 = self.chains@[0];
        let u0 = update[0];
        let succ = self.nodes[u0].forwards[0];
        if succ != 0 {
            proof {
                assert(m0 < c0.len() && succ == c0[m0]);
            }
            if self.nodes[succ].key.key_eq(key) {
                proof {
                    self.lemma_entry_at(m0);
                }
                return Some(copy_bytes(&self.nodes[succ].value));
            }
            proof {
                self.lemma_no_entry(key@, u0 as int, m0);
            }
            return None;
        }
        proof {
            assert(m0 == c0.len());
            self.lemma_no_entry(key@, u0 as int, m0);
        }
        None
    }

    /// Inserts an entry. A key exactly equal to a live entry's key
    /// overwrites that entry's value in place; any other key becomes a new
    /// entry at its sorted position, under a freshly drawn height.
    #[verifier::rlimit(100)]
    pub fn insert(&mut self, key: InternalKey, value: Vec<u8>) -> (r: Result<(), StorageError>)
        requires
            old(self).wf(),
        ensures
            final(self).wf(),
            final(self)@ == old(self)@.insert(key@, value@),
            final(self).total_cost() == old(self).total_cost() + entry_cost(key@, value@) - (
            if old(self)@.contains_key(key@) {
                entry_cost(key@, old(self)@[key@])
            } else {
                0
            }),
            r is Ok,
    {
        let ghost k = key@;
        let ghost v = value@;
        let ghost c0 = self.chains@[0];
        let (mut update, positions) = self.search(&key);
        let ghost m0 = positions@[0];
        let u0 = update[0];
        let succ = self.nodes[u0].forwards[0];
        proof {
            assert(chain_wf(self.nodes@, c0, 0));
            assert(succ as int == if m0 < c0.len() {
                c0[m0]
            } else {
                0
            });
        }
        if succ != 0 && self.nodes[succ].key.key_eq(&key) {
            // Exact match: replace the value in place; no link moves and
            // the length does not change.
            let ghost old_nodes = self.nodes@;
            let ghost old_entries = self.entries();
            self.nodes[succ].value = value;
            proof {
                let a = self.nodes@;
                assert(a[succ as int].key == old_nodes[succ as int].key);
                assert(a[succ as int].forwards == old_nodes[succ as int].forwards);
                assert forall|l: int| 0 <= l < MAX_HEIGHT implies chain_wf(
                    a,
                    #[trigger] self.chains@[l],
                    l,
                ) && (l >= 1 ==> chain_members(a, self.chains@[0], self.chains@[l], l)) by {
                    assert(chain_wf(old_nodes, self.chains@[0], 0));
                    assert(chain_wf(old_nodes, self.chains@[l], l));
                    lemma_value_update_preserves_chain(
                        old_nodes,
                        a,
                        self.chains@[0],
                        self.chains@[l],
                        l,
                        succ as int,
                    );
                }
                assert forall|p: int| 0 <= p < self.chains@[0].len() implies node_height(
                    a,
                    #[trigger] self.chains@[0][p],
                ) <= MAX_HEIGHT by {
                    assert(chain_wf(old_nodes, self.chains@[0], 0));
                    assert(node_height(a, self.chains@[0][p]) == node_height(
                        old_nodes,
                        self.chains@[0][p],
                    ));
                }
                assert(self.wf());
                // the entry at the match position takes the new value
                assert(self.entries() =~= old_entries.update(m0, (k, v)));
                old(self).lemma_entries_distinct();
                assert(old_entries[m0].0 == k);
                lemma_entries_map_update(old_entries, m0, v);
                lemma_entries_map_index(old_entries, m0);
                lemma_cost_sum_update(old_entries, m0, (k, v));
            }
            return Ok(());
        }
        // Fresh key: no live node carries it.
        proof {
            if succ != 0 {
                self.lemma_keys_ne(k, u0 as int, m0);
            } else {
                assert(m0 == c0.len());
                self.lemma_keys_ne(k, u0 as int, m0);
            }
        }
        let h = random_height();
        let ghost mut mpos = positions@;
        // Levels above the current top have empty chains; the head stands
        // as their predecessor.
        while update.len() < h
            invariant
                self.wf(),
                h <= MAX_HEIGHT,
                update@.len() >= self.current_max_level + 1,
                update@.len() <= MAX_HEIGHT,
                mpos.len() == update@.len(),
                mpos[0] == positions@[0],
                forall|l: int|
                    0 <= l < update@.len() ==> pred_ok(
                        self.nodes@,
                        self.chains@[l],
                        k,
                        #[trigger] update@[l] as int,
                        mpos[l],
                    ),
            decreases h - update@.len(),
        {
            proof {
                assert(self.chains@[update@.len() as int].len() == 0);
            }
            update.push(0);
            proof {
                mpos = mpos.push(0);
            }
        }
        // Record each level's successor before any link moves.
        let mut nf: Vec<usize> = Vec::new();
        let mut lv: usize = 0;
        while lv < h
            invariant
                self.wf(),
                1 <= h <= MAX_HEIGHT,
                h <= update@.len() <= MAX_HEIGHT,
                mpos.len() == update@.len(),
                forall|l: int|
                    0 <= l < update@.len() ==> pred_ok(
                        self.nodes@,
                        self.chains@[l],
                        k,
                        #[trigger] update@[l] as int,
                        mpos[l],
                    ),
                mpos[0] == positions@[0],
                lv <= h,
                nf@.len() == lv,
                forall|j: int|
                    0 <= j < lv ==> #[trigger] nf@[j] as int == (if mpos[j]
                        < self.chains@[j].len() {
                        self.chains@[j][mpos[j]]
                    } else {
                        0
                    }),
            decreases h - lv,
        {
            let u = update[lv];
            proof {
                assert(pred_ok(self.nodes@, self.chains@[lv as int], k, u as int, mpos[lv as int]));
                assert(chain_wf(self.nodes@, self.chains@[lv as int], lv as int));
            }
            let s = self.nodes[u].forwards[lv];
            proof {
                let c = self.chains@[lv as int];
                let m = mpos[lv as int];
                assert(s as int == if m < c.len() {
                    c[m]
                } else {
                    0
                });
            }
            nf.push(s);
            lv = lv + 1;
        }
        proof {
            self.lemma_chain_len_bound(0);
        }
        let n = self.nodes.len();
        let ghost old_nodes = self.nodes@;
        let ghost old_chains = self.chains@;
        let ghost old_entries = self.entries();
        let ghost nfv = nf@;
        let ghost updi = Seq::new(update@.len() as nat, |l: int| update@[l] as int);
        // Exec bounds for the splice: each recorded predecessor is a live
        // node (or the head) tall enough for its level.
        proof {
            assert forall|l: int| 0 <= l < h implies 0 <= #[trigger] updi[l] < n && l
                < node_height(old_nodes, updi[l]) by {
                let c = old_chains[l];
                let m = mpos[l];
                assert(pred_ok(old_nodes, c, k, update@[l] as int, m));
                assert(chain_wf(old_nodes, c, l));
                if m > 0 {
                    assert(update@[l] == c[m - 1]);
                }
            }
            assert forall|l: int| 0 <= l < update@.len() implies pred_ok(
                old_nodes,
                old_chains[l],
                k,
                #[trigger] updi[l],
                mpos[l],
            ) by {
                assert(pred_ok(old_nodes, old_chains[l], k, update@[l] as int, mpos[l]));
            }
            assert forall|lv: int| 0 <= lv < h implies #[trigger] nfv[lv] as int == (if mpos[lv]
                < old_chains[lv].len() {
                old_chains[lv][mpos[lv]]
            } else {
                0
            }) by {}
        }
        let ghost old_cml0 = self.current_max_level as int;
        let ghost old_len0 = self.length as int;
        self.nodes.push(Node { key, value, forwards: nf });
        let mut j: usize = 0;
        while j < h
            invariant
                1 <= h <= MAX_HEIGHT,
                h <= update@.len(),
                0 <= j <= h,
                n == old_nodes.len(),
                self.nodes@.len() == n + 1,
                self.current_max_level == old_cml0,
                self.length == old_len0,
                self.chains@ == old_chains,
                old_cml0 < MAX_HEIGHT,
                old_len0 == old_chains[0].len(),
                old_len0 < n,
                updi.len() == update@.len(),
                forall|l: int| 0 <= l < updi.len() ==> #[trigger] updi[l] == update@[l] as int,
                forall|l: int|
                    0 <= l < h ==> 0 <= #[trigger] updi[l] < n && l < node_height(
                        old_nodes,
                        updi[l],
                    ),
                forall|i: int|
                    0 <= i < n ==> (#[trigger] self.nodes@[i]).key == old_nodes[i].key
                        && self.nodes@[i].value == old_nodes[i].value
                        && self.nodes@[i].forwards@.len() == old_nodes[i].forwards@.len(),
                forall|i: int, lvv: int|
                    0 <= i < n && 0 <= lvv < node_height(old_nodes, i) ==> #[trigger] fwd(
                        self.nodes@,
                        i,
                        lvv,
                    ) == (if lvv < j && updi[lvv] == i {
                        n as int
                    } else {
                        fwd(old_nodes, i, lvv)
                    }),
                self.nodes@[n as int].key == key,
                self.nodes@[n as int].value@ == v,
                self.nodes@[n as int].forwards@ == nfv,
            decreases h - j,
        {
            let u = update[j];
            proof {
                assert(updi[j as int] == update@[j as int] as int);
                assert(0 <= updi[j as int] < n);
                assert((j as int) < node_height(old_nodes, updi[j as int]));
                assert(self.nodes@[u as int].forwards@.len() == old_nodes[u as int].forwards@.len());
            }
            let ghost prev = self.nodes@;
            self.nodes[u].forwards[j] = n;
            proof {
                assert(self.nodes@[u as int].forwards@ == prev[u as int].forwards@.update(
                    j as int,
                    n,
                ));
                assert(forall|i: int|
                    0 <= i < prev.len() && i != u as int ==> #[trigger] self.nodes@[i] == prev[i]);
                lemma_splice_step(
                    old_nodes,
                    prev,
                    self.nodes@,
                    n as int,
                    updi,
                    h as int,
                    j as int,
                    u as int,
                );
            }
            j = j + 1;
        }
        let ghost new_chains = Seq::new(
            MAX_HEIGHT as nat,
            |l: int|
                if l < h {
                    old_chains[l].insert(mpos[l], n as int)
                } else {
                    old_chains[l]
                },
        );
        let ghost old_cml = self.current_max_level as int;
        if h > self.current_max_level + 1 {
            self.current_max_level = h - 1;
        }
        self.length = self.length + 1;
        proof {
            self.chains@ = new_chains;
            let a = self.nodes@;
            lemma_insert_commit(
                old_nodes,
                a,
                old_chains,
                new_chains,
                k,
                n as int,
                h as int,
                updi,
                mpos,
                old_cml,
                self.current_max_level as int,
            );
            assert(self.length == new_chains[0].len());
            old_chains[0].insert_ensures(mpos[0], n as int);
            assert forall|p: int| 0 <= p < new_chains[0].len() implies node_height(
                a,
                #[trigger] new_chains[0][p],
            ) <= MAX_HEIGHT by {
                if p == m0 {
                    assert(new_chains[0][p] == n as int);
                } else {
                    let q = if p < m0 {
                        p
                    } else {
                        p - 1
                    };
                    assert(new_chains[0][p] == old_chains[0][q]);
                    assert(chain_wf(old_nodes, old_chains[0], 0));
                    assert(0 <= old_chains[0][q] < n);
                    assert(node_height(a, old_chains[0][q]) == node_height(
                        old_nodes,
                        old_chains[0][q],
                    ));
                }
            }
            assert(self.wf());
            // the new entry sequence is the old one with (k, v) at the
            // level-0 split position
            assert(self.entries() =~= old_entries.insert(m0, (k, v)));
            assert forall|q: int| 0 <= q < old_entries.len() implies (#[trigger] old_entries[q]).0
                != k by {
                assert(old_entries[q].0 == node_key(old_nodes, old_chains[0][q]));
            }
            lemma_entries_map_insert(old_entries, m0, k, v);
            lemma_entries_map_contains(old_entries, k);
            lemma_cost_sum_insert(old_entries, m0, (k, v));
        }
        Ok(())
    }

    /// Removes the entry under an exact key, if one is live. Returns true
    /// iff an entry existed and was removed; an absent key leaves the list
    /// untouched.
    #[verifier::rlimit(100)]
    pub fn delete(&mut self, key: &InternalKey) -> (r: bool)
        requires
            old(self).wf(),
        ensures
            final(self).wf(),
            r == old(self)@.contains_key(key@),
            final(self)@ == old(self)@.remove(key@),
            final(self).total_cost() == old(self).total_cost() - (if old(self)@.contains_key(
                key@,
            ) {
                entry_cost(key@, old(self)@[key@])
            } else {
                0
            }),
    {
        let ghost k = key@;
        let ghost c0 = self.chains@[0];
        let (update, positions) = self.search(key);
        let ghost m0 = positions@[0];
        let u0 = update[0];
        let victim = self.nodes[u0].forwards[0];
        proof {
            assert(chain_wf(self.nodes@, c0, 0));
            assert(victim as int == if m0 < c0.len() {
                c0[m0]
            } else {
                0
            });
        }
        if victim == 0 {
            proof {
                self.lemma_no_entry(k, u0 as int, m0);
                assert(old(self)@.remove(k) =~= old(self)@);
            }
            return false;
        }
        if !self.nodes[victim].key.key_eq(key) {
            proof {
                self.lemma_no_entry(k, u0 as int, m0);
                assert(old(self)@.remove(k) =~= old(self)@);
            }
            return false;
        }
        let ghost updi = Seq::new(update@.len() as nat, |l: int| update@[l] as int);
        let vh = self.nodes[victim].forwards.len();
        let arena = self.nodes.len();
        let ghost old_nodes = self.nodes@;
        let ghost old_chains = self.chains@;
        let ghost old_entries = self.entries();
        let ghost old_cml0 = self.current_max_level as int;
        let ghost old_len0 = self.length as int;
        proof {
            assert(old_nodes.len() == arena as int);
            assert forall|l: int| 0 <= l < updi.len() implies pred_ok(
                old_nodes,
                old_chains[l],
                k,
                #[trigger] updi[l],
                positions@[l],
            ) by {
                assert(pred_ok(self.nodes@, self.chains@[l], k, update@[l] as int, positions@[l]));
            }
            lemma_victim_positions(
                old_nodes,
                old_chains,
                old_cml0,
                k,
                updi,
                positions@,
                victim as int,
                vh as int,
            );
            self.lemma_entry_at(m0);
            self.lemma_entries_distinct();
            lemma_entries_map_remove(self.entries(), m0);
            lemma_entries_map_index(self.entries(), m0);
            lemma_cost_sum_remove(self.entries(), m0);
            // the recorded predecessors are live nodes (or the head) tall
            // enough for their levels, and never the victim itself
            assert forall|l: int| 0 <= l < vh implies 0 <= #[trigger] updi[l] < old_nodes.len()
                && l < node_height(old_nodes, updi[l]) && updi[l] != victim as int by {
                let c = old_chains[l];
                let m = positions@[l];
                assert(pred_ok(old_nodes, c, k, updi[l], m));
                assert(chain_wf(old_nodes, c, l));
                lemma_chain_wf_distinct(old_nodes, c, l);
                assert(chain_has_at(old_chains, l, victim as int, m));
                if m > 0 {
                    assert(updi[l] == c[m - 1]);
                    assert(c[m - 1] != c[m]);
                }
            }
        }
        let mut j: usize = 0;
        while j < vh
            invariant
                1 <= vh <= MAX_HEIGHT,
                vh <= update@.len(),
                0 <= j <= vh,
                self.nodes@.len() == old_nodes.len(),
                1 <= old_nodes.len(),
                old_nodes.len() == arena as int,
                self.current_max_level == old_cml0,
                self.length == old_len0,
                self.chains@ == old_chains,
                updi.len() == update@.len(),
                forall|l: int| 0 <= l < updi.len() ==> #[trigger] updi[l] == update@[l] as int,
                forall|l: int|
                    0 <= l < vh ==> 0 <= #[trigger] updi[l] < old_nodes.len() && l < node_height(
                        old_nodes,
                        updi[l],
                    ) && updi[l] != victim as int,
                1 <= (victim as int) && (victim as int) < old_nodes.len(),
                node_height(old_nodes, victim as int) == vh,
                forall|i: int|
                    0 <= i < old_nodes.len() ==> (#[trigger] self.nodes@[i]).key
                        == old_nodes[i].key && self.nodes@[i].value == old_nodes[i].value
                        && self.nodes@[i].forwards@.len() == old_nodes[i].forwards@.len(),
                forall|i: int, lvv: int|
                    0 <= i < old_nodes.len() && 0 <= lvv < node_height(old_nodes, i)
                        ==> #[trigger] fwd(self.nodes@, i, lvv) == (if lvv < j && updi[lvv] == i {
                        fwd(old_nodes, victim as int, lvv)
                    } else {
                        fwd(old_nodes, i, lvv)
                    }),
            decreases vh - j,
        {
            proof {
                assert(updi[j as int] == update@[j as int] as int);
                assert(0 <= updi[j as int] < old_nodes.len());
                assert((j as int) < node_height(old_nodes, updi[j as int]));
            }
            let u = update[j];
            let nxtv = self.nodes[victim].forwards[j];
            proof {
                assert(fwd(self.nodes@, victim as int, j as int) == fwd(
                    old_nodes,
                    victim as int,
                    j as int,
                ));
                assert(nxtv as int == fwd(old_nodes, victim as int, j as int));
            }
            let ghost prev = self.nodes@;
            self.nodes[u].forwards[j] = nxtv;
            proof {
                assert(self.nodes@[u as int].forwards@ == prev[u as int].forwards@.update(
                    j as int,
                    nxtv,
                ));
                assert(forall|i: int|
                    0 <= i < prev.len() && i != u as int ==> #[trigger] self.nodes@[i] == prev[i]);
                lemma_unlink_step(
                    old_nodes,
                    prev,
                    self.nodes@,
                    old_nodes.len() as int,
                    victim as int,
                    updi,
                    vh as int,
                    j as int,
                    u as int,
                );
            }
            j = j + 1;
        }
        let ghost new_chains = Seq::new(
            MAX_HEIGHT as nat,
            |l: int|
                if l < vh {
                    old_chains[l].remove(positions@[l])
                } else {
                    old_chains[l]
                },
        );
        proof {
            self.chains@ = new_chains;
            assert forall|l: int| 0 <= l < vh implies #[trigger] updi[l] == (if positions@[l]
                == 0 {
                0int
            } else {
                old_chains[l][positions@[l] - 1]
            }) by {
                assert(pred_ok(old_nodes, old_chains[l], k, updi[l], positions@[l]));
            }
            lemma_delete_commit(
                old_nodes,
                self.nodes@,
                old_chains,
                new_chains,
                victim as int,
                vh as int,
                updi,
                positions@,
            );
        }
        let ghost a = self.nodes@;
        // lower the top level past chains that became empty
        while self.current_max_level > 0 && self.nodes[0].forwards[self.current_max_level] == 0
            invariant
                self.nodes@ == a,
                self.chains@ == new_chains,
                self.length == old_len0,
                a.len() == old_nodes.len() >= 1,
                node_height(a, 0) == MAX_HEIGHT,
                new_chains.len() == MAX_HEIGHT,
                self.current_max_level < MAX_HEIGHT,
                forall|l: int| 0 <= l < MAX_HEIGHT ==> chain_wf(a, #[trigger] new_chains[l], l),
                forall|l: int|
                    self.current_max_level < l < MAX_HEIGHT ==> (#[trigger] new_chains[l]).len()
                        == 0,
            decreases self.current_max_level,
        {
            proof {
                let cl = self.current_max_level as int;
                assert(chain_wf(a, new_chains[cl], cl));
                assert(new_chains[cl].len() > 0 ==> fwd(a, 0, cl) == new_chains[cl][0]
                    && new_chains[cl][0] >= 1);
            }
            self.current_max_level = self.current_max_level - 1;
        }
        self.length = self.length - 1;
        proof {
            let cl = self.current_max_level as int;
            assert(self.length == new_chains[0].len());
            assert forall|p: int| 0 <= p < new_chains[0].len() implies node_height(
                a,
                #[trigger] new_chains[0][p],
            ) <= MAX_HEIGHT by {
                old_chains[0].remove_ensures(m0);
                let q = if p < m0 {
                    p
                } else {
                    p + 1
                };
                assert(new_chains[0][p] == old_chains[0][q]);
            }
            assert(self.wf());
            old_chains[0].remove_ensures(m0);
            assert(self.entries() =~= old_entries.remove(m0));
            assert(old_entries[m0].0 == k);
        }
        true
    }

    /// Creates an empty list.
    pub fn new() -> (r: SkipList)
        ensures
            r.wf(),
            r@ == Map::<KeyModel, Seq<u8>>::empty(),
            r.total_cost() == 0,
    {
        let mut forwards: Vec<usize> = Vec::new();
        let mut i: usize = 0;
        while i < MAX_HEIGHT
            invariant
                0 <= i <= MAX_HEIGHT,
                forwards@.len() == i,
                forall|j: int| 0 <= j < i ==> forwards@[j] == 0,
            decreases MAX_HEIGHT - i,
        {
            forwards.push(0);
            i = i + 1;
        }
        let head = Node { key: InternalKey::new(Vec::new(), 0, KeyType::Put), value: Vec::new(), forwards };
        let mut nodes: Vec<Node> = Vec::new();
        nodes.push(head);
        let r = SkipList {
            nodes,
            current_max_level: 0,
            length: 0,
            chains: Ghost(Seq::new(MAX_HEIGHT as nat, |l: int| Seq::<int>::empty())),
        };
        proof {
            assert(r.entries() =~= Seq::<(KeyModel, Seq<u8>)>::empty());
            assert(r@ =~= Map::<KeyModel, Seq<u8>>::empty());
        }
        r
    }

    /// Walks the level-0 chain and returns every live entry, in key
    /// order: a finite, restartable snapshot of the current contents.
    pub fn iter(&self) -> (r: Vec<(InternalKey, Vec<u8>)>)
        requires
            self.wf(),
        ensures
            r@.len() == self@.dom().len(),
            forall|i: int|
                0 <= i < r@.len() ==> self@.contains_key((#[trigger] r@[i]).0@) && r@[i].1@
                    == self@[r@[i].0@],
            forall|i: int, j: int| 0 <= i < j < r@.len() ==> key_model_lt(r@[i].0@, r@[j].0@),
            forall|q: KeyModel|
                self@.contains_key(q) ==> exists|i: int|
                    0 <= i < r@.len() && (#[trigger] r@[i]).0@ == q,
    {
        let ghost c0 = self.chains@[0];
        let mut out: Vec<(InternalKey, Vec<u8>)> = Vec::new();
        let ghost mut p: int = 0;
        let mut cur: usize = self.nodes[0].forwards[0];
        proof {
            assert(chain_wf(self.nodes@, c0, 0));
        }
        while cur != 0
            invariant
                self.wf(),
                c0 == self.chains@[0],
                0 <= p <= c0.len(),
                cur as int == (if p < c0.len() {
                    c0[p]
                } else {
                    0
                }),
                out@.len() == p,
                forall|i: int|
                    0 <= i < p ==> (#[trigger] out@[i]).0@ == self.entries()[i].0 && out@[i].1@
                        == self.entries()[i].1,
            decreases c0.len() - p,
        {
            proof {
                assert(chain_wf(self.nodes@, c0, 0));
                assert(1 <= c0[p] < self.nodes@.len());
            }
            let pair_key = InternalKey::new(
                copy_bytes(&self.nodes[cur].key.user_key),
                self.nodes[cur].key.sequence_number,
                self.nodes[cur].key.key_type,
            );
            let pair_val = copy_bytes(&self.nodes[cur].value);
            out.push((pair_key, pair_val));
            cur = self.nodes[cur].forwards[0];
            proof {
                p = p + 1;
            }
        }
        proof {
            let s = self.entries();
            self.lemma_entries_distinct();
            lemma_entries_map_len(s);
            assert forall|i: int| 0 <= i < out@.len() implies self@.contains_key(
                (#[trigger] out@[i]).0@,
            ) && out@[i].1@ == self@[out@[i].0@] by {
                lemma_entries_map_index(s, i);
            }
            assert forall|q: KeyModel| self@.contains_key(q) implies exists|i: int|
                0 <= i < out@.len() && (#[trigger] out@[i]).0@ == q by {
                lemma_entries_map_contains(s, q);
                let i = choose|i: int| 0 <= i < s.len() && (#[trigger] s[i]).0 == q;
                assert(out@[i].0@ == q);
            }
        }
        out
    }

    /// The number of live entries.
    pub fn len(&self) -> (r: usize)
        requires
            self.wf(),
        ensures
            r == self@.dom().len(),
    {
        proof {
            self.lemma_entries_distinct();
            lemma_entries_map_len(self.entries());
        }
        self.length
    }

    /// True iff the list holds no entry.
    pub fn is_empty(&self) -> (r: bool)
        requires
            self.wf(),
        ensures
            r == (self@.dom().len() == 0),
    {
        proof {
            self.lemma_entries_distinct();
            lemma_entries_map_len(self.entries());
        }
        self.length == 0
    }
}

} // verus!
