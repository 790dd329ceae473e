//! The mathematical model of the heap's forest.
//!
//! A heap state is a finite map from arena slot to [`TreeNode`] together with
//! the set of root slots. [`forest_wf`] collects the structural invariants:
//! heap order along every parent edge, agreement of parent pointers and child
//! lists, no duplicate children, no marked roots, and every node's ancestor
//! chain ending at a root. [`elems_of`] abstracts a state to the multiset of
//! stored elements; the public contracts are stated over it.

use vstd::multiset::Multiset;
use vstd::prelude::*;

use crate::node::TreeNode;

verus! {

// ---------------------------------------------------------------------------
// The multiset of stored elements
// ---------------------------------------------------------------------------

/// The multiset of element values stored in the node map.
pub open spec fn elems_of(m: Map<usize, TreeNode>) -> Multiset<u64>
    decreases m.dom().len(),
{
    if m.dom().finite() && m.dom().len() > 0 {
        let k = m.dom().choose();
        elems_of(m.remove(k)).insert(m[k].element)
    } else {
        Multiset::empty()
    }
}

/// Removing any present key removes exactly one occurrence of its element.
pub proof fn lemma_elems_remove(m: Map<usize, TreeNode>, k: usize)
    requires
        m.dom().finite(),
        m.dom().contains(k),
    ensures
        elems_of(m) == elems_of(m.remove(k)).insert(m[k].element),
    decreases m.dom().len(),
{
    let c = m.dom().choose();
    assert(m.dom().len() > 0);
    if c == k {
        assert(m.remove(c) =~= m.remove(k));
    } else {
        lemma_elems_remove(m.remove(c), k);
        lemma_elems_remove(m.remove(k), c);
        assert(m.remove(c).remove(k) =~= m.remove(k).remove(c));
        let base = elems_of(m.remove(c).remove(k));
        assert(elems_of(m) == base.insert(m[k].element).insert(m[c].element));
        assert(elems_of(m.remove(k)).insert(m[k].element) == base.insert(m[c].element).insert(
            m[k].element,
        ));
        assert(base.insert(m[k].element).insert(m[c].element) =~= base.insert(m[c].element).insert(
            m[k].element,
        ));
    }
}

/// Inserting at a fresh key adds exactly one occurrence of the new element.
pub proof fn lemma_elems_insert_fresh(m: Map<usize, TreeNode>, k: usize, n: TreeNode)
    requires
        m.dom().finite(),
        !m.dom().contains(k),
    ensures
        elems_of(m.insert(k, n)) == elems_of(m).insert(n.element),
{
    lemma_elems_remove(m.insert(k, n), k);
    assert(m.insert(k, n).remove(k) =~= m);
}

/// Overwriting a key with a node holding the same element leaves the
/// multiset unchanged.
pub proof fn lemma_elems_update_same(m: Map<usize, TreeNode>, k: usize, n: TreeNode)
    requires
        m.dom().finite(),
        m.dom().contains(k),
        n.element == m[k].element,
    ensures
        elems_of(m.insert(k, n)) == elems_of(m),
{
    lemma_elems_remove(m.insert(k, n), k);
    assert(m.insert(k, n).remove(k) =~= m.remove(k));
    lemma_elems_remove(m, k);
}

/// Overwriting a key exchanges the old element for the new one.
pub proof fn lemma_elems_update(m: Map<usize, TreeNode>, k: usize, n: TreeNode)
    requires
        m.dom().finite(),
        m.dom().contains(k),
    ensures
        elems_of(m.insert(k, n)) == elems_of(m).remove(m[k].element).insert(n.element),
{
    lemma_elems_remove(m.insert(k, n), k);
    assert(m.insert(k, n).remove(k) =~= m.remove(k));
    lemma_elems_remove(m, k);
    let base = elems_of(m.remove(k));
    assert(elems_of(m).remove(m[k].element) =~= base);
}

/// The multiset has as many elements as the map has keys.
pub proof fn lemma_elems_len(m: Map<usize, TreeNode>)
    requires
        m.dom().finite(),
    ensures
        elems_of(m).len() == m.dom().len(),
    decreases m.dom().len(),
{
    if m.dom().len() > 0 {
        let c = m.dom().choose();
        lemma_elems_len(m.remove(c));
    }
}

/// Every stored node's element occurs in the multiset.
pub proof fn lemma_elems_contains(m: Map<usize, TreeNode>, k: usize)
    requires
        m.dom().finite(),
        m.dom().contains(k),
    ensures
        elems_of(m).count(m[k].element) > 0,
{
    lemma_elems_remove(m, k);
}

/// Every element of the multiset is stored in some node.
pub proof fn lemma_elems_witness(m: Map<usize, TreeNode>, v: u64) -> (k: usize)
    requires
        m.dom().finite(),
        elems_of(m).count(v) > 0,
    ensures
        m.dom().contains(k),
        m[k].element == v,
    decreases m.dom().len(),
{
    let c = m.dom().choose();
    assert(m.dom().len() > 0) by {
        if m.dom().len() == 0 {
            assert(elems_of(m) == Multiset::<u64>::empty());
        }
    }
    if m[c].element == v {
        c
    } else {
        let k = lemma_elems_witness(m.remove(c), v);
        k
    }
}

/// Two maps with equal domains and pointwise equal elements abstract to the
/// same multiset.
pub proof fn lemma_elems_congruent(m1: Map<usize, TreeNode>, m2: Map<usize, TreeNode>)
    requires
        m1.dom().finite(),
        m1.dom() =~= m2.dom(),
        forall|k: usize| #[trigger] m1.dom().contains(k) ==> m1[k].element == m2[k].element,
    ensures
        elems_of(m1) == elems_of(m2),
    decreases m1.dom().len(),
{
    if m1.dom().len() > 0 {
        let c = m1.dom().choose();
        lemma_elems_remove(m1, c);
        lemma_elems_remove(m2, c);
        assert(m1.remove(c).dom() =~= m2.remove(c).dom());
        lemma_elems_congruent(m1.remove(c), m2.remove(c));
    }
}

// ---------------------------------------------------------------------------
// Ancestor chains
// ---------------------------------------------------------------------------

/// The `k`-th ancestor of slot `i`: follow parent pointers `k` times,
/// stopping early at a root or at a slot that is not stored.
pub open spec fn anc(m: Map<usize, TreeNode>, i: usize, k: nat) -> usize
    decreases k,
{
    if k == 0 {
        i
    } else if m.dom().contains(i) && m[i].parent is Some {
        anc(m, m[i].parent->0, (k - 1) as nat)
    } else {
        i
    }
}

/// A stored node with no parent.
pub open spec fn is_root(m: Map<usize, TreeNode>, i: usize) -> bool {
    m.dom().contains(i) && m[i].parent is None
}

/// Some ancestor of `i` is a root: `i` hangs under the forest's roots.
pub open spec fn rooted(m: Map<usize, TreeNode>, i: usize) -> bool {
    exists|k: nat| is_root(m, anc(m, i, k))
}

// ---------------------------------------------------------------------------
// The forest invariant
// ---------------------------------------------------------------------------

/// Structural well-formedness of a node map `m` with root set `rs`.
pub open spec fn forest_wf(m: Map<usize, TreeNode>, rs: Set<usize>) -> bool {
    &&& m.dom().finite()
    &&& rs.finite()
    // every listed root is a stored parentless node
    &&& (forall|r: usize| #[trigger] rs.contains(r) ==> is_root(m, r))
    // every stored parentless node is listed as a root
    &&& (forall|i: usize|
        #[trigger] m.dom().contains(i) && m[i].parent is None ==> rs.contains(i))
    // heap order and child registration along every parent edge
    &&& (forall|i: usize| #[trigger]
        m.dom().contains(i) ==> (m[i].parent matches Some(p) ==> m.dom().contains(p)
            && m[p].element <= m[i].element && m[p].children@.contains(i)))
    // every listed child is stored and points back at its parent
    &&& (forall|p: usize, j: int|
        m.dom().contains(p) && 0 <= j < m[p].children@.len() ==> {
            let c = #[trigger] m[p].children@[j];
            m.dom().contains(c) && m[c].parent == Some(p)
        })
    // no child is listed twice
    &&& (forall|p: usize| #[trigger] m.dom().contains(p) ==> m[p].children@.no_duplicates())
    // a root is never marked
    &&& (forall|i: usize|
        #[trigger] m.dom().contains(i) && m[i].parent is None ==> !m[i].marked)
    // every node hangs under some root
    &&& (forall|i: usize| #[trigger] m.dom().contains(i) ==> rooted(m, i))
}

/// Along an ancestor chain elements never increase; the chain stays stored.
pub proof fn lemma_chain_le(m: Map<usize, TreeNode>, rs: Set<usize>, i: usize, k: nat)
    requires
        forest_wf(m, rs),
        m.dom().contains(i),
    ensures
        m.dom().contains(anc(m, i, k)),
        m[anc(m, i, k)].element <= m[i].element,
    decreases k,
{
    if k > 0 && m[i].parent is Some {
        lemma_chain_le(m, rs, m[i].parent->0, (k - 1) as nat);
    }
}

/// A node whose element is at most every root's element is at most every
/// stored element.
pub proof fn lemma_min_le_all(m: Map<usize, TreeNode>, rs: Set<usize>, mn: usize, i: usize)
    requires
        forest_wf(m, rs),
        m.dom().contains(mn),
        forall|r: usize| #[trigger] rs.contains(r) ==> m[mn].element <= m[r].element,
        m.dom().contains(i),
    ensures
        m[mn].element <= m[i].element,
{
    let k = choose|k: nat| is_root(m, anc(m, i, k));
    lemma_chain_le(m, rs, i, k);
    let a = anc(m, i, k);
    assert(rs.contains(a));
}

/// A forest with no roots stores nothing.
pub proof fn lemma_no_roots_empty(m: Map<usize, TreeNode>, rs: Set<usize>)
    requires
        forest_wf(m, rs),
        rs =~= Set::<usize>::empty(),
    ensures
        m.dom() =~= Set::<usize>::empty(),
{
    assert forall|i: usize| !(#[trigger] m.dom().contains(i)) by {
        if m.dom().contains(i) {
            let k = choose|k: nat| is_root(m, anc(m, i, k));
            let a = anc(m, i, k);
            assert(rs.contains(a));
        }
    }
}

/// No stored node is its own parent.
pub proof fn lemma_no_self_parent(m: Map<usize, TreeNode>, rs: Set<usize>, i: usize)
    requires
        forest_wf(m, rs),
        m.dom().contains(i),
    ensures
        m[i].parent != Some(i),
{
    if m[i].parent == Some(i) {
        let k = choose|k: nat| is_root(m, anc(m, i, k));
        lemma_self_parent_anc(m, i, k);
    }
}

proof fn lemma_self_parent_anc(m: Map<usize, TreeNode>, i: usize, k: nat)
    requires
        m.dom().contains(i),
        m[i].parent == Some(i),
    ensures
        anc(m, i, k) == i,
    decreases k,
{
    if k > 0 {
        lemma_self_parent_anc(m, i, (k - 1) as nat);
    }
}

// ---------------------------------------------------------------------------
// Transfer of rootedness across a mutation
// ---------------------------------------------------------------------------

/// A node keeps hanging under a root when a mutation leaves its own parent
/// pointer (and every ancestor's) in place, or turns it into a node that is
/// itself rooted in the new map.
pub proof fn lemma_rooted_transfer(
    m: Map<usize, TreeNode>,
    m2: Map<usize, TreeNode>,
    i: usize,
    k: nat,
)
    requires
        // ancestor chains in `m` stay stored
        forall|x: usize| #[trigger]
            m.dom().contains(x) ==> (m[x].parent matches Some(p) ==> m.dom().contains(p)),
        // every surviving node is already rooted in `m2`, or kept its parent
        // pointer, which still names a surviving node
        forall|x: usize|
            #[trigger] m.dom().contains(x) && m2.dom().contains(x) ==> (rooted(m2, x) || (
            m2[x].parent == m[x].parent && (m[x].parent matches Some(p) ==> m2.dom().contains(p)))),
        is_root(m, anc(m, i, k)),
        m.dom().contains(i),
        m2.dom().contains(i),
    ensures
        rooted(m2, i),
    decreases k,
{
    if rooted(m2, i) {
    } else {
        // parents of i agree between m and m2
        if m[i].parent is Some {
            let p = m[i].parent->0;
            assert(k > 0) by {
                if k == 0 {
                    assert(anc(m, i, k) == i);
                }
            }
            lemma_rooted_transfer(m, m2, p, (k - 1) as nat);
            let j = choose|j: nat| is_root(m2, anc(m2, p, j));
            assert(anc(m2, i, j + 1) == anc(m2, p, j));
            assert(is_root(m2, anc(m2, i, j + 1)));
        } else {
            // i is a root of m, and kept its parent pointer
            assert(anc(m2, i, 0) == i);
            assert(is_root(m2, i));
        }
    }
}

// ---------------------------------------------------------------------------
// Sequence helpers
// ---------------------------------------------------------------------------

/// Pushing a value absent from a duplicate-free sequence keeps it
/// duplicate-free, and membership grows by exactly that value.
pub proof fn lemma_seq_push_facts(s: Seq<usize>, v: usize)
    requires
        s.no_duplicates(),
        !s.contains(v),
    ensures
        s.push(v).no_duplicates(),
        forall|x: usize| #[trigger] s.push(v).contains(x) <==> (s.contains(x) || x == v),
{
    assert forall|x: usize| #[trigger] s.push(v).contains(x) implies (s.contains(x) || x == v) by {
        let i = choose|i: int| 0 <= i < s.push(v).len() && s.push(v)[i] == x;
        if i < s.len() {
            assert(s[i] == x);
        }
    }
    assert forall|x: usize| (s.contains(x) || x == v) implies #[trigger] s.push(v).contains(x) by {
        if s.contains(x) {
            let i = choose|i: int| 0 <= i < s.len() && s[i] == x;
            assert(s.push(v)[i] == x);
        } else {
            assert(s.push(v)[s.len() as int] == x);
        }
    }
}

/// Removing position `j` from a duplicate-free sequence removes exactly the
/// value there.
pub proof fn lemma_seq_remove_facts(s: Seq<usize>, j: int)
    requires
        s.no_duplicates(),
        0 <= j < s.len(),
    ensures
        s.remove(j).no_duplicates(),
        forall|x: usize| #[trigger] s.remove(j).contains(x) <==> (s.contains(x) && x != s[j]),
{
    let t = s.remove(j);
    assert forall|x: usize| #[trigger] t.contains(x) implies (s.contains(x) && x != s[j]) by {
        let i = choose|i: int| 0 <= i < t.len() && t[i] == x;
        if i < j {
            assert(s[i] == x);
        } else {
            assert(s[i + 1] == x);
        }
    }
    assert forall|x: usize| (s.contains(x) && x != s[j]) implies #[trigger] t.contains(x) by {
        let i = choose|i: int| 0 <= i < s.len() && s[i] == x;
        if i < j {
            assert(t[i] == x);
        } else {
            assert(t[i - 1] == x);
        }
    }
}

// ---------------------------------------------------------------------------
// Maintenance of the forest invariant
// ---------------------------------------------------------------------------

/// Adding a fresh, childless, unmarked, parentless node as a new root.
pub proof fn lemma_add_root(m: Map<usize, TreeNode>, rs: Set<usize>, k: usize, n: TreeNode)
    requires
        forest_wf(m, rs),
        !m.dom().contains(k),
        n.parent is None,
        n.children@.len() == 0,
        !n.marked,
    ensures
        forest_wf(m.insert(k, n), rs.insert(k)),
{
    let m2 = m.insert(k, n);
    let rs2 = rs.insert(k);
    assert forall|i: usize| #[trigger] m2.dom().contains(i) implies rooted(m2, i) by {
        if i == k {
            assert(anc(m2, k, 0) == k);
            assert(is_root(m2, anc(m2, k, 0)));
        } else {
            let kk = choose|kk: nat| is_root(m, anc(m, i, kk));
            lemma_rooted_transfer(m, m2, i, kk);
        }
    }
}

/// Overwriting a node without touching its parent pointer or child list:
/// a value change that respects heap order, or a mark change off a root.
pub proof fn lemma_update_node(m: Map<usize, TreeNode>, rs: Set<usize>, k: usize, n: TreeNode)
    requires
        forest_wf(m, rs),
        m.dom().contains(k),
        n.parent == m[k].parent,
        n.children@ == m[k].children@,
        (m[k].parent matches Some(p) ==> m[p].element <= n.element),
        forall|j: int|
            0 <= j < m[k].children@.len() ==> n.element <= m[#[trigger] m[k].children@[j]].element,
        (m[k].parent is None ==> !n.marked),
    ensures
        forest_wf(m.insert(k, n), rs),
{
    let m2 = m.insert(k, n);
    lemma_no_self_parent(m, rs, k);
    assert forall|i: usize| #[trigger]
        m2.dom().contains(i) implies (m2[i].parent matches Some(p) ==> m2.dom().contains(p)
        && m2[p].element <= m2[i].element && m2[p].children@.contains(i)) by {
        match m2[i].parent {
            Some(p) => {
                if i != k && p == k {
                    // i is a child of k: heap order against the new element
                    assert(m[k].children@.contains(i));
                    let j = choose|j: int| 0 <= j < m[k].children@.len() && m[k].children@[j] == i;
                    assert(n.element <= m[m[k].children@[j]].element);
                }
            },
            None => {},
        }
    }
    assert forall|i: usize| #[trigger] m2.dom().contains(i) implies rooted(m2, i) by {
        let kk = choose|kk: nat| is_root(m, anc(m, i, kk));
        lemma_rooted_transfer(m, m2, i, kk);
    }
}

/// Linking root `u` under root `v` (the consolidation step): `u` leaves the
/// root set and becomes `v`'s child.
pub proof fn lemma_link(
    m: Map<usize, TreeNode>,
    rs: Set<usize>,
    u: usize,
    v: usize,
    un: TreeNode,
    vn: TreeNode,
)
    requires
        forest_wf(m, rs),
        rs.contains(u),
        rs.contains(v),
        u != v,
        m[v].element <= m[u].element,
        un.parent == Some(v),
        un.element == m[u].element,
        un.marked == m[u].marked,
        un.children@ == m[u].children@,
        vn.parent == m[v].parent,
        vn.element == m[v].element,
        vn.marked == m[v].marked,
        vn.children@ == m[v].children@.push(u),
    ensures
        forest_wf(m.insert(u, un).insert(v, vn), rs.remove(u)),
{
    let m2 = m.insert(u, un).insert(v, vn);
    assert(!m[v].children@.contains(u));
    lemma_seq_push_facts(m[v].children@, u);
    assert(vn.children@[m[v].children@.len() as int] == u);
    assert(vn.children@.contains(u));
    assert forall|i: usize| #[trigger]
        m2.dom().contains(i) implies (m2[i].parent matches Some(p) ==> m2.dom().contains(p)
        && m2[p].element <= m2[i].element && m2[p].children@.contains(i)) by {
        match m2[i].parent {
            Some(p) => {
                if i != u {
                    assert(m[i].parent == Some(p));
                    if p == u {
                        assert(m[u].children@.contains(i));
                    } else if p == v {
                        assert(m[v].children@.contains(i));
                    }
                }
            },
            None => {},
        }
    }
    assert forall|p: usize, j: int| #![trigger m2[p].children@[j]]
        m2.dom().contains(p) && 0 <= j < m2[p].children@.len() implies {
        let c = m2[p].children@[j];
        m2.dom().contains(c) && m2[c].parent == Some(p)
    } by {
        let c = m2[p].children@[j];
        if p == v {
            if j < m[v].children@.len() {
                assert(c == m[v].children@[j]);
                assert(m.dom().contains(c) && m[c].parent == Some(v));
                assert(c != u && c != v);
            } else {
                assert(c == u);
            }
        } else {
            assert(c == m[p].children@[j]);
            assert(m.dom().contains(c) && m[c].parent == Some(p));
            assert(c != u && c != v);
        }
    }
    assert(rooted(m2, v)) by {
        assert(anc(m2, v, 0) == v);
        assert(is_root(m2, anc(m2, v, 0)));
    }
    assert(rooted(m2, u)) by {
        assert(m2[u].parent == Some(v));
        assert(anc(m2, v, 0) == v);
        assert(anc(m2, u, 1) == anc(m2, v, 0));
        assert(is_root(m2, anc(m2, u, 1)));
    }
    assert forall|i: usize| #[trigger] m2.dom().contains(i) implies rooted(m2, i) by {
        let kk = choose|kk: nat| is_root(m, anc(m, i, kk));
        lemma_rooted_transfer(m, m2, i, kk);
    }
}

/// Cutting node `c` loose from its parent `p`: `c` becomes an unmarked root,
/// `p` loses one child.
pub proof fn lemma_cut(
    m: Map<usize, TreeNode>,
    rs: Set<usize>,
    c: usize,
    p: usize,
    cn: TreeNode,
    pn: TreeNode,
    j: int,
)
    requires
        forest_wf(m, rs),
        m.dom().contains(c),
        m[c].parent == Some(p),
        cn.parent is None,
        !cn.marked,
        cn.element == m[c].element,
        cn.children@ == m[c].children@,
        pn.parent == m[p].parent,
        pn.element == m[p].element,
        pn.marked == m[p].marked,
        0 <= j < m[p].children@.len(),
        m[p].children@[j] == c,
        pn.children@ == m[p].children@.remove(j),
    ensures
        forest_wf(m.insert(p, pn).insert(c, cn), rs.insert(c)),
{
    let m2 = m.insert(p, pn).insert(c, cn);
    lemma_no_self_parent(m, rs, c);
    lemma_no_self_parent(m, rs, p);
    lemma_seq_remove_facts(m[p].children@, j);
    assert forall|i: usize| #[trigger]
        m2.dom().contains(i) implies (m2[i].parent matches Some(p2) ==> m2.dom().contains(p2)
        && m2[p2].element <= m2[i].element && m2[p2].children@.contains(i)) by {
        match m2[i].parent {
            Some(p2) => {
                if i != c {
                    assert(m[i].parent == Some(p2));
                    if p2 == p {
                        assert(m[p].children@.contains(i));
                        assert(pn.children@.contains(i));
                    } else if p2 == c {
                        assert(m[c].children@.contains(i));
                    }
                }
            },
            None => {},
        }
    }
    assert forall|q: usize, jj: int| #![trigger m2[q].children@[jj]]
        m2.dom().contains(q) && 0 <= jj < m2[q].children@.len() implies {
        let x = m2[q].children@[jj];
        m2.dom().contains(x) && m2[x].parent == Some(q)
    } by {
        let x = m2[q].children@[jj];
        if q == p {
            assert(pn.children@.contains(x));
            assert(m[p].children@.contains(x) && x != c);
            assert(m.dom().contains(x) && m[x].parent == Some(p));
            assert(x != c);
        } else {
            let old_list = m[q].children@;
            assert(x == old_list[jj]);
            assert(m.dom().contains(x) && m[x].parent == Some(q));
            if x == c {
                // c sits only in p's child list
                assert(q == p);
            }
        }
    }
    assert(rooted(m2, c)) by {
        assert(anc(m2, c, 0) == c);
        assert(is_root(m2, anc(m2, c, 0)));
    }
    assert forall|i: usize| #[trigger] m2.dom().contains(i) implies rooted(m2, i) by {
        let kk = choose|kk: nat| is_root(m, anc(m, i, kk));
        lemma_rooted_transfer(m, m2, i, kk);
    }
}

// ---------------------------------------------------------------------------
// Removing a root and promoting its children
// ---------------------------------------------------------------------------

/// The node as it looks after promotion to a root: parent and mark cleared.
pub open spec fn cleared(n: TreeNode) -> TreeNode {
    TreeNode {
        parent: None,
        element: n.element,
        marked: false,
        children: n.children,
        handle_id: n.handle_id,
    }
}

/// The node with its element replaced and everything else kept.
pub open spec fn with_element(n: TreeNode, v: u64) -> TreeNode {
    TreeNode {
        parent: n.parent,
        element: v,
        marked: n.marked,
        children: n.children,
        handle_id: n.handle_id,
    }
}

/// The map after removing root `mid` and promoting each of its children to
/// an unmarked root.
pub open spec fn promote_children(m: Map<usize, TreeNode>, mid: usize) -> Map<usize, TreeNode> {
    Map::new(
        |k: usize| m.dom().contains(k) && k != mid,
        |k: usize|
            if m[mid].children@.contains(k) {
                cleared(m[k])
            } else {
                m[k]
            },
    )
}

/// Removing a root and promoting its children preserves the forest invariant
/// and removes exactly one occurrence of the root's element.
pub proof fn lemma_promote(m: Map<usize, TreeNode>, rs: Set<usize>, mid: usize)
    requires
        forest_wf(m, rs),
        rs.contains(mid),
    ensures
        forest_wf(promote_children(m, mid), rs.remove(mid).union(m[mid].children@.to_set())),
        promote_children(m, mid).dom() =~= m.dom().remove(mid),
        elems_of(promote_children(m, mid)) == elems_of(m).remove(m[mid].element),
{
    broadcast use vstd::seq_lib::seq_to_set_is_finite;

    let m2 = promote_children(m, mid);
    let rs2 = rs.remove(mid).union(m[mid].children@.to_set());
    let cs = m[mid].children@;
    assert(m2.dom() =~= m.dom().remove(mid));
    lemma_no_self_parent(m, rs, mid);
    // children of mid are stored non-roots other than mid
    assert forall|x: usize| #[trigger] cs.contains(x) implies m.dom().contains(x) && m[x].parent
        == Some(mid) by {
        let i = choose|i: int| 0 <= i < cs.len() && cs[i] == x;
        assert(m[mid].children@[i] == x);
    }
    // roots of rs2 are parentless stored nodes
    assert forall|r: usize| #[trigger] rs2.contains(r) implies is_root(m2, r) by {
        if cs.contains(r) {
            assert(m2[r] == cleared(m[r]));
        } else {
            assert(rs.contains(r) && r != mid);
        }
    }
    // edge clause
    assert forall|i: usize| #[trigger]
        m2.dom().contains(i) implies (m2[i].parent matches Some(p) ==> m2.dom().contains(p)
        && m2[p].element <= m2[i].element && m2[p].children@.contains(i)) by {
        match m2[i].parent {
            Some(p) => {
                assert(!cs.contains(i));
                assert(m[i].parent == Some(p));
                assert(p != mid);
                if cs.contains(p) {
                    assert(m2[p] == cleared(m[p]));
                }
            },
            None => {},
        }
    }
    // child registration
    assert forall|p: usize, jj: int| #![trigger m2[p].children@[jj]]
        m2.dom().contains(p) && 0 <= jj < m2[p].children@.len() implies {
        let x = m2[p].children@[jj];
        m2.dom().contains(x) && m2[x].parent == Some(p)
    } by {
        assert(m2[p].children@ == m[p].children@);
        let x = m[p].children@[jj];
        assert(m.dom().contains(x) && m[x].parent == Some(p));
        assert(x != mid);
        if cs.contains(x) {
            // x would be a child of both p and mid
            assert(m[x].parent == Some(mid));
            assert(p == mid);
        }
    }
    // rootedness
    assert forall|i: usize| #[trigger] m2.dom().contains(i) implies rooted(m2, i) by {
        assert forall|x: usize| #[trigger]
            m.dom().contains(x) && m2.dom().contains(x) implies (rooted(m2, x) || (m2[x].parent
            == m[x].parent && (m[x].parent matches Some(p) ==> m2.dom().contains(p)))) by {
            if cs.contains(x) {
                assert(m2[x] == cleared(m[x]));
                assert(anc(m2, x, 0) == x);
                assert(is_root(m2, anc(m2, x, 0)));
            } else {
                match m[x].parent {
                    Some(p) => {
                        assert(p != mid);
                    },
                    None => {},
                }
            }
        }
        let kk = choose|kk: nat| is_root(m, anc(m, i, kk));
        lemma_rooted_transfer(m, m2, i, kk);
    }
    // elements: same as removing mid from the map
    lemma_elems_remove(m, mid);
    assert(m.remove(mid).dom() =~= m2.dom());
    lemma_elems_congruent(m.remove(mid), m2);
    assert(elems_of(m).remove(m[mid].element) =~= elems_of(m.remove(mid)));
}

} // verus!
