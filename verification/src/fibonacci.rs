//! The Fibonacci heap engine: the node arena, the root list with its tracked
//! minimum, consolidation after extraction, and the cascading mark/cut walk
//! after a key decrease.

use vstd::multiset::Multiset;
use vstd::prelude::*;

use crate::model::anc;
use crate::model::cleared;
use crate::model::elems_of;
use crate::model::forest_wf;
use crate::model::is_root;
use crate::model::lemma_add_root;
use crate::model::lemma_chain_le;
use crate::model::lemma_cut;
use crate::model::lemma_elems_contains;
use crate::model::lemma_elems_insert_fresh;
use crate::model::lemma_elems_len;
use crate::model::lemma_elems_remove;
use crate::model::lemma_elems_update;
use crate::model::lemma_elems_update_same;
use crate::model::lemma_elems_witness;
use crate::model::lemma_link;
use crate::model::lemma_min_le_all;
use crate::model::lemma_no_roots_empty;
use crate::model::lemma_no_self_parent;
use crate::model::lemma_promote;
use crate::model::lemma_seq_push_facts;
use crate::model::lemma_seq_remove_facts;
use crate::model::lemma_update_node;
use crate::model::promote_children;
use crate::model::with_element;
use crate::node::TreeNode;
use crate::store::slab_any_key;
use crate::store::slab_contains;
use crate::store::slab_insert;
use crate::store::slab_len;
use crate::store::slab_model;
use crate::store::slab_new;
use crate::store::slab_read;
use crate::store::slab_remove;
use crate::store::slab_write;

verus! {

/// The roots parked in the degree table during consolidation.
pub open spec fn bucket_set(s: Seq<Option<usize>>) -> Set<usize> {
    Set::new(|b: usize| exists|e: int| 0 <= e < s.len() && s[e] == Some(b))
}

proof fn lemma_bucket_push_none(s: Seq<Option<usize>>)
    ensures
        bucket_set(s.push(None)) =~= bucket_set(s),
{
    let s2 = s.push(None);
    assert forall|b: usize| bucket_set(s2).contains(b) implies bucket_set(s).contains(b) by {
        let e = choose|e: int| 0 <= e < s2.len() && s2[e] == Some(b);
        assert(e < s.len());
        assert(s[e] == Some(b));
    }
    assert forall|b: usize| bucket_set(s).contains(b) implies bucket_set(s2).contains(b) by {
        let e = choose|e: int| 0 <= e < s.len() && s[e] == Some(b);
        assert(s2[e] == Some(b));
    }
}

proof fn lemma_bucket_fill(s: Seq<Option<usize>>, d: int, b: usize)
    requires
        0 <= d < s.len(),
        s[d] is None,
    ensures
        bucket_set(s.update(d, Some(b))) =~= bucket_set(s).insert(b),
{
    let s2 = s.update(d, Some(b));
    assert forall|x: usize| bucket_set(s2).contains(x) implies bucket_set(s).insert(b).contains(
        x,
    ) by {
        let e = choose|e: int| 0 <= e < s2.len() && s2[e] == Some(x);
        if e != d {
            assert(s[e] == Some(x));
        }
    }
    assert forall|x: usize| bucket_set(s).insert(b).contains(x) implies bucket_set(s2).contains(
        x,
    ) by {
        if x == b {
            assert(s2[d] == Some(x));
        } else {
            let e = choose|e: int| 0 <= e < s.len() && s[e] == Some(x);
            assert(e != d);
            assert(s2[e] == Some(x));
        }
    }
}

proof fn lemma_bucket_clear(s: Seq<Option<usize>>, d: int, b0: usize)
    requires
        0 <= d < s.len(),
        s[d] == Some(b0),
        forall|e: int| 0 <= e < s.len() && e != d ==> s[e] != Some(b0),
    ensures
        bucket_set(s.update(d, None)) =~= bucket_set(s).remove(b0),
{
    let s2 = s.update(d, None);
    assert forall|x: usize| bucket_set(s2).contains(x) implies bucket_set(s).remove(b0).contains(
        x,
    ) by {
        let e = choose|e: int| 0 <= e < s2.len() && s2[e] == Some(x);
        assert(e != d);
        assert(s[e] == Some(x));
        assert(x != b0);
    }
    assert forall|x: usize| bucket_set(s).remove(b0).contains(x) implies bucket_set(s2).contains(
        x,
    ) by {
        let e = choose|e: int| 0 <= e < s.len() && s[e] == Some(x);
        assert(e != d);
        assert(s2[e] == Some(x));
    }
}

proof fn lemma_subrange_set_step(t: Seq<usize>, i: int)
    requires
        0 <= i < t.len(),
    ensures
        t.subrange(i, t.len() as int).to_set() =~= t.subrange(
            i + 1,
            t.len() as int,
        ).to_set().insert(t[i]),
{
    let a = t.subrange(i, t.len() as int);
    let b = t.subrange(i + 1, t.len() as int);
    assert forall|x: usize| a.to_set().contains(x) implies b.to_set().insert(t[i]).contains(x) by {
        let w = choose|w: int| 0 <= w < a.len() && a[w] == x;
        if w != 0 {
            assert(b[w - 1] == x);
            assert(b.contains(x));
        }
    }
    assert forall|x: usize| b.to_set().insert(t[i]).contains(x) implies a.to_set().contains(x) by {
        if x == t[i] {
            assert(a[0] == x);
            assert(a.contains(x));
        } else {
            let w = choose|w: int| 0 <= w < b.len() && b[w] == x;
            assert(a[w + 1] == x);
            assert(a.contains(x));
        }
    }
}

/// A handle to a stored node: the arena slot and the generation stamp issued
/// when the node was created. A handle is rejected once its node is removed,
/// even if the slot is later reused.
pub struct NodeID(pub usize, pub usize);

/// A mergeable priority queue over `u64` elements.
pub struct FibonacciHeap {
    nodes: slab::Slab<TreeNode>,
    trees: Vec<usize>,
    min_element: usize,
    id_counter: usize,
}

impl FibonacciHeap {
    /// The node arena's contents.
    pub closed spec fn node_map(self) -> Map<usize, TreeNode> {
        slab_model(self.nodes)
    }

    /// The set of root slots.
    pub closed spec fn root_set(self) -> Set<usize> {
        self.trees@.to_set()
    }

    /// The invariant short of minimum tracking: the forest is well formed,
    /// the root list holds no duplicates, and every stored generation stamp
    /// was issued by this heap. This is the state consolidation starts from,
    /// before the minimum is rescanned.
    pub closed spec fn wf_except_min(self) -> bool {
        &&& forest_wf(self.node_map(), self.root_set())
        &&& self.trees@.no_duplicates()
        &&& (forall|i: usize| #[trigger]
            self.node_map().dom().contains(i) ==> 1 <= self.node_map()[i].handle_id
                <= self.id_counter)
    }

    /// The heap's invariant: [`Self::wf_except_min`], and the tracked
    /// minimum is a root no larger than any other root.
    pub closed spec fn wf(self) -> bool {
        &&& self.wf_except_min()
        &&& (self.trees@.len() > 0 ==> self.node_map().dom().contains(self.min_element)
            && self.root_set().contains(self.min_element) && (forall|r: usize| #[trigger]
            self.root_set().contains(r) ==> self.node_map()[self.min_element].element
                <= self.node_map()[r].element))
    }

    /// The multiset of stored elements: what the heap holds.
    pub closed spec fn ms(self) -> Multiset<u64> {
        elems_of(self.node_map())
    }

    /// No two distinct roots have the same degree — what consolidation
    /// leaves behind.
    pub open spec fn distinct_root_degrees(self) -> bool {
        forall|r1: usize, r2: usize|
            self.root_set().contains(r1) && self.root_set().contains(r2) && r1 != r2
                ==> #[trigger] self.node_map()[r1].children@.len() != #[trigger] self.node_map()[r2].children@.len()
    }

    /// A handle is valid while its slot still holds the node it was issued
    /// for.
    pub closed spec fn valid_handle(self, h: NodeID) -> bool {
        self.node_map().dom().contains(h.0) && self.node_map()[h.0].handle_id == h.1
    }

    /// The element currently stored at a (valid) handle's node.
    pub closed spec fn handle_value(self, h: NodeID) -> u64 {
        self.node_map()[h.0].element
    }

    /// Whether this heap has ever issued a handle with this stamp.
    pub closed spec fn issued(self, h: NodeID) -> bool {
        1 <= h.1 <= self.id_counter
    }

    /// How many generation stamps this heap has used up so far. Queries
    /// leave it unchanged, `insert` uses one, and `merge` settles just above
    /// the larger of the two budgets, so callers can discharge
    /// [`Self::can_issue`] across any chain of operations.
    pub closed spec fn stamps(self) -> nat {
        self.id_counter as nat
    }

    /// Whether a further generation stamp can be issued (a machine limit).
    pub open spec fn can_issue(self) -> bool {
        self.stamps() < usize::MAX
    }

    /// A valid handle's element is counted in the heap's multiset.
    pub proof fn lemma_handle_value_counted(self, h: NodeID)
        requires
            self.wf(),
            self.valid_handle(h),
        ensures
            self.ms().count(self.handle_value(h)) > 0,
    {
        lemma_elems_contains(self.node_map(), h.0);
    }

    /// An empty heap.
    pub fn new() -> (r: FibonacciHeap)
        ensures
            r.wf(),
            r.ms() =~= Multiset::<u64>::empty(),
            forall|h: NodeID| !r.issued(h),
            r.stamps() == 0,
    {
        let r = FibonacciHeap {
            nodes: slab_new(),
            trees: Vec::new(),
            min_element: 0,
            id_counter: 0,
        };
        proof {
            assert(r.root_set() =~= Set::<usize>::empty());
            lemma_elems_len(r.node_map());
            assert(r.ms() =~= Multiset::<u64>::empty()) by {
                if r.ms().len() == 0 {
                    assert(forall|v: u64| #[trigger] r.ms().count(v) == 0);
                }
            }
        }
        r
    }

    /// The number of stored elements.
    pub fn count(&self) -> (r: usize)
        requires
            self.wf(),
        ensures
            r == self.ms().len(),
    {
        proof {
            lemma_elems_len(self.node_map());
        }
        slab_len(&self.nodes)
    }

    /// Whether `tree`'s element compares strictly below the tracked minimum.
    fn is_minimum(&self, tree: &TreeNode) -> (r: bool)
        requires
            self.wf(),
        ensures
            r <==> (self.trees@.len() > 0 && tree.element
                < self.node_map()[self.min_element].element),
    {
        if self.trees.is_empty() {
            false
        } else {
            let min_node = slab_read(&self.nodes, self.min_element);
            tree.element < min_node.element
        }
    }

    /// Store a parentless, childless, unmarked node as a new root, updating
    /// the tracked minimum.
    fn insert_tree(&mut self, tree: TreeNode) -> (id: usize)
        requires
            old(self).wf(),
            tree.parent is None,
            tree.children@.len() == 0,
            !tree.marked,
            1 <= tree.handle_id <= old(self).id_counter,
        ensures
            final(self).wf(),
            !old(self).node_map().dom().contains(id),
            final(self).node_map() == old(self).node_map().insert(id, tree),
            final(self).ms() == old(self).ms().insert(tree.element),
            final(self).id_counter == old(self).id_counter,
    {
        let ghost m0 = self.node_map();
        let ghost rs0 = self.root_set();
        let was_empty = self.trees.is_empty();
        let is_min = self.is_minimum(&tree);
        let id = slab_insert(&mut self.nodes, tree);
        proof {
            assert(!self.trees@.contains(id)) by {
                if self.trees@.contains(id) {
                    assert(rs0.contains(id));
                }
            }
            lemma_seq_push_facts(self.trees@, id);
        }
        self.trees.push(id);
        if was_empty || is_min {
            self.min_element = id;
        }
        proof {
            assert(self.root_set() =~= rs0.insert(id));
            lemma_add_root(m0, rs0, id, tree);
            lemma_elems_insert_fresh(m0, id, tree);
            let m2 = self.node_map();
            // the tracked minimum is no larger than any root
            assert forall|r: usize| #[trigger]
                self.root_set().contains(r) implies m2[self.min_element].element
                <= m2[r].element by {
                if was_empty {
                    assert(rs0 =~= Set::<usize>::empty());
                    assert(r == id);
                } else if is_min {
                    if r != id {
                        assert(m0[old(self).min_element].element <= m0[r].element);
                    }
                } else {
                    if r != id {
                        assert(m0[old(self).min_element].element <= m0[r].element);
                    }
                }
            }
        }
        id
    }

    /// Insert an element as a fresh singleton root and hand back a handle
    /// for it. Every previously valid handle stays valid; no previously
    /// issued handle is reused.
    pub fn insert(&mut self, element: u64) -> (h: NodeID)
        requires
            old(self).wf(),
            old(self).can_issue(),
        ensures
            final(self).wf(),
            final(self).ms() == old(self).ms().insert(element),
            final(self).valid_handle(h),
            final(self).handle_value(h) == element,
            !old(self).issued(h),
            final(self).issued(h),
            final(self).stamps() == old(self).stamps() + 1,
            forall|h2: NodeID| #[trigger]
                old(self).valid_handle(h2) ==> final(self).valid_handle(h2)
                    && final(self).handle_value(h2) == old(self).handle_value(h2),
            forall|h2: NodeID|
                old(self).issued(h2) && !(#[trigger] old(self).valid_handle(h2))
                    ==> final(self).issued(h2) && !final(self).valid_handle(h2),
    {
        self.id_counter = self.id_counter + 1;
        let tree = TreeNode::new(element, None, self.id_counter);
        let id = self.insert_tree(tree);
        NodeID(id, self.id_counter)
    }

    /// Detach `node_id` from its parent's child list, clear its parent
    /// reference and mark flag, and add it to the root list.
    fn cut(&mut self, node_id: usize, parent_id: usize)
        requires
            old(self).wf(),
            old(self).node_map().dom().contains(node_id),
            old(self).node_map()[node_id].parent == Some(parent_id),
        ensures
            final(self).wf(),
            final(self).node_map().dom() =~= old(self).node_map().dom(),
            final(self).node_map()[node_id] == cleared(old(self).node_map()[node_id]),
            ({
                let pn = final(self).node_map()[parent_id];
                let po = old(self).node_map()[parent_id];
                pn.parent == po.parent && pn.element == po.element && pn.marked == po.marked
                    && pn.handle_id == po.handle_id
            }),
            forall|k: usize|
                old(self).node_map().dom().contains(k) && k != node_id && k != parent_id
                    ==> final(self).node_map()[k] == old(self).node_map()[k],
            final(self).ms() == old(self).ms(),
            final(self).id_counter == old(self).id_counter,
            final(self).min_element == old(self).min_element,
    {
        let ghost m0 = self.node_map();
        let ghost rs0 = self.root_set();
        proof {
            lemma_no_self_parent(m0, rs0, node_id);
            // the heap is not empty: node_id hangs under some root
            let kk = choose|kk: nat| is_root(m0, anc(m0, node_id, kk));
            lemma_chain_le(m0, rs0, node_id, kk);
            let a = anc(m0, node_id, kk);
            assert(rs0.contains(a));
            assert(self.trees@.contains(a));
            assert(self.trees@.len() > 0);
            // node_id is not a root, so it is not on the root list
            assert(!self.trees@.contains(node_id)) by {
                if self.trees@.contains(node_id) {
                    assert(rs0.contains(node_id));
                }
            }
        }
        let mut parent = slab_read(&self.nodes, parent_id);
        // find node_id in the parent's child list
        let mut j: usize = 0;
        while j < parent.children.len() && parent.children[j] != node_id
            invariant
                parent == old(self).node_map()[parent_id],
                0 <= j <= parent.children@.len(),
                exists|i: int| j <= i < parent.children@.len() && parent.children@[i] == node_id,
            decreases parent.children@.len() - j,
        {
            j = j + 1;
            proof {
                let i = choose|i: int|
                    j - 1 <= i < parent.children@.len() && parent.children@[i] == node_id;
                assert(i >= j);
            }
        }
        proof {
            if j >= parent.children@.len() {
                let i = choose|i: int|
                    j <= i < parent.children@.len() && parent.children@[i] == node_id;
                assert(false);
            }
        }
        let ghost jj = j as int;
        parent.children.remove(j);
        let ghost pn = parent;
        slab_write(&mut self.nodes, parent_id, parent);
        let mut node = slab_read(&self.nodes, node_id);
        node.parent = None;
        node.marked = false;
        let ghost cn = node;
        slab_write(&mut self.nodes, node_id, node);
        proof {
            assert(cn == cleared(m0[node_id]));
            lemma_cut(m0, rs0, node_id, parent_id, cn, pn, jj);
            lemma_seq_push_facts(self.trees@, node_id);
        }
        self.trees.push(node_id);
        proof {
            assert(self.root_set() =~= rs0.insert(node_id));
            let m1 = m0.insert(parent_id, pn);
            lemma_elems_update_same(m0, parent_id, pn);
            lemma_elems_update_same(m1, node_id, cn);
            let m2 = self.node_map();
            assert(m2.dom() =~= m0.dom());
            // the tracked minimum still bounds every root
            assert forall|r: usize| #[trigger]
                self.root_set().contains(r) implies m2[self.min_element].element
                <= m2[r].element by {
                if r == node_id {
                    lemma_min_le_all(m0, rs0, self.min_element, node_id);
                } else {
                    assert(m0[self.min_element].element <= m0[r].element);
                }
            }
        }
    }

    /// Cut `node_id` loose, then walk up the ancestor chain: a marked
    /// ancestor is cut as well, the first unmarked non-root ancestor is
    /// marked, and a root ancestor stops the walk.
    #[verifier::rlimit(60)]
    fn mark_or_cut(&mut self, node_id: usize)
        requires
            old(self).wf(),
            old(self).node_map().dom().contains(node_id),
            old(self).node_map()[node_id].parent is Some,
        ensures
            final(self).wf(),
            final(self).node_map().dom() =~= old(self).node_map().dom(),
            forall|k: usize| #[trigger]
                old(self).node_map().dom().contains(k) ==> final(self).node_map()[k].element
                    == old(self).node_map()[k].element && final(self).node_map()[k].handle_id
                    == old(self).node_map()[k].handle_id,
            final(self).node_map()[node_id].parent is None,
            final(self).ms() == old(self).ms(),
            final(self).id_counter == old(self).id_counter,
            final(self).min_element == old(self).min_element,
    {
        let ghost m0 = self.node_map();
        let mut child = node_id;
        loop
            invariant_except_break
                self.node_map().dom().contains(child),
                self.node_map()[child].parent is Some,
                child == node_id || self.node_map()[node_id].parent is None,
            invariant
                self.wf(),
                m0 == old(self).node_map(),
                m0.dom().contains(node_id),
                self.node_map().dom() =~= m0.dom(),
                forall|k: usize| #[trigger]
                    m0.dom().contains(k) ==> self.node_map()[k].element == m0[k].element
                        && self.node_map()[k].handle_id == m0[k].handle_id,
                self.ms() == elems_of(m0),
                self.id_counter == old(self).id_counter,
                self.min_element == old(self).min_element,
            ensures
                self.node_map().dom().contains(node_id),
                self.node_map()[node_id].parent is None,
            decreases self.node_map().dom().filter(
                |i: usize| self.node_map()[i].parent is Some,
            ).len(),
        {
            let ghost m_pre = self.node_map();
            let ghost nonroots_pre = m_pre.dom().filter(|i: usize| m_pre[i].parent is Some);
            let node = slab_read(&self.nodes, child);
            let pid;
            match node.parent {
                Some(p) => {
                    pid = p;
                },
                None => {
                    proof {
                        assert(false);
                    }
                    pid = 0;
                },
            }
            let parent = slab_read(&self.nodes, pid);
            self.cut(child, pid);
            proof {
                let m_now = self.node_map();
                let nonroots_now = m_now.dom().filter(|i: usize| m_now[i].parent is Some);
                assert(nonroots_now =~= nonroots_pre.remove(child));
                m_pre.dom().lemma_len_filter(|i: usize| m_pre[i].parent is Some);
                assert(nonroots_pre.contains(child));
                assert(nonroots_now.len() < nonroots_pre.len());
            }
            match parent.parent {
                None => {
                    // the parent is a root: never mark or cut a root
                    proof {
                        assert(self.node_map()[node_id].parent is None);
                    }
                    break ;
                },
                Some(_) => {
                    if !parent.marked {
                        // first unmarked non-root ancestor: mark it and stop
                        let mut p2 = slab_read(&self.nodes, pid);
                        p2.marked = true;
                        let ghost m1 = self.node_map();
                        let ghost rs1 = self.root_set();
                        let ghost pn = p2;
                        slab_write(&mut self.nodes, pid, p2);
                        proof {
                            assert forall|jx: int|
                                0 <= jx < m1[pid].children@.len() implies pn.element <= m1[#[trigger] m1[pid].children@[jx]].element by {
                                let c = m1[pid].children@[jx];
                                assert(m1.dom().contains(c) && m1[c].parent == Some(pid));
                            }
                            lemma_update_node(m1, rs1, pid, pn);
                            lemma_elems_update_same(m1, pid, pn);
                            let m2 = self.node_map();
                            assert(m2.dom() =~= m1.dom());
                            assert forall|r: usize| #[trigger]
                                self.root_set().contains(r) implies m2[self.min_element].element
                                <= m2[r].element by {
                                assert(m1[self.min_element].element <= m1[r].element);
                            }
                        }
                        proof {
                            assert(self.node_map()[node_id].parent is None);
                        }
                        break ;
                    }
                    // the parent was already marked: cut it too and continue
                    proof {
                        if child == node_id {
                            assert(self.node_map()[node_id].parent is None);
                        }
                    }
                    child = pid;
                },
            }
        }
    }

    /// Make root `u` a child of root `v` (which must compare no larger):
    /// one linking step of consolidation. `rs` is the ghost set of current
    /// roots, which the stale root list need not match during consolidation.
    fn link(&mut self, u: usize, v: usize, Ghost(rs): Ghost<Set<usize>>)
        requires
            forest_wf(old(self).node_map(), rs),
            rs.contains(u),
            rs.contains(v),
            u != v,
            old(self).node_map()[v].element <= old(self).node_map()[u].element,
        ensures
            forest_wf(final(self).node_map(), rs.remove(u)),
            final(self).node_map().dom() =~= old(self).node_map().dom(),
            forall|k: usize|
                old(self).node_map().dom().contains(k) && k != u && k != v
                    ==> final(self).node_map()[k] == old(self).node_map()[k],
            final(self).node_map()[u].parent == Some(v),
            final(self).node_map()[u].element == old(self).node_map()[u].element,
            final(self).node_map()[u].handle_id == old(self).node_map()[u].handle_id,
            final(self).node_map()[u].children@ == old(self).node_map()[u].children@,
            final(self).node_map()[v].children@ == old(self).node_map()[v].children@.push(u),
            final(self).node_map()[v].parent == old(self).node_map()[v].parent,
            final(self).node_map()[v].element == old(self).node_map()[v].element,
            final(self).node_map()[v].handle_id == old(self).node_map()[v].handle_id,
            elems_of(final(self).node_map()) == elems_of(old(self).node_map()),
            final(self).trees == old(self).trees,
            final(self).min_element == old(self).min_element,
            final(self).id_counter == old(self).id_counter,
    {
        let ghost m0 = self.node_map();
        let mut un = slab_read(&self.nodes, u);
        un.parent = Some(v);
        let ghost unn = un;
        slab_write(&mut self.nodes, u, un);
        let mut vn = slab_read(&self.nodes, v);
        vn.children.push(u);
        let ghost vnn = vn;
        slab_write(&mut self.nodes, v, vn);
        proof {
            lemma_link(m0, rs, u, v, unn, vnn);
            let m1 = m0.insert(u, unn);
            lemma_elems_update_same(m0, u, unn);
            lemma_elems_update_same(m1, v, vnn);
            assert(self.node_map().dom() =~= m0.dom());
        }
    }

    /// One degree collision of consolidation: link the two roots, the one
    /// comparing smaller becoming the parent. On equal elements the newly
    /// processed root (`incoming`) wins and becomes the parent — the
    /// tie-break that keeps consolidation deterministic. Returns the
    /// surviving parent root.
    fn link_pair(&mut self, incumbent: usize, incoming: usize, Ghost(rs): Ghost<Set<usize>>) -> (winner:
        usize)
        requires
            forest_wf(old(self).node_map(), rs),
            rs.contains(incumbent),
            rs.contains(incoming),
            incumbent != incoming,
        ensures
            winner == incumbent || winner == incoming,
            old(self).node_map()[incumbent].element < old(self).node_map()[incoming].element
                ==> winner == incumbent,
            old(self).node_map()[incumbent].element >= old(self).node_map()[incoming].element
                ==> winner == incoming,
            ({
                let loser = if winner == incumbent {
                    incoming
                } else {
                    incumbent
                };
                forest_wf(final(self).node_map(), rs.remove(loser)) && final(self).node_map()[loser].parent
                    == Some(winner) && final(self).node_map()[loser].element
                    == old(self).node_map()[loser].element && final(self).node_map()[loser].handle_id
                    == old(self).node_map()[loser].handle_id && final(self).node_map()[loser].children@
                    == old(self).node_map()[loser].children@ && final(self).node_map()[winner].children@
                    == old(self).node_map()[winner].children@.push(loser)
                    && final(self).node_map()[winner].parent == old(self).node_map()[winner].parent
                    && final(self).node_map()[winner].element
                    == old(self).node_map()[winner].element && final(self).node_map()[winner].handle_id
                    == old(self).node_map()[winner].handle_id
            }),
            final(self).node_map().dom() =~= old(self).node_map().dom(),
            forall|k: usize|
                old(self).node_map().dom().contains(k) && k != incumbent && k != incoming
                    ==> final(self).node_map()[k] == old(self).node_map()[k],
            elems_of(final(self).node_map()) == elems_of(old(self).node_map()),
            final(self).trees == old(self).trees,
            final(self).min_element == old(self).min_element,
            final(self).id_counter == old(self).id_counter,
    {
        let a_node = slab_read(&self.nodes, incumbent);
        let b_node = slab_read(&self.nodes, incoming);
        if a_node.element < b_node.element {
            self.link(incoming, incumbent, Ghost(rs));
            incumbent
        } else {
            self.link(incumbent, incoming, Ghost(rs));
            incoming
        }
    }

    /// Take root `tree_id` off the root list and out of the arena, returning
    /// its node. The caller promotes the children and restores the
    /// invariant.
    fn remove_tree(&mut self, tree_id: usize) -> (r: TreeNode)
        requires
            old(self).wf(),
            old(self).root_set().contains(tree_id),
        ensures
            r == old(self).node_map()[tree_id],
            final(self).node_map() == old(self).node_map().remove(tree_id),
            final(self).trees@.no_duplicates(),
            final(self).root_set() =~= old(self).root_set().remove(tree_id),
            final(self).min_element == old(self).min_element,
            final(self).id_counter == old(self).id_counter,
    {
        proof {
            assert(self.trees@.contains(tree_id));
        }
        let mut j: usize = 0;
        while j < self.trees.len() && self.trees[j] != tree_id
            invariant
                self == old(self),
                0 <= j <= self.trees@.len(),
                exists|i: int| j <= i < self.trees@.len() && self.trees@[i] == tree_id,
            decreases self.trees@.len() - j,
        {
            j = j + 1;
            proof {
                let i = choose|i: int|
                    j - 1 <= i < self.trees@.len() && self.trees@[i] == tree_id;
                assert(i >= j);
            }
        }
        proof {
            if j >= self.trees@.len() {
                let i = choose|i: int|
                    j <= i < self.trees@.len() && self.trees@[i] == tree_id;
                assert(false);
            }
        }
        let ghost t0 = self.trees@;
        self.trees.remove(j);
        proof {
            lemma_seq_remove_facts(t0, j as int);
            assert(self.trees@.to_set() =~= t0.to_set().remove(tree_id));
        }
        slab_remove(&mut self.nodes, tree_id)
    }

    /// Scan the root list and point the tracked minimum at the smallest
    /// root.
    fn rescan_min(&mut self)
        requires
            old(self).wf_except_min(),
            old(self).trees@.len() > 0,
        ensures
            final(self).wf(),
            final(self).node_map() == old(self).node_map(),
            final(self).trees == old(self).trees,
            final(self).id_counter == old(self).id_counter,
    {
        let mut best = self.trees[0];
        proof {
            assert(self.trees@.contains(self.trees@[0]));
            assert(self.root_set().contains(best));
        }
        let best_node = slab_read(&self.nodes, best);
        let mut best_val = best_node.element;
        let mut i: usize = 1;
        while i < self.trees.len()
            invariant
                self == old(self),
                self.wf_except_min(),
                1 <= i <= self.trees@.len(),
                self.root_set().contains(best),
                self.node_map().dom().contains(best),
                best_val == self.node_map()[best].element,
                forall|jx: int|
                    0 <= jx < i ==> best_val <= self.node_map()[#[trigger] self.trees@[jx]].element,
            decreases self.trees@.len() - i,
        {
            let t = self.trees[i];
            proof {
                assert(self.trees@.contains(t));
                assert(self.root_set().contains(t));
            }
            let tn = slab_read(&self.nodes, t);
            if tn.element < best_val {
                best = t;
                best_val = tn.element;
            }
            i = i + 1;
        }
        self.min_element = best;
        proof {
            assert forall|r: usize| #[trigger]
                self.root_set().contains(r) implies self.node_map()[self.min_element].element
                <= self.node_map()[r].element by {
                let jx = choose|jx: int|
                    0 <= jx < self.trees@.len() && self.trees@[jx] == r;
                assert(best_val <= self.node_map()[self.trees@[jx]].element);
            }
        }
    }

    /// Park root `r` in the degree table, linking away collisions: while the
    /// table already holds a root of the same degree, the two are merged
    /// (the smaller becomes parent; on a tie the newly processed root wins)
    /// and the survivor is re-attempted at its new degree. `rset` is the
    /// ghost set of current roots, `rem` the set of roots not yet processed.
    #[verifier::loop_isolation(false)]
    #[verifier::rlimit(60)]
    fn merge_or_merge_same_degrees_tree(
        &mut self,
        r: usize,
        buckets: &mut Vec<Option<usize>>,
        Ghost(rset): Ghost<Set<usize>>,
        Ghost(rem): Ghost<Set<usize>>,
    ) -> (res: Ghost<Set<usize>>)
        requires
            forest_wf(old(self).node_map(), rset),
            rset.finite(),
            rset =~= bucket_set(old(buckets)@).union(rem).insert(r),
            !bucket_set(old(buckets)@).contains(r),
            !rem.contains(r),
            rset.contains(r),
            forall|e: int|
                0 <= e < old(buckets)@.len() ==> ((#[trigger] old(buckets)@[e]) matches Some(b)
                    ==> rset.contains(b) && old(self).node_map()[b].children@.len() == e
                    && !rem.contains(b)),
        ensures
            forest_wf(final(self).node_map(), res@),
            res@.finite(),
            res@.len() > 0,
            res@ =~= bucket_set(final(buckets)@).union(rem),
            res@.subset_of(rset),
            forall|e: int|
                0 <= e < final(buckets)@.len() ==> ((#[trigger] final(buckets)@[e])
                    matches Some(b) ==> res@.contains(b)
                    && final(self).node_map()[b].children@.len() == e && !rem.contains(b)),
            final(self).node_map().dom() =~= old(self).node_map().dom(),
            forall|k: usize| #[trigger]
                old(self).node_map().dom().contains(k) ==> final(self).node_map()[k].element
                    == old(self).node_map()[k].element && final(self).node_map()[k].handle_id
                    == old(self).node_map()[k].handle_id,
            elems_of(final(self).node_map()) == elems_of(old(self).node_map()),
            final(self).trees == old(self).trees,
            final(self).min_element == old(self).min_element,
            final(self).id_counter == old(self).id_counter,
    {
        let ghost m_start = self.node_map();
        let ghost mut rs = rset;
        let mut cur = r;
        let mut placed = false;
        while !placed
            invariant
                placed ==> rs =~= bucket_set(buckets@).union(rem),
                placed ==> rs.len() > 0,
                !placed ==> rs =~= bucket_set(buckets@).union(rem).insert(cur),
                !placed ==> !bucket_set(buckets@).contains(cur),
                !placed ==> !rem.contains(cur),
                !placed ==> rs.contains(cur),
                !placed ==> self.node_map().dom().contains(cur),
                forest_wf(self.node_map(), rs),
                rs.finite(),
                rs.subset_of(rset),
                self.trees == old(self).trees,
                self.min_element == old(self).min_element,
                self.id_counter == old(self).id_counter,
                self.node_map().dom() =~= m_start.dom(),
                forall|k: usize| #[trigger]
                    m_start.dom().contains(k) ==> self.node_map()[k].element == m_start[k].element
                        && self.node_map()[k].handle_id == m_start[k].handle_id,
                elems_of(self.node_map()) == elems_of(m_start),
                forall|e: int|
                    0 <= e < buckets@.len() ==> ((#[trigger] buckets@[e]) matches Some(b)
                        ==> rs.contains(b) && self.node_map()[b].children@.len() == e
                        && !rem.contains(b)),
            decreases rs.len(), (if placed {
                0int
            } else {
                1int
            }),
        {
            let node = slab_read(&self.nodes, cur);
            let d = node.children.len();
            let ghost bpre = buckets@;
            if buckets.len() <= d {
                while buckets.len() <= d
                    invariant
                        buckets@.len() >= bpre.len(),
                        forall|e: int| 0 <= e < bpre.len() ==> buckets@[e] == bpre[e],
                        forall|e: int| bpre.len() <= e < buckets@.len() ==> buckets@[e] is None,
                        bucket_set(buckets@) =~= bucket_set(bpre),
                        buckets@.len() <= d + 1,
                    decreases d + 1 - buckets@.len(),
                {
                    proof {
                        lemma_bucket_push_none(buckets@);
                    }
                    buckets.push(None);
                }
            }
            proof {
                assert forall|e: int|
                    0 <= e < buckets@.len() implies ((#[trigger] buckets@[e]) matches Some(b)
                    ==> rs.contains(b) && self.node_map()[b].children@.len() == e
                    && !rem.contains(b)) by {
                    if e < bpre.len() {
                        assert(buckets@[e] == bpre[e]);
                    } else {
                        assert(buckets@[e] is None);
                    }
                }
                assert(bucket_set(buckets@) =~= bucket_set(bpre));
            }
            let slot_val = buckets[d];
            match slot_val {
                None => {
                    let ghost b1 = buckets@;
                    buckets[d] = Some(cur);
                    proof {
                        lemma_bucket_fill(b1, d as int, cur);
                        assert(rs =~= bucket_set(buckets@).union(rem));
                        assert(rs.len() > 0);
                    }
                    placed = true;
                },
                Some(other) => {
                    let ghost b1 = buckets@;
                    proof {
                        assert(b1[d as int] == Some(other));
                        assert(rs.contains(other));
                        assert(other != cur);
                        assert forall|e: int|
                            0 <= e < b1.len() && e != d implies b1[e] != Some(other) by {
                            if b1[e] == Some(other) {
                                assert(self.node_map()[other].children@.len() == e);
                                assert(self.node_map()[other].children@.len() == d);
                            }
                        }
                        lemma_bucket_clear(b1, d as int, other);
                    }
                    buckets[d] = None;
                    let ghost cur0 = cur;
                    let winner = self.link_pair(other, cur, Ghost(rs));
                    let ghost loser: usize;
                    proof {
                        loser = if winner == other {
                            cur0
                        } else {
                            other
                        };
                        rs = rs.remove(loser);
                    }
                    cur = winner;
                    proof {
                        assert(rs =~= bucket_set(buckets@).union(rem).insert(cur));
                        assert(!bucket_set(buckets@).contains(cur)) by {
                            if bucket_set(buckets@).contains(cur) {
                                let e = choose|e: int|
                                    0 <= e < buckets@.len() && buckets@[e] == Some(cur);
                                assert(e != d);
                                assert(b1[e] == Some(cur));
                            }
                        }
                        assert(rs.contains(cur));
                        assert forall|e: int|
                            0 <= e < buckets@.len() implies ((#[trigger] buckets@[e])
                            matches Some(b) ==> rs.contains(b)
                            && self.node_map()[b].children@.len() == e && !rem.contains(b)) by {
                            match buckets@[e] {
                                Some(b) => {
                                    assert(e != d);
                                    assert(b1[e] == Some(b));
                                    assert(b != other);
                                    assert(b != cur0);
                                    assert(b != loser && b != cur);
                                },
                                None => {},
                            }
                        }
                    }
                },
            }
        }
        Ghost(rs)
    }

    /// Read the surviving roots out of the degree table, in degree order.
    #[verifier::loop_isolation(false)]
    fn collect_roots(&self, buckets: &Vec<Option<usize>>) -> (r: Vec<usize>)
        requires
            forall|e: int|
                0 <= e < buckets@.len() ==> ((#[trigger] buckets@[e]) matches Some(b)
                    ==> self.node_map()[b].children@.len() == e),
        ensures
            r@.no_duplicates(),
            forall|x: usize| #[trigger] r@.contains(x) <==> bucket_set(buckets@).contains(x),
    {
        let mut new_trees: Vec<usize> = Vec::new();
        let mut e2: usize = 0;
        while e2 < buckets.len()
            invariant
                0 <= e2 <= buckets@.len(),
                forall|x: usize| #[trigger]
                    new_trees@.contains(x) <==> exists|e3: int|
                        0 <= e3 < e2 && buckets@[e3] == Some(x),
                new_trees@.no_duplicates(),
            decreases buckets@.len() - e2,
        {
            let slot_val = buckets[e2];
            match slot_val {
                Some(b) => {
                    proof {
                        assert(!new_trees@.contains(b)) by {
                            if new_trees@.contains(b) {
                                let e3 = choose|e3: int| 0 <= e3 < e2 && buckets@[e3] == Some(b);
                                assert(self.node_map()[b].children@.len() == e3);
                                assert(self.node_map()[b].children@.len() == e2);
                            }
                        }
                        lemma_seq_push_facts(new_trees@, b);
                    }
                    new_trees.push(b);
                },
                None => {},
            }
            e2 = e2 + 1;
        }
        proof {
            assert forall|x: usize| #[trigger] new_trees@.contains(x)
                <==> bucket_set(buckets@).contains(x) by {
                if new_trees@.contains(x) {
                    let e3 = choose|e3: int| 0 <= e3 < buckets@.len() && buckets@[e3] == Some(x);
                }
                if bucket_set(buckets@).contains(x) {
                    let e3 = choose|e3: int| 0 <= e3 < buckets@.len() && buckets@[e3] == Some(x);
                }
            }
        }
        new_trees
    }

    /// Merge roots of equal degree until all root degrees are distinct, then
    /// rebuild the root list and rescan for the minimum.
    #[verifier::loop_isolation(false)]
    #[verifier::rlimit(60)]
    fn consolidate(&mut self)
        requires
            old(self).wf_except_min(),
            old(self).trees@.len() > 0,
        ensures
            final(self).wf(),
            final(self).node_map().dom() =~= old(self).node_map().dom(),
            forall|k: usize| #[trigger]
                old(self).node_map().dom().contains(k) ==> final(self).node_map()[k].element
                    == old(self).node_map()[k].element && final(self).node_map()[k].handle_id
                    == old(self).node_map()[k].handle_id,
            final(self).ms() == old(self).ms(),
            final(self).id_counter == old(self).id_counter,
            final(self).distinct_root_degrees(),
    {
        let ghost m_start = self.node_map();
        let ghost t_start = self.trees@;
        let mut buckets: Vec<Option<usize>> = Vec::new();
        let ghost mut rset = self.trees@.to_set();
        let n = self.trees.len();
        let mut idx: usize = 0;
        proof {
            assert(t_start.subrange(0, n as int) =~= t_start);
            assert forall|b: usize| !bucket_set(buckets@).contains(b) by {
                if bucket_set(buckets@).contains(b) {
                    let e = choose|e: int| 0 <= e < buckets@.len() && buckets@[e] == Some(b);
                }
            }
            assert(rset =~= bucket_set(buckets@).union(t_start.subrange(0, n as int).to_set()));
        }
        while idx < n
            invariant
                0 <= idx <= n,
                self.trees@ == t_start,
                self.id_counter == old(self).id_counter,
                self.min_element == old(self).min_element,
                forest_wf(self.node_map(), rset),
                rset.finite(),
                self.node_map().dom() =~= m_start.dom(),
                forall|k: usize| #[trigger]
                    m_start.dom().contains(k) ==> self.node_map()[k].element == m_start[k].element
                        && self.node_map()[k].handle_id == m_start[k].handle_id,
                elems_of(self.node_map()) == elems_of(m_start),
                rset =~= bucket_set(buckets@).union(
                    t_start.subrange(idx as int, n as int).to_set(),
                ),
                forall|e: int|
                    0 <= e < buckets@.len() ==> ((#[trigger] buckets@[e]) matches Some(b)
                        ==> rset.contains(b) && self.node_map()[b].children@.len() == e
                        && !t_start.subrange(idx as int, n as int).to_set().contains(b)),
                idx > 0 ==> rset.len() > 0,
            decreases n - idx,
        {
            let r = self.trees[idx];
            proof {
                assert(t_start.subrange(idx as int, n as int)[0] == r);
                assert(t_start.subrange(idx as int, n as int).contains(r));
                assert(rset.contains(r));
                lemma_subrange_set_step(t_start, idx as int);
                // r does not recur later in the root list
                assert(!t_start.subrange(idx + 1, n as int).contains(r)) by {
                    let sub = t_start.subrange(idx + 1, n as int);
                    if sub.contains(r) {
                        let w = choose|w: int| #![auto] 0 <= w < sub.len() && sub[w] == r;
                        assert(t_start[idx + 1 + w] == r);
                        assert(t_start[idx as int] == r);
                    }
                }
            }
            idx = idx + 1;
            let ghost rem = t_start.subrange(idx as int, n as int).to_set();
            proof {
                assert(rset =~= bucket_set(buckets@).union(rem).insert(r));
                assert(!bucket_set(buckets@).contains(r)) by {
                    if bucket_set(buckets@).contains(r) {
                        let e = choose|e: int| 0 <= e < buckets@.len() && buckets@[e] == Some(r);
                    }
                }
            }
            let res = self.merge_or_merge_same_degrees_tree(r, &mut buckets, Ghost(rset), Ghost(rem));
            proof {
                rset = res@;
            }
        }
        proof {
            assert(t_start.subrange(n as int, n as int).to_set() =~= Set::<usize>::empty());
            assert(rset =~= bucket_set(buckets@));
        }
        let new_trees = self.collect_roots(&buckets);
        self.trees = new_trees;
        proof {
            assert(self.root_set() =~= rset);
            assert(self.trees@.len() > 0) by {
                let w = rset.choose();
                assert(rset.contains(w));
                assert(self.trees@.contains(w));
            }
            // every surviving root sits at the table index of its degree,
            // so root degrees are pairwise distinct
            assert forall|r1: usize, r2: usize|
                self.root_set().contains(r1) && self.root_set().contains(r2) && r1
                    != r2 implies #[trigger] self.node_map()[r1].children@.len()
                != #[trigger] self.node_map()[r2].children@.len() by {
                let e1 = choose|e1: int| 0 <= e1 < buckets@.len() && buckets@[e1] == Some(r1);
                let e2 = choose|e2: int| 0 <= e2 < buckets@.len() && buckets@[e2] == Some(r2);
                assert(self.node_map()[r1].children@.len() == e1);
                assert(self.node_map()[r2].children@.len() == e2);
                assert(e1 != e2);
            }
            assert(self.distinct_root_degrees());
        }
        self.rescan_min();
    }

    /// Remove root `rid` from the heap: take it out of the arena and root
    /// list, promote its children to unmarked roots, and (unless the heap
    /// emptied) consolidate and rescan the minimum. Returns its element.
    #[verifier::loop_isolation(false)]
    #[verifier::rlimit(100)]
    fn pop_root(&mut self, rid: usize) -> (r: u64)
        requires
            old(self).wf(),
            old(self).root_set().contains(rid),
        ensures
            final(self).wf(),
            r == old(self).node_map()[rid].element,
            final(self).ms() == old(self).ms().remove(r),
            final(self).node_map().dom() =~= old(self).node_map().dom().remove(rid),
            forall|k: usize| #[trigger]
                old(self).node_map().dom().contains(k) && k != rid ==> final(self).node_map().dom().contains(k) && final(self).node_map()[k].element
                    == old(self).node_map()[k].element && final(self).node_map()[k].handle_id
                    == old(self).node_map()[k].handle_id,
            final(self).id_counter == old(self).id_counter,
            final(self).distinct_root_degrees(),
    {
        let ghost m0 = self.node_map();
        let ghost rs0 = self.root_set();
        let node = self.remove_tree(rid);
        let ghost t1 = self.trees@;
        let mut ci: usize = 0;
        while ci < node.children.len()
            invariant
                0 <= ci <= node.children@.len(),
                node == m0[rid],
                self.node_map().dom() =~= m0.dom().remove(rid),
                forall|jx: int|
                    0 <= jx < ci ==> self.node_map()[#[trigger] node.children@[jx]] == cleared(
                        m0[node.children@[jx]],
                    ),
                forall|k: usize|
                    #[trigger] self.node_map().dom().contains(k) && (forall|jx: int|
                        0 <= jx < ci ==> node.children@[jx] != k) ==> self.node_map()[k] == m0[k],
                self.trees@ =~= t1 + node.children@.subrange(0, ci as int),
                self.trees@.no_duplicates(),
                self.min_element == old(self).min_element,
                self.id_counter == old(self).id_counter,
            decreases node.children@.len() - ci,
        {
            let c = node.children[ci];
            proof {
                assert(m0[rid].children@[ci as int] == c);
                assert(m0.dom().contains(c) && m0[c].parent == Some(rid));
                assert(c != rid);
                assert(self.node_map().dom().contains(c));
                // c has not been promoted yet: child lists hold no duplicates
                assert(m0[rid].children@.no_duplicates());
                assert forall|jx: int| 0 <= jx < ci implies node.children@[jx] != c by {}
                assert(self.node_map()[c] == m0[c]);
            }
            let mut cn = slab_read(&self.nodes, c);
            cn.parent = None;
            cn.marked = false;
            proof {
                assert(cn == cleared(m0[c]));
                // c is not yet on the root list
                assert(!self.trees@.contains(c)) by {
                    if t1.contains(c) {
                        assert(t1.to_set().contains(c));
                        assert(rs0.contains(c));
                        assert(is_root(m0, c));
                    }
                    if node.children@.subrange(0, ci as int).contains(c) {
                        let w = choose|w: int|
                            0 <= w < ci && node.children@.subrange(0, ci as int)[w] == c;
                        assert(node.children@[w] == c);
                    }
                    if self.trees@.contains(c) {
                        let w = choose|w: int| 0 <= w < self.trees@.len() && self.trees@[w] == c;
                        if w < t1.len() {
                            assert(t1[w] == c);
                        } else {
                            assert(node.children@.subrange(0, ci as int)[w - t1.len()] == c);
                        }
                    }
                }
                lemma_seq_push_facts(self.trees@, c);
            }
            slab_write(&mut self.nodes, c, cn);
            self.trees.push(c);
            ci = ci + 1;
            proof {
                assert(self.trees@ =~= t1 + node.children@.subrange(0, ci as int));
            }
        }
        proof {
            // the arena now holds exactly the promoted forest
            assert(self.node_map() =~= promote_children(m0, rid)) by {
                assert forall|k: usize| #[trigger]
                    self.node_map().dom().contains(k) implies self.node_map()[k]
                    == promote_children(m0, rid)[k] by {
                    if m0[rid].children@.contains(k) {
                        let jx = choose|jx: int|
                            0 <= jx < m0[rid].children@.len() && m0[rid].children@[jx] == k;
                        assert(self.node_map()[node.children@[jx]] == cleared(
                            m0[node.children@[jx]],
                        ));
                    } else {
                        assert forall|jx: int|
                            0 <= jx < node.children@.len() implies node.children@[jx] != k by {
                            if node.children@[jx] == k {
                                assert(m0[rid].children@.contains(k));
                            }
                        }
                    }
                }
            }
            lemma_promote(m0, rs0, rid);
            assert(self.root_set() =~= rs0.remove(rid).union(m0[rid].children@.to_set())) by {
                assert forall|x: usize| #[trigger] self.trees@.contains(x) implies rs0.remove(
                    rid,
                ).union(m0[rid].children@.to_set()).contains(x) by {
                    let w = choose|w: int| 0 <= w < self.trees@.len() && self.trees@[w] == x;
                    if w < t1.len() {
                        assert(t1[w] == x);
                        assert(t1.to_set().contains(x));
                    } else {
                        assert(node.children@.subrange(0, node.children@.len() as int)[w - t1.len()]
                            == x);
                        assert(node.children@.contains(x));
                    }
                }
                assert forall|x: usize|
                    rs0.remove(rid).union(m0[rid].children@.to_set()).contains(x) implies #[trigger]
                    self.trees@.contains(x) by {
                    if t1.to_set().contains(x) {
                        let w = choose|w: int| 0 <= w < t1.len() && t1[w] == x;
                        assert(self.trees@[w] == x);
                    } else {
                        let w = choose|w: int|
                            0 <= w < node.children@.len() && node.children@[w] == x;
                        assert(self.trees@[t1.len() + w] == x);
                    }
                }
            }
        }
        if self.trees.len() == 0 {
            proof {
                lemma_no_roots_empty(self.node_map(), self.root_set());
                assert(self.root_set() =~= Set::<usize>::empty());
            }
            return node.element;
        }
        self.consolidate();
        node.element
    }

    /// Remove and return the smallest stored element, or `None` when the
    /// heap holds nothing. Exactly the removed node's handle turns stale;
    /// every other handle stays valid with its value, and no new handle
    /// becomes valid. Afterwards the remaining roots have pairwise distinct
    /// degrees.
    pub fn extract_minimum(&mut self) -> (r: Option<u64>)
        requires
            old(self).wf(),
        ensures
            final(self).wf(),
            final(self).stamps() == old(self).stamps(),
            (match r {
                Option::None => old(self).ms().len() == 0 && *final(self) == *old(self),
                Option::Some(v) => old(self).ms().count(v) > 0 && (forall|x: u64| #[trigger]
                    old(self).ms().count(x) > 0 ==> v <= x) && final(self).ms() == old(self).ms().remove(v)
                    && final(self).distinct_root_degrees(),
            }),
            (match r {
                Option::Some(v) => exists|hm: NodeID|
                    #[trigger] old(self).valid_handle(hm) && old(self).handle_value(hm) == v && (
                    forall|h2: NodeID| #[trigger]
                        final(self).valid_handle(h2) <==> old(self).valid_handle(h2) && h2 != hm),
                Option::None => true,
            }),
            forall|h2: NodeID| #[trigger]
                final(self).valid_handle(h2) ==> old(self).valid_handle(h2) && final(self).handle_value(h2) == old(self).handle_value(h2),
            (match r {
                Option::Some(v) => forall|h2: NodeID| #[trigger]
                    old(self).valid_handle(h2) && old(self).handle_value(h2) != v ==> final(self).valid_handle(h2),
                Option::None => true,
            }),
            forall|h2: NodeID|
                old(self).issued(h2) && !(#[trigger] old(self).valid_handle(h2))
                    ==> final(self).issued(h2) && !final(self).valid_handle(h2),
    {
        if self.trees.is_empty() {
            proof {
                assert(self.root_set() =~= Set::<usize>::empty());
                lemma_no_roots_empty(self.node_map(), self.root_set());
                lemma_elems_len(self.node_map());
            }
            return None;
        }
        let mid = self.min_element;
        let ghost m0 = self.node_map();
        let ghost rs0 = self.root_set();
        proof {
            lemma_elems_contains(m0, mid);
            assert forall|x: u64| #[trigger] self.ms().count(x) > 0 implies m0[mid].element
                <= x by {
                let k = lemma_elems_witness(m0, x);
                lemma_min_le_all(m0, rs0, mid, k);
            }
        }
        let v = self.pop_root(mid);
        proof {
            assert forall|h2: NodeID| #[trigger]
                self.valid_handle(h2) implies old(self).valid_handle(h2) && self.handle_value(h2)
                == old(self).handle_value(h2) by {
                assert(h2.0 != mid);
            }
            // exactly the removed root's handle turned stale
            let hm = NodeID(mid, m0[mid].handle_id);
            assert(old(self).valid_handle(hm));
            assert forall|h2: NodeID| #[trigger]
                self.valid_handle(h2) <==> (old(self).valid_handle(h2) && h2 != hm) by {
                if self.valid_handle(h2) {
                    assert(h2.0 != mid);
                    assert(h2 != hm);
                }
                if old(self).valid_handle(h2) && h2 != hm {
                    if h2.0 == mid {
                        assert(h2.1 == m0[mid].handle_id);
                        assert(h2 == hm);
                    }
                    assert(h2.0 != mid);
                    assert(self.valid_handle(h2));
                }
            }
        }
        Some(v)
    }

    /// Lower the element of root `slot` to `new_element` and re-check the
    /// tracked minimum.
    fn update_root_value(&mut self, slot: usize, new_element: u64)
        requires
            old(self).wf(),
            old(self).node_map().dom().contains(slot),
            old(self).node_map()[slot].parent is None,
            new_element <= old(self).node_map()[slot].element,
        ensures
            final(self).wf(),
            final(self).node_map().dom() =~= old(self).node_map().dom(),
            final(self).node_map()[slot].element == new_element,
            final(self).node_map()[slot].handle_id == old(self).node_map()[slot].handle_id,
            forall|k: usize|
                old(self).node_map().dom().contains(k) && k != slot ==> final(self).node_map()[k]
                    == old(self).node_map()[k],
            final(self).node_map() =~= old(self).node_map().insert(
                slot,
                with_element(old(self).node_map()[slot], new_element),
            ),
            final(self).ms() == old(self).ms().remove(old(self).node_map()[slot].element).insert(
                new_element,
            ),
            final(self).id_counter == old(self).id_counter,
    {
        let ghost m0 = self.node_map();
        let ghost rs0 = self.root_set();
        let mut nd = slab_read(&self.nodes, slot);
        nd.element = new_element;
        let ghost nn = nd;
        slab_write(&mut self.nodes, slot, nd);
        proof {
            assert forall|j: int|
                0 <= j < m0[slot].children@.len() implies nn.element <= m0[#[trigger] m0[slot].children@[j]].element by {
                let c = m0[slot].children@[j];
                assert(m0.dom().contains(c) && m0[c].parent == Some(slot));
            }
            lemma_update_node(m0, rs0, slot, nn);
            lemma_elems_update(m0, slot, nn);
            assert(rs0.contains(slot));
            assert(self.trees@.contains(slot));
            assert(self.trees@.len() > 0);
        }
        let min_node = slab_read(&self.nodes, self.min_element);
        if new_element < min_node.element {
            self.min_element = slot;
        }
        proof {
            let m2 = self.node_map();
            assert forall|r: usize| #[trigger]
                self.root_set().contains(r) implies m2[self.min_element].element
                <= m2[r].element by {
                if r != slot {
                    assert(m0[old(self).min_element].element <= m0[r].element);
                }
                if old(self).min_element != slot && !(new_element < m0[old(
                    self,
                ).min_element].element) {
                    assert(m0[old(self).min_element].element <= new_element);
                }
            }
        }
    }

    /// Lower the element stored at `handle`'s node to `new_element`. A stale
    /// handle, or a value that compares strictly greater than the stored
    /// one, makes the call a no-op. If heap order is violated the node is
    /// cut loose and the mark/cut walk runs on its ancestors.
    pub fn decrease_key(&mut self, handle: &NodeID, new_element: u64)
        requires
            old(self).wf(),
        ensures
            final(self).wf(),
            (!old(self).valid_handle(*handle) || new_element > old(self).handle_value(*handle))
                ==> *final(self) == *old(self),
            (old(self).valid_handle(*handle) && new_element <= old(self).handle_value(*handle))
                ==> final(self).ms() == old(self).ms().remove(old(self).handle_value(*handle)).insert(
                new_element,
            ) && final(self).valid_handle(*handle) && final(self).handle_value(*handle)
                == new_element,
            // in place when the node is a root or heap order is kept
            (old(self).valid_handle(*handle) && new_element <= old(self).handle_value(*handle)
                && (match old(self).node_map()[handle.0].parent {
                Option::None => true,
                Option::Some(p) => old(self).node_map()[p].element <= new_element,
            })) ==> final(self).node_map() =~= old(self).node_map().insert(
                handle.0,
                with_element(old(self).node_map()[handle.0], new_element),
            ),
            // cut loose to the root level when heap order would be violated
            (old(self).valid_handle(*handle) && new_element <= old(self).handle_value(*handle)
                && (match old(self).node_map()[handle.0].parent {
                Option::None => false,
                Option::Some(p) => old(self).node_map()[p].element > new_element,
            })) ==> final(self).node_map()[handle.0].parent is None,
            final(self).stamps() == old(self).stamps(),
            forall|h2: NodeID| #[trigger]
                old(self).valid_handle(h2) && h2 != *handle ==> final(self).valid_handle(h2)
                    && final(self).handle_value(h2) == old(self).handle_value(h2),
            forall|h2: NodeID|
                old(self).issued(h2) && !(#[trigger] old(self).valid_handle(h2))
                    ==> final(self).issued(h2) && !final(self).valid_handle(h2),
    {
        let slot = handle.0;
        if !slab_contains(&self.nodes, slot) {
            return ;
        }
        let node = slab_read(&self.nodes, slot);
        if node.handle_id != handle.1 {
            return ;
        }
        if new_element > node.element {
            return ;
        }
        let ghost m0 = self.node_map();
        let ghost rs0 = self.root_set();
        match node.parent {
            None => {
                self.update_root_value(slot, new_element);
            },
            Some(parent_id) => {
                let parent = slab_read(&self.nodes, parent_id);
                if parent.element <= new_element {
                    // heap order is kept: change the value in place
                    let mut nd = slab_read(&self.nodes, slot);
                    nd.element = new_element;
                    let ghost nn = nd;
                    slab_write(&mut self.nodes, slot, nd);
                    proof {
                        assert forall|j: int|
                            0 <= j < m0[slot].children@.len() implies nn.element <= m0[#[trigger] m0[slot].children@[j]].element by {
                            let c = m0[slot].children@[j];
                            assert(m0.dom().contains(c) && m0[c].parent == Some(slot));
                        }
                        lemma_update_node(m0, rs0, slot, nn);
                        lemma_elems_update(m0, slot, nn);
                        assert(nn == with_element(m0[slot], new_element));
                        let m2 = self.node_map();
                        assert(!rs0.contains(slot));
                        assert forall|r: usize| #[trigger]
                            self.root_set().contains(r) implies m2[self.min_element].element
                            <= m2[r].element by {
                            assert(self.trees@.len() > 0);
                            assert(m0[self.min_element].element <= m0[r].element);
                            assert(r != slot);
                            assert(self.min_element != slot);
                        }
                    }
                } else {
                    // heap order violated: cut the node loose, cascade, then
                    // lower the (now root) node's value
                    self.mark_or_cut(slot);
                    self.update_root_value(slot, new_element);
                    proof {
                        assert(self.node_map()[slot].parent is None);
                    }
                }
            },
        }
    }

    /// Remove the node behind `handle` from the heap, wherever it sits. A
    /// stale handle makes the call a no-op. The node is cut to the root
    /// level (cascading as a key decrease would) and then removed as a root.
    pub fn delete(&mut self, handle: &NodeID)
        requires
            old(self).wf(),
        ensures
            final(self).wf(),
            !old(self).valid_handle(*handle) ==> *final(self) == *old(self),
            old(self).valid_handle(*handle) ==> final(self).ms() == old(self).ms().remove(
                old(self).handle_value(*handle),
            ) && !final(self).valid_handle(*handle) && final(self).distinct_root_degrees(),
            final(self).stamps() == old(self).stamps(),
            forall|h2: NodeID| #[trigger]
                old(self).valid_handle(h2) && h2 != *handle ==> final(self).valid_handle(h2)
                    && final(self).handle_value(h2) == old(self).handle_value(h2),
            forall|h2: NodeID|
                old(self).issued(h2) && !(#[trigger] old(self).valid_handle(h2))
                    ==> final(self).issued(h2) && !final(self).valid_handle(h2),
            forall|h2: NodeID| #[trigger]
                final(self).valid_handle(h2) ==> old(self).valid_handle(h2),
    {
        let slot = handle.0;
        if !slab_contains(&self.nodes, slot) {
            return ;
        }
        let node = slab_read(&self.nodes, slot);
        if node.handle_id != handle.1 {
            return ;
        }
        match node.parent {
            Some(_) => {
                self.mark_or_cut(slot);
            },
            None => {},
        }
        proof {
            assert(self.root_set().contains(slot));
        }
        let _ = self.pop_root(slot);
        proof {
            assert forall|h2: NodeID| #[trigger]
                old(self).valid_handle(h2) && h2 != *handle implies final(self).valid_handle(h2)
                && final(self).handle_value(h2) == old(self).handle_value(h2) by {
                assert(h2.0 != slot);
            }
        }
    }

    /// Move every element of `heap_to_merge` into this heap as a fresh
    /// singleton root and return the combined heap, consuming both. The
    /// consumed heap's tree shapes are not carried over; the next
    /// consolidation rebuilds trees. Migration through the arena costs time
    /// linear in the consumed heap either way. Handles issued by this heap stay
    /// valid; handles issued by the merged-away heap are meaningless on the
    /// result (a coincidence of slot and stamp with a node of the receiving
    /// heap is possible, so they are not rejected — only no migrated node
    /// can ever match one).
    pub fn merge(self, heap_to_merge: Self) -> (r: Self)
        requires
            self.wf(),
            heap_to_merge.wf(),
            self.can_issue(),
            heap_to_merge.can_issue(),
        ensures
            r.wf(),
            r.ms() == self.ms().add(heap_to_merge.ms()),
            r.stamps() == (if self.stamps() >= heap_to_merge.stamps() {
                self.stamps()
            } else {
                heap_to_merge.stamps()
            }) + 1,
            forall|h2: NodeID| #[trigger]
                self.valid_handle(h2) ==> r.valid_handle(h2) && r.handle_value(h2)
                    == self.handle_value(h2),
            forall|h2: NodeID|
                self.issued(h2) && !(#[trigger] self.valid_handle(h2)) ==> r.issued(h2)
                    && !r.valid_handle(h2),
    {
        let ghost a0 = self;
        let ghost b0 = heap_to_merge;
        let mut a = self;
        let mut b = heap_to_merge;
        if b.id_counter > a.id_counter {
            a.id_counter = b.id_counter;
        }
        // one fresh stamp for every migrated node: no handle issued by
        // either heap can name a migrated node afterwards
        let stamp = a.id_counter + 1;
        a.id_counter = stamp;
        proof {
            lemma_elems_len(slab_model(b.nodes));
        }
        loop
            invariant
                a.wf(),
                a.id_counter == stamp,
                stamp > a0.id_counter,
                slab_model(b.nodes).dom().finite(),
                forall|k: usize| #[trigger]
                    a0.node_map().dom().contains(k) ==> a.node_map().dom().contains(k)
                        && a.node_map()[k] == a0.node_map()[k],
                forall|k: usize|
                    #[trigger] a.node_map().dom().contains(k) && !a0.node_map().dom().contains(k)
                        ==> a.node_map()[k].handle_id == stamp,
                a.ms().add(elems_of(slab_model(b.nodes))) =~= a0.ms().add(b0.ms()),
            ensures
                slab_model(b.nodes).dom() =~= Set::<usize>::empty(),
            decreases slab_model(b.nodes).dom().len(),
        {
            let k_opt = slab_any_key(&b.nodes);
            match k_opt {
                None => {
                    break ;
                },
                Some(k) => {
                    let ghost bm = slab_model(b.nodes);
                    let node = slab_remove(&mut b.nodes, k);
                    proof {
                        lemma_elems_remove(bm, k);
                    }
                    let tree = TreeNode::new(node.element, None, stamp);
                    let ghost am = a.node_map();
                    let _ = a.insert_tree(tree);
                    proof {
                        assert(a.ms().add(elems_of(slab_model(b.nodes))) =~= a0.ms().add(
                            b0.ms(),
                        ));
                    }
                },
            }
        }
        proof {
            lemma_elems_len(slab_model(b.nodes));
            assert(elems_of(slab_model(b.nodes)) =~= Multiset::<u64>::empty()) by {
                if elems_of(slab_model(b.nodes)).len() == 0 {
                    assert(forall|v: u64| #[trigger]
                        elems_of(slab_model(b.nodes)).count(v) == 0);
                }
            }
            assert(a.ms() =~= a0.ms().add(b0.ms()));
        }
        a
    }

    /// The smallest stored element, if the heap is not empty. Does not
    /// mutate the heap.
    pub fn find_minimum(&self) -> (r: Option<u64>)
        requires
            self.wf(),
        ensures
            match r {
                Option::None => self.ms().len() == 0,
                Option::Some(v) => self.ms().count(v) > 0 && (forall|x: u64| #[trigger]
                    self.ms().count(x) > 0 ==> v <= x),
            },
    {
        if self.trees.is_empty() {
            proof {
                assert(self.root_set() =~= Set::<usize>::empty());
                lemma_no_roots_empty(self.node_map(), self.root_set());
                lemma_elems_len(self.node_map());
            }
            None
        } else {
            let node = slab_read(&self.nodes, self.min_element);
            proof {
                lemma_elems_contains(self.node_map(), self.min_element);
                assert forall|x: u64| #[trigger] self.ms().count(x) > 0 implies node.element
                    <= x by {
                    let k = lemma_elems_witness(self.node_map(), x);
                    lemma_min_le_all(self.node_map(), self.root_set(), self.min_element, k);
                }
            }
            Some(node.element)
        }
    }
}

} // verus!
