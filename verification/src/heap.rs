//! The generic priority-queue contract the heap is exposed behind: a
//! mergeable queue over `u64` elements with handle-based key decrease and
//! removal.

use vstd::multiset::Multiset;
use vstd::prelude::*;

use crate::fibonacci::FibonacciHeap;
use crate::fibonacci::NodeID;

verus! {

/// A mergeable priority queue. An implementation abstracts to a multiset of
/// stored elements (`ms`), issues handles for inserted elements, and rejects
/// a handle once its node is gone.
pub trait Heap: Sized {
    type Handle;

    /// The implementation's invariant.
    spec fn wf(&self) -> bool;

    /// The multiset of stored elements.
    spec fn ms(&self) -> Multiset<u64>;

    /// Whether `h` still names the node it was issued for.
    spec fn valid_handle(&self, h: &Self::Handle) -> bool;

    /// The element stored at `h`'s node.
    spec fn handle_value(&self, h: &Self::Handle) -> u64;

    /// Whether the implementation has ever issued a handle with `h`'s stamp.
    spec fn issued(&self, h: &Self::Handle) -> bool;

    /// How many generation stamps the implementation has used up so far;
    /// one more can be issued while this is below `usize::MAX` (a machine
    /// limit). Every operation says how it moves this budget, so callers
    /// can chain operations.
    spec fn stamps(&self) -> nat;

    /// The smallest stored element, or `None` on an empty heap.
    fn find_minimum(&self) -> (r: Option<u64>)
        requires
            self.wf(),
        ensures
            match r {
                Option::None => self.ms().len() == 0,
                Option::Some(v) => self.ms().count(v) > 0 && (forall|x: u64| #[trigger]
                    self.ms().count(x) > 0 ==> v <= x),
            },
    ;

    /// The combined heap, consuming both operands.
    fn merge(self, heap_to_merge: Self) -> (r: Self)
        requires
            self.wf(),
            heap_to_merge.wf(),
            self.stamps() < usize::MAX,
            heap_to_merge.stamps() < usize::MAX,
        ensures
            r.wf(),
            r.ms() == self.ms().add(heap_to_merge.ms()),
            r.stamps() == (if self.stamps() >= heap_to_merge.stamps() {
                self.stamps()
            } else {
                heap_to_merge.stamps()
            }) + 1,
    ;

    /// Store an element; the returned handle names its node.
    fn insert(&mut self, element: u64) -> (h: Self::Handle)
        requires
            old(self).wf(),
            old(self).stamps() < usize::MAX,
        ensures
            final(self).wf(),
            final(self).ms() == old(self).ms().insert(element),
            final(self).valid_handle(&h),
            final(self).handle_value(&h) == element,
            !old(self).issued(&h),
            final(self).issued(&h),
            final(self).stamps() == old(self).stamps() + 1,
    ;

    /// Remove and return the smallest stored element.
    fn extract_minimum(&mut self) -> (r: Option<u64>)
        requires
            old(self).wf(),
        ensures
            final(self).wf(),
            final(self).stamps() == old(self).stamps(),
            match r {
                Option::None => old(self).ms().len() == 0,
                Option::Some(v) => old(self).ms().count(v) > 0 && (forall|x: u64| #[trigger]
                    old(self).ms().count(x) > 0 ==> v <= x) && final(self).ms() == old(self).ms().remove(v),
            },
            (match r {
                Option::Some(v) => exists|hm: Self::Handle|
                    #[trigger] old(self).valid_handle(&hm) && old(self).handle_value(&hm) == v
                        && (forall|h2: Self::Handle| #[trigger] final(self).valid_handle(&h2)
                            <==> old(self).valid_handle(&h2) && h2 != hm),
                Option::None => true,
            }),
    ;

    /// Lower the element at `handle`'s node; a stale handle or a greater
    /// value is ignored.
    fn decrease_key(&mut self, handle: &Self::Handle, new_element: u64)
        requires
            old(self).wf(),
        ensures
            final(self).wf(),
            final(self).stamps() == old(self).stamps(),
            (!old(self).valid_handle(handle) || new_element > old(self).handle_value(handle))
                ==> final(self).ms() == old(self).ms(),
            (old(self).valid_handle(handle) && new_element <= old(self).handle_value(handle))
                ==> final(self).ms() == old(self).ms().remove(
                old(self).handle_value(handle),
            ).insert(new_element) && final(self).valid_handle(handle) && final(self).handle_value(handle) == new_element,
    ;

    /// Remove the node behind `handle`; a stale handle is ignored.
    fn delete(&mut self, handle: &Self::Handle)
        requires
            old(self).wf(),
        ensures
            final(self).wf(),
            final(self).stamps() == old(self).stamps(),
            !old(self).valid_handle(handle) ==> final(self).ms() == old(self).ms(),
            old(self).valid_handle(handle) ==> final(self).ms() == old(self).ms().remove(
                old(self).handle_value(handle),
            ) && !final(self).valid_handle(handle),
    ;
}

impl Heap for FibonacciHeap {
    type Handle = NodeID;

    open spec fn wf(&self) -> bool {
        FibonacciHeap::wf(*self)
    }

    open spec fn ms(&self) -> Multiset<u64> {
        FibonacciHeap::ms(*self)
    }

    open spec fn valid_handle(&self, h: &NodeID) -> bool {
        FibonacciHeap::valid_handle(*self, *h)
    }

    open spec fn handle_value(&self, h: &NodeID) -> u64 {
        FibonacciHeap::handle_value(*self, *h)
    }

    open spec fn issued(&self, h: &NodeID) -> bool {
        FibonacciHeap::issued(*self, *h)
    }

    open spec fn stamps(&self) -> nat {
        FibonacciHeap::stamps(*self)
    }

    fn find_minimum(&self) -> (r: Option<u64>) {
        FibonacciHeap::find_minimum(self)
    }

    fn merge(self, heap_to_merge: Self) -> (r: Self) {
        FibonacciHeap::merge(self, heap_to_merge)
    }

    fn insert(&mut self, element: u64) -> (h: NodeID) {
        FibonacciHeap::insert(self, element)
    }

    fn extract_minimum(&mut self) -> (r: Option<u64>) {
        let r = FibonacciHeap::extract_minimum(self);
        proof {
            match r {
                Option::Some(v) => {
                    let hm = choose|hm: NodeID| #[trigger]
                        old(self).valid_handle(hm) && old(self).handle_value(hm) == v && (
                        forall|h2: NodeID| #[trigger]
                            self.valid_handle(h2) <==> old(self).valid_handle(h2) && h2 != hm);
                    assert(Heap::valid_handle(old(self), &hm));
                    assert(Heap::handle_value(old(self), &hm) == v);
                    assert forall|h2: NodeID| #[trigger]
                        Heap::valid_handle(&*self, &h2) <==> Heap::valid_handle(old(self), &h2)
                            && h2 != hm by {
                        assert(self.valid_handle(h2) <==> old(self).valid_handle(h2) && h2 != hm);
                    }
                },
                Option::None => {},
            }
        }
        r
    }

    fn decrease_key(&mut self, handle: &NodeID, new_element: u64) {
        FibonacciHeap::decrease_key(self, handle, new_element)
    }

    fn delete(&mut self, handle: &NodeID) {
        FibonacciHeap::delete(self, handle)
    }
}

} // verus!
