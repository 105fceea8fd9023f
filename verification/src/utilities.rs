//! A bounded selector that keeps the largest counts seen so far.

use vstd::multiset::Multiset;
use vstd::prelude::*;

verus! {

/// Whether `x` is held and nothing held is smaller.
pub open spec fn is_least(held: Multiset<u32>, x: u32) -> bool {
    held.count(x) > 0 && forall|y: u32| held.count(y) > 0 ==> x <= y
}

/// The smallest count held, or `None` where nothing is held.
pub open spec fn lowest(held: Multiset<u32>) -> Option<u32> {
    if held.len() == 0 {
        None
    } else {
        Some(choose|x: u32| is_least(held, x))
    }
}

/// What a selector of the given capacity holds after it was offered `value`:
/// below capacity everything is taken in; at capacity a value takes the place
/// of the smallest one held if it is strictly greater, and is turned away
/// otherwise.
pub open spec fn offer(held: Multiset<u32>, capacity: nat, value: u32) -> Multiset<u32> {
    if held.len() < capacity {
        held.insert(value)
    } else {
        match lowest(held) {
            Some(least) => if value > least {
                held.remove(least).insert(value)
            } else {
                held
            },
            None => held,
        }
    }
}

/// A multiset that is not empty has a least element.
proof fn lemma_has_least(held: Multiset<u32>)
    requires
        held.len() > 0,
    ensures
        exists|x: u32| is_least(held, x),
    decreases held.len(),
{
    let some = held.choose();
    assert(held.count(some) > 0);
    let rest = held.remove(some);
    if rest.len() == 0 {
        assert forall|y: u32| held.count(y) > 0 implies some <= y by {
            if y != some {
                assert(rest.count(y) > 0);
                assert(rest.len() > 0) by {
                    vstd::multiset::lemma_multiset_empty_len(rest);
                }
            }
        }
        assert(is_least(held, some));
    } else {
        lemma_has_least(rest);
        let low = choose|x: u32| is_least(rest, x);
        let least = if some <= low {
            some
        } else {
            low
        };
        assert(rest.count(low) > 0);
        assert(held.count(low) > 0);
        assert forall|y: u32| held.count(y) > 0 implies least <= y by {
            if y != some {
                assert(rest.count(y) > 0);
            }
        }
        assert(is_least(held, least));
    }
}

/// Where anything is held, `lowest` names a count that is held and that
/// none of the others is below.
pub proof fn lemma_lowest(held: Multiset<u32>)
    requires
        held.len() > 0,
    ensures
        lowest(held) matches Some(least) && is_least(held, least),
{
    lemma_has_least(held);
}

spec fn parent(i: int) -> int {
    (i - 1) / 2
}

/// Every slot but the first is at least as large as its parent.
spec fn heap_ordered(s: Seq<u32>) -> bool {
    forall|j: int| 0 < j < s.len() ==> s[parent(j)] <= #[trigger] s[j]
}

/// Heap order holds everywhere but between `hole` and its parent, and the
/// children of `hole` are no smaller than the parent of `hole`.
spec fn ordered_above(s: Seq<u32>, hole: int) -> bool {
    &&& forall|j: int| 0 < j < s.len() && j != hole ==> s[parent(j)] <= #[trigger] s[j]
    &&& forall|j: int|
        0 < j < s.len() && parent(j) == hole && hole > 0 ==> s[parent(hole)] <= #[trigger] s[j]
}

/// Heap order holds everywhere but between `hole` and its children, and the
/// children of `hole` are no smaller than the parent of `hole`.
spec fn ordered_below(s: Seq<u32>, hole: int) -> bool {
    &&& forall|j: int| 0 < j < s.len() && parent(j) != hole ==> s[parent(j)] <= #[trigger] s[j]
    &&& forall|j: int|
        0 < j < s.len() && parent(j) == hole && hole > 0 ==> s[parent(hole)] <= #[trigger] s[j]
}

proof fn lemma_root_is_least(s: Seq<u32>, i: int)
    requires
        heap_ordered(s),
        0 <= i < s.len(),
    ensures
        s[0] <= s[i],
    decreases i,
{
    if i > 0 {
        lemma_root_is_least(s, parent(i));
    }
}

proof fn lemma_lowest_is_root(s: Seq<u32>)
    requires
        heap_ordered(s),
    ensures
        lowest(s.to_multiset()) == if s.len() == 0 {
            None
        } else {
            Some(s[0])
        },
{
    let held = s.to_multiset();
    s.to_multiset_ensures();
    if s.len() > 0 {
        assert(s.contains(s[0]));
        assert forall|y: u32| held.count(y) > 0 implies s[0] <= y by {
            assert(s.contains(y));
            let i = choose|i: int| 0 <= i < s.len() && s[i] == y;
            lemma_root_is_least(s, i);
        }
        assert(is_least(held, s[0]));
        let c = choose|x: u32| is_least(held, x);
        assert(is_least(held, c));
        assert(c == s[0]);
    }
}

proof fn lemma_swap_keeps_multiset(s: Seq<u32>, i: int, j: int)
    requires
        0 <= i < s.len(),
        0 <= j < s.len(),
    ensures
        s.update(i, s[j]).update(j, s[i]).to_multiset() == s.to_multiset(),
{
    vstd::seq_lib::to_multiset_update(s, i, s[j]);
    vstd::seq_lib::to_multiset_update(s.update(i, s[j]), j, s[i]);
    s.to_multiset_ensures();
    assert(s.contains(s[i]));
    assert(s.contains(s[j]));
    assert(s.update(i, s[j]).update(j, s[i]).to_multiset() =~= s.to_multiset());
}

/// Moves the value at `start` towards the root until its parent is no larger.
fn sift_up(slots: &mut Vec<u32>, start: usize)
    requires
        start < old(slots).len(),
        ordered_above(old(slots)@, start as int),
    ensures
        heap_ordered(final(slots)@),
        final(slots)@.to_multiset() == old(slots)@.to_multiset(),
        final(slots).len() == old(slots).len(),
{
    let mut i: usize = start;
    while i > 0 && slots[(i - 1) / 2] > slots[i]
        invariant
            i < slots.len(),
            slots.len() == old(slots).len(),
            slots@.to_multiset() == old(slots)@.to_multiset(),
            ordered_above(slots@, i as int),
        decreases i,
    {
        let up: usize = (i - 1) / 2;
        let above: u32 = slots[up];
        let below: u32 = slots[i];
        proof {
            lemma_swap_keeps_multiset(slots@, up as int, i as int);
        }
        slots.set(up, below);
        slots.set(i, above);
        i = up;
    }
}

/// Moves the value at the root towards the leaves until no child is smaller.
fn sift_down(slots: &mut Vec<u32>)
    requires
        old(slots).len() > 0,
        ordered_below(old(slots)@, 0),
    ensures
        heap_ordered(final(slots)@),
        final(slots)@.to_multiset() == old(slots)@.to_multiset(),
        final(slots).len() == old(slots).len(),
{
    let len: usize = slots.len();
    let mut i: usize = 0;
    let mut settled: bool = false;
    while !settled && i < len / 2
        invariant
            i < len,
            len == slots.len(),
            slots.len() == old(slots).len(),
            slots@.to_multiset() == old(slots)@.to_multiset(),
            settled ==> heap_ordered(slots@),
            !settled ==> ordered_below(slots@, i as int),
        decreases len - i, if settled { 0int } else { 1int },
    {
        let left: usize = 2 * i + 1;
        let right: usize = left + 1;
        let mut least: usize = left;
        if right < len && slots[right] < slots[left] {
            least = right;
        }
        if slots[least] < slots[i] {
            let above: u32 = slots[i];
            let below: u32 = slots[least];
            proof {
                lemma_swap_keeps_multiset(slots@, i as int, least as int);
            }
            slots.set(i, below);
            slots.set(least, above);
            i = least;
        } else {
            settled = true;
        }
    }
}

/// A selector of bounded capacity over `u32` counts. It holds the largest
/// counts it was offered, as many as its capacity allows, and reports the
/// smallest of them: the bar that a further count has to pass.
pub struct LimitedMinHeap {
    slots: Vec<u32>,
    max_size: usize,
}

impl View for LimitedMinHeap {
    type V = Multiset<u32>;

    /// The counts held, each as often as it was admitted.
    closed spec fn view(&self) -> Multiset<u32> {
        self.slots@.to_multiset()
    }
}

impl LimitedMinHeap {
    /// The largest number of counts that the selector holds at once.
    pub closed spec fn capacity(&self) -> nat {
        self.max_size as nat
    }

    /// The selector holds no more than its capacity, with the smallest count
    /// at hand.
    pub closed spec fn wf(&self) -> bool {
        &&& heap_ordered(self.slots@)
        &&& self.slots.len() <= self.max_size
    }

    /// A well-formed selector never holds more counts than its capacity.
    pub proof fn lemma_bounded(&self)
        requires
            self.wf(),
        ensures
            self@.len() <= self.capacity(),
    {
        self.slots@.to_multiset_ensures();
    }

    /// An empty selector that will hold at most `max_size` counts.
    pub fn new(max_size: usize) -> (heap: Self)
        ensures
            heap.wf(),
            heap@ == Multiset::<u32>::empty(),
            heap.capacity() == max_size,
    {
        let heap = LimitedMinHeap { slots: Vec::new(), max_size };
        proof {
            assert(heap.slots@ =~= Seq::<u32>::empty());
            heap.slots@.to_multiset_ensures();
            assert(heap@ =~= Multiset::<u32>::empty());
        }
        heap
    }

    /// Offers `value` to the selector and returns the smallest count held
    /// afterwards, or `None` where the selector holds nothing.
    pub fn insert(&mut self, value: u32) -> (threshold: Option<u32>)
        requires
            old(self).wf(),
        ensures
            final(self).wf(),
            final(self).capacity() == old(self).capacity(),
            final(self)@ == offer(old(self)@, old(self).capacity(), value),
            final(self)@.len() <= final(self).capacity(),
            threshold == lowest(final(self)@),
    {
        let len: usize = self.slots.len();
        proof {
            lemma_lowest_is_root(self.slots@);
            self.slots@.to_multiset_ensures();
        }
        if len < self.max_size {
            self.slots.push(value);
            sift_up(&mut self.slots, len);
        } else if len > 0 && value > self.slots[0] {
            proof {
                vstd::seq_lib::to_multiset_update(self.slots@, 0, value);
                assert(self.slots@.contains(self.slots@[0]));
                assert(self.slots@.to_multiset().insert(value).remove(self.slots@[0])
                    =~= self.slots@.to_multiset().remove(self.slots@[0]).insert(value));
            }
            self.slots.set(0, value);
            sift_down(&mut self.slots);
        }
        proof {
            lemma_lowest_is_root(self.slots@);
            self.slots@.to_multiset_ensures();
        }
        if self.slots.len() > 0 {
            Some(self.slots[0])
        } else {
            None
        }
    }

    /// The smallest count held, or `None` where the selector holds nothing.
    /// The selector is left as it was.
    pub fn peek(&mut self) -> (least: Option<u32>)
        requires
            old(self).wf(),
        ensures
            *final(self) == *old(self),
            least == lowest(old(self)@),
    {
        proof {
            lemma_lowest_is_root(self.slots@);
        }
        if self.slots.len() > 0 {
            Some(self.slots[0])
        } else {
            None
        }
    }
}

} // verus!
