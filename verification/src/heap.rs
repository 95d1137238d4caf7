use vstd::prelude::*;
use vstd::multiset::Multiset;

use crate::order::{MaxFirst, MinFirst, Priority};

verus! {

broadcast use vstd::seq_lib::group_to_multiset_ensures;

/// Index of the parent of node `i` in the implicit binary tree: nodes are
/// stored contiguously, the root at index 0, and the children of node `i`
/// at `2 * i + 1` and `2 * i + 2`.
pub open spec fn parent_of(i: int) -> int {
    (i - 1) / 2
}

/// The heap-order invariant: no element strictly outranks its parent, so no
/// node ranks below any of its descendants.
pub open spec fn heap_ordered<T, C: Priority<T>>(c: C, s: Seq<T>) -> bool {
    forall|i: int| 1 <= i < s.len() ==> !c.ranks_above(#[trigger] s[i], s[parent_of(i)])
}

/// Heap order everywhere except possibly on the edge from node `j` up to its
/// parent: the shape the storage has while a new element swims up.
spec fn heap_ordered_except_up<T, C: Priority<T>>(c: C, s: Seq<T>, j: int) -> bool {
    forall|i: int| 1 <= i < s.len() && i != j ==> !c.ranks_above(#[trigger] s[i], s[parent_of(i)])
}

/// Heap order everywhere except possibly on the edges from the children of
/// node `j` up to `j`: the shape the storage has while an element sinks down.
spec fn heap_ordered_except_down<T, C: Priority<T>>(c: C, s: Seq<T>, j: int) -> bool {
    forall|i: int| 1 <= i < s.len() && parent_of(i) != j ==> !c.ranks_above(
        #[trigger] s[i],
        s[parent_of(i)],
    )
}

/// The children of node `j`, where present, do not outrank the element at
/// index `top`: the side condition that lets a swim or sink exchange restore
/// the edge it disturbs.
spec fn children_below<T, C: Priority<T>>(c: C, s: Seq<T>, j: int, top: int) -> bool {
    &&& (2 * j + 1 < s.len() ==> !c.ranks_above(s[2 * j + 1], s[top]))
    &&& (2 * j + 2 < s.len() ==> !c.ranks_above(s[2 * j + 2], s[top]))
}

/// Exchanging two positions of a sequence leaves its multiset of elements
/// unchanged.
pub(crate) proof fn lemma_exchange_multiset<T>(s: Seq<T>, a: int, b: int)
    requires
        0 <= a < s.len(),
        0 <= b < s.len(),
    ensures
        s.update(a, s[b]).update(b, s[a]).to_multiset() == s.to_multiset(),
{
    broadcast use vstd::multiset::group_multiset_axioms;

    if a == b {
        assert(s.update(a, s[b]).update(b, s[a]) =~= s);
    } else {
        let s1 = s.update(a, s[b]);
        assert(s1[b] == s[b]);
        assert(s.contains(s[a]));
        assert(s.contains(s[b]));
        assert(s1.update(b, s[a]).to_multiset() =~= s.to_multiset());
    }
}

/// Under heap order the root outranks, or ties with, every element: no
/// element of the storage strictly outranks the element at index 0.
pub proof fn lemma_root_outranks_all<T, C: Priority<T>>(c: C, s: Seq<T>, i: int)
    requires
        heap_ordered(c, s),
        0 <= i < s.len(),
    ensures
        !c.ranks_above(s[i], s[0]),
    decreases i,
{
    if i == 0 {
        c.lemma_asymmetric(s[0], s[0]);
    } else {
        let p = parent_of(i);
        assert(0 <= p < i);
        lemma_root_outranks_all(c, s, p);
        assert(!c.ranks_above(s[i], s[p]));
        c.lemma_outranked_transitive(s[i], s[p], s[0]);
    }
}

/// Sorted extraction: an extraction's result is never outranked by a later
/// one. When `first` came out, everything still held was outranked by it or
/// tied with it; any `later` element drawn from what was held then — in
/// particular every element a further extraction can return — therefore does
/// not outrank `first`, so repeated extraction until empty yields the
/// contents in the comparator's priority order.
pub proof fn lemma_extraction_in_order<T, C: Priority<T>>(
    c: C,
    first: T,
    later: T,
    remaining: Multiset<T>,
)
    requires
        forall|x: T| remaining.count(x) > 0 ==> !c.ranks_above(x, first),
        remaining.count(later) > 0,
    ensures
        !c.ranks_above(later, first),
{
}

/// Relies on `Vec::swap` from std: exchanges the elements at positions `a`
/// and `b` of the vector; panics only when an index is out of bounds.
#[verifier::external_body]
pub(crate) fn exchange<T>(v: &mut Vec<T>, a: usize, b: usize)
    requires
        a < old(v)@.len(),
        b < old(v)@.len(),
    ensures
        final(v)@ == old(v)@.update(a as int, old(v)@[b as int]).update(
            b as int,
            old(v)@[a as int],
        ),
{
    v.swap(a, b);
}

/// An array-backed binary heap. The storage holds a complete binary tree,
/// root first, and the comparator decides which of two elements must sit
/// above the other.
#[derive(Debug)]
pub struct Heap<T, C> where C: Priority<T> {
    items: Vec<T>,
    comparator: C,
}

impl<T, C: Priority<T>> View for Heap<T, C> {
    type V = Seq<T>;

    closed spec fn view(&self) -> Seq<T> {
        self.items@
    }
}

impl<T, C: Priority<T>> Heap<T, C> {
    /// The priority rule this heap was constructed with.
    pub closed spec fn ordering(&self) -> C {
        self.comparator
    }

    /// The heap's invariant: its storage is heap-ordered under its rule.
    pub open spec fn well_formed(&self) -> bool {
        heap_ordered(self.ordering(), self@)
    }

    /// Creates an empty heap that orders elements by `comparator`.
    pub fn new(comparator: C) -> (h: Self)
        ensures
            h@ == Seq::<T>::empty(),
            h.ordering() == comparator,
            h.well_formed(),
    {
        Heap { items: Vec::new(), comparator }
    }

    /// The number of elements held.
    pub fn len(&self) -> (n: usize)
        ensures
            n == self@.len(),
    {
        self.items.len()
    }

    /// Whether the heap holds no element.
    pub fn is_empty(&self) -> (r: bool)
        ensures
            r == (self@.len() == 0),
    {
        self.items.len() == 0
    }

    /// Index of the parent of node `idx`.
    fn parent_idx(&self, idx: usize) -> (r: usize)
        requires
            1 <= idx,
        ensures
            r as int == parent_of(idx as int),
            r < idx,
    {
        (idx - 1) / 2
    }

    /// Whether node `idx` has at least one child within the storage.
    fn children_present(&self, idx: usize) -> (r: bool)
        ensures
            r == (2 * (idx as int) + 1 < self@.len()),
    {
        idx < self.items.len() / 2
    }

    /// Index of the left child of node `idx`; the caller must know the child
    /// exists.
    fn left_child_idx(&self, idx: usize) -> (r: usize)
        requires
            2 * (idx as int) + 1 < self@.len(),
        ensures
            r as int == 2 * (idx as int) + 1,
    {
        let n = self.items.len();
        assert(2 * (idx as int) + 1 < n as int);
        2 * idx + 1
    }

    /// Index of the right child of node `idx`; the caller must know the left
    /// child exists, so the result cannot overflow.
    fn right_child_idx(&self, idx: usize) -> (r: usize)
        requires
            2 * (idx as int) + 1 < self@.len(),
        ensures
            r as int == 2 * (idx as int) + 2,
    {
        let n = self.items.len();
        assert(2 * (idx as int) + 1 < n as int);
        self.left_child_idx(idx) + 1
    }

    /// The child of node `idx` that the comparator ranks above the other; the
    /// left child if it is the only one, and `idx` itself when there is no
    /// child at all.
    fn smallest_child_idx(&self, idx: usize) -> (r: usize)
        ensures
            2 * (idx as int) + 1 >= self@.len() ==> r == idx,
            2 * (idx as int) + 2 == self@.len() ==> r as int == 2 * (idx as int) + 1,
            2 * (idx as int) + 2 < self@.len() ==> r as int == (if self.ordering().ranks_above(
                self@[2 * (idx as int) + 1],
                self@[2 * (idx as int) + 2],
            ) {
                2 * (idx as int) + 1
            } else {
                2 * (idx as int) + 2
            }),
    {
        if !self.children_present(idx) {
            return idx;
        }
        let left = self.left_child_idx(idx);
        let right = self.right_child_idx(idx);
        if right >= self.items.len() {
            return left;
        }
        if self.comparator.higher_priority(&self.items[left], &self.items[right]) {
            left
        } else {
            right
        }
    }

    /// Inserts `value`, then lets it swim up until it no longer outranks its
    /// parent. Always succeeds; the contents grow by exactly this element.
    pub fn add(&mut self, value: T)
        requires
            old(self).well_formed(),
        ensures
            final(self).well_formed(),
            final(self).ordering() == old(self).ordering(),
            final(self)@.len() == old(self)@.len() + 1,
            final(self)@.to_multiset() == old(self)@.to_multiset().insert(value),
    {
        self.items.push(value);
        let mut j: usize = self.items.len() - 1;
        proof {
            assert(self.items@ =~= old(self)@.push(value));
            assert forall|i: int| 1 <= i < self.items@.len() && i != j implies !self.comparator.ranks_above(
                #[trigger] self.items@[i],
                self.items@[parent_of(i)],
            ) by {
                assert(self.items@[i] == old(self)@[i]);
                assert(0 <= parent_of(i) < i);
                assert(!old(self).ordering().ranks_above(old(self)@[i], old(self)@[parent_of(i)]));
            }
        }
        loop
            invariant
                self.comparator == old(self).ordering(),
                self.items@.len() == old(self)@.len() + 1,
                j < self.items@.len(),
                self.items@.to_multiset() == old(self)@.to_multiset().insert(value),
                heap_ordered_except_up(self.comparator, self.items@, j as int),
                j > 0 ==> children_below(
                    self.comparator,
                    self.items@,
                    j as int,
                    parent_of(j as int),
                ),
            ensures
                self.comparator == old(self).ordering(),
                self.items@.len() == old(self)@.len() + 1,
                self.items@.to_multiset() == old(self)@.to_multiset().insert(value),
                heap_ordered(self.comparator, self.items@),
            decreases j,
        {
            if j == 0 {
                proof {
                    assert forall|i: int| 1 <= i < self.items@.len() implies !self.comparator.ranks_above(
                        #[trigger] self.items@[i],
                        self.items@[parent_of(i)],
                    ) by {
                        assert(i != 0);
                    }
                }
                break;
            }
            let p = self.parent_idx(j);
            if self.comparator.higher_priority(&self.items[j], &self.items[p]) {
                let ghost s = self.items@;
                let ghost ji = j as int;
                let ghost pi = p as int;
                exchange(&mut self.items, j, p);
                proof {
                    let t = self.items@;
                    let c = self.comparator;
                    lemma_exchange_multiset(s, ji, pi);
                    assert(t == s.update(ji, s[pi]).update(pi, s[ji]));
                    c.lemma_asymmetric(s[ji], s[pi]);
                    // The edge from the old position down to the new one holds.
                    assert(!c.ranks_above(t[ji], t[pi]));
                    // Every other edge of the new configuration.
                    assert forall|i: int| 1 <= i < t.len() && i != pi implies !c.ranks_above(
                        #[trigger] t[i],
                        t[parent_of(i)],
                    ) by {
                        assert(0 <= parent_of(i) < i);
                        if i == ji {
                            // handled above: the swapped pair itself
                        } else {
                            assert(t[i] == s[i]);
                            assert(!c.ranks_above(s[i], s[parent_of(i)]));
                            if parent_of(i) == pi {
                                // a sibling of the swimming element
                                c.lemma_outranked_transitive(s[i], s[pi], s[ji]);
                            } else if parent_of(i) == ji {
                                // a child of the swimming element's old slot
                                assert(parent_of(ji) == pi);
                                assert(i == 2 * ji + 1 || i == 2 * ji + 2);
                                assert(!c.ranks_above(s[i], s[pi]));
                            } else {
                                assert(t[parent_of(i)] == s[parent_of(i)]);
                            }
                        }
                    }
                    // The side condition at the new position.
                    if p > 0 {
                        let pp = parent_of(pi);
                        assert(0 <= pp < pi);
                        assert(parent_of(ji) == pi);
                        if 2 * pi + 1 < t.len() {
                            let o = 2 * pi + 1;
                            assert(parent_of(o) == pi);
                            if o != ji {
                                c.lemma_outranked_transitive(s[o], s[pi], s[pp]);
                            }
                            assert(!c.ranks_above(t[o], t[pp]));
                        }
                        if 2 * pi + 2 < t.len() {
                            let o = 2 * pi + 2;
                            assert(parent_of(o) == pi);
                            if o != ji {
                                c.lemma_outranked_transitive(s[o], s[pi], s[pp]);
                            }
                            assert(!c.ranks_above(t[o], t[pp]));
                        }
                    }
                }
                j = p;
            } else {
                proof {
                    assert forall|i: int| 1 <= i < self.items@.len() implies !self.comparator.ranks_above(
                        #[trigger] self.items@[i],
                        self.items@[parent_of(i)],
                    ) by {
                        if i == j as int {
                            assert(parent_of(j as int) == p as int);
                        }
                    }
                }
                break;
            }
        }
    }
}

impl<T, C: Priority<T>> Heap<T, C> {
    /// One step of the extraction sequence: removes and returns the element
    /// that outranks, or ties with, everything else held, or signals that the
    /// heap is empty. The root is exchanged with the last element, detached,
    /// and the moved element sinks level by level until the heap order is
    /// restored everywhere.
    pub fn extract_next(&mut self) -> (r: Option<T>)
        requires
            old(self).well_formed(),
        ensures
            final(self).well_formed(),
            final(self).ordering() == old(self).ordering(),
            old(self)@.len() == 0 ==> r is None && final(self)@ == old(self)@,
            old(self)@.len() > 0 ==> r is Some && final(self)@.len() == old(self)@.len() - 1,
            r matches Some(v) ==> ({
                &&& old(self)@.to_multiset().count(v) > 0
                &&& final(self)@.to_multiset() == old(self)@.to_multiset().remove(v)
                &&& forall|x: T|
                    old(self)@.to_multiset().count(x) > 0 ==> !old(self).ordering().ranks_above(
                        x,
                        v,
                    )
                &&& forall|x: T|
                    final(self)@.to_multiset().count(x) > 0 ==> !old(self).ordering().ranks_above(
                        x,
                        v,
                    )
            }),
    {
        if self.items.len() == 0 {
            return None;
        }
        let ghost s0 = self.items@;
        let ghost c = self.comparator;
        let ghost n = s0.len() as int;
        let v = self.items.swap_remove(0);
        proof {
            let s1 = s0.update(0, s0.last());
            assert(self.items@ == s1.drop_last());
            assert(s1.drop_last() =~= s1.remove(n - 1));
            lemma_exchange_multiset(s0, 0, n - 1);
            assert(s1.update(n - 1, s0[0]) =~= s0.update(0, s0.last()).update(n - 1, s0[0]));
            assert(s1.update(n - 1, s0[0]).to_multiset() == s0.to_multiset());
            assert(s1.remove(n - 1).to_multiset() == s1.to_multiset().remove(s1[n - 1]));
            if n == 1 {
                assert(s1 =~= s0);
                assert(self.items@.to_multiset() == s0.to_multiset().remove(s0[0]));
            } else {
                broadcast use vstd::multiset::group_multiset_axioms;

                assert(s1.to_multiset() == s0.to_multiset().insert(s0.last()).remove(s0[0]));
                assert(s0.contains(s0[0]));
                assert(s1.to_multiset().remove(s0.last()) =~= s0.to_multiset().remove(s0[0]));
            }
            // the extracted root outranks, or ties with, everything that stays
            assert forall|x: T| self.items@.to_multiset().count(x) > 0 implies !c.ranks_above(
                x,
                v,
            ) by {
                assert(self.items@.contains(x));
                let k = choose|k: int| 0 <= k < self.items@.len() && self.items@[k] == x;
                let k0: int = if k == 0 { n - 1 } else { k };
                assert(s0[k0] == x);
                lemma_root_outranks_all(c, s0, k0);
            }
            assert(s0.to_multiset().count(s0[0]) > 0) by {
                assert(s0.contains(s0[0]));
            }
            assert forall|x: T| s0.to_multiset().count(x) > 0 implies !c.ranks_above(x, v) by {
                assert(s0.contains(x));
                let k = choose|k: int| 0 <= k < s0.len() && s0[k] == x;
                lemma_root_outranks_all(c, s0, k);
            }
            // heap order can be broken only on the edges leaving the new root
            assert forall|i: int|
                1 <= i < self.items@.len() && parent_of(i) != 0 implies !c.ranks_above(
                #[trigger] self.items@[i],
                self.items@[parent_of(i)],
            ) by {
                assert(0 <= parent_of(i) < i);
                assert(parent_of(i) >= 1);
                assert(self.items@[i] == s0[i]);
                assert(self.items@[parent_of(i)] == s0[parent_of(i)]);
                assert(!c.ranks_above(s0[i], s0[parent_of(i)]));
            }
        }
        let mut j: usize = 0;
        loop
            invariant
                self.comparator == c,
                c == old(self).ordering(),
                self.items@.len() == n - 1,
                self.items@.to_multiset() == s0.to_multiset().remove(v),
                j as int <= self.items@.len(),
                self.items@.len() > 0 ==> j < self.items@.len(),
                heap_ordered_except_down(self.comparator, self.items@, j as int),
                j > 0 ==> children_below(
                    self.comparator,
                    self.items@,
                    j as int,
                    parent_of(j as int),
                ),
                forall|x: T|
                    self.items@.to_multiset().count(x) > 0 ==> !c.ranks_above(x, v),
            ensures
                self.comparator == c,
                self.items@.len() == n - 1,
                self.items@.to_multiset() == s0.to_multiset().remove(v),
                heap_ordered(self.comparator, self.items@),
                forall|x: T|
                    self.items@.to_multiset().count(x) > 0 ==> !c.ranks_above(x, v),
            decreases self.items@.len() - j,
        {
            if !self.children_present(j) {
                proof {
                    assert forall|i: int| 1 <= i < self.items@.len() implies !c.ranks_above(
                        #[trigger] self.items@[i],
                        self.items@[parent_of(i)],
                    ) by {
                        if parent_of(i) == j as int {
                            assert(2 * (j as int) + 1 <= i <= 2 * (j as int) + 2);
                            assert(false);
                        }
                    }
                }
                break;
            }
            let ch = self.smallest_child_idx(j);
            proof {
                assert(2 * (j as int) + 1 < self.items@.len());
                assert(ch as int == 2 * (j as int) + 1 || ch as int == 2 * (j as int) + 2);
                assert(parent_of(ch as int) == j as int);
            }
            if self.comparator.higher_priority(&self.items[ch], &self.items[j]) {
                let ghost s = self.items@;
                let ghost ji = j as int;
                let ghost ci = ch as int;
                exchange(&mut self.items, j, ch);
                proof {
                    let t = self.items@;
                    lemma_exchange_multiset(s, ji, ci);
                    assert(t == s.update(ji, s[ci]).update(ci, s[ji]));
                    c.lemma_asymmetric(s[ci], s[ji]);
                    assert(!c.ranks_above(t[ci], t[ji]));
                    // the sibling of the chosen child does not outrank it
                    if 2 * ji + 2 < s.len() {
                        let l = 2 * ji + 1;
                        let rr = 2 * ji + 2;
                        if c.ranks_above(s[l], s[rr]) {
                            c.lemma_asymmetric(s[l], s[rr]);
                        }
                        assert(!c.ranks_above(s[if ci == l {
                            rr
                        } else {
                            l
                        }], s[ci]));
                    }
                    assert forall|i: int| 1 <= i < t.len() && parent_of(i) != ci implies !c.ranks_above(
                        #[trigger] t[i],
                        t[parent_of(i)],
                    ) by {
                        assert(0 <= parent_of(i) < i);
                        if i == ci {
                            // the swapped pair itself
                        } else if parent_of(i) == ji {
                            // the sibling of the chosen child, against the moved-up element
                            assert(i == 2 * ji + 1 || i == 2 * ji + 2);
                            assert(t[i] == s[i]);
                            assert(t[ji] == s[ci]);
                        } else if i == ji {
                            // the vacated slot, against its own parent
                            assert(ji >= 1);
                            assert(parent_of(ci) == ji);
                            assert(t[i] == s[ci]);
                            assert(t[parent_of(i)] == s[parent_of(ji)]);
                        } else {
                            assert(t[i] == s[i]);
                            assert(parent_of(i) != ji);
                            assert(t[parent_of(i)] == s[parent_of(i)]);
                            assert(!c.ranks_above(s[i], s[parent_of(i)]));
                        }
                    }
                    // the side condition at the chosen child's position
                    assert(parent_of(ci) == ji);
                    if 2 * ci + 1 < t.len() {
                        let g = 2 * ci + 1;
                        assert(parent_of(g) == ci);
                        assert(g != ji && g != ci);
                        assert(!c.ranks_above(s[g], s[ci]));
                        assert(!c.ranks_above(t[g], t[ji]));
                    }
                    if 2 * ci + 2 < t.len() {
                        let g = 2 * ci + 2;
                        assert(parent_of(g) == ci);
                        assert(g != ji && g != ci);
                        assert(!c.ranks_above(s[g], s[ci]));
                        assert(!c.ranks_above(t[g], t[ji]));
                    }
                }
                j = ch;
            } else {
                proof {
                    let s = self.items@;
                    let ji = j as int;
                    let ci = ch as int;
                    // neither child outranks the settled element
                    if 2 * ji + 2 < s.len() {
                        let l = 2 * ji + 1;
                        let rr = 2 * ji + 2;
                        if c.ranks_above(s[l], s[rr]) {
                            assert(ci == l);
                            c.lemma_asymmetric(s[l], s[rr]);
                            c.lemma_outranked_transitive(s[rr], s[l], s[ji]);
                        } else {
                            assert(ci == rr);
                            c.lemma_outranked_transitive(s[l], s[rr], s[ji]);
                        }
                    }
                    assert forall|i: int| 1 <= i < s.len() implies !c.ranks_above(
                        #[trigger] s[i],
                        s[parent_of(i)],
                    ) by {
                        if parent_of(i) == ji {
                            assert(i == 2 * ji + 1 || i == 2 * ji + 2);
                        }
                    }
                }
                break;
            }
        }
        Some(v)
    }
}

impl Heap<i32, MinFirst> {
    /// Creates an empty min-heap over `i32`: extraction is ascending.
    pub fn new_min() -> (h: Self)
        ensures
            h@ == Seq::<i32>::empty(),
            h.well_formed(),
            h.ordering() == MinFirst,
    {
        Self::new(MinFirst)
    }
}

impl Heap<i32, MaxFirst> {
    /// Creates an empty max-heap over `i32`: extraction is descending.
    pub fn new_max() -> (h: Self)
        ensures
            h@ == Seq::<i32>::empty(),
            h.well_formed(),
            h.ordering() == MaxFirst,
    {
        Self::new(MaxFirst)
    }
}

/// Front door for ascending heaps.
pub struct MinHeap;

impl MinHeap {
    /// Creates an empty min-heap over `i32`.
    pub fn new() -> (h: Heap<i32, MinFirst>)
        ensures
            h@ == Seq::<i32>::empty(),
            h.well_formed(),
            h.ordering() == MinFirst,
    {
        Heap::new_min()
    }
}

/// Front door for descending heaps.
pub struct MaxHeap;

impl MaxHeap {
    /// Creates an empty max-heap over `i32`.
    pub fn new() -> (h: Heap<i32, MaxFirst>)
        ensures
            h@ == Seq::<i32>::empty(),
            h.well_formed(),
            h.ordering() == MaxFirst,
    {
        Heap::new_max()
    }
}

} // verus!
