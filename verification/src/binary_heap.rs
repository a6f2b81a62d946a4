//! An array-backed binary heap over `i64`, configurable as a min-heap or a
//! max-heap. `push` and `pop` keep the heap property; `hipify` runs a single
//! bottom-up pass of sift-ups over the last level only, which rearranges the
//! array without promising the heap property of the result.

use vstd::prelude::*;
use vstd::arithmetic::power2::pow2;
use crate::seq_facts::{lemma_seq_swap_ms, seq_swap};

verus! {

/// Whether smaller or greater elements win their way to the root.
pub enum BinaryHeapType {
    Min,
    Max,
}

/// The heap: elements in level order, the winner at index 0, the children of
/// index `i` at `2 i + 1` and `2 i + 2`.
pub struct BinaryHeap {
    pub data: Vec<i64>,
    pub tree_type: BinaryHeapType,
}

/// Does `a` beat `b` under the configured order (strictly smaller for a
/// min-heap, strictly greater for a max-heap)?
pub open spec fn spec_cmp(t: BinaryHeapType, a: i64, b: i64) -> bool {
    match t {
        BinaryHeapType::Min => a < b,
        BinaryHeapType::Max => a > b,
    }
}

/// The heap property: no element beats its parent.
pub open spec fn is_heap(t: BinaryHeapType, s: Seq<i64>) -> bool {
    forall|j: int| 1 <= j < s.len() ==> !spec_cmp(t, #[trigger] s[j], s[(j - 1) / 2])
}

/// The heap property everywhere except that the element at `xi` may beat its
/// parent: the state a sift-up repairs.
pub open spec fn heap_except_up(t: BinaryHeapType, s: Seq<i64>, xi: int) -> bool {
    forall|j: int| 1 <= j < s.len() && j != xi ==> !spec_cmp(t, #[trigger] s[j], s[(j - 1) / 2])
}

/// The children of `xi` do not beat `xi`'s own parent: what makes the swap of
/// a sift-up step sound.
pub open spec fn bridge_up(t: BinaryHeapType, s: Seq<i64>, xi: int) -> bool {
    xi >= 1 ==> forall|c: int|
        1 <= c < s.len() && (c - 1) / 2 == xi ==> !spec_cmp(t, #[trigger] s[c], s[(xi - 1) / 2])
}

/// The heap property everywhere except that the children of `xi` may beat it:
/// the state a sift-down repairs.
pub open spec fn heap_except_down(t: BinaryHeapType, s: Seq<i64>, xi: int) -> bool {
    forall|j: int|
        1 <= j < s.len() && (j - 1) / 2 != xi ==> !spec_cmp(t, #[trigger] s[j], s[(j - 1) / 2])
}

/// The children of `xi` do not beat `xi`'s own parent (sift-down side).
pub open spec fn bridge_down(t: BinaryHeapType, s: Seq<i64>, xi: int) -> bool {
    xi >= 1 ==> forall|c: int|
        1 <= c < s.len() && (c - 1) / 2 == xi ==> !spec_cmp(t, #[trigger] s[c], s[(xi - 1) / 2])
}

/// In a heap, no element beats the root: the root is minimal in a min-heap
/// and maximal in a max-heap.
pub proof fn lemma_heap_root_extremal(t: BinaryHeapType, s: Seq<i64>, j: int)
    requires
        is_heap(t, s),
        0 <= j < s.len(),
    ensures
        !spec_cmp(t, s[j], s[0]),
    decreases j,
{
    if j > 0 {
        lemma_heap_root_extremal(t, s, (j - 1) / 2);
    }
}

impl BinaryHeap {
    /// An empty heap of the given kind.
    pub fn new(tree_type: BinaryHeapType) -> (r: BinaryHeap)
        ensures
            r.data@.len() == 0,
            r.tree_type == tree_type,
            is_heap(r.tree_type, r.data@),
    {
        BinaryHeap { data: Vec::new(), tree_type }
    }

    /// Takes ownership of a whole vector and runs one bottom-up pass of
    /// sift-ups over its last level. This keeps exactly the elements of the
    /// input (as a multiset) but does not establish the heap property for
    /// every input: inner levels are never revisited. The length bound keeps
    /// the level computation's shifts within a 32-bit word.
    pub fn hipify(tree_type: BinaryHeapType, vec: Vec<i64>) -> (r: BinaryHeap)
        requires
            vec@.len() < 0x8000_0000,
        ensures
            r.tree_type == tree_type,
            r.data@.len() == vec@.len(),
            r.data@.to_multiset() == vec@.to_multiset(),
    {
        let mut tree = BinaryHeap { data: vec, tree_type };
        tree.hipify_int();
        tree
    }

    /// One sift-up per position of the last level, walked to the very top.
    fn hipify_int(&mut self)
        requires
            old(self).data@.len() < 0x8000_0000,
        ensures
            final(self).tree_type == old(self).tree_type,
            final(self).data@.len() == old(self).data@.len(),
            final(self).data@.to_multiset() == old(self).data@.to_multiset(),
    {
        let len = self.data.len();
        if len == 0 {
            return;
        }
        let levels = self.get_level_number(len);
        proof {
            vstd::bits::lemma_usize_pow2_no_overflow((levels - 1) as nat);
            vstd::bits::lemma_usize_shl_is_mul(1usize, (levels - 1) as usize);
        }
        let start_index = (1usize << (levels - 1)) - 1;
        let mut i: usize = start_index;
        while i < len
            invariant
                self.data@.len() == old(self).data@.len(),
                self.data@.to_multiset() == old(self).data@.to_multiset(),
                self.tree_type == old(self).tree_type,
                len == self.data@.len(),
            decreases len - i,
        {
            self.bubble_up(i, true);
            i = i + 1;
        }
    }

    /// Number of levels a complete tree of `element_number` nodes occupies:
    /// the least `L` with `2^L > element_number` (so 0 for an empty tree).
    fn get_level_number(&self, element_number: usize) -> (r: usize)
        requires
            element_number < 0x8000_0000,
        ensures
            element_number == 0 ==> r == 0,
            element_number >= 1 ==> 1 <= r <= 31,
            element_number >= 1 ==> pow2((r - 1) as nat) <= element_number < pow2(r as nat),
    {
        let mut level: usize = 0;
        loop
            invariant
                element_number < 0x8000_0000,
                0 <= level <= 31,
                level >= 1 ==> pow2((level - 1) as nat) <= element_number,
            ensures
                element_number == 0 ==> level == 0,
                element_number >= 1 ==> 1 <= level <= 31,
                element_number >= 1 ==> pow2((level - 1) as nat) <= element_number < pow2(
                    level as nat,
                ),
            decreases 32 - level,
        {
            proof {
                vstd::arithmetic::power2::lemma2_to64();
                vstd::bits::lemma_usize_pow2_no_overflow(level as nat);
                vstd::bits::lemma_usize_shl_is_mul(1usize, level);
                if level < 31 {
                    vstd::arithmetic::power2::lemma_pow2_strictly_increases(level as nat, 31);
                }
            }
            if !((1usize << level) <= element_number) {
                break;
            }
            level = level + 1;
        }
        level
    }

    /// Does `value1` beat `value2` under this heap's configured order?
    fn cmp(&self, value1: &i64, value2: &i64) -> (r: bool)
        ensures
            r == spec_cmp(self.tree_type, *value1, *value2),
    {
        match &self.tree_type {
            BinaryHeapType::Min => *value1 < *value2,
            BinaryHeapType::Max => *value1 > *value2,
        }
    }

    /// Walks the element at `i` towards the root, swapping it past every
    /// parent it beats. With `to_top` the walk continues to the root even
    /// past parents it does not beat; without it, the walk stops at the
    /// first such parent, which restores the heap property when only the
    /// edge above `i` was in question.
    fn bubble_up(&mut self, i: usize, to_top: bool)
        requires
            i < old(self).data@.len(),
        ensures
            final(self).tree_type == old(self).tree_type,
            final(self).data@.len() == old(self).data@.len(),
            final(self).data@.to_multiset() == old(self).data@.to_multiset(),
            (!to_top && heap_except_up(old(self).tree_type, old(self).data@, i as int)
                && bridge_up(old(self).tree_type, old(self).data@, i as int)) ==> is_heap(
                final(self).tree_type,
                final(self).data@,
            ),
    {
        let ghost t = old(self).tree_type;
        let ghost h = !to_top && heap_except_up(old(self).tree_type, old(self).data@, i as int)
            && bridge_up(old(self).tree_type, old(self).data@, i as int);
        let mut i: usize = i;

        while i > 0
            invariant
                self.tree_type == t,
                i < self.data@.len(),
                self.data@.len() == old(self).data@.len(),
                self.data@.to_multiset() == old(self).data@.to_multiset(),
                h ==> heap_except_up(t, self.data@, i as int),
                h ==> bridge_up(t, self.data@, i as int),
                h ==> !to_top,
            ensures
                self.tree_type == t,
                self.data@.len() == old(self).data@.len(),
                self.data@.to_multiset() == old(self).data@.to_multiset(),
                h ==> is_heap(t, self.data@),
            decreases i,
        {
            let parent: usize = (i - 1) / 2;

            let a = self.data[i];
            let b = self.data[parent];
            if self.cmp(&a, &b) {
                let ghost pre = self.data@;
                self.data[parent] = a;
                self.data[i] = b;
                proof {
                    assert(self.data@ =~= seq_swap(pre, parent as int, i as int));
                    lemma_seq_swap_ms(pre, parent as int, i as int);
                }
            } else if !to_top {
                proof {
                    if h {
                        assert(is_heap(t, self.data@)) by {
                        assert forall|j: int| #![trigger self.data@[j]]
                            1 <= j < self.data@.len() implies !spec_cmp(
                            t,
                            self.data@[j],
                            self.data@[(j - 1) / 2],
                        ) by {
                                if j != i {
                                    assert(heap_except_up(t, self.data@, i as int));
                                }
                            }
                        }
                    }
                }
                break;
            }

            i = parent;
        }
    }

    /// Walks the element at `i` down, swapping it with its best child while
    /// some child beats it; restores the heap property when only the edges
    /// below `i` were in question.
    fn bubble_down(&mut self, i: usize)
        requires
            i < old(self).data@.len() || i == 0,
            old(self).data@.len() < 0x8000_0000,
        ensures
            final(self).tree_type == old(self).tree_type,
            final(self).data@.len() == old(self).data@.len(),
            final(self).data@.to_multiset() == old(self).data@.to_multiset(),
            (heap_except_down(old(self).tree_type, old(self).data@, i as int) && bridge_down(
                old(self).tree_type,
                old(self).data@,
                i as int,
            )) ==> is_heap(final(self).tree_type, final(self).data@),
    {
        let ghost t = old(self).tree_type;
        let ghost h = heap_except_down(old(self).tree_type, old(self).data@, i as int)
            && bridge_down(old(self).tree_type, old(self).data@, i as int);
        let len = self.data.len();
        let mut i: usize = i;

        loop
            invariant
                self.tree_type == t,
                len == self.data@.len(),
                len < 0x8000_0000,
                i < len || i == 0,
                self.data@.len() == old(self).data@.len(),
                self.data@.to_multiset() == old(self).data@.to_multiset(),
                h ==> heap_except_down(t, self.data@, i as int) && bridge_down(
                    t,
                    self.data@,
                    i as int,
                ),
            ensures
                self.tree_type == t,
                self.data@.len() == old(self).data@.len(),
                self.data@.to_multiset() == old(self).data@.to_multiset(),
                h ==> is_heap(t, self.data@),
            decreases len - i,
        {
            let mut minmax: usize = i;

            let pos1 = 2 * i + 1;
            if pos1 < len {
                let a = self.data[pos1];
                let m = self.data[minmax];
                if self.cmp(&a, &m) {
                    minmax = pos1;
                }
            }
            let pos2 = 2 * i + 2;
            if pos2 < len {
                let a = self.data[pos2];
                let m = self.data[minmax];
                if self.cmp(&a, &m) {
                    minmax = pos2;
                }
            }

            if minmax == i {
                proof {
                    if h {
                        assert(is_heap(t, self.data@)) by {
                            assert forall|j: int| #![trigger self.data@[j]]
                                1 <= j < self.data@.len() implies !spec_cmp(
                                t,
                                self.data@[j],
                                self.data@[(j - 1) / 2],
                            ) by {
                                if (j - 1) / 2 == i {
                                    assert(j == 2 * i + 1 || j == 2 * i + 2);
                                } else {
                                    assert(heap_except_down(t, self.data@, i as int));
                                }
                            }
                        }
                    }
                }
                break;
            }

            let ghost pre = self.data@;
            let a = self.data[i];
            let b = self.data[minmax];
            self.data[i] = b;
            self.data[minmax] = a;
            proof {
                assert(self.data@ =~= seq_swap(pre, i as int, minmax as int));
                lemma_seq_swap_ms(pre, i as int, minmax as int);
                if h {
                    let s = self.data@;
                    let gi = i as int;
                    let gm = minmax as int;
                    assert(gm == 2 * gi + 1 || gm == 2 * gi + 2);
                    assert(spec_cmp(t, pre[gm], pre[gi]));
                    assert(heap_except_down(t, s, gm)) by {
                        assert forall|j: int| #![trigger s[j]]
                            1 <= j < s.len() && (j - 1) / 2 != gm implies !spec_cmp(
                            t,
                            s[j],
                            s[(j - 1) / 2],
                        ) by {
                            let p = (j - 1) / 2;
                            if j == gm {
                                assert(p == gi);
                                assert(s[gm] == pre[gi] && s[gi] == pre[gm]);
                            } else if p == gi && j != gm {
                                assert(j == 2 * gi + 1 || j == 2 * gi + 2);
                                assert(s[j] == pre[j] && s[p] == pre[gm]);
                                assert(!spec_cmp(t, pre[j], pre[gm]));
                            } else if j == gi {
                                assert(gi >= 1);
                                assert(s[gi] == pre[gm] && s[p] == pre[p]);
                                assert(bridge_down(t, pre, gi));
                                assert(!spec_cmp(t, pre[gm], pre[(gi - 1) / 2]));
                            } else {
                                assert(s[j] == pre[j] && s[p] == pre[p]);
                                assert(heap_except_down(t, pre, gi));
                                assert(p != gi);
                                assert(!spec_cmp(t, pre[j], pre[p]));
                            }
                        }
                    }
                    assert(bridge_down(t, s, gm)) by {
                        assert forall|c: int| #![trigger s[c]]
                            1 <= c < s.len() && (c - 1) / 2 == gm implies !spec_cmp(
                            t,
                            s[c],
                            s[(gm - 1) / 2],
                        ) by {
                            assert((gm - 1) / 2 == gi);
                            assert(c == 2 * gm + 1 || c == 2 * gm + 2);
                            assert(s[c] == pre[c] && s[gi] == pre[gm]);
                            assert(heap_except_down(t, pre, gi));
                            assert(!spec_cmp(t, pre[c], pre[gm]));
                        }
                    }
                }
            }
            i = minmax;
        }
    }

    /// Appends `value` and sifts it up: a heap stays a heap and gains exactly
    /// one occurrence of `value`.
    pub fn push(&mut self, value: i64)
        requires
            is_heap(old(self).tree_type, old(self).data@),
        ensures
            final(self).tree_type == old(self).tree_type,
            final(self).data@.len() == old(self).data@.len() + 1,
            final(self).data@.to_multiset() == old(self).data@.to_multiset().insert(value),
            is_heap(final(self).tree_type, final(self).data@),
    {
        broadcast use vstd::seq_lib::group_to_multiset_ensures;

        self.data.push(value);
        let last = self.data.len() - 1;
        proof {
            let s = self.data@;
            let g = last as int;
            assert(heap_except_up(self.tree_type, s, g));
            assert(bridge_up(self.tree_type, s, g)) by {
                assert forall|c: int| #![trigger s[c]]
                    1 <= c < s.len() && (c - 1) / 2 == g implies !spec_cmp(
                    self.tree_type,
                    s[c],
                    s[(g - 1) / 2],
                ) by {
                    assert(c >= 2 * g + 1);
                }
            }
        }
        self.bubble_up(last, false);
    }

    /// Removes and returns the root: the minimum of a min-heap, the maximum
    /// of a max-heap, `None` on an empty heap. The last element takes the
    /// root's place and sifts down, so a heap stays a heap. The length bound
    /// keeps the child index arithmetic of the sift inside `usize`.
    pub fn pop(&mut self) -> (r: Option<i64>)
        requires
            is_heap(old(self).tree_type, old(self).data@),
            old(self).data@.len() < 0x8000_0000,
        ensures
            final(self).tree_type == old(self).tree_type,
            old(self).data@.len() == 0 ==> r is None && final(self).data@ == old(self).data@,
            old(self).data@.len() > 0 ==> {
                &&& r == Some(old(self).data@[0])
                &&& final(self).data@.len() == old(self).data@.len() - 1
                &&& final(self).data@.to_multiset() == old(self).data@.to_multiset().remove(
                    old(self).data@[0],
                )
                &&& is_heap(final(self).tree_type, final(self).data@)
                &&& forall|j: int|
                    0 <= j < old(self).data@.len() ==> !spec_cmp(
                        old(self).tree_type,
                        #[trigger] old(self).data@[j],
                        old(self).data@[0],
                    )
            },
    {
        broadcast use vstd::seq_lib::group_to_multiset_ensures;

        let ghost t = old(self).tree_type;
        proof {
            if old(self).data@.len() > 0 {
                assert forall|j: int| #![trigger old(self).data@[j]]
                    0 <= j < old(self).data@.len() implies !spec_cmp(
                    t,
                    old(self).data@[j],
                    old(self).data@[0],
                ) by {
                    lemma_heap_root_extremal(t, old(self).data@, j);
                }
            }
        }
        let len = self.data.len();

        if len > 1 {
            let ghost pre = self.data@;
            let a = self.data[0];
            let b = self.data[len - 1];
            self.data[0] = b;
            self.data[len - 1] = a;
            proof {
                assert(self.data@ =~= seq_swap(pre, 0, len - 1));
                lemma_seq_swap_ms(pre, 0, len - 1);
            }
            let ghost swapped = self.data@;
            let last = match self.data.pop() {
                Some(v) => v,
                None => 0,
            };
            proof {
                assert(self.data@ =~= swapped.remove(len - 1));
                assert(self.data@.to_multiset() == old(self).data@.to_multiset().remove(
                    old(self).data@[0],
                ));
                assert(heap_except_down(t, self.data@, 0)) by {
                    assert forall|j: int| #![trigger self.data@[j]]
                        1 <= j < self.data@.len() && (j - 1) / 2 != 0 implies !spec_cmp(
                        t,
                        self.data@[j],
                        self.data@[(j - 1) / 2],
                    ) by {
                        assert(self.data@[j] == pre[j]);
                        assert((j - 1) / 2 >= 1);
                        assert(self.data@[(j - 1) / 2] == pre[(j - 1) / 2]);
                    }
                }
            }
            self.bubble_down(0);
            Some(last)
        } else {
            let r = self.data.pop();
            proof {
                if len == 1 {
                    assert(self.data@ =~= old(self).data@.remove(0));
                }
            }
            r
        }
    }
}

} // verus!
