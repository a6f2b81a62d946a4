//! A multi-way search tree (B-tree variant) over `i64` keys.
//!
//! Each node holds an ordered run of keys and one more child slot than it has
//! keys; a slot either is empty or owns a subtree. Insertion splits overfull
//! nodes on the way back up the recursion (after the key has landed, not
//! before descending). Deletion is deliberately partial: it removes a key and
//! one adjacent child slot from the node that holds the key, with no
//! sibling borrowing or merging afterwards.

use vstd::prelude::*;
use crate::seq_facts::seq_swap;

verus! {

/// A tree node: `keys` in bracketing positions between `children` slots.
/// Slot `i` is meant for values below `keys[i]`; the last slot for values
/// at or above the last key.
pub struct Node {
    pub keys: Vec<i64>,
    pub children: Vec<Option<Node>>,
}

/// The mathematical shape of a [`Node`]: the same tree with ghost sequences
/// in place of vectors. Contracts and laws speak of this type.
#[verifier::ext_equal]
pub ghost struct NodeView {
    pub keys: Seq<i64>,
    pub children: Seq<Option<NodeView>>,
}

/// View of an optional subtree.
pub open spec fn opt_view(o: Option<Node>) -> Option<NodeView>
    decreases o,
{
    match o {
        Option::None => Option::None,
        Option::Some(n) => Option::Some(n.view()),
    }
}

/// Pointwise view of a run of child slots.
pub open spec fn slots_view(s: Seq<Option<Node>>) -> Seq<Option<NodeView>>
    decreases s,
{
    Seq::new(s.len(), |i: int| if 0 <= i < s.len() { opt_view(s[i]) } else { Option::None })
}

impl View for Node {
    type V = NodeView;

    open spec fn view(&self) -> NodeView
        decreases self,
    {
        NodeView { keys: self.keys@, children: slots_view(self.children@) }
    }
}

impl Node {
    /// Builds either an empty node (no keys, no slots) or a single-key leaf
    /// with two empty slots.
    pub fn new(value: Option<i64>) -> (r: Node)
        ensures
            r@ == match value {
                Option::Some(v) => NodeView {
                    keys: seq![v],
                    children: seq![Option::<NodeView>::None, Option::<NodeView>::None],
                },
                Option::None => NodeView {
                    keys: Seq::<i64>::empty(),
                    children: Seq::<Option<NodeView>>::empty(),
                },
            },
    {
        match value {
            Option::Some(v) => {
                let r = Node { keys: vec![v], children: vec![None, None] };
                proof {
                    assert(r@.keys =~= seq![v]);
                    assert(r@.children =~= seq![Option::<NodeView>::None, Option::<NodeView>::None]);
                    assert(r@ =~= NodeView {
                        keys: seq![v],
                        children: seq![Option::<NodeView>::None, Option::<NodeView>::None],
                    });
                }
                r
            },
            Option::None => {
                let r = Node { keys: Vec::new(), children: Vec::new() };
                proof {
                    assert(r@.keys =~= Seq::<i64>::empty());
                    assert(r@.children =~= Seq::<Option<NodeView>>::empty());
                    assert(r@ =~= NodeView {
                        keys: Seq::<i64>::empty(),
                        children: Seq::<Option<NodeView>>::empty(),
                    });
                }
                r
            },
        }
    }
}

impl Node {
    /// A deep copy of the subtree, equal to the original shape for shape.
    pub fn duplicate(&self) -> (r: Node)
        ensures
            r@ == self@,
        decreases *self,
    {
        let mut keys: Vec<i64> = Vec::new();
        let mut i: usize = 0;
        let kl = self.keys.len();
        while i < kl
            invariant
                0 <= i <= kl,
                kl == self.keys@.len(),
                keys@ =~= self.keys@.subrange(0, i as int),
            decreases kl - i,
        {
            keys.push(self.keys[i]);
            proof {
                assert(keys@ =~= self.keys@.subrange(0, i + 1));
            }
            i = i + 1;
        }
        let mut children: Vec<Option<Node>> = Vec::new();
        let mut j: usize = 0;
        let cl = self.children.len();
        while j < cl
            invariant
                0 <= j <= cl,
                cl == self.children@.len(),
                slots_view(children@) =~= slots_view(self.children@).subrange(0, j as int),
            decreases cl - j,
        {
            let ghost pre = children@;
            let copy = match &self.children[j] {
                Some(n) => Some(n.duplicate()),
                None => None,
            };
            proof {
                assert(opt_view(copy) == opt_view(self.children@[j as int]));
            }
            children.push(copy);
            proof {
                assert(slots_view(children@) =~= slots_view(pre).push(opt_view(copy)));
                assert(slots_view(children@) =~= slots_view(self.children@).subrange(
                    0,
                    j + 1,
                ));
            }
            j = j + 1;
        }
        let r = Node { keys, children };
        proof {
            assert(r@.keys =~= self@.keys);
            assert(r@.children =~= self@.children);
            assert(r@ =~= self@);
        }
        r
    }
}

/// Index of the first key strictly greater than `v`, or `keys.len()` if no
/// key is greater. Equal keys are skipped, which routes duplicates to the
/// right of the keys they equal.
pub open spec fn spec_find_pos(keys: Seq<i64>, v: i64) -> int
    decreases keys.len(),
{
    if keys.len() == 0 {
        0
    } else if v < keys[0] {
        0
    } else {
        1 + spec_find_pos(keys.subrange(1, keys.len() as int), v)
    }
}

/// A well-formed subtree slot: empty, or a well-formed subtree.
pub open spec fn wf_slot(o: Option<NodeView>) -> bool
    decreases o,
{
    match o {
        Option::None => true,
        Option::Some(c) => wf_node(c),
    }
}

/// Well-formedness of a subtree: every node has exactly one more child slot
/// than it has keys. Key order is *not* part of this predicate; see
/// [`sorted_node`] for the ordering invariant.
pub open spec fn wf_node(n: NodeView) -> bool
    decreases n,
{
    &&& n.children.len() == n.keys.len() + 1
    &&& forall|i: int| 0 <= i < n.children.len() ==> wf_slot(#[trigger] n.children[i])
}

/// Non-decreasing order: how a node's own key run is kept.
pub open spec fn sorted_keys(s: Seq<i64>) -> bool {
    forall|i: int, j: int| 0 <= i <= j < s.len() ==> s[i] <= s[j]
}

/// Every element strictly below the bound.
pub open spec fn all_lt(s: Seq<i64>, b: i64) -> bool {
    forall|i: int| 0 <= i < s.len() ==> s[i] < b
}

/// Every element at or above the bound.
pub open spec fn all_ge(s: Seq<i64>, b: i64) -> bool {
    forall|i: int| 0 <= i < s.len() ==> s[i] >= b
}

/// The ordering invariant: each node's keys are non-decreasing, and the
/// subtree in slot `i` holds only keys at or above key `i - 1` and strictly
/// below key `i` (duplicates sit to the right of the key they equal).
pub open spec fn sorted_node(n: NodeView) -> bool
    decreases n,
{
    &&& sorted_keys(n.keys)
    &&& forall|i: int|
        0 <= i < n.children.len() ==> match #[trigger] n.children[i] {
            Option::None => true,
            Option::Some(c) => {
                &&& sorted_node(c)
                &&& (i < n.keys.len() ==> all_lt(in_order_node(c), n.keys[i]))
                &&& (i >= 1 ==> all_ge(in_order_node(c), n.keys[i - 1]))
            },
        }
}

/// The ordering invariant of an optional root.
pub open spec fn sorted_slot(o: Option<NodeView>) -> bool {
    match o {
        Option::None => true,
        Option::Some(n) => sorted_node(n),
    }
}

/// A single-key leaf: the shape a first insertion gives the root.
pub open spec fn leaf_view(v: i64) -> NodeView {
    NodeView { keys: seq![v], children: seq![Option::<NodeView>::None, Option::<NodeView>::None] }
}

/// Splits the overfull child in slot `pos` of `n`: the middle key moves into
/// `n.keys` by an append followed by a swap into the position `spec_find_pos`
/// names for it, the child keeps the keys below the middle, and a new sibling
/// holding the keys above the middle lands one slot to the right.
/// Leaves `n` unchanged when the child is not overfull.
pub open spec fn m_rebalance(n: NodeView, pos: int, d: int) -> NodeView
    recommends
        0 <= pos < n.children.len(),
        n.children[pos] is Some,
{
    let child = n.children[pos].unwrap();
    if child.keys.len() < d {
        n
    } else {
        let cl = child.keys.len() as int;
        let middle_pos = (cl - 1) / 2;
        let middle = child.keys[middle_pos];
        let parent_pos = spec_find_pos(n.keys, middle);
        let new_keys = seq_swap(n.keys.push(middle), parent_pos, n.keys.len() as int);
        let left = NodeView {
            keys: child.keys.subrange(0, middle_pos),
            children: child.children.subrange(0, middle_pos + 1),
        };
        let sibling = NodeView {
            keys: child.keys.subrange(middle_pos + 1, cl),
            children: child.children.subrange(middle_pos + 1, child.children.len() as int),
        };
        NodeView {
            keys: new_keys,
            children: n.children.update(pos, Option::Some(left)).insert(
                parent_pos + 1,
                Option::Some(sibling),
            ),
        }
    }
}

/// Splits an overfull root around its middle key: the old node keeps just the
/// middle key and two fresh children holding the lower and upper partitions.
/// Leaves the root unchanged when it is not overfull.
pub open spec fn m_rebalance_root(n: NodeView, d: int) -> NodeView {
    if n.keys.len() < d {
        n
    } else {
        let kl = n.keys.len() as int;
        let middle_pos = (kl - 1) / 2;
        let middle = n.keys[middle_pos];
        let left = NodeView {
            keys: n.keys.subrange(0, middle_pos),
            children: n.children.subrange(0, middle_pos + 1),
        };
        let right = NodeView {
            keys: n.keys.subrange(middle_pos + 1, kl),
            children: n.children.subrange(middle_pos + 1, n.children.len() as int),
        };
        NodeView { keys: seq![middle], children: seq![Option::Some(left), Option::Some(right)] }
    }
}

/// Recursive insertion into a subtree, splitting any child that the descent
/// leaves overfull. The subtree root itself may come back overfull; the
/// caller is in charge of splitting it (the root via [`m_rebalance_root`],
/// an inner node via [`m_rebalance`] one level up).
pub open spec fn m_insert(n: NodeView, v: i64, d: int) -> NodeView
    decreases n,
{
    let pos = spec_find_pos(n.keys, v);
    if 0 <= pos < n.children.len() && n.children[pos] is Some {
        let child = m_insert(n.children[pos].unwrap(), v, d);
        m_rebalance(NodeView { keys: n.keys, children: n.children.update(pos, Option::Some(child)) }, pos, d)
    } else {
        NodeView { keys: n.keys.insert(pos, v), children: n.children.insert(pos, Option::None) }
    }
}

/// What one insertion does to the optional root.
pub open spec fn m_push(root: Option<NodeView>, v: i64, d: int) -> NodeView {
    match root {
        Option::None => leaf_view(v),
        Option::Some(n) => m_rebalance_root(m_insert(n, v, d), d),
    }
}

/// Depth still to walk before the requested level is reached.
pub open spec fn level_gap(level: int, expected: int) -> nat {
    if level <= expected {
        (expected - level) as nat
    } else {
        0
    }
}

/// The slots that sit at depth `expected` below the slot `o` taken at depth
/// `level`, in depth-first order. At the requested depth the slot itself is
/// the answer, empty or not.
pub open spec fn level_slots(o: Option<NodeView>, level: int, expected: int) -> Seq<
    Option<NodeView>,
>
    decreases level_gap(level, expected), 0nat,
{
    if level == expected {
        seq![o]
    } else if level > expected {
        Seq::<Option<NodeView>>::empty()
    } else {
        match o {
            Option::None => Seq::<Option<NodeView>>::empty(),
            Option::Some(n) => level_slots_run(n.children, level + 1, expected),
        }
    }
}

/// The slots at depth `expected` below a run of slots taken at depth `level`.
pub open spec fn level_slots_run(cs: Seq<Option<NodeView>>, level: int, expected: int) -> Seq<
    Option<NodeView>,
>
    decreases level_gap(level, expected), cs.len(),
{
    if cs.len() == 0 {
        Seq::<Option<NodeView>>::empty()
    } else {
        level_slots(cs[0], level, expected) + level_slots_run(
            cs.subrange(1, cs.len() as int),
            level,
            expected,
        )
    }
}

/// A run of slots walks level by level: splitting the run splits its answer.
pub proof fn lemma_level_slots_run_split(cs: Seq<Option<NodeView>>, k: int, level: int, expected: int)
    requires
        0 <= k <= cs.len(),
    ensures
        level_slots_run(cs, level, expected) == level_slots_run(cs.subrange(0, k), level, expected)
            + level_slots_run(cs.subrange(k, cs.len() as int), level, expected),
    decreases k,
{
    if k == 0 {
        assert(cs.subrange(0, 0) =~= Seq::<Option<NodeView>>::empty());
        assert(cs.subrange(0, cs.len() as int) =~= cs);
        assert(level_slots_run(cs, level, expected) =~= level_slots_run(
            cs.subrange(0, k),
            level,
            expected,
        ) + level_slots_run(cs.subrange(k, cs.len() as int), level, expected));
    } else {
        let cs1 = cs.subrange(1, cs.len() as int);
        lemma_level_slots_run_split(cs1, k - 1, level, expected);
        assert(cs.subrange(0, k)[0] == cs[0]);
        assert(cs.subrange(0, k).subrange(1, k) =~= cs1.subrange(0, k - 1));
        assert(cs.subrange(k, cs.len() as int) =~= cs1.subrange(k - 1, cs1.len() as int));
        assert(level_slots_run(cs, level, expected) =~= level_slots_run(
            cs.subrange(0, k),
            level,
            expected,
        ) + level_slots_run(cs.subrange(k, cs.len() as int), level, expected));
    }
}

/// Index of the first key equal to `v`, or `keys.len()` if no key is.
pub open spec fn m_first_eq(keys: Seq<i64>, v: i64) -> int
    decreases keys.len(),
{
    if keys.len() == 0 {
        0
    } else if keys[0] == v {
        0
    } else {
        1 + m_first_eq(keys.subrange(1, keys.len() as int), v)
    }
}

/// `m_first_eq` returns the first position holding `v`.
pub proof fn lemma_first_eq_char(keys: Seq<i64>, v: i64)
    ensures
        0 <= m_first_eq(keys, v) <= keys.len(),
        m_first_eq(keys, v) < keys.len() ==> keys[m_first_eq(keys, v)] == v,
        forall|j: int| 0 <= j < m_first_eq(keys, v) ==> keys[j] != v,
    decreases keys.len(),
{
    if keys.len() == 0 {
    } else if keys[0] == v {
    } else {
        let tail = keys.subrange(1, keys.len() as int);
        lemma_first_eq_char(tail, v);
        assert forall|j: int| 0 <= j < m_first_eq(keys, v) implies keys[j] != v by {
            if j >= 1 {
                assert(keys[j] == tail[j - 1]);
            }
        }
    }
}

/// Removes the key at `pos` and the child slot to its right. A node emptied
/// of keys also gives up its remaining slot at `pos`, collapsing to nothing
/// at all. The subtrees in the dropped slots are discarded, not re-linked:
/// this is the documented partial deletion.
pub open spec fn m_pop_value(n: NodeView, pos: int) -> NodeView {
    let n1 = NodeView { keys: n.keys.remove(pos), children: n.children.remove(pos + 1) };
    if n1.keys.len() == 0 {
        NodeView { keys: n1.keys, children: n1.children.remove(pos) }
    } else {
        n1
    }
}

/// Recursive deletion: remove `v` from this node if a key equals it,
/// otherwise descend into the bracketing child slot; absent values leave the
/// subtree unchanged. No rebalancing follows the removal.
pub open spec fn m_pop_in(n: NodeView, v: i64) -> NodeView
    decreases n,
{
    let pe = m_first_eq(n.keys, v);
    if pe < n.keys.len() {
        m_pop_value(n, pe)
    } else {
        let pos = spec_find_pos(n.keys, v);
        if 0 <= pos < n.children.len() && n.children[pos] is Some {
            NodeView {
                keys: n.keys,
                children: n.children.update(pos, Option::Some(m_pop_in(n.children[pos].unwrap(), v))),
            }
        } else {
            n
        }
    }
}

/// What one deletion does to the optional root: a root emptied of keys makes
/// the tree empty again.
pub open spec fn m_pop(root: Option<NodeView>, v: i64) -> Option<NodeView> {
    match root {
        Option::None => Option::None,
        Option::Some(n) => {
            let n2 = m_pop_in(n, v);
            if n2.keys.len() == 0 {
                Option::None
            } else {
                Option::Some(n2)
            }
        },
    }
}

/// `spec_find_pos` returns the first position whose key is strictly greater
/// than `v`.
pub proof fn lemma_find_pos_char(keys: Seq<i64>, v: i64)
    ensures
        0 <= spec_find_pos(keys, v) <= keys.len(),
        spec_find_pos(keys, v) < keys.len() ==> v < keys[spec_find_pos(keys, v)],
        forall|j: int| 0 <= j < spec_find_pos(keys, v) ==> !(v < keys[j]),
    decreases keys.len(),
{
    if keys.len() == 0 {
    } else if v < keys[0] {
    } else {
        let tail = keys.subrange(1, keys.len() as int);
        lemma_find_pos_char(tail, v);
        assert forall|j: int| 0 <= j < spec_find_pos(keys, v) implies !(v < keys[j]) by {
            if j >= 1 {
                assert(keys[j] == tail[j - 1]);
            }
        }
    }
}

/// In-order contents of a run of child slots interleaved with keys:
/// slot 0, key 0, slot 1, key 1, ... , last slot.
pub open spec fn in_order_slots(cs: Seq<Option<NodeView>>, ks: Seq<i64>) -> Seq<i64>
    decreases cs,
{
    if cs.len() == 0 {
        Seq::<i64>::empty()
    } else if ks.len() == 0 {
        in_order_slot(cs[0]) + in_order_slots(cs.subrange(1, cs.len() as int), ks)
    } else {
        in_order_slot(cs[0]) + seq![ks[0]] + in_order_slots(
            cs.subrange(1, cs.len() as int),
            ks.subrange(1, ks.len() as int),
        )
    }
}

/// In-order contents of an optional subtree.
pub open spec fn in_order_slot(o: Option<NodeView>) -> Seq<i64>
    decreases o,
{
    match o {
        Option::None => Seq::<i64>::empty(),
        Option::Some(n) => in_order_node(n),
    }
}

/// In-order traversal of a subtree: left of each key before it, right after.
pub open spec fn in_order_node(n: NodeView) -> Seq<i64>
    decreases n,
{
    in_order_slots(n.children, n.keys)
}

/// Viewing slots commutes with updating one slot.
pub proof fn lemma_slots_view_update(s: Seq<Option<Node>>, i: int, x: Option<Node>)
    requires
        0 <= i < s.len(),
    ensures
        slots_view(s.update(i, x)) =~= slots_view(s).update(i, opt_view(x)),
{
}

/// Viewing slots commutes with inserting a slot.
pub proof fn lemma_slots_view_insert(s: Seq<Option<Node>>, i: int, x: Option<Node>)
    requires
        0 <= i <= s.len(),
    ensures
        slots_view(s.insert(i, x)) =~= slots_view(s).insert(i, opt_view(x)),
{
}

/// Viewing slots commutes with removing a slot.
pub proof fn lemma_slots_view_remove(s: Seq<Option<Node>>, i: int)
    requires
        0 <= i < s.len(),
    ensures
        slots_view(s.remove(i)) =~= slots_view(s).remove(i),
{
}

/// Viewing slots commutes with taking a subrange of slots.
pub proof fn lemma_slots_view_subrange(s: Seq<Option<Node>>, i: int, j: int)
    requires
        0 <= i <= j <= s.len(),
    ensures
        slots_view(s.subrange(i, j)) =~= slots_view(s).subrange(i, j),
{
}

/// Splitting a child of a well-formed node keeps the node well-formed.
pub proof fn lemma_m_rebalance_wf(n: NodeView, pos: int, d: int)
    requires
        wf_node(n),
        0 <= pos < n.children.len(),
        n.children[pos] is Some,
        2 <= d,
    ensures
        wf_node(m_rebalance(n, pos, d)),
{
    let child = n.children[pos].unwrap();
    if child.keys.len() >= d {
        let cl = child.keys.len() as int;
        let middle_pos = (cl - 1) / 2;
        let middle = child.keys[middle_pos];
        let parent_pos = spec_find_pos(n.keys, middle);
        lemma_find_pos_char(n.keys, middle);
        assert(wf_slot(n.children[pos]));
        let left = NodeView {
            keys: child.keys.subrange(0, middle_pos),
            children: child.children.subrange(0, middle_pos + 1),
        };
        let sibling = NodeView {
            keys: child.keys.subrange(middle_pos + 1, cl),
            children: child.children.subrange(middle_pos + 1, child.children.len() as int),
        };
        assert(wf_node(left)) by {
            assert forall|i: int| 0 <= i < left.children.len() implies wf_slot(
                #[trigger] left.children[i],
            ) by {
                assert(left.children[i] == child.children[i]);
                assert(wf_slot(child.children[i]));
            }
        }
        assert(wf_node(sibling)) by {
            assert forall|i: int| 0 <= i < sibling.children.len() implies wf_slot(
                #[trigger] sibling.children[i],
            ) by {
                assert(sibling.children[i] == child.children[middle_pos + 1 + i]);
                assert(wf_slot(child.children[middle_pos + 1 + i]));
            }
        }
        let r = m_rebalance(n, pos, d);
        let u = n.children.update(pos, Option::Some(left));
        assert(r.children == u.insert(parent_pos + 1, Option::Some(sibling)));
        u.insert_ensures(parent_pos + 1, Option::Some(sibling));
        assert(r.keys.len() == n.keys.len() + 1);
        assert(r.children.len() == n.children.len() + 1);
        assert forall|i: int| 0 <= i < r.children.len() implies wf_slot(
            #[trigger] r.children[i],
        ) by {
            if i < parent_pos + 1 {
                assert(r.children[i] == u[i]);
                assert(wf_slot(n.children[i]));
            } else if i == parent_pos + 1 {
                assert(r.children[i] == Option::Some(sibling));
            } else {
                assert(r.children[i] == u[i - 1]);
                assert(wf_slot(n.children[i - 1]));
            }
        }
    }
}

/// Splitting an overfull root keeps the tree well-formed.
pub proof fn lemma_m_rebalance_root_wf(n: NodeView, d: int)
    requires
        wf_node(n),
        2 <= d,
    ensures
        wf_node(m_rebalance_root(n, d)),
{
    if n.keys.len() >= d {
        let kl = n.keys.len() as int;
        let middle_pos = (kl - 1) / 2;
        let left = NodeView {
            keys: n.keys.subrange(0, middle_pos),
            children: n.children.subrange(0, middle_pos + 1),
        };
        let right = NodeView {
            keys: n.keys.subrange(middle_pos + 1, kl),
            children: n.children.subrange(middle_pos + 1, n.children.len() as int),
        };
        assert(wf_node(left)) by {
            assert forall|i: int| 0 <= i < left.children.len() implies wf_slot(
                #[trigger] left.children[i],
            ) by {
                assert(left.children[i] == n.children[i]);
                assert(wf_slot(n.children[i]));
            }
        }
        assert(wf_node(right)) by {
            assert forall|i: int| 0 <= i < right.children.len() implies wf_slot(
                #[trigger] right.children[i],
            ) by {
                assert(right.children[i] == n.children[middle_pos + 1 + i]);
                assert(wf_slot(n.children[middle_pos + 1 + i]));
            }
        }
        let r = m_rebalance_root(n, d);
        assert(r.children.len() == 2);
        assert(wf_slot(r.children[0]));
        assert(wf_slot(r.children[1]));
    }
}

/// Insertion keeps every node of the tree well-formed (this is the
/// `children.len() == keys.len() + 1` half of the structural invariant,
/// maintained through splits).
pub proof fn lemma_m_insert_wf(n: NodeView, v: i64, d: int)
    requires
        wf_node(n),
        2 <= d,
    ensures
        wf_node(m_insert(n, v, d)),
    decreases n,
{
    let pos = spec_find_pos(n.keys, v);
    lemma_find_pos_char(n.keys, v);
    if 0 <= pos < n.children.len() && n.children[pos] is Some {
        assert(wf_slot(n.children[pos]));
        lemma_m_insert_wf(n.children[pos].unwrap(), v, d);
        let child = m_insert(n.children[pos].unwrap(), v, d);
        let n2 = NodeView { keys: n.keys, children: n.children.update(pos, Option::Some(child)) };
        assert(wf_node(n2)) by {
            assert forall|i: int| 0 <= i < n2.children.len() implies wf_slot(
                #[trigger] n2.children[i],
            ) by {
                if i != pos {
                    assert(n2.children[i] == n.children[i]);
                    assert(wf_slot(n.children[i]));
                }
            }
        }
        lemma_m_rebalance_wf(n2, pos, d);
    } else {
        let r = m_insert(n, v, d);
        assert(r.children == n.children.insert(pos, Option::<NodeView>::None));
        n.children.insert_ensures(pos, Option::<NodeView>::None);
        n.keys.insert_ensures(pos, v);
        assert forall|i: int| 0 <= i < r.children.len() implies wf_slot(
            #[trigger] r.children[i],
        ) by {
            if i < pos {
                assert(r.children[i] == n.children[i]);
                assert(wf_slot(n.children[i]));
            } else if i > pos {
                assert(r.children[i] == n.children[i - 1]);
                assert(wf_slot(n.children[i - 1]));
            }
        }
    }
}

/// The tree: an optional owned root and the configured maximum degree, the
/// number of children a node may have before it must split (a node is
/// overfull as soon as it holds `max_degree` keys).
pub struct BTree {
    pub enable_debug: bool,
    pub root: Option<Node>,
    pub max_degree: usize,
}

impl BTree {
    /// The mathematical shape of the tree.
    pub open spec fn root_view(self) -> Option<NodeView> {
        opt_view(self.root)
    }

    /// Validity: a workable degree and a structurally sound tree. Every
    /// constructor establishes this and insertion preserves it; the partial
    /// deletion path may break it (see [`Self::pop`]).
    pub open spec fn wf(self) -> bool {
        &&& 2 <= self.max_degree
        &&& wf_slot(self.root_view())
    }

    /// An empty tree with the given degree. Degrees below 2 give a tree that
    /// cannot split meaningfully, so they are rejected outright.
    pub fn new(max_degree: usize) -> (r: BTree)
        requires
            2 <= max_degree,
        ensures
            r.wf(),
            r.root is None,
            r.max_degree == max_degree,
            !r.enable_debug,
    {
        BTree { enable_debug: false, root: None, max_degree }
    }

    /// Turns on the diagnostic flag; the tree itself is untouched.
    pub fn enable_debug(&mut self)
        ensures
            final(self).enable_debug,
            final(self).root == old(self).root,
            final(self).max_degree == old(self).max_degree,
    {
        self.enable_debug = true;
    }

    /// Index of the first key of `node` strictly greater than `value`, or
    /// `keys.len()` if none is: both the slot to descend into and the
    /// position at which `value` would be inserted into this node.
    fn find_pos(&self, node: &Node, value: i64) -> (r: usize)
        ensures
            r == spec_find_pos(node.keys@, value),
    {
        proof {
            lemma_find_pos_char(node.keys@, value);
        }
        let n = node.keys.len();
        let mut i: usize = 0;
        while i < n
            invariant
                0 <= i <= n,
                n == node.keys@.len(),
                forall|j: int| 0 <= j < i ==> !(value < node.keys@[j]),
            decreases n - i,
        {
            if value < node.keys[i] {
                proof {
                    lemma_find_pos_char(node.keys@, value);
                }
                return i;
            }
            i = i + 1;
        }
        n
    }

    /// Puts `value` into this node at `pos`, opening an empty child slot
    /// beside it so the node keeps one more slot than it has keys.
    fn add_value(&self, node: &mut Node, pos: usize, value: i64)
        requires
            pos <= old(node).keys@.len(),
            pos <= old(node).children@.len(),
        ensures
            final(node)@ == (NodeView {
                keys: old(node)@.keys.insert(pos as int, value),
                children: old(node)@.children.insert(pos as int, Option::None),
            }),
    {
        node.keys.insert(pos, value);
        node.children.insert(pos, None);
        proof {
            lemma_slots_view_insert(old(node).children@, pos as int, None);
            assert(node@ =~= NodeView {
                keys: old(node)@.keys.insert(pos as int, value),
                children: old(node)@.children.insert(pos as int, Option::None),
            });
        }
    }

    /// Splits the child in slot `pos` if it is overfull, promoting its middle
    /// key into this node; does nothing otherwise. The promoted key is put in
    /// place by appending it and swapping it with the key at the position the
    /// search names. When that position is at or next to the end of the run
    /// the swap amounts to an ordinary insert; when it is further left, the
    /// key it lands on is displaced to the end and the run comes out of
    /// order.
    fn rebalance(&self, node: &mut Node, pos: usize)
        requires
            wf_node(old(node)@),
            pos < old(node)@.children.len(),
            old(node)@.children[pos as int] is Some,
            2 <= self.max_degree,
        ensures
            final(node)@ == m_rebalance(old(node)@, pos as int, self.max_degree as int),
            wf_node(final(node)@),
    {
        proof {
            lemma_m_rebalance_wf(old(node)@, pos as int, self.max_degree as int);
        }
        let ghost g = old(node)@;
        let ghost c0 = g.children[pos as int].unwrap();
        proof {
            assert(wf_slot(g.children[pos as int]));
            assert(c0.children.len() == c0.keys.len() + 1);
        }
        let slot_ref = &node.children[pos];
        proof {
            assert(*slot_ref == old(node).children@[pos as int]);
            assert(opt_view(*slot_ref) == g.children[pos as int]);
        }
        let needs_split: bool = match slot_ref {
            Some(c) => c.keys.len() >= self.max_degree,
            None => false,
        };
        proof {
            assert(needs_split == (c0.keys.len() >= self.max_degree));
        }
        if !needs_split {
            return;
        }
        let taken = node.children[pos].take();
        proof {
            lemma_slots_view_update(old(node).children@, pos as int, None);
        }
        let mut child = taken.unwrap();
        proof {
            assert(child@ == c0);
        }
        let middle_pos = (child.keys.len() - 1) / 2;
        let middle = child.keys[middle_pos];
        let parent_pos = self.find_pos(node, middle);
        proof {
            lemma_find_pos_char(node.keys@, middle);
        }
        node.keys.push(middle);
        let last = node.keys.len() - 1;
        let tmp_a = node.keys[parent_pos];
        let tmp_b = node.keys[last];
        node.keys[parent_pos] = tmp_b;
        node.keys[last] = tmp_a;
        proof {
            assert(node.keys@ =~= seq_swap(g.keys.push(middle), parent_pos as int, g.keys.len() as int));
        }
        let _promoted = child.keys.remove(middle_pos);
        let sib_keys = child.keys.split_off(middle_pos);
        let sib_children = child.children.split_off(middle_pos + 1);
        let sibling = Node { keys: sib_keys, children: sib_children };
        proof {
            let cl = c0.keys.len() as int;
            let mp = middle_pos as int;
            assert(child.keys@ =~= c0.keys.subrange(0, mp));
            assert(sibling.keys@ =~= c0.keys.subrange(mp + 1, cl));
            lemma_slots_view_subrange(old(node).children@[pos as int].unwrap().children@, 0, mp + 1);
            lemma_slots_view_subrange(old(node).children@[pos as int].unwrap().children@, mp + 1, c0.children.len() as int);
            assert(child@.children =~= c0.children.subrange(0, mp + 1));
            assert(sibling@.children =~= c0.children.subrange(mp + 1, c0.children.len() as int));
        }
        let ghost pre_put = node.children@;
        node.children[pos] = Some(child);
        proof {
            lemma_slots_view_update(pre_put, pos as int, Some(child));
        }
        let ghost pre_ins = node.children@;
        node.children.insert(parent_pos + 1, Some(sibling));
        proof {
            lemma_slots_view_insert(pre_ins, parent_pos as int + 1, Some(sibling));
            let r = m_rebalance(g, pos as int, self.max_degree as int);
            assert(slots_view(pre_ins) =~= g.children.update(pos as int, Option::Some(child@)));
            assert(node@.children =~= r.children);
            assert(node@ =~= r);
        }
    }

    /// Splits this node itself if it is overfull: it keeps only its middle
    /// key and two fresh children holding the partitions below and above it.
    /// Only the root is ever split this way.
    fn rebalance_root(&self, node: &mut Node)
        requires
            wf_node(old(node)@),
            2 <= self.max_degree,
        ensures
            final(node)@ == m_rebalance_root(old(node)@, self.max_degree as int),
            wf_node(final(node)@),
    {
        proof {
            lemma_m_rebalance_root_wf(old(node)@, self.max_degree as int);
        }
        if node.keys.len() < self.max_degree {
            return;
        }
        let ghost g = old(node)@;
        let middle_pos = (node.keys.len() - 1) / 2;
        let right = Node {
            keys: node.keys.split_off(middle_pos + 1),
            children: node.children.split_off(middle_pos + 1),
        };
        let middle = node.keys.pop().unwrap();
        let left = Node { keys: node.keys.split_off(0), children: node.children.split_off(0) };
        node.keys.push(middle);
        node.children.push(Some(left));
        node.children.push(Some(right));
        proof {
            let d = self.max_degree as int;
            let kl = g.keys.len() as int;
            let mp = middle_pos as int;
            let r = m_rebalance_root(g, d);
            lemma_slots_view_subrange(old(node).children@, 0, mp + 1);
            lemma_slots_view_subrange(old(node).children@, mp + 1, old(node).children@.len() as int);
            assert(left@.keys =~= g.keys.subrange(0, mp));
            assert(left@.children =~= g.children.subrange(0, mp + 1));
            assert(right@.keys =~= g.keys.subrange(mp + 1, kl));
            assert(right@.children =~= g.children.subrange(mp + 1, g.children.len() as int));
            assert(node@.keys =~= seq![middle]);
            assert(node@.children =~= seq![Option::Some(left@), Option::Some(right@)]);
            assert(node@ =~= r);
        }
    }

    /// Recursive insertion: descend into the bracketing child slot if it is
    /// occupied, otherwise put the value into this node; on the way back up,
    /// split the visited child if the descent left it overfull. This node
    /// itself may come back overfull; the caller splits it.
    fn push_int(&self, node: &mut Node, value: i64)
        requires
            wf_node(old(node)@),
            2 <= self.max_degree,
        ensures
            final(node)@ == m_insert(old(node)@, value, self.max_degree as int),
            wf_node(final(node)@),
        decreases *old(node),
    {
        proof {
            lemma_m_insert_wf(old(node)@, value, self.max_degree as int);
        }
        let ghost g = old(node)@;
        let pos = self.find_pos(node, value);
        proof {
            lemma_find_pos_char(g.keys, value);
        }
        let taken = node.children[pos].take();
        proof {
            lemma_slots_view_update(old(node).children@, pos as int, None);
            assert(taken == old(node).children@[pos as int]);
            assert(opt_view(taken) == g.children[pos as int]);
        }
        match taken {
            Some(mut child) => {
                proof {
                    assert(wf_slot(g.children[pos as int]));
                }
                self.push_int(&mut child, value);
                let ghost pre_put = node.children@;
                node.children[pos] = Some(child);
                proof {
                    lemma_slots_view_update(pre_put, pos as int, Some(child));
                    assert(node@.children =~= g.children.update(
                        pos as int,
                        Option::Some(child@),
                    ));
                    assert(node@ =~= NodeView {
                        keys: g.keys,
                        children: g.children.update(pos as int, Option::Some(child@)),
                    });
                }
                self.rebalance(node, pos);
            },
            None => {
                proof {
                    assert(node.children@ =~= old(node).children@);
                    assert(node@ =~= g);
                }
                self.add_value(node, pos, value);
                proof {
                    assert(node@ =~= m_insert(g, value, self.max_degree as int));
                }
            },
        }
    }

    /// Copies of all slots that sit at the given depth, the root at depth 1,
    /// in depth-first order: one full walk of the level-by-level dump. A
    /// depth past the deepest node yields only empty slots or nothing at
    /// all, which is the caller's signal to stop walking levels.
    pub fn nodes_at_level(&self, expected_level: usize) -> (r: Vec<Option<Node>>)
        ensures
            slots_view(r@) == level_slots(self.root_view(), 1, expected_level as int),
    {
        let mut out: Vec<Option<Node>> = Vec::new();
        Self::collect_level(&self.root, 1, expected_level, &mut out);
        proof {
            assert(slots_view(Seq::<Option<Node>>::empty()) =~= Seq::<Option<NodeView>>::empty());
            assert(slots_view(out@) =~= level_slots(self.root_view(), 1, expected_level as int));
        }
        out
    }

    /// Depth-first walk below one slot, collecting copies of the slots that
    /// sit at the requested depth.
    fn collect_level(
        node: &Option<Node>,
        level: usize,
        expected_level: usize,
        out: &mut Vec<Option<Node>>,
    )
        ensures
            slots_view(final(out)@) == slots_view(old(out)@) + level_slots(
                opt_view(*node),
                level as int,
                expected_level as int,
            ),
        decreases level_gap(level as int, expected_level as int), *node,
    {
        let ghost e = expected_level as int;
        if level == expected_level {
            let copy = match node {
                Some(n) => Some(n.duplicate()),
                None => None,
            };
            proof {
                assert(opt_view(copy) == opt_view(*node));
            }
            let ghost pre = out@;
            out.push(copy);
            proof {
                assert(slots_view(out@) =~= slots_view(pre).push(opt_view(copy)));
                assert(level_slots(opt_view(*node), level as int, e) == seq![opt_view(*node)]);
                assert(slots_view(out@) =~= slots_view(pre) + level_slots(
                    opt_view(*node),
                    level as int,
                    e,
                ));
            }
        } else if level < expected_level {
            if let Some(n) = node {
                let cl = n.children.len();
                let mut i: usize = 0;
                while i < cl
                    invariant
                        0 <= i <= cl,
                        cl == n.children@.len(),
                        level < expected_level,
                        e == expected_level as int,
                        slots_view(out@) =~= slots_view(old(out)@) + level_slots_run(
                            slots_view(n.children@).subrange(0, i as int),
                            level as int + 1,
                            e,
                        ),
                    decreases cl - i,
                {
                    let ghost pre = out@;
                    Self::collect_level(&n.children[i], level + 1, expected_level, out);
                    proof {
                        let cs = slots_view(n.children@);
                        let gi = i as int;
                        lemma_level_slots_run_split(
                            cs.subrange(0, gi + 1),
                            gi,
                            level as int + 1,
                            e,
                        );
                        assert(cs.subrange(0, gi + 1).subrange(0, gi) =~= cs.subrange(0, gi));
                        let single = cs.subrange(0, gi + 1).subrange(gi, gi + 1);
                        assert(single =~= seq![cs[gi]]);
                        assert(seq![cs[gi]].subrange(1, 1) =~= Seq::<Option<NodeView>>::empty());
                        assert(seq![cs[gi]][0] == cs[gi]);
                        assert(level_slots_run(
                            Seq::<Option<NodeView>>::empty(),
                            level as int + 1,
                            e,
                        ) == Seq::<Option<NodeView>>::empty());
                        assert(level_slots_run(seq![cs[gi]], level as int + 1, e)
                            =~= level_slots(cs[gi], level as int + 1, e));
                        assert(cs[gi] == opt_view(n.children@[gi]));
                        assert(slots_view(out@) =~= slots_view(old(out)@) + level_slots_run(
                            cs.subrange(0, gi + 1),
                            level as int + 1,
                            e,
                        ));
                    }
                    i = i + 1;
                }
                proof {
                    let cs = slots_view(n.children@);
                    assert(cs.subrange(0, cl as int) =~= cs);
                    assert(level_slots(opt_view(*node), level as int, e) == level_slots_run(
                        (*n)@.children,
                        level as int + 1,
                        e,
                    ));
                    assert((*n)@.children == cs);
                }
            } else {
                proof {
                    assert(level_slots(opt_view(*node), level as int, e)
                        =~= Seq::<Option<NodeView>>::empty());
                    assert(slots_view(out@) =~= slots_view(out@) + level_slots(
                        opt_view(*node),
                        level as int,
                        e,
                    ));
                }
            }
        } else {
            proof {
                assert(level_slots(opt_view(*node), level as int, e)
                    =~= Seq::<Option<NodeView>>::empty());
                assert(slots_view(out@) =~= slots_view(out@) + level_slots(
                    opt_view(*node),
                    level as int,
                    e,
                ));
            }
        }
    }

    /// Removes the key at `pos` together with the child slot to its right;
    /// a node emptied of keys also gives up its remaining slot. Dropped slots
    /// take their subtrees with them — deletion does not re-link descendants.
    fn pop_value(&self, node: &mut Node, pos: usize)
        requires
            pos < old(node)@.keys.len(),
            old(node)@.children.len() == old(node)@.keys.len() + 1,
        ensures
            final(node)@ == m_pop_value(old(node)@, pos as int),
    {
        let ghost g = old(node)@;
        let _slot_count = node.children.len();
        node.keys.remove(pos);
        let ghost pre1 = node.children@;
        node.children.remove(pos + 1);
        proof {
            lemma_slots_view_remove(pre1, pos as int + 1);
        }
        if node.keys.is_empty() {
            let ghost pre2 = node.children@;
            node.children.remove(pos);
            proof {
                lemma_slots_view_remove(pre2, pos as int);
                assert(node@ =~= m_pop_value(g, pos as int));
            }
        } else {
            proof {
                assert(node@ =~= m_pop_value(g, pos as int));
            }
        }
    }

    /// Recursive deletion: remove `value` here if one of this node's keys
    /// equals it, else descend into the bracketing child slot; if that slot
    /// is empty the value is absent and nothing changes.
    ///
    /// A rebalancing pass after the removal (sibling borrowing or merging)
    /// would hook in at the end of this function, on the way back up the
    /// recursion; none is performed.
    fn pop_in(&self, node: &mut Node, value: i64)
        requires
            wf_node(old(node)@),
        ensures
            final(node)@ == m_pop_in(old(node)@, value),
        decreases *old(node),
    {
        let ghost g = old(node)@;
        proof {
            lemma_first_eq_char(g.keys, value);
        }
        let n = node.keys.len();
        let mut pos_eq: usize = n;
        let mut i: usize = 0;
        while i < n
            invariant
                0 <= i <= n,
                n == node.keys@.len(),
                pos_eq == n || (pos_eq < i && node.keys@[pos_eq as int] == value && forall|j: int|
                    0 <= j < pos_eq ==> node.keys@[j] != value),
                pos_eq == n ==> forall|j: int| 0 <= j < i ==> node.keys@[j] != value,
            decreases n - i,
        {
            if pos_eq == n && node.keys[i] == value {
                pos_eq = i;
            }
            i = i + 1;
        }
        proof {
            lemma_first_eq_char(g.keys, value);
            assert(pos_eq == m_first_eq(g.keys, value)) by {
                let r = m_first_eq(g.keys, value);
                if r < pos_eq {
                    assert(g.keys[r] == value);
                } else if pos_eq < r {
                    assert(g.keys[pos_eq as int] == value);
                }
            }
        }
        if pos_eq < n {
            self.pop_value(node, pos_eq);
        } else {
            let pos = self.find_pos(node, value);
            proof {
                lemma_find_pos_char(g.keys, value);
            }
            let taken = node.children[pos].take();
            proof {
                lemma_slots_view_update(old(node).children@, pos as int, None);
                assert(taken == old(node).children@[pos as int]);
                assert(opt_view(taken) == g.children[pos as int]);
            }
            match taken {
                Some(mut child) => {
                    proof {
                        assert(wf_slot(g.children[pos as int]));
                    }
                    self.pop_in(&mut child, value);
                    let ghost pre_put = node.children@;
                    node.children[pos] = Some(child);
                    proof {
                        lemma_slots_view_update(pre_put, pos as int, Some(child));
                        assert(node@.children =~= g.children.update(
                            pos as int,
                            Option::Some(child@),
                        ));
                        assert(node@ =~= m_pop_in(g, value));
                    }
                },
                None => {
                    proof {
                        assert(node.children@ =~= old(node).children@);
                        assert(node@ =~= g);
                    }
                },
            }
        }
    }

    /// Removes one occurrence of `value` if the search finds it; absent
    /// values are a no-op. A root emptied of keys makes the tree empty. The
    /// removal is deliberately partial (no sibling borrowing, merging, or
    /// successor promotion), so unlike [`Self::push`] it does not promise a
    /// well-formed tree back: removing a key held by an internal node drops
    /// the adjacent child slot's whole subtree, and can leave a node with
    /// zero keys in place. The exact resulting shape is [`m_pop`] of the old
    /// shape.
    pub fn pop(&mut self, value: i64)
        requires
            old(self).wf(),
        ensures
            final(self).max_degree == old(self).max_degree,
            final(self).enable_debug == old(self).enable_debug,
            final(self).root_view() == m_pop(old(self).root_view(), value),
    {
        let taken = self.root.take();
        if let Some(mut rt) = taken {
            proof {
                assert(wf_slot(opt_view(taken)));
            }
            self.pop_in(&mut rt, value);
            if rt.keys.is_empty() {
                self.root = None;
            } else {
                self.root = Some(rt);
            }
        }
    }

    /// Inserts `value`. Duplicates are accepted and land to the right of the
    /// keys they equal. The tree splits overfull nodes on the way back up the
    /// recursion, so it stays well-formed; the exact resulting shape is
    /// [`m_push`] of the old shape.
    pub fn push(&mut self, value: i64)
        requires
            old(self).wf(),
        ensures
            final(self).wf(),
            final(self).max_degree == old(self).max_degree,
            final(self).enable_debug == old(self).enable_debug,
            final(self).root_view() == Some(m_push(old(self).root_view(), value, old(self).max_degree as int)),
    {
        let taken = self.root.take();
        let root = match taken {
            Some(mut rt) => {
                proof {
                    assert(wf_slot(opt_view(taken)));
                }
                self.push_int(&mut rt, value);
                self.rebalance_root(&mut rt);
                rt
            },
            None => Node::new(Some(value)),
        };
        proof {
            assert(wf_node(root@)) by {
                if taken is None {
                    assert(root@ == leaf_view(value));
                    assert(forall|i: int| 0 <= i < leaf_view(value).children.len()
                        ==> wf_slot(#[trigger] leaf_view(value).children[i]));
                }
            }
        }
        self.root = Some(root);
    }
}

} // verus!

