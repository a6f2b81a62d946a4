//! Laws of the tree as a whole, stated over the model types and proved from
//! the same spec functions the executable contracts use.

use vstd::prelude::*;
use vstd::multiset::Multiset;
use vstd::assert_multisets_equal;
use crate::b_tree::{
    NodeView, all_ge, all_lt, in_order_node, in_order_slot, in_order_slots, leaf_view,
    lemma_find_pos_char, sorted_keys, sorted_node, sorted_slot,
    lemma_first_eq_char, lemma_m_insert_wf, lemma_m_rebalance_root_wf, m_first_eq, m_insert,
    m_pop, m_pop_in, m_pop_value, m_push, m_rebalance, m_rebalance_root, spec_find_pos,
    wf_node, wf_slot,
};
use crate::seq_facts::{lemma_seq_swap_ms, seq_swap};

verus! {

broadcast use
    vstd::seq_lib::group_to_multiset_ensures,
    vstd::multiset::group_multiset_axioms,
    vstd::seq_lib::lemma_multiset_commutative,
    vstd::seq_lib::to_multiset_insert,
    vstd::seq_lib::to_multiset_remove;

/// Multiset of keys held by the subtree in one slot.
spec fn slot_ms(o: Option<NodeView>) -> Multiset<i64> {
    in_order_slot(o).to_multiset()
}

/// Combined multiset of keys held by the subtrees of a run of slots.
spec fn slots_ms(cs: Seq<Option<NodeView>>) -> Multiset<i64>
    decreases cs,
{
    if cs.len() == 0 {
        Multiset::<i64>::empty()
    } else {
        slot_ms(cs[0]).add(slots_ms(cs.subrange(1, cs.len() as int)))
    }
}

/// The in-order contents of a node carry exactly its own keys plus the keys
/// of all its subtrees.
proof fn lemma_in_order_slots_ms(cs: Seq<Option<NodeView>>, ks: Seq<i64>)
    requires
        cs.len() == ks.len() + 1,
    ensures
        in_order_slots(cs, ks).to_multiset() == slots_ms(cs).add(ks.to_multiset()),
    decreases cs,
{
    if ks.len() == 0 {
        let rest = cs.subrange(1, cs.len() as int);
        assert(in_order_slots(rest, ks) == Seq::<i64>::empty());
        assert(in_order_slots(cs, ks) == in_order_slot(cs[0]) + Seq::<i64>::empty());
        assert(slots_ms(rest) =~= Multiset::<i64>::empty());
        assert(Seq::<i64>::empty().to_multiset() =~= Multiset::<i64>::empty());
        assert(ks.to_multiset() =~= Multiset::<i64>::empty());
        assert(in_order_slots(cs, ks) =~= in_order_slot(cs[0]));
        assert(slots_ms(cs) == slot_ms(cs[0]).add(slots_ms(rest)));
        assert_multisets_equal!(in_order_slots(cs, ks).to_multiset(), slots_ms(cs).add(ks.to_multiset()));
    } else {
        let cs1 = cs.subrange(1, cs.len() as int);
        let ks1 = ks.subrange(1, ks.len() as int);
        lemma_in_order_slots_ms(cs1, ks1);
        assert(in_order_slots(cs, ks) == in_order_slot(cs[0]) + seq![ks[0]] + in_order_slots(
            cs1,
            ks1,
        ));
        assert(ks =~= seq![ks[0]] + ks1);
        assert(ks.to_multiset() == seq![ks[0]].to_multiset().add(ks1.to_multiset()));
        assert(slots_ms(cs) == slot_ms(cs[0]).add(slots_ms(cs1)));
        assert(in_order_slots(cs, ks).to_multiset() == (in_order_slot(cs[0])
            + seq![ks[0]]).to_multiset().add(in_order_slots(cs1, ks1).to_multiset()));
        assert((in_order_slot(cs[0]) + seq![ks[0]]).to_multiset() == in_order_slot(
            cs[0],
        ).to_multiset().add(seq![ks[0]].to_multiset()));
        assert_multisets_equal!(in_order_slots(cs, ks).to_multiset(), slots_ms(cs).add(ks.to_multiset()));
    }
}

/// Exchanging one slot: the combined multiset loses the old subtree's keys
/// and gains the new subtree's keys.
proof fn lemma_slots_ms_update(cs: Seq<Option<NodeView>>, pos: int, x: Option<NodeView>)
    requires
        0 <= pos < cs.len(),
    ensures
        slots_ms(cs.update(pos, x)).add(slot_ms(cs[pos])) == slots_ms(cs).add(slot_ms(x)),
    decreases cs,
{
    broadcast use vstd::multiset::group_multiset_axioms;

    let u = cs.update(pos, x);
    let cs1 = cs.subrange(1, cs.len() as int);
    if pos == 0 {
        assert(u[0] == x);
        assert(u.subrange(1, u.len() as int) =~= cs1);
        assert(slots_ms(u) == slot_ms(x).add(slots_ms(cs1)));
        assert(slots_ms(cs) == slot_ms(cs[0]).add(slots_ms(cs1)));
        assert_multisets_equal!(slots_ms(u).add(slot_ms(cs[pos])), slots_ms(cs).add(slot_ms(x)));
    } else {
        lemma_slots_ms_update(cs1, pos - 1, x);
        assert(u.subrange(1, u.len() as int) =~= cs1.update(pos - 1, x));
        assert(u[0] == cs[0]);
        assert(cs1[pos - 1] == cs[pos]);
        assert(slots_ms(u) == slot_ms(cs[0]).add(slots_ms(cs1.update(pos - 1, x))));
        assert(slots_ms(cs) == slot_ms(cs[0]).add(slots_ms(cs1)));
        assert(slots_ms(cs1.update(pos - 1, x)).add(slot_ms(cs1[pos - 1])) == slots_ms(cs1).add(
            slot_ms(x),
        ));
        let m_upd = slots_ms(cs1.update(pos - 1, x));
        assert_multisets_equal!(slots_ms(u).add(slot_ms(cs[pos])), slots_ms(cs).add(slot_ms(x)), v => {
            assert(slots_ms(u).add(slot_ms(cs[pos])).count(v) == slots_ms(u).count(v)
                + slot_ms(cs[pos]).count(v));
            assert(slot_ms(cs[0]).add(m_upd).count(v) == slot_ms(cs[0]).count(v) + m_upd.count(v));
            assert(m_upd.add(slot_ms(cs1[pos - 1])).count(v) == m_upd.count(v)
                + slot_ms(cs1[pos - 1]).count(v));
            assert(slots_ms(cs).add(slot_ms(x)).count(v) == slots_ms(cs).count(v)
                + slot_ms(x).count(v));
            assert(slot_ms(cs[0]).add(slots_ms(cs1)).count(v) == slot_ms(cs[0]).count(v)
                + slots_ms(cs1).count(v));
            assert(slots_ms(cs1).add(slot_ms(x)).count(v) == slots_ms(cs1).count(v)
                + slot_ms(x).count(v));
        });
    }
}

/// Inserting a slot adds exactly the new subtree's keys.
proof fn lemma_slots_ms_insert(cs: Seq<Option<NodeView>>, pos: int, x: Option<NodeView>)
    requires
        0 <= pos <= cs.len(),
    ensures
        slots_ms(cs.insert(pos, x)) == slots_ms(cs).add(slot_ms(x)),
    decreases cs,
{
    let u = cs.insert(pos, x);
    if pos == 0 {
        assert(u[0] == x);
        assert(u.subrange(1, u.len() as int) =~= cs);
        assert(slots_ms(u) == slot_ms(x).add(slots_ms(cs)));
        assert_multisets_equal!(slots_ms(u), slots_ms(cs).add(slot_ms(x)));
    } else {
        let cs1 = cs.subrange(1, cs.len() as int);
        lemma_slots_ms_insert(cs1, pos - 1, x);
        assert(u[0] == cs[0]);
        assert(u.subrange(1, u.len() as int) =~= cs1.insert(pos - 1, x));
        assert(slots_ms(u) == slot_ms(cs[0]).add(slots_ms(cs1.insert(pos - 1, x))));
        assert(slots_ms(cs) == slot_ms(cs[0]).add(slots_ms(cs1)));
        assert_multisets_equal!(slots_ms(u), slots_ms(cs).add(slot_ms(x)));
    }
}

/// Cutting a run of slots in two partitions its combined multiset.
proof fn lemma_slots_ms_split(cs: Seq<Option<NodeView>>, k: int)
    requires
        0 <= k <= cs.len(),
    ensures
        slots_ms(cs) == slots_ms(cs.subrange(0, k)).add(
            slots_ms(cs.subrange(k, cs.len() as int)),
        ),
    decreases k,
{
    if k == 0 {
        assert(cs.subrange(0, 0) =~= Seq::<Option<NodeView>>::empty());
        assert(cs.subrange(0, cs.len() as int) =~= cs);
        assert(slots_ms(cs.subrange(0, 0)) == Multiset::<i64>::empty());
        assert_multisets_equal!(
            slots_ms(cs),
            slots_ms(cs.subrange(0, k)).add(slots_ms(cs.subrange(k, cs.len() as int)))
        );
    } else {
        let cs1 = cs.subrange(1, cs.len() as int);
        lemma_slots_ms_split(cs1, k - 1);
        assert(cs.subrange(0, k)[0] == cs[0]);
        assert(cs.subrange(0, k).subrange(1, k) =~= cs1.subrange(0, k - 1));
        assert(cs.subrange(k, cs.len() as int) =~= cs1.subrange(k - 1, cs1.len() as int));
        assert(slots_ms(cs) == slot_ms(cs[0]).add(slots_ms(cs1)));
        assert(slots_ms(cs.subrange(0, k)) == slot_ms(cs[0]).add(slots_ms(cs1.subrange(0, k - 1))));
        assert(slots_ms(cs1) == slots_ms(cs1.subrange(0, k - 1)).add(
            slots_ms(cs1.subrange(k - 1, cs1.len() as int)),
        ));
        assert_multisets_equal!(
            slots_ms(cs),
            slots_ms(cs.subrange(0, k)).add(slots_ms(cs.subrange(k, cs.len() as int)))
        );
    }
}

/// A split moves keys around but neither adds nor drops any: the subtree's
/// in-order contents keep exactly the same multiset. (The *order* of the
/// contents is another matter: a promotion that lands left of the parent's
/// second-to-last key position displaces a key out of order.)
proof fn lemma_m_rebalance_ms(n: NodeView, pos: int, d: int)
    requires
        wf_node(n),
        0 <= pos < n.children.len(),
        n.children[pos] is Some,
        2 <= d,
    ensures
        in_order_node(m_rebalance(n, pos, d)).to_multiset() == in_order_node(n).to_multiset(),
{
    broadcast use vstd::multiset::group_multiset_axioms;

    let child = n.children[pos].unwrap();
    assert(wf_slot(n.children[pos]));
    if child.keys.len() >= d {
        let cl = child.keys.len() as int;
        let mp = (cl - 1) / 2;
        let middle = child.keys[mp];
        let pp = spec_find_pos(n.keys, middle);
        lemma_find_pos_char(n.keys, middle);
        let left = NodeView {
            keys: child.keys.subrange(0, mp),
            children: child.children.subrange(0, mp + 1),
        };
        let sib = NodeView {
            keys: child.keys.subrange(mp + 1, cl),
            children: child.children.subrange(mp + 1, child.children.len() as int),
        };
        let r = m_rebalance(n, pos, d);
        let kp = n.keys.push(middle);
        lemma_seq_swap_ms(kp, pp, n.keys.len() as int);
        assert(r.keys.to_multiset() == n.keys.to_multiset().insert(middle));
        let u = n.children.update(pos, Option::Some(left));
        lemma_slots_ms_insert(u, pp + 1, Option::Some(sib));
        lemma_slots_ms_update(n.children, pos, Option::Some(left));
        lemma_in_order_slots_ms(child.children, child.keys);
        lemma_in_order_slots_ms(left.children, left.keys);
        lemma_in_order_slots_ms(sib.children, sib.keys);
        lemma_slots_ms_split(child.children, mp + 1);
        assert(child.keys =~= child.keys.subrange(0, mp) + seq![middle] + child.keys.subrange(
            mp + 1,
            cl,
        ));
        assert((child.keys.subrange(0, mp) + seq![middle] + child.keys.subrange(mp + 1, cl))
            .to_multiset() == child.keys.subrange(0, mp).to_multiset().add(
                seq![middle].to_multiset(),
            ).add(child.keys.subrange(mp + 1, cl).to_multiset())) by {
            assert((child.keys.subrange(0, mp) + seq![middle]).to_multiset() == child
                .keys.subrange(0, mp).to_multiset().add(seq![middle].to_multiset()));
        }
        lemma_in_order_slots_ms(n.children, n.keys);
        lemma_in_order_slots_ms(r.children, r.keys);
        assert(seq![middle].to_multiset() =~= Multiset::<i64>::empty().insert(middle)) by {
            assert(seq![middle].drop_first() =~= Seq::<i64>::empty());
        }
        assert_multisets_equal!(
            in_order_node(r).to_multiset(), in_order_node(n).to_multiset(), v => {
                assert(slots_ms(u).add(slot_ms(n.children[pos])).count(v) == slots_ms(u).count(v)
                    + slot_ms(n.children[pos]).count(v));
                assert(slots_ms(n.children).add(slot_ms(Option::Some(left))).count(v)
                    == slots_ms(n.children).count(v) + slot_ms(Option::Some(left)).count(v));
                assert(slots_ms(r.children).add(r.keys.to_multiset()).count(v)
                    == slots_ms(r.children).count(v) + r.keys.to_multiset().count(v));
                assert(slots_ms(u).add(slot_ms(Option::Some(sib))).count(v)
                    == slots_ms(u).count(v) + slot_ms(Option::Some(sib)).count(v));
                assert(slots_ms(n.children).add(n.keys.to_multiset()).count(v)
                    == slots_ms(n.children).count(v) + n.keys.to_multiset().count(v));
                assert(slots_ms(child.children).add(child.keys.to_multiset()).count(v)
                    == slots_ms(child.children).count(v) + child.keys.to_multiset().count(v));
                assert(slots_ms(left.children).add(left.keys.to_multiset()).count(v)
                    == slots_ms(left.children).count(v) + left.keys.to_multiset().count(v));
                assert(slots_ms(sib.children).add(sib.keys.to_multiset()).count(v)
                    == slots_ms(sib.children).count(v) + sib.keys.to_multiset().count(v));
                assert(slots_ms(child.children.subrange(0, mp + 1)).add(
                    slots_ms(child.children.subrange(mp + 1, child.children.len() as int)),
                ).count(v) == slots_ms(child.children.subrange(0, mp + 1)).count(v)
                    + slots_ms(child.children.subrange(mp + 1, child.children.len() as int)).count(v));
                assert(child.keys.subrange(0, mp).to_multiset().add(
                    seq![middle].to_multiset(),
                ).count(v) == child.keys.subrange(0, mp).to_multiset().count(v)
                    + seq![middle].to_multiset().count(v));
                assert(child.keys.subrange(0, mp).to_multiset().add(seq![middle].to_multiset()).add(
                    child.keys.subrange(mp + 1, cl).to_multiset(),
                ).count(v) == child.keys.subrange(0, mp).to_multiset().add(
                    seq![middle].to_multiset(),
                ).count(v) + child.keys.subrange(mp + 1, cl).to_multiset().count(v));
            }
        );
    }
}

/// A root split keeps the same multiset of keys.
proof fn lemma_m_rebalance_root_ms(n: NodeView, d: int)
    requires
        wf_node(n),
        2 <= d,
    ensures
        in_order_node(m_rebalance_root(n, d)).to_multiset() == in_order_node(n).to_multiset(),
{
    broadcast use vstd::multiset::group_multiset_axioms;

    if n.keys.len() >= d {
        let kl = n.keys.len() as int;
        let mp = (kl - 1) / 2;
        let middle = n.keys[mp];
        let left = NodeView {
            keys: n.keys.subrange(0, mp),
            children: n.children.subrange(0, mp + 1),
        };
        let right = NodeView {
            keys: n.keys.subrange(mp + 1, kl),
            children: n.children.subrange(mp + 1, n.children.len() as int),
        };
        let r = m_rebalance_root(n, d);
        lemma_in_order_slots_ms(n.children, n.keys);
        lemma_in_order_slots_ms(left.children, left.keys);
        lemma_in_order_slots_ms(right.children, right.keys);
        lemma_in_order_slots_ms(r.children, r.keys);
        lemma_slots_ms_split(n.children, mp + 1);
        assert(r.children[0] == Option::Some(left));
        let t1 = r.children.subrange(1, 2);
        assert(t1[0] == Option::Some(right));
        assert(t1.subrange(1, 1) =~= Seq::<Option<NodeView>>::empty());
        assert(slots_ms(Seq::<Option<NodeView>>::empty()) == Multiset::<i64>::empty());
        assert(slots_ms(t1) == slot_ms(Option::Some(right)).add(Multiset::<i64>::empty()));
        assert(slots_ms(r.children) == slot_ms(Option::Some(left)).add(
            slot_ms(Option::Some(right)).add(Multiset::<i64>::empty()),
        ));
        assert(n.keys =~= n.keys.subrange(0, mp) + seq![middle] + n.keys.subrange(mp + 1, kl));
        assert((n.keys.subrange(0, mp) + seq![middle] + n.keys.subrange(mp + 1, kl)).to_multiset()
            == n.keys.subrange(0, mp).to_multiset().add(seq![middle].to_multiset()).add(
                n.keys.subrange(mp + 1, kl).to_multiset(),
            )) by {
            assert((n.keys.subrange(0, mp) + seq![middle]).to_multiset() == n.keys.subrange(
                0,
                mp,
            ).to_multiset().add(seq![middle].to_multiset()));
        }
        assert(r.keys =~= Seq::<i64>::empty().push(middle));
        assert(r.keys.to_multiset() == Seq::<i64>::empty().to_multiset().insert(middle));
        assert(Seq::<i64>::empty().to_multiset() =~= Multiset::<i64>::empty());
        assert_multisets_equal!(
            in_order_node(r).to_multiset(), in_order_node(n).to_multiset(), v => {
                assert(slots_ms(r.children).add(r.keys.to_multiset()).count(v)
                    == slots_ms(r.children).count(v) + r.keys.to_multiset().count(v));
                assert(slots_ms(n.children).add(n.keys.to_multiset()).count(v)
                    == slots_ms(n.children).count(v) + n.keys.to_multiset().count(v));
                assert(slot_ms(Option::Some(left)).add(slot_ms(Option::Some(right)).add(
                    Multiset::<i64>::empty(),
                )).count(v) == slot_ms(Option::Some(left)).count(v)
                    + slot_ms(Option::Some(right)).add(Multiset::<i64>::empty()).count(v));
                assert(slot_ms(Option::Some(right)).add(Multiset::<i64>::empty()).count(v)
                    == slot_ms(Option::Some(right)).count(v) + Multiset::<i64>::empty().count(v));
                assert(slots_ms(left.children).add(left.keys.to_multiset()).count(v)
                    == slots_ms(left.children).count(v) + left.keys.to_multiset().count(v));
                assert(slots_ms(right.children).add(right.keys.to_multiset()).count(v)
                    == slots_ms(right.children).count(v) + right.keys.to_multiset().count(v));
                assert(slots_ms(n.children.subrange(0, mp + 1)).add(
                    slots_ms(n.children.subrange(mp + 1, n.children.len() as int)),
                ).count(v) == slots_ms(n.children.subrange(0, mp + 1)).count(v)
                    + slots_ms(n.children.subrange(mp + 1, n.children.len() as int)).count(v));
                assert(n.keys.subrange(0, mp).to_multiset().add(seq![middle].to_multiset()).count(v)
                    == n.keys.subrange(0, mp).to_multiset().count(v)
                    + seq![middle].to_multiset().count(v));
                assert(n.keys.subrange(0, mp).to_multiset().add(seq![middle].to_multiset()).add(
                    n.keys.subrange(mp + 1, kl).to_multiset(),
                ).count(v) == n.keys.subrange(0, mp).to_multiset().add(
                    seq![middle].to_multiset(),
                ).count(v) + n.keys.subrange(mp + 1, kl).to_multiset().count(v));
                assert(seq![middle].to_multiset() =~= Multiset::<i64>::empty().insert(middle)) by {
                    assert(seq![middle].drop_first() =~= Seq::<i64>::empty());
                }
            }
        );
    }
}

/// Inserting `v` into a subtree adds exactly one occurrence of `v` to its
/// in-order contents, whatever splits happen along the way.
proof fn lemma_m_insert_ms(n: NodeView, v: i64, d: int)
    requires
        wf_node(n),
        2 <= d,
    ensures
        in_order_node(m_insert(n, v, d)).to_multiset() == in_order_node(n).to_multiset().insert(v),
    decreases n,
{
    broadcast use vstd::multiset::group_multiset_axioms;

    let pos = spec_find_pos(n.keys, v);
    lemma_find_pos_char(n.keys, v);
    if 0 <= pos < n.children.len() && n.children[pos] is Some {
        let c0 = n.children[pos].unwrap();
        assert(wf_slot(n.children[pos]));
        lemma_m_insert_ms(c0, v, d);
        lemma_m_insert_wf(c0, v, d);
        let child = m_insert(c0, v, d);
        let n2 = NodeView { keys: n.keys, children: n.children.update(pos, Option::Some(child)) };
        assert(wf_node(n2)) by {
            assert forall|i: int| 0 <= i < n2.children.len() implies wf_slot(
                #[trigger] n2.children[i],
            ) by {
                if i != pos {
                    assert(n2.children[i] == n.children[i]);
                    assert(wf_slot(n.children[i]));
                }
            }
        }
        lemma_m_rebalance_ms(n2, pos, d);
        lemma_slots_ms_update(n.children, pos, Option::Some(child));
        lemma_in_order_slots_ms(n.children, n.keys);
        lemma_in_order_slots_ms(n2.children, n2.keys);
        assert_multisets_equal!(
            in_order_node(n2).to_multiset(), in_order_node(n).to_multiset().insert(v), w => {
                assert(slots_ms(n2.children).add(n2.keys.to_multiset()).count(w)
                    == slots_ms(n2.children).count(w) + n2.keys.to_multiset().count(w));
                assert(slots_ms(n.children).add(n.keys.to_multiset()).count(w)
                    == slots_ms(n.children).count(w) + n.keys.to_multiset().count(w));
                assert(slots_ms(n2.children).add(slot_ms(n.children[pos])).count(w)
                    == slots_ms(n2.children).count(w) + slot_ms(n.children[pos]).count(w));
                assert(slots_ms(n.children).add(slot_ms(Option::Some(child))).count(w)
                    == slots_ms(n.children).count(w) + slot_ms(Option::Some(child)).count(w));
            }
        );
    } else {
        let r = m_insert(n, v, d);
        assert(r.keys == n.keys.insert(pos, v));
        assert(r.children == n.children.insert(pos, Option::<NodeView>::None));
        lemma_slots_ms_insert(n.children, pos, Option::<NodeView>::None);
        lemma_in_order_slots_ms(n.children, n.keys);
        n.keys.insert_ensures(pos, v);
        n.children.insert_ensures(pos, Option::<NodeView>::None);
        lemma_in_order_slots_ms(r.children, r.keys);
        assert(in_order_slot(Option::<NodeView>::None) == Seq::<i64>::empty());
        assert(slot_ms(Option::<NodeView>::None) =~= Multiset::<i64>::empty());
        assert(r.keys.to_multiset() == n.keys.to_multiset().insert(v));
        assert_multisets_equal!(
            in_order_node(r).to_multiset(), in_order_node(n).to_multiset().insert(v), w => {
                assert(slots_ms(r.children).add(r.keys.to_multiset()).count(w)
                    == slots_ms(r.children).count(w) + r.keys.to_multiset().count(w));
                assert(slots_ms(n.children).add(n.keys.to_multiset()).count(w)
                    == slots_ms(n.children).count(w) + n.keys.to_multiset().count(w));
                assert(slots_ms(n.children).add(slot_ms(Option::<NodeView>::None)).count(w)
                    == slots_ms(n.children).count(w) + slot_ms(Option::<NodeView>::None).count(w));
            }
        );
    }
}

/// One insertion into the whole tree adds exactly one occurrence of `v`.
pub proof fn lemma_m_push_ms(root: Option<NodeView>, v: i64, d: int)
    requires
        wf_slot(root),
        2 <= d,
    ensures
        in_order_node(m_push(root, v, d)).to_multiset() == in_order_slot(root)
            .to_multiset().insert(v),
{
    broadcast use vstd::multiset::group_multiset_axioms;

    match root {
        Option::None => {
            let leaf = leaf_view(v);
            let cs2 = leaf.children.subrange(1, 2);
            let ks2 = leaf.keys.subrange(1, 1);
            assert(cs2[0] is None);
            assert(cs2.subrange(1, 1) =~= Seq::<Option<NodeView>>::empty());
            assert(in_order_slots(Seq::<Option<NodeView>>::empty(), ks2) == Seq::<i64>::empty());
            assert(in_order_slot(cs2[0]) == Seq::<i64>::empty());
            assert(in_order_slots(cs2, ks2) =~= Seq::<i64>::empty());
            assert(in_order_node(leaf) =~= seq![v]);
            assert(seq![v] =~= Seq::<i64>::empty().push(v));
            assert(Seq::<i64>::empty().to_multiset() =~= Multiset::<i64>::empty());
            assert(in_order_slot(root) == Seq::<i64>::empty());
            assert_multisets_equal!(
                in_order_node(m_push(root, v, d)).to_multiset(),
                in_order_slot(root).to_multiset().insert(v)
            );
        },
        Option::Some(n) => {
            lemma_m_insert_ms(n, v, d);
            lemma_m_insert_wf(n, v, d);
            lemma_m_rebalance_root_ms(m_insert(n, v, d), d);
        },
    }
}

/// `m_push` keeps the whole tree well-formed.
pub proof fn lemma_m_push_wf(root: Option<NodeView>, v: i64, d: int)
    requires
        wf_slot(root),
        2 <= d,
    ensures
        wf_node(m_push(root, v, d)),
{
    match root {
        Option::None => {
            let leaf = leaf_view(v);
            assert(forall|i: int| 0 <= i < leaf.children.len() ==> wf_slot(
                #[trigger] leaf.children[i],
            ));
        },
        Option::Some(n) => {
            lemma_m_insert_wf(n, v, d);
            lemma_m_rebalance_root_wf(m_insert(n, v, d), d);
        },
    }
}

/// The tree left by a whole sequence of insertions, first value first.
pub open spec fn m_push_all(root: Option<NodeView>, vs: Seq<i64>, d: int) -> Option<NodeView>
    decreases vs.len(),
{
    if vs.len() == 0 {
        root
    } else {
        m_push_all(Option::Some(m_push(root, vs[0], d)), vs.subrange(1, vs.len() as int), d)
    }
}

/// For every sequence of insertions into a well-formed tree, every node of
/// the resulting tree still has exactly one more child slot than it has
/// keys: the structural half of the tree's standing invariant.
pub proof fn lemma_pushes_keep_wf(root: Option<NodeView>, vs: Seq<i64>, d: int)
    requires
        wf_slot(root),
        2 <= d,
    ensures
        wf_slot(m_push_all(root, vs, d)),
    decreases vs.len(),
{
    if vs.len() > 0 {
        lemma_m_push_wf(root, vs[0], d);
        lemma_pushes_keep_wf(
            Option::Some(m_push(root, vs[0], d)),
            vs.subrange(1, vs.len() as int),
            d,
        );
    }
}

/// For every sequence of insertions into a well-formed tree, the in-order
/// traversal of the result carries exactly the old contents plus every
/// inserted value: insertion loses nothing and invents nothing.
pub proof fn lemma_pushes_in_order_multiset(root: Option<NodeView>, vs: Seq<i64>, d: int)
    requires
        wf_slot(root),
        2 <= d,
    ensures
        in_order_slot(m_push_all(root, vs, d)).to_multiset() == in_order_slot(root)
            .to_multiset().add(vs.to_multiset()),
    decreases vs.len(),
{
    broadcast use vstd::multiset::group_multiset_axioms;

    if vs.len() == 0 {
        assert(vs.to_multiset() =~= Multiset::<i64>::empty());
        assert_multisets_equal!(
            in_order_slot(m_push_all(root, vs, d)).to_multiset(),
            in_order_slot(root).to_multiset().add(vs.to_multiset())
        );
    } else {
        let vs1 = vs.subrange(1, vs.len() as int);
        let stepped = Option::Some(m_push(root, vs[0], d));
        lemma_m_push_ms(root, vs[0], d);
        lemma_m_push_wf(root, vs[0], d);
        lemma_pushes_in_order_multiset(stepped, vs1, d);
        assert(vs =~= seq![vs[0]] + vs1);
        assert(vs.to_multiset() == seq![vs[0]].to_multiset().add(vs1.to_multiset()));
        assert(seq![vs[0]].to_multiset() =~= Multiset::<i64>::empty().insert(vs[0])) by {
            assert(seq![vs[0]].drop_first() =~= Seq::<i64>::empty());
        }
        assert_multisets_equal!(
            in_order_slot(m_push_all(root, vs, d)).to_multiset(),
            in_order_slot(root).to_multiset().add(vs.to_multiset()), w => {
                assert(in_order_slot(stepped).to_multiset().add(vs1.to_multiset()).count(w)
                    == in_order_slot(stepped).to_multiset().count(w) + vs1.to_multiset().count(w));
                assert(in_order_slot(root).to_multiset().add(vs.to_multiset()).count(w)
                    == in_order_slot(root).to_multiset().count(w) + vs.to_multiset().count(w));
                assert(seq![vs[0]].to_multiset().add(vs1.to_multiset()).count(w)
                    == seq![vs[0]].to_multiset().count(w) + vs1.to_multiset().count(w));
            }
        );
    }
}

/// Contents of a run of slots interleaved with keys, bounded from below.
proof fn lemma_in_order_slots_ge(cs: Seq<Option<NodeView>>, ks: Seq<i64>, b: i64)
    requires
        cs.len() == ks.len() + 1,
        forall|i: int| 0 <= i < ks.len() ==> ks[i] >= b,
        forall|i: int|
            0 <= i < cs.len() ==> match #[trigger] cs[i] {
                Option::None => true,
                Option::Some(c) => all_ge(in_order_node(c), b),
            },
    ensures
        all_ge(in_order_slots(cs, ks), b),
    decreases cs,
{
    if ks.len() == 0 {
        let rest = cs.subrange(1, cs.len() as int);
        assert(in_order_slots(rest, ks) == Seq::<i64>::empty());
        assert(in_order_slots(cs, ks) =~= in_order_slot(cs[0]));
        assert(match cs[0] {
            Option::None => true,
            Option::Some(c) => all_ge(in_order_node(c), b),
        });
    } else {
        let cs1 = cs.subrange(1, cs.len() as int);
        let ks1 = ks.subrange(1, ks.len() as int);
        lemma_in_order_slots_ge(cs1, ks1, b);
        assert(match cs[0] {
            Option::None => true,
            Option::Some(c) => all_ge(in_order_node(c), b),
        });
        assert(in_order_slots(cs, ks) == in_order_slot(cs[0]) + seq![ks[0]] + in_order_slots(
            cs1,
            ks1,
        ));
    }
}

/// The interleaving of sorted, slot-bounded contents with a sorted key run
/// is itself sorted.
proof fn lemma_in_order_slots_sorted(cs: Seq<Option<NodeView>>, ks: Seq<i64>)
    requires
        cs.len() == ks.len() + 1,
        sorted_keys(ks),
        forall|i: int|
            0 <= i < cs.len() ==> match #[trigger] cs[i] {
                Option::None => true,
                Option::Some(c) => {
                    &&& sorted_keys(in_order_node(c))
                    &&& (i < ks.len() ==> all_lt(in_order_node(c), ks[i]))
                    &&& (i >= 1 ==> all_ge(in_order_node(c), ks[i - 1]))
                },
            },
    ensures
        sorted_keys(in_order_slots(cs, ks)),
    decreases cs,
{
    if ks.len() == 0 {
        let rest = cs.subrange(1, cs.len() as int);
        assert(in_order_slots(rest, ks) == Seq::<i64>::empty());
        assert(in_order_slots(cs, ks) =~= in_order_slot(cs[0]));
        assert(match cs[0] {
            Option::None => true,
            Option::Some(c) => sorted_keys(in_order_node(c)),
        });
    } else {
        let cs1 = cs.subrange(1, cs.len() as int);
        let ks1 = ks.subrange(1, ks.len() as int);
        assert forall|i: int|
            0 <= i < cs1.len() implies match #[trigger] cs1[i] {
                Option::None => true,
                Option::Some(c) => {
                    &&& sorted_keys(in_order_node(c))
                    &&& (i < ks1.len() ==> all_lt(in_order_node(c), ks1[i]))
                    &&& (i >= 1 ==> all_ge(in_order_node(c), ks1[i - 1]))
                },
            } by {
            assert(cs1[i] == cs[i + 1]);
        }
        lemma_in_order_slots_sorted(cs1, ks1);
        assert forall|i: int|
            0 <= i < cs1.len() implies match #[trigger] cs1[i] {
                Option::None => true,
                Option::Some(c) => all_ge(in_order_node(c), ks[0]),
            } by {
            assert(cs1[i] == cs[i + 1]);
            match cs[i + 1] {
                Option::None => {},
                Option::Some(c) => {
                    assert(all_ge(in_order_node(c), ks[i]));
                    assert(ks[i] >= ks[0]);
                },
            }
        }
        lemma_in_order_slots_ge(cs1, ks1, ks[0]);
        let a = in_order_slot(cs[0]);
        let rest = in_order_slots(cs1, ks1);
        let whole = a + seq![ks[0]] + rest;
        assert(in_order_slots(cs, ks) == whole);
        assert(match cs[0] {
            Option::None => true,
            Option::Some(c) => sorted_keys(in_order_node(c)) && all_lt(in_order_node(c), ks[0]),
        });
        assert(sorted_keys(a));
        assert(all_lt(a, ks[0]));
        assert forall|i: int, j: int| 0 <= i <= j < whole.len() implies whole[i] <= whole[j] by {
            let al = a.len() as int;
            if j < al {
                assert(whole[i] == a[i] && whole[j] == a[j]);
            } else if j == al {
                assert(whole[j] == ks[0]);
                if i < al {
                    assert(whole[i] == a[i]);
                }
            } else {
                assert(whole[j] == rest[j - al - 1]);
                assert(rest[j - al - 1] >= ks[0]);
                if i < al {
                    assert(whole[i] == a[i]);
                } else if i == al {
                    assert(whole[i] == ks[0]);
                } else {
                    assert(whole[i] == rest[i - al - 1]);
                }
            }
        }
    }
}

/// The order half of the traversal law: a tree that satisfies the ordering
/// invariant lists its keys in non-decreasing order, duplicates adjacent.
pub proof fn lemma_sorted_node_in_order(n: NodeView)
    requires
        wf_node(n),
        sorted_node(n),
    ensures
        sorted_keys(in_order_node(n)),
    decreases n,
{
    assert forall|i: int|
        0 <= i < n.children.len() implies match #[trigger] n.children[i] {
            Option::None => true,
            Option::Some(c) => {
                &&& sorted_keys(in_order_node(c))
                &&& (i < n.keys.len() ==> all_lt(in_order_node(c), n.keys[i]))
                &&& (i >= 1 ==> all_ge(in_order_node(c), n.keys[i - 1]))
            },
        } by {
        match n.children[i] {
            Option::None => {},
            Option::Some(c) => {
                assert(wf_slot(n.children[i]));
                lemma_sorted_node_in_order(c);
            },
        }
    }
    lemma_in_order_slots_sorted(n.children, n.keys);
}

/// In-order contents decompose around any key: everything from the slots and
/// keys left of it, the key itself, then everything right of it.
proof fn lemma_in_order_slots_decompose(cs: Seq<Option<NodeView>>, ks: Seq<i64>, k: int)
    requires
        cs.len() == ks.len() + 1,
        0 <= k < ks.len(),
    ensures
        in_order_slots(cs, ks) == in_order_slots(cs.subrange(0, k + 1), ks.subrange(0, k))
            + seq![ks[k]] + in_order_slots(
            cs.subrange(k + 1, cs.len() as int),
            ks.subrange(k + 1, ks.len() as int),
        ),
    decreases k,
{
    let cs1 = cs.subrange(1, cs.len() as int);
    let ks1 = ks.subrange(1, ks.len() as int);
    if k == 0 {
        let head = cs.subrange(0, 1);
        let hks = ks.subrange(0, 0);
        assert(head[0] == cs[0]);
        assert(hks.len() == 0);
        assert(head.subrange(1, 1) =~= Seq::<Option<NodeView>>::empty());
        assert(in_order_slots(Seq::<Option<NodeView>>::empty(), hks) == Seq::<i64>::empty());
        assert(in_order_slots(head, hks) =~= in_order_slot(cs[0]));
        assert(cs.subrange(1, cs.len() as int) =~= cs1);
        assert(ks.subrange(1, ks.len() as int) =~= ks1);
        assert(in_order_slots(cs, ks) =~= in_order_slots(head, hks) + seq![ks[0]]
            + in_order_slots(cs1, ks1));
    } else {
        lemma_in_order_slots_decompose(cs1, ks1, k - 1);
        let headc = cs.subrange(0, k + 1);
        let headk = ks.subrange(0, k);
        assert(headc[0] == cs[0]);
        assert(headk[0] == ks[0]);
        assert(headc.subrange(1, k + 1) =~= cs1.subrange(0, k));
        assert(headk.subrange(1, k) =~= ks1.subrange(0, k - 1));
        assert(in_order_slots(headc, headk) == in_order_slot(cs[0]) + seq![ks[0]]
            + in_order_slots(cs1.subrange(0, k), ks1.subrange(0, k - 1)));
        assert(cs.subrange(k + 1, cs.len() as int) =~= cs1.subrange(k, cs1.len() as int));
        assert(ks.subrange(k + 1, ks.len() as int) =~= ks1.subrange(k, ks1.len() as int));
        assert(ks1[k - 1] == ks[k]);
        assert(in_order_slots(cs, ks) =~= in_order_slots(headc, headk) + seq![ks[k]]
            + in_order_slots(
            cs.subrange(k + 1, cs.len() as int),
            ks.subrange(k + 1, ks.len() as int),
        ));
    }
}

/// Contents of a run of slots interleaved with keys, bounded strictly from
/// above.
proof fn lemma_in_order_slots_lt(cs: Seq<Option<NodeView>>, ks: Seq<i64>, b: i64)
    requires
        cs.len() == ks.len() + 1,
        forall|i: int| 0 <= i < ks.len() ==> ks[i] < b,
        forall|i: int|
            0 <= i < cs.len() ==> match #[trigger] cs[i] {
                Option::None => true,
                Option::Some(c) => all_lt(in_order_node(c), b),
            },
    ensures
        all_lt(in_order_slots(cs, ks), b),
    decreases cs,
{
    if ks.len() == 0 {
        let rest = cs.subrange(1, cs.len() as int);
        assert(in_order_slots(rest, ks) == Seq::<i64>::empty());
        assert(in_order_slots(cs, ks) =~= in_order_slot(cs[0]));
        assert(match cs[0] {
            Option::None => true,
            Option::Some(c) => all_lt(in_order_node(c), b),
        });
    } else {
        let cs1 = cs.subrange(1, cs.len() as int);
        let ks1 = ks.subrange(1, ks.len() as int);
        lemma_in_order_slots_lt(cs1, ks1, b);
        assert(match cs[0] {
            Option::None => true,
            Option::Some(c) => all_lt(in_order_node(c), b),
        });
        assert(in_order_slots(cs, ks) == in_order_slot(cs[0]) + seq![ks[0]] + in_order_slots(
            cs1,
            ks1,
        ));
    }
}

/// When splitting the child in slot `pos` of `n` would fire, the promotion
/// lands in the top region of `n`'s key run (so the append-and-swap is an
/// ordinary insert) and the middle key sits strictly above the child's lower
/// half (so no duplicate run spans the cut).
pub open spec fn split_ok(n: NodeView, pos: int, d: int) -> bool
    recommends
        0 <= pos < n.children.len(),
        n.children[pos] is Some,
{
    let child = n.children[pos].unwrap();
    let mp = (child.keys.len() - 1) as int / 2;
    child.keys.len() >= d ==> {
        &&& pos >= n.keys.len() - 1
        &&& (mp == 0 || child.keys[mp - 1] < child.keys[mp])
    }
}

/// A split under `split_ok` keeps the ordering invariant.
#[verifier::rlimit(100)]
proof fn lemma_m_rebalance_sorted(n: NodeView, pos: int, d: int)
    requires
        wf_node(n),
        sorted_node(n),
        0 <= pos < n.children.len(),
        n.children[pos] is Some,
        split_ok(n, pos, d),
        2 <= d,
    ensures
        sorted_node(m_rebalance(n, pos, d)),
{
    let child = n.children[pos].unwrap();
    assert(wf_slot(n.children[pos]));
    assert(match n.children[pos] {
        Option::None => true,
        Option::Some(c) => {
            &&& sorted_node(c)
            &&& (pos < n.keys.len() ==> all_lt(in_order_node(c), n.keys[pos]))
            &&& (pos >= 1 ==> all_ge(in_order_node(c), n.keys[pos - 1]))
        },
    });
    if child.keys.len() >= d {
        let cl = child.keys.len() as int;
        let mp = (cl - 1) / 2;
        let mid = child.keys[mp];
        let pp = spec_find_pos(n.keys, mid);
        lemma_find_pos_char(n.keys, mid);
        let left = NodeView {
            keys: child.keys.subrange(0, mp),
            children: child.children.subrange(0, mp + 1),
        };
        let sib = NodeView {
            keys: child.keys.subrange(mp + 1, cl),
            children: child.children.subrange(mp + 1, child.children.len() as int),
        };
        let r = m_rebalance(n, pos, d);
        assert(child.children.len() == child.keys.len() + 1);

        lemma_in_order_slots_decompose(child.children, child.keys, mp);
        assert(left.children =~= child.children.subrange(0, mp + 1));
        assert(in_order_node(child) == in_order_node(left) + seq![mid] + in_order_node(sib));
        let li = in_order_node(left).len() as int;
        assert(in_order_node(child)[li] == mid);
        assert(forall|i: int|
            0 <= i < li ==> in_order_node(child)[i] == #[trigger] in_order_node(left)[i]);
        assert(forall|i: int|
            0 <= i < in_order_node(sib).len() ==> in_order_node(child)[li + 1 + i]
                == #[trigger] in_order_node(sib)[i]);

        if pos < n.keys.len() {
            assert(mid < n.keys[pos]);
            assert(all_lt(in_order_node(left), n.keys[pos]));
            assert(all_lt(in_order_node(sib), n.keys[pos]));
        }
        if pos >= 1 {
            assert(mid >= n.keys[pos - 1]);
            assert(all_ge(in_order_node(left), n.keys[pos - 1]));
            assert(all_ge(in_order_node(sib), n.keys[pos - 1]));
        }

        assert(pp == pos) by {
            if pp < pos {
                assert(mid < n.keys[pp]);
                assert(n.keys[pp] <= n.keys[pos - 1]);
            }
            if pp > pos {
                assert(pos < n.keys.len());
                assert(!(mid < n.keys[pos]));
            }
        }

        let kp = n.keys.push(mid);
        assert(r.keys == seq_swap(kp, pp, n.keys.len() as int));
        assert(r.keys =~= n.keys.insert(pos, mid));
        n.keys.insert_ensures(pos, mid);
        assert(sorted_keys(r.keys)) by {
            assert forall|i: int, j: int| 0 <= i <= j < r.keys.len() implies r.keys[i]
                <= r.keys[j] by {
                if i < pos && j == pos {
                    assert(r.keys[i] == n.keys[i]);
                    assert(!(mid < n.keys[i]));
                } else if i == pos && j > pos {
                    assert(r.keys[j] == n.keys[j - 1]);
                    assert(mid < n.keys[pos] && n.keys[pos] <= n.keys[j - 1]);
                } else if i < pos && j > pos {
                    assert(r.keys[i] == n.keys[i] && r.keys[j] == n.keys[j - 1]);
                } else if i < pos && j < pos {
                    assert(r.keys[i] == n.keys[i] && r.keys[j] == n.keys[j]);
                } else if i > pos && j > pos {
                    assert(r.keys[i] == n.keys[i - 1] && r.keys[j] == n.keys[j - 1]);
                }
            }
        }

        assert(all_lt(in_order_node(left), mid)) by {
            assert forall|i: int|
                0 <= i < left.keys.len() implies #[trigger] left.keys[i] < mid by {
                assert(left.keys[i] == child.keys[i]);
                assert(child.keys[i] <= child.keys[mp - 1]);
            }
            assert forall|i: int|
                0 <= i < left.children.len() implies match #[trigger] left.children[i] {
                    Option::None => true,
                    Option::Some(c) => all_lt(in_order_node(c), mid),
                } by {
                assert(left.children[i] == child.children[i]);
                match child.children[i] {
                    Option::None => {},
                    Option::Some(c) => {
                        assert(i < child.keys.len());
                        assert(all_lt(in_order_node(c), child.keys[i]));
                        assert(child.keys[i] <= mid);
                    },
                }
            }
            lemma_in_order_slots_lt(left.children, left.keys, mid);
        }
        assert(all_ge(in_order_node(sib), mid)) by {
            assert forall|i: int|
                0 <= i < sib.keys.len() implies #[trigger] sib.keys[i] >= mid by {
                assert(sib.keys[i] == child.keys[mp + 1 + i]);
            }
            assert forall|i: int|
                0 <= i < sib.children.len() implies match #[trigger] sib.children[i] {
                    Option::None => true,
                    Option::Some(c) => all_ge(in_order_node(c), mid),
                } by {
                assert(sib.children[i] == child.children[mp + 1 + i]);
                match child.children[mp + 1 + i] {
                    Option::None => {},
                    Option::Some(c) => {
                        assert(all_ge(in_order_node(c), child.keys[mp + i]));
                        assert(child.keys[mp + i] >= mid);
                    },
                }
            }
            lemma_in_order_slots_ge(sib.children, sib.keys, mid);
        }

        assert(sorted_node(left)) by {
            assert(sorted_keys(left.keys));
            assert forall|i: int|
                0 <= i < left.children.len() implies match #[trigger] left.children[i] {
                    Option::None => true,
                    Option::Some(c) => {
                        &&& sorted_node(c)
                        &&& (i < left.keys.len() ==> all_lt(in_order_node(c), left.keys[i]))
                        &&& (i >= 1 ==> all_ge(in_order_node(c), left.keys[i - 1]))
                    },
                } by {
                assert(left.children[i] == child.children[i]);
                assert(match child.children[i] {
                    Option::None => true,
                    Option::Some(c) => {
                        &&& sorted_node(c)
                        &&& (i < child.keys.len() ==> all_lt(in_order_node(c), child.keys[i]))
                        &&& (i >= 1 ==> all_ge(in_order_node(c), child.keys[i - 1]))
                    },
                });
            }
        }
        assert(sorted_node(sib)) by {
            assert(sorted_keys(sib.keys));
            assert forall|i: int|
                0 <= i < sib.children.len() implies match #[trigger] sib.children[i] {
                    Option::None => true,
                    Option::Some(c) => {
                        &&& sorted_node(c)
                        &&& (i < sib.keys.len() ==> all_lt(in_order_node(c), sib.keys[i]))
                        &&& (i >= 1 ==> all_ge(in_order_node(c), sib.keys[i - 1]))
                    },
                } by {
                assert(sib.children[i] == child.children[mp + 1 + i]);
                assert(match child.children[mp + 1 + i] {
                    Option::None => true,
                    Option::Some(c) => {
                        &&& sorted_node(c)
                        &&& (mp + 1 + i < child.keys.len() ==> all_lt(
                            in_order_node(c),
                            child.keys[mp + 1 + i],
                        ))
                        &&& (mp + 1 + i >= 1 ==> all_ge(in_order_node(c), child.keys[mp + i]))
                    },
                });
                if i < sib.keys.len() {
                    assert(sib.keys[i] == child.keys[mp + 1 + i]);
                }
                if i >= 1 {
                    assert(sib.keys[i - 1] == child.keys[mp + i]);
                }
            }
        }

        let u = n.children.update(pos, Option::Some(left));
        assert(r.children == u.insert(pos + 1, Option::Some(sib)));
        u.insert_ensures(pos + 1, Option::Some(sib));
        assert forall|i: int|
            0 <= i < r.children.len() implies match #[trigger] r.children[i] {
                Option::None => true,
                Option::Some(c) => {
                    &&& sorted_node(c)
                    &&& (i < r.keys.len() ==> all_lt(in_order_node(c), r.keys[i]))
                    &&& (i >= 1 ==> all_ge(in_order_node(c), r.keys[i - 1]))
                },
            } by {
            if i < pos {
                assert(r.children[i] == u[i]);
                assert(u[i] == n.children[i]);
                assert(match n.children[i] {
                    Option::None => true,
                    Option::Some(c) => {
                        &&& sorted_node(c)
                        &&& (i < n.keys.len() ==> all_lt(in_order_node(c), n.keys[i]))
                        &&& (i >= 1 ==> all_ge(in_order_node(c), n.keys[i - 1]))
                    },
                });
                if i < r.keys.len() {
                    assert(r.keys[i] == n.keys[i]);
                }
                if i >= 1 {
                    assert(r.keys[i - 1] == n.keys[i - 1]);
                }
            } else if i == pos {
                assert(r.children[i] == Option::Some(left));
                assert(r.keys[pos] == mid);
                if i >= 1 {
                    assert(r.keys[i - 1] == n.keys[i - 1]);
                    assert(all_ge(in_order_node(left), n.keys[pos - 1]));
                }
            } else if i == pos + 1 {
                assert(r.children[i] == Option::Some(sib));
                assert(r.keys[i - 1] == mid);
                if i < r.keys.len() {
                    assert(r.keys[i] == n.keys[i - 1]);
                    assert(pos < n.keys.len());
                    assert(n.keys[pos] <= n.keys[i - 1]);
                }
            } else {
                assert(r.children[i] == u[i - 1]);
                assert(u[i - 1] == n.children[i - 1]);
                assert(match n.children[i - 1] {
                    Option::None => true,
                    Option::Some(c) => {
                        &&& sorted_node(c)
                        &&& (i - 1 < n.keys.len() ==> all_lt(in_order_node(c), n.keys[i - 1]))
                        &&& (i - 1 >= 1 ==> all_ge(in_order_node(c), n.keys[i - 2]))
                    },
                });
                if i < r.keys.len() {
                    assert(r.keys[i] == n.keys[i - 1]);
                }
                assert(r.keys[i - 1] == n.keys[i - 2]);
            }
        }
    }
}

/// When the root itself would split, its middle key sits strictly above its
/// lower half (no duplicate run spans the cut).
pub open spec fn root_split_ok(m: NodeView, d: int) -> bool {
    let mp = (m.keys.len() - 1) as int / 2;
    m.keys.len() >= d ==> (mp == 0 || m.keys[mp - 1] < m.keys[mp])
}

/// A root split under `root_split_ok` keeps the ordering invariant.
#[verifier::rlimit(100)]
proof fn lemma_m_rebalance_root_sorted(m: NodeView, d: int)
    requires
        wf_node(m),
        sorted_node(m),
        root_split_ok(m, d),
        2 <= d,
    ensures
        sorted_node(m_rebalance_root(m, d)),
{
    if m.keys.len() >= d {
        let kl = m.keys.len() as int;
        let mp = (kl - 1) / 2;
        let mid = m.keys[mp];
        let left = NodeView {
            keys: m.keys.subrange(0, mp),
            children: m.children.subrange(0, mp + 1),
        };
        let right = NodeView {
            keys: m.keys.subrange(mp + 1, kl),
            children: m.children.subrange(mp + 1, m.children.len() as int),
        };
        let r = m_rebalance_root(m, d);
        assert(r.children == seq![Option::Some(left), Option::Some(right)]);
        assert(sorted_node(left)) by {
            assert(sorted_keys(left.keys));
            assert forall|i: int|
                0 <= i < left.children.len() implies match #[trigger] left.children[i] {
                    Option::None => true,
                    Option::Some(c) => {
                        &&& sorted_node(c)
                        &&& (i < left.keys.len() ==> all_lt(in_order_node(c), left.keys[i]))
                        &&& (i >= 1 ==> all_ge(in_order_node(c), left.keys[i - 1]))
                    },
                } by {
                assert(left.children[i] == m.children[i]);
                assert(match m.children[i] {
                    Option::None => true,
                    Option::Some(c) => {
                        &&& sorted_node(c)
                        &&& (i < m.keys.len() ==> all_lt(in_order_node(c), m.keys[i]))
                        &&& (i >= 1 ==> all_ge(in_order_node(c), m.keys[i - 1]))
                    },
                });
            }
        }
        assert(sorted_node(right)) by {
            assert(sorted_keys(right.keys));
            assert forall|i: int|
                0 <= i < right.children.len() implies match #[trigger] right.children[i] {
                    Option::None => true,
                    Option::Some(c) => {
                        &&& sorted_node(c)
                        &&& (i < right.keys.len() ==> all_lt(in_order_node(c), right.keys[i]))
                        &&& (i >= 1 ==> all_ge(in_order_node(c), right.keys[i - 1]))
                    },
                } by {
                assert(right.children[i] == m.children[mp + 1 + i]);
                assert(match m.children[mp + 1 + i] {
                    Option::None => true,
                    Option::Some(c) => {
                        &&& sorted_node(c)
                        &&& (mp + 1 + i < m.keys.len() ==> all_lt(
                            in_order_node(c),
                            m.keys[mp + 1 + i],
                        ))
                        &&& (mp + 1 + i >= 1 ==> all_ge(in_order_node(c), m.keys[mp + i]))
                    },
                });
                if i < right.keys.len() {
                    assert(right.keys[i] == m.keys[mp + 1 + i]);
                }
                if i >= 1 {
                    assert(right.keys[i - 1] == m.keys[mp + i]);
                }
            }
        }
        assert(all_lt(in_order_node(left), mid)) by {
            assert forall|i: int|
                0 <= i < left.keys.len() implies #[trigger] left.keys[i] < mid by {
                assert(left.keys[i] == m.keys[i]);
                assert(m.keys[i] <= m.keys[mp - 1]);
            }
            assert forall|i: int|
                0 <= i < left.children.len() implies match #[trigger] left.children[i] {
                    Option::None => true,
                    Option::Some(c) => all_lt(in_order_node(c), mid),
                } by {
                assert(left.children[i] == m.children[i]);
                match m.children[i] {
                    Option::None => {},
                    Option::Some(c) => {
                        assert(i < m.keys.len());
                        assert(all_lt(in_order_node(c), m.keys[i]));
                        assert(m.keys[i] <= mid);
                    },
                }
            }
            lemma_in_order_slots_lt(left.children, left.keys, mid);
        }
        assert(all_ge(in_order_node(right), mid)) by {
            assert forall|i: int|
                0 <= i < right.keys.len() implies #[trigger] right.keys[i] >= mid by {
                assert(right.keys[i] == m.keys[mp + 1 + i]);
            }
            assert forall|i: int|
                0 <= i < right.children.len() implies match #[trigger] right.children[i] {
                    Option::None => true,
                    Option::Some(c) => all_ge(in_order_node(c), mid),
                } by {
                assert(right.children[i] == m.children[mp + 1 + i]);
                match m.children[mp + 1 + i] {
                    Option::None => {},
                    Option::Some(c) => {
                        assert(all_ge(in_order_node(c), m.keys[mp + i]));
                        assert(m.keys[mp + i] >= mid);
                    },
                }
            }
            lemma_in_order_slots_ge(right.children, right.keys, mid);
        }
        assert(sorted_keys(r.keys));
        assert forall|i: int|
            0 <= i < r.children.len() implies match #[trigger] r.children[i] {
                Option::None => true,
                Option::Some(c) => {
                    &&& sorted_node(c)
                    &&& (i < r.keys.len() ==> all_lt(in_order_node(c), r.keys[i]))
                    &&& (i >= 1 ==> all_ge(in_order_node(c), r.keys[i - 1]))
                },
            } by {
            assert(r.keys[0] == mid);
            if i == 0 {
                assert(r.children[i] == Option::Some(left));
            } else {
                assert(r.children[i] == Option::Some(right));
            }
        }
    }
}

/// This insertion keeps the ordering invariant: every split it fires along
/// the descent promotes into the top region of its parent's key run, with no
/// duplicate run spanning the cut.
pub open spec fn insert_keeps_order(n: NodeView, v: i64, d: int) -> bool
    decreases n,
{
    let pos = spec_find_pos(n.keys, v);
    if 0 <= pos < n.children.len() && n.children[pos] is Some {
        let child = m_insert(n.children[pos].unwrap(), v, d);
        insert_keeps_order(n.children[pos].unwrap(), v, d) && split_ok(
            NodeView { keys: n.keys, children: n.children.update(pos, Option::Some(child)) },
            pos,
            d,
        )
    } else {
        true
    }
}

/// The whole insertion keeps the ordering invariant, a root split included.
pub open spec fn push_keeps_order(root: Option<NodeView>, v: i64, d: int) -> bool {
    match root {
        Option::None => true,
        Option::Some(n) => insert_keeps_order(n, v, d) && root_split_ok(m_insert(n, v, d), d),
    }
}

/// Elements below a bound stay below it when one more value below the bound
/// joins the multiset.
proof fn lemma_all_lt_ms_insert(s2: Seq<i64>, s1: Seq<i64>, v: i64, b: i64)
    requires
        s2.to_multiset() == s1.to_multiset().insert(v),
        all_lt(s1, b),
        v < b,
    ensures
        all_lt(s2, b),
{
    assert forall|i: int| 0 <= i < s2.len() implies s2[i] < b by {
        assert(s2.contains(s2[i]));
        assert(s2.to_multiset().count(s2[i]) > 0);
        if s2[i] != v {
            assert(s1.to_multiset().insert(v).count(s2[i]) == s1.to_multiset().count(s2[i]));
            assert(s1.contains(s2[i]));
            let j = choose|j: int| 0 <= j < s1.len() && s1[j] == s2[i];
            assert(s1[j] < b);
        }
    }
}

/// Elements at or above a bound stay there when one more value at or above
/// the bound joins the multiset.
proof fn lemma_all_ge_ms_insert(s2: Seq<i64>, s1: Seq<i64>, v: i64, b: i64)
    requires
        s2.to_multiset() == s1.to_multiset().insert(v),
        all_ge(s1, b),
        v >= b,
    ensures
        all_ge(s2, b),
{
    assert forall|i: int| 0 <= i < s2.len() implies s2[i] >= b by {
        assert(s2.contains(s2[i]));
        assert(s2.to_multiset().count(s2[i]) > 0);
        if s2[i] != v {
            assert(s1.to_multiset().insert(v).count(s2[i]) == s1.to_multiset().count(s2[i]));
            assert(s1.contains(s2[i]));
            let j = choose|j: int| 0 <= j < s1.len() && s1[j] == s2[i];
            assert(s1[j] >= b);
        }
    }
}

/// An insertion whose splits all behave (see [`insert_keeps_order`]) keeps
/// the ordering invariant.
proof fn lemma_m_insert_sorted_kept(n: NodeView, v: i64, d: int)
    requires
        wf_node(n),
        sorted_node(n),
        insert_keeps_order(n, v, d),
        2 <= d,
    ensures
        sorted_node(m_insert(n, v, d)),
    decreases n,
{
    let pos = spec_find_pos(n.keys, v);
    lemma_find_pos_char(n.keys, v);
    let r = m_insert(n, v, d);
    if 0 <= pos < n.children.len() && n.children[pos] is Some {
        let c0 = n.children[pos].unwrap();
        assert(wf_slot(n.children[pos]));
        assert(match n.children[pos] {
            Option::None => true,
            Option::Some(c) => {
                &&& sorted_node(c)
                &&& (pos < n.keys.len() ==> all_lt(in_order_node(c), n.keys[pos]))
                &&& (pos >= 1 ==> all_ge(in_order_node(c), n.keys[pos - 1]))
            },
        });
        assert(insert_keeps_order(c0, v, d));
        lemma_m_insert_sorted_kept(c0, v, d);
        lemma_m_insert_wf(c0, v, d);
        lemma_m_insert_ms(c0, v, d);
        let child = m_insert(c0, v, d);
        let n2 = NodeView { keys: n.keys, children: n.children.update(pos, Option::Some(child)) };
        assert(r == m_rebalance(n2, pos, d));
        if pos < n.keys.len() {
            lemma_all_lt_ms_insert(in_order_node(child), in_order_node(c0), v, n.keys[pos]);
        }
        if pos >= 1 {
            assert(!(v < n.keys[pos - 1]));
            lemma_all_ge_ms_insert(in_order_node(child), in_order_node(c0), v, n.keys[pos - 1]);
        }
        assert forall|i: int|
            0 <= i < n2.children.len() implies match #[trigger] n2.children[i] {
                Option::None => true,
                Option::Some(c) => {
                    &&& sorted_node(c)
                    &&& (i < n2.keys.len() ==> all_lt(in_order_node(c), n2.keys[i]))
                    &&& (i >= 1 ==> all_ge(in_order_node(c), n2.keys[i - 1]))
                },
            } by {
            if i != pos {
                assert(n2.children[i] == n.children[i]);
                assert(match n.children[i] {
                    Option::None => true,
                    Option::Some(c) => {
                        &&& sorted_node(c)
                        &&& (i < n.keys.len() ==> all_lt(in_order_node(c), n.keys[i]))
                        &&& (i >= 1 ==> all_ge(in_order_node(c), n.keys[i - 1]))
                    },
                });
            } else {
                assert(n2.children[i] == Option::Some(child));
            }
        }
        assert(sorted_node(n2));
        assert(wf_node(n2)) by {
            assert forall|i: int| 0 <= i < n2.children.len() implies wf_slot(
                #[trigger] n2.children[i],
            ) by {
                if i != pos {
                    assert(n2.children[i] == n.children[i]);
                    assert(wf_slot(n.children[i]));
                }
            }
        }
        assert(split_ok(n2, pos, d));
        lemma_m_rebalance_sorted(n2, pos, d);
    } else {
        assert(r.keys == n.keys.insert(pos, v));
        assert(r.children == n.children.insert(pos, Option::<NodeView>::None));
        n.keys.insert_ensures(pos, v);
        n.children.insert_ensures(pos, Option::<NodeView>::None);
        assert(sorted_keys(r.keys)) by {
            assert forall|i: int, j: int| 0 <= i <= j < r.keys.len() implies r.keys[i]
                <= r.keys[j] by {
                let ki = if i < pos {
                    n.keys[i]
                } else if i == pos {
                    v
                } else {
                    n.keys[i - 1]
                };
                let kj = if j < pos {
                    n.keys[j]
                } else if j == pos {
                    v
                } else {
                    n.keys[j - 1]
                };
                assert(r.keys[i] == ki && r.keys[j] == kj);
                if i < pos && j == pos {
                    assert(!(v < n.keys[i]));
                } else if i == pos && j > pos {
                    assert(v < n.keys[pos]);
                    assert(n.keys[pos] <= n.keys[j - 1]);
                } else if i < pos && j > pos {
                    assert(n.keys[i] <= n.keys[j - 1]);
                }
            }
        }
        assert forall|i: int|
            0 <= i < r.children.len() implies match #[trigger] r.children[i] {
                Option::None => true,
                Option::Some(c) => {
                    &&& sorted_node(c)
                    &&& (i < r.keys.len() ==> all_lt(in_order_node(c), r.keys[i]))
                    &&& (i >= 1 ==> all_ge(in_order_node(c), r.keys[i - 1]))
                },
            } by {
            if i < pos {
                assert(r.children[i] == n.children[i]);
                assert(r.keys[i] == n.keys[i] || i >= r.keys.len());
                if i >= 1 {
                    assert(r.keys[i - 1] == n.keys[i - 1]);
                }
                assert(match n.children[i] {
                    Option::None => true,
                    Option::Some(c) => {
                        &&& sorted_node(c)
                        &&& (i < n.keys.len() ==> all_lt(in_order_node(c), n.keys[i]))
                        &&& (i >= 1 ==> all_ge(in_order_node(c), n.keys[i - 1]))
                    },
                });
                if i < n.keys.len() {
                    assert(r.keys[i] == n.keys[i]);
                }
            } else if i == pos || i == pos + 1 {
                assert(r.children[i] == Option::<NodeView>::None) by {
                    if i == pos + 1 {
                        assert(r.children[i] == n.children[pos]);
                        assert(!(n.children[pos] is Some) || !(0 <= pos < n.children.len()));
                    }
                }
            } else {
                assert(r.children[i] == n.children[i - 1]);
                assert(r.keys[i - 1] == n.keys[i - 2] || i - 1 >= r.keys.len());
                assert(match n.children[i - 1] {
                    Option::None => true,
                    Option::Some(c) => {
                        &&& sorted_node(c)
                        &&& (i - 1 < n.keys.len() ==> all_lt(in_order_node(c), n.keys[i - 1]))
                        &&& (i - 1 >= 1 ==> all_ge(in_order_node(c), n.keys[i - 2]))
                    },
                });
                if i < r.keys.len() {
                    assert(r.keys[i] == n.keys[i - 1]);
                }
            }
        }
    }
}

/// The ordering half of the insertion law, on the inputs where it holds: an
/// insertion whose splits all promote into the top region of their parents'
/// key runs, with no duplicate run spanning a cut, keeps the ordering
/// invariant. Both restrictions are real: a split promotes its middle key by
/// an append and a swap, and when the promoted key belongs before the
/// parent's second-to-last key the swap displaces a key out of order; and a
/// run of equal keys cut by the split leaves copies of the separator in the
/// lower partition, where the search never looks for them.
pub proof fn lemma_push_sorted_when_order_kept(root: Option<NodeView>, v: i64, d: int)
    requires
        wf_slot(root),
        sorted_slot(root),
        push_keeps_order(root, v, d),
        2 <= d,
    ensures
        sorted_node(m_push(root, v, d)),
{
    match root {
        Option::None => {
            let leaf = leaf_view(v);
            assert(sorted_keys(leaf.keys));
            assert(forall|i: int|
                0 <= i < leaf.children.len() ==> (#[trigger] leaf.children[i]) is None);
        },
        Option::Some(n) => {
            lemma_m_insert_sorted_kept(n, v, d);
            lemma_m_insert_wf(n, v, d);
            lemma_m_rebalance_root_sorted(m_insert(n, v, d), d);
        },
    }
}

/// Along this whole run of insertions, every split that fires behaves (see
/// [`push_keeps_order`]).
pub open spec fn pushes_keep_order(root: Option<NodeView>, vs: Seq<i64>, d: int) -> bool
    decreases vs.len(),
{
    if vs.len() == 0 {
        true
    } else {
        push_keeps_order(root, vs[0], d) && pushes_keep_order(
            Option::Some(m_push(root, vs[0], d)),
            vs.subrange(1, vs.len() as int),
            d,
        )
    }
}

/// The ordering half of the insertion law over whole sequences, on the
/// inputs where it holds: every sequence of insertions whose splits all
/// promote into the top region of their parents, with no duplicate run
/// spanning a cut, keeps the ordering invariant, and the in-order traversal
/// of the tree it produces lists the inserted values in non-decreasing
/// order.
pub proof fn lemma_pushes_keep_sorted(root: Option<NodeView>, vs: Seq<i64>, d: int)
    requires
        wf_slot(root),
        sorted_slot(root),
        pushes_keep_order(root, vs, d),
        2 <= d,
    ensures
        sorted_slot(m_push_all(root, vs, d)),
        wf_slot(m_push_all(root, vs, d)),
        sorted_keys(in_order_slot(m_push_all(root, vs, d))),
    decreases vs.len(),
{
    if vs.len() == 0 {
        match m_push_all(root, vs, d) {
            Option::None => {
                assert(in_order_slot(m_push_all(root, vs, d)) == Seq::<i64>::empty());
            },
            Option::Some(n) => {
                lemma_sorted_node_in_order(n);
            },
        }
    } else {
        let stepped = Option::Some(m_push(root, vs[0], d));
        lemma_push_sorted_when_order_kept(root, vs[0], d);
        lemma_m_push_wf(root, vs[0], d);
        lemma_pushes_keep_sorted(stepped, vs.subrange(1, vs.len() as int), d);
    }
}

/// Round trip: inserting a value into the empty tree and at once removing
/// that same value leaves the tree empty again.
pub proof fn lemma_push_pop_round_trip(v: i64, d: int)
    requires
        2 <= d,
    ensures
        m_push(Option::None, v, d) == leaf_view(v),
        m_pop(Option::Some(m_push(Option::None, v, d)), v) == Option::<NodeView>::None,
{
    lemma_pop_only_key(v);
}

/// Removing the only key of a single-key leaf empties the tree.
pub proof fn lemma_pop_only_key(v: i64)
    ensures
        m_pop(Option::Some(leaf_view(v)), v) == Option::<NodeView>::None,
{
    let leaf = leaf_view(v);
    assert(m_first_eq(leaf.keys, v) == 0);
    let n1 = m_pop_value(leaf, 0);
    assert(leaf.keys.remove(0) =~= Seq::<i64>::empty());
    assert(leaf.children.remove(1) =~= seq![Option::<NodeView>::None]);
    assert(seq![Option::<NodeView>::None].remove(0) =~= Seq::<Option<NodeView>>::empty());
    assert(n1.keys.len() == 0);
    assert(m_pop_in(leaf, v) == n1);
}

} // verus!
