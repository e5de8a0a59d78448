use vstd::prelude::*;

use crate::node::Node;

verus! {

/// No arena slot appears twice in the chain order.
pub open spec fn distinct_indices(ord: Seq<usize>) -> bool {
    forall|i: int, j: int| 0 <= i < j < ord.len() ==> ord[i] != ord[j]
}

/// Slot `j` appears somewhere in the chain order.
pub open spec fn ord_has(ord: Seq<usize>, j: int) -> bool {
    exists|k: int| 0 <= k < ord.len() && ord[k] as int == j
}

/// A well-formed chain through the arena `nodes`: `ord` lists the slots of
/// the live nodes from first to last, `start` is the entry link, each node's
/// successor link points at the next slot in `ord`, and the last node has no
/// successor.
pub open spec fn chain_wf<T>(nodes: Seq<Option<Node<T>>>, start: Option<usize>, ord: Seq<usize>) -> bool {
    &&& distinct_indices(ord)
    &&& (if ord.len() == 0 {
        start is None
    } else {
        start == Some(ord[0])
    })
    &&& (forall|k: int|
        0 <= k < ord.len() ==> ord[k] < nodes.len() && #[trigger] nodes[ord[k] as int] is Some)
    &&& (forall|k: int|
        0 <= k < ord.len() ==> (#[trigger] nodes[ord[k] as int])->0.next == (if k + 1
            < ord.len() {
            Some(ord[k + 1])
        } else {
            None::<usize>
        }))
}

/// Every live slot of the arena belongs to the chain: a node is released in
/// the very step that takes it out of the chain, so none lingers outside it.
pub open spec fn arena_tight<T>(nodes: Seq<Option<Node<T>>>, ord: Seq<usize>) -> bool {
    forall|j: int| 0 <= j < nodes.len() && #[trigger] nodes[j] is Some ==> ord_has(ord, j)
}

/// The values a chain holds, from first to last.
pub open spec fn chain_datas<T>(nodes: Seq<Option<Node<T>>>, ord: Seq<usize>) -> Seq<T> {
    ord.map(|k: int, i: usize| (nodes[i as int]->0).data)
}

/// How many arena slots still hold a node.
pub open spec fn live_count<T>(nodes: Seq<Option<Node<T>>>) -> nat
    decreases nodes.len(),
{
    if nodes.len() == 0 {
        0
    } else {
        live_count(nodes.drop_last()) + (if nodes.last() is Some {
            1nat
        } else {
            0nat
        })
    }
}

/// An arena whose every slot has been cleared holds no live node.
pub proof fn lemma_live_count_zero<T>(nodes: Seq<Option<Node<T>>>)
    requires
        forall|j: int| 0 <= j < nodes.len() ==> !(#[trigger] nodes[j] is Some),
    ensures
        live_count(nodes) == 0,
    decreases nodes.len(),
{
    if nodes.len() > 0 {
        lemma_live_count_zero(nodes.drop_last());
    }
}

/// Growing the arena by one slot raises the live count exactly when the new
/// slot holds a node.
pub proof fn lemma_live_count_push<T>(nodes: Seq<Option<Node<T>>>, v: Option<Node<T>>)
    ensures
        live_count(nodes.push(v)) == live_count(nodes) + (if v is Some {
            1nat
        } else {
            0nat
        }),
{
    assert(nodes.push(v).drop_last() =~= nodes);
    assert(nodes.push(v).last() == v);
}

/// Rewriting a slot without changing whether it holds a node leaves the
/// live count alone.
pub proof fn lemma_live_count_update<T>(nodes: Seq<Option<Node<T>>>, i: int, v: Option<Node<T>>)
    requires
        0 <= i < nodes.len(),
        (nodes[i] is Some) == (v is Some),
    ensures
        live_count(nodes.update(i, v)) == live_count(nodes),
    decreases nodes.len(),
{
    let u = nodes.update(i, v);
    if i == nodes.len() - 1 {
        assert(u.drop_last() =~= nodes.drop_last());
        assert(u.last() == v);
    } else {
        assert(u.drop_last() =~= nodes.drop_last().update(i, v));
        lemma_live_count_update(nodes.drop_last(), i, v);
        assert(u.last() == nodes.last());
    }
}

/// Clearing a slot that holds a node lowers the live count by one.
pub proof fn lemma_live_count_clear<T>(nodes: Seq<Option<Node<T>>>, i: int)
    requires
        0 <= i < nodes.len(),
        nodes[i] is Some,
    ensures
        live_count(nodes.update(i, Option::<Node<T>>::None)) == live_count(nodes) - 1,
    decreases nodes.len(),
{
    let u = nodes.update(i, Option::<Node<T>>::None);
    if i == nodes.len() - 1 {
        assert(u.drop_last() =~= nodes.drop_last());
        assert(u.last() is None);
    } else {
        assert(u.drop_last() =~= nodes.drop_last().update(i, Option::<Node<T>>::None));
        lemma_live_count_clear(nodes.drop_last(), i);
        assert(u.last() == nodes.last());
    }
}

/// A well-formed, tight chain accounts for every live slot of the arena:
/// the arena holds exactly one live node per position of the chain.
pub proof fn lemma_chain_live_count<T>(
    nodes: Seq<Option<Node<T>>>,
    start: Option<usize>,
    ord: Seq<usize>,
)
    requires
        chain_wf(nodes, start, ord),
        arena_tight(nodes, ord),
    ensures
        live_count(nodes) == ord.len(),
    decreases ord.len(),
{
    if ord.len() == 0 {
        assert forall|j: int| 0 <= j < nodes.len() implies !(#[trigger] nodes[j] is Some) by {
            if nodes[j] is Some {
                assert(ord_has(ord, j));
            }
        }
        lemma_live_count_zero(nodes);
    } else {
        let idx = ord[0];
        assert(nodes[idx as int] is Some && idx < nodes.len());
        let n2 = nodes.update(idx as int, Option::<Node<T>>::None);
        let rem = ord.drop_first();
        let start2 = if rem.len() > 0 {
            Option::Some(rem[0])
        } else {
            Option::<usize>::None
        };
        assert forall|i: int, j: int| 0 <= i < j < rem.len() implies rem[i] != rem[j] by {
            assert(rem[i] == ord[i + 1]);
            assert(rem[j] == ord[j + 1]);
        }
        assert forall|k: int|
            0 <= k < rem.len() implies rem[k] < n2.len() && #[trigger] n2[rem[k] as int] is Some by {
            assert(rem[k] == ord[k + 1]);
            assert(ord[k + 1] != ord[0]);
            assert(nodes[ord[k + 1] as int] is Some);
        }
        assert forall|k: int|
            0 <= k < rem.len() implies (#[trigger] n2[rem[k] as int])->0.next == (if k + 1
                < rem.len() {
                Some(rem[k + 1])
            } else {
                None::<usize>
            }) by {
            assert(rem[k] == ord[k + 1]);
            assert(ord[k + 1] != ord[0]);
            assert(n2[rem[k] as int] == nodes[ord[k + 1] as int]);
        }
        assert forall|j: int| 0 <= j < n2.len() && #[trigger] n2[j] is Some implies ord_has(
            rem,
            j,
        ) by {
            assert(nodes[j] is Some);
            let k = choose|k: int| 0 <= k < ord.len() && ord[k] as int == j;
            assert(k != 0);
            assert(rem[k - 1] == ord[k]);
        }
        lemma_live_count_clear(nodes, idx as int);
        lemma_chain_live_count(n2, start2, rem);
    }
}

/// Release a whole chain without recursing: an explicit loop detaches one
/// node at a time from the front, remembers its successor, clears its slot
/// and moves on. A slot found already cleared would mean the node had
/// another holder; the walk then stops at once and leaves the rest alone
/// (well-formedness proves that this defensive stop never fires).
pub(crate) fn teardown_chain<T>(
    nodes: &mut Vec<Option<Node<T>>>,
    start: Option<usize>,
    Ghost(ord): Ghost<Seq<usize>>,
)
    requires
        chain_wf(old(nodes)@, start, ord),
    ensures
        final(nodes)@.len() == old(nodes)@.len(),
        forall|k: int| 0 <= k < ord.len() ==> final(nodes)@[ord[k] as int] is None,
        forall|j: int|
            0 <= j < old(nodes)@.len() && !ord_has(ord, j) ==> final(nodes)@[j] == old(nodes)@[j],
        ord.len() == 0 ==> *final(nodes) == *old(nodes),
{
    let mut cur = start;
    let ghost mut rem = ord;
    proof {
        assert forall|k: int| 0 <= k < ord.len() implies #[trigger] ord[k] < nodes@.len() by {
            assert(nodes@[ord[k] as int] is Some);
        }
    }
    while cur.is_some()
        invariant
            chain_wf(nodes@, cur, rem),
            nodes@.len() == old(nodes)@.len(),
            rem.len() <= ord.len(),
            rem == ord.skip(ord.len() - rem.len()),
            distinct_indices(ord),
            forall|k: int| 0 <= k < ord.len() ==> #[trigger] ord[k] < nodes@.len(),
            forall|k: int|
                0 <= k < ord.len() - rem.len() ==> #[trigger] nodes@[ord[k] as int] is None,
            forall|j: int|
                0 <= j < old(nodes)@.len() && !ord_has(ord, j) ==> nodes@[j] == old(nodes)@[j],
            rem.len() == ord.len() ==> *nodes == *old(nodes),
        decreases rem.len(),
    {
        proof {
            assert(rem.len() > 0);
            assert(nodes@[rem[0] as int] is Some && rem[0] < nodes@.len());
        }
        let idx = cur.unwrap();
        let ghost prev = nodes@;
        let ghost prefix = ord.len() - rem.len();
        let slot = nodes[idx].take();
        proof {
            assert(nodes@ == prev.update(idx as int, Option::<Node<T>>::None));
        }
        match slot {
            Some(node) => {
                cur = node.next;
            },
            None => {
                // A cleared slot in the middle of an owned chain cannot
                // happen: the stop below is the defensive abort.
                proof {
                    assert(false);
                }
                cur = None;
            },
        }
        proof {
            let oldrem = rem;
            rem = rem.drop_first();
            assert(idx == oldrem[0]);
            assert(ord[prefix] == idx);
            assert forall|k: int|
                0 <= k < rem.len() implies rem[k] < nodes@.len() && #[trigger] nodes@[rem[k] as int] is Some by {
                assert(rem[k] == oldrem[k + 1]);
                assert(oldrem[k + 1] != oldrem[0]);
                assert(prev[oldrem[k + 1] as int] is Some);
            }
            assert forall|k: int|
                0 <= k < rem.len() implies (#[trigger] nodes@[rem[k] as int])->0.next == (if k + 1
                    < rem.len() {
                    Some(rem[k + 1])
                } else {
                    None::<usize>
                }) by {
                assert(rem[k] == oldrem[k + 1]);
                assert(oldrem[k + 1] != oldrem[0]);
                assert(nodes@[rem[k] as int] == prev[oldrem[k + 1] as int]);
            }
            assert(rem =~= ord.skip(ord.len() - rem.len()));
            assert forall|k: int|
                0 <= k < ord.len() - rem.len() implies #[trigger] nodes@[ord[k] as int] is None by {
                if k < prefix {
                    assert(ord[k] != ord[prefix]);
                    assert(prev[ord[k] as int] is None);
                } else {
                    assert(k == prefix);
                    assert(ord[k] == idx);
                }
            }
            assert forall|j: int|
                0 <= j < old(nodes)@.len() && !ord_has(ord, j) implies nodes@[j] == old(
                nodes,
            )@[j] by {
                assert(ord_has(ord, idx as int)) by {
                    assert(ord[prefix] == idx);
                }
                assert(nodes@[j] == prev[j]);
            }
        }
    }
    proof {
        assert(rem.len() == 0);
    }
}

} // verus!
