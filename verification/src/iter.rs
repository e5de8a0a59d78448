use vstd::prelude::*;

use crate::chain::arena_tight;
use crate::chain::chain_datas;
use crate::chain::chain_wf;
use crate::chain::lemma_chain_live_count;
use crate::chain::lemma_live_count_clear;
use crate::chain::lemma_live_count_zero;
use crate::chain::live_count;
use crate::chain::ord_has;
use crate::chain::teardown_chain;
use crate::node::Node;

verus! {

/// A consuming iterator over a list: it owns the arena the list built and a
/// cursor at the first unread node. Each step hands one value out by value
/// and releases the node that held it in the same step; the unread suffix
/// of the chain stays owned, so abandoning the iterator early is safe.
#[verifier::ext_equal]
pub struct IntoIter<T> {
    nodes: Vec<Option<Node<T>>>,
    cursor: Option<usize>,
    order: Ghost<Seq<usize>>,
}

impl<T> IntoIter<T> {
    /// The unread slots form a well-formed chain from the cursor, and every
    /// live slot of the arena still belongs to that chain.
    pub closed spec fn wf(&self) -> bool {
        &&& chain_wf(self.nodes@, self.cursor, self.order@)
        &&& arena_tight(self.nodes@, self.order@)
    }

    /// The values not yet handed out, in the order they will come.
    pub closed spec fn view(&self) -> Seq<T> {
        chain_datas(self.nodes@, self.order@)
    }

    /// How many nodes the iterator still owns.
    pub closed spec fn live_nodes(&self) -> nat {
        live_count(self.nodes@)
    }

    /// Take over a list's arena and entry link; the chain is walked from
    /// there, so the list's tail record is not needed.
    pub(crate) fn from_parts(
        nodes: Vec<Option<Node<T>>>,
        cursor: Option<usize>,
        Ghost(ord): Ghost<Seq<usize>>,
    ) -> (it: IntoIter<T>)
        requires
            chain_wf(nodes@, cursor, ord),
            arena_tight(nodes@, ord),
        ensures
            it.wf(),
            it@ == chain_datas(nodes@, ord),
            it.live_nodes() == live_count(nodes@),
    {
        IntoIter { nodes, cursor, order: Ghost(ord) }
    }

    /// Yield the first unread value, or signal the end of the sequence.
    /// The node that held the value is released in the same step: the
    /// cursor moves to its successor and its slot is cleared. A slot found
    /// already cleared would mean the node had another holder; proof shows
    /// that cannot happen, so no step ever fails.
    pub fn next(&mut self) -> (r: Option<T>)
        requires
            old(self).wf(),
        ensures
            final(self).wf(),
            old(self)@.len() == 0 ==> r is None && *final(self) == *old(self),
            old(self)@.len() > 0 ==> r == Some(old(self)@[0]) && final(self)@ == old(
                self,
            )@.drop_first() && final(self).live_nodes() == old(self).live_nodes() - 1,
    {
        match self.cursor {
            None => None,
            Some(idx) => {
                proof {
                    let oldord = old(self).order@;
                    assert(oldord.len() > 0);
                    assert(self.nodes@[oldord[0] as int] is Some && oldord[0] < self.nodes@.len());
                    assert(idx == oldord[0]);
                }
                let ghost prev = self.nodes@;
                let slot = self.nodes[idx].take();
                proof {
                    assert(self.nodes@ == prev.update(idx as int, Option::<Node<T>>::None));
                }
                match slot {
                    Some(node) => {
                        self.cursor = node.next;
                        proof {
                            let oldord = old(self).order@;
                            self.order@ = oldord.drop_first();
                            let rem = self.order@;
                            let n = self.nodes@;
                            assert forall|k: int|
                                0 <= k < rem.len() implies rem[k] < n.len()
                                    && #[trigger] n[rem[k] as int] is Some by {
                                assert(rem[k] == oldord[k + 1]);
                                assert(oldord[k + 1] != oldord[0]);
                                assert(prev[oldord[k + 1] as int] is Some);
                            }
                            assert forall|k: int|
                                0 <= k < rem.len() implies (#[trigger] n[rem[k] as int])->0.next
                                    == (if k + 1 < rem.len() {
                                    Some(rem[k + 1])
                                } else {
                                    None::<usize>
                                }) by {
                                assert(rem[k] == oldord[k + 1]);
                                assert(oldord[k + 1] != oldord[0]);
                                assert(n[rem[k] as int] == prev[oldord[k + 1] as int]);
                            }
                            assert forall|j: int|
                                0 <= j < n.len() && #[trigger] n[j] is Some implies ord_has(
                                rem,
                                j,
                            ) by {
                                assert(prev[j] is Some);
                                let k = choose|k: int|
                                    0 <= k < oldord.len() && oldord[k] as int == j;
                                assert(k != 0);
                                assert(rem[k - 1] == oldord[k]);
                            }
                            assert forall|k: int| 0 <= k < rem.len() implies #[trigger] self@[k]
                                == old(self)@.drop_first()[k] by {
                                assert(rem[k] == oldord[k + 1]);
                                assert(oldord[k + 1] != oldord[0]);
                                assert(n[rem[k] as int] == prev[oldord[k + 1] as int]);
                            }
                            assert(self@ =~= old(self)@.drop_first());
                            assert(old(self)@[0] == (prev[oldord[0] as int]->0).data);
                            lemma_live_count_clear(prev, idx as int);
                        }
                        Some(node.data)
                    },
                    None => {
                        // The cursor is the node's only holder, so taking
                        // the node out cannot find its slot already empty.
                        proof {
                            assert(false);
                        }
                        None
                    },
                }
            },
        }
    }

    /// Release every node the iterator still owns, without recursing, and
    /// leave it empty. Abandoning an iterator mid-run is modelled by this
    /// walk over the unread suffix; on a fully consumed iterator it does
    /// nothing at all.
    pub fn teardown(&mut self)
        requires
            old(self).wf(),
        ensures
            final(self).wf(),
            final(self)@ == Seq::<T>::empty(),
            final(self).live_nodes() == 0,
            old(self)@.len() == 0 ==> *final(self) == *old(self),
    {
        let start = self.cursor;
        let ghost ord = self.order@;
        self.cursor = None;
        proof {
            self.order@ = Seq::empty();
        }
        teardown_chain(&mut self.nodes, start, Ghost(ord));
        proof {
            assert forall|j: int|
                0 <= j < self.nodes@.len() implies !(#[trigger] self.nodes@[j] is Some) by {
                if ord_has(ord, j) {
                    let k = choose|k: int| 0 <= k < ord.len() && ord[k] as int == j;
                    assert(self.nodes@[ord[k] as int] is None);
                } else {
                    assert(self.nodes@[j] == old(self).nodes@[j]);
                }
            }
            lemma_live_count_zero(self.nodes@);
            assert(self@ =~= Seq::<T>::empty());
            if old(self)@.len() == 0 {
                assert(ord.len() == 0);
                assert(self.nodes == old(self).nodes);
                assert(self.order@ =~= old(self).order@);
                assert(*self =~= *old(self));
            }
        }
    }
}

/// An iterator never leaks and never shares: at every well-formed state it
/// owns exactly one live node per value it has not yet handed out. A fully
/// consumed iterator therefore owns no node at all, and discarding it has
/// nothing left to release.
pub proof fn lemma_iter_owns_one_node_per_value<T>(it: &IntoIter<T>)
    requires
        it.wf(),
    ensures
        it.live_nodes() == it@.len(),
{
    lemma_chain_live_count(it.nodes@, it.cursor, it.order@);
}

/// The values a full run of `next` hands out of a view `s` — each step as
/// `next`'s contract describes it: the front value, then the rest.
pub open spec fn iterated<T>(s: Seq<T>) -> Seq<T>
    decreases s.len(),
{
    if s.len() == 0 {
        Seq::empty()
    } else {
        seq![s[0]] + iterated(s.drop_first())
    }
}

/// Consuming iteration yields exactly the iterator's view, in order: the
/// run is finite, one value per node, and ends after the last of them.
pub proof fn lemma_iterate_yields_view<T>(s: Seq<T>)
    ensures
        iterated(s) == s,
    decreases s.len(),
{
    if s.len() > 0 {
        lemma_iterate_yields_view(s.drop_first());
        assert(iterated(s) =~= s);
    } else {
        assert(iterated(s) =~= s);
    }
}

} // verus!
