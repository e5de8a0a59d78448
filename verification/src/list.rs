use vstd::prelude::*;

use crate::chain::arena_tight;
use crate::chain::chain_datas;
use crate::chain::chain_wf;
use crate::chain::lemma_chain_live_count;
use crate::chain::lemma_live_count_push;
use crate::chain::lemma_live_count_update;
use crate::chain::lemma_live_count_zero;
use crate::chain::live_count;
use crate::chain::ord_has;
use crate::chain::teardown_chain;
use crate::iter::IntoIter;
use crate::node::Node;

verus! {

/// A singly linked list with O(1) append and prepend. The nodes live in an
/// arena (a growable slab of slots addressed by index); the list keeps the
/// slot of the first node and, so that append never walks the chain, the
/// slot of the last one. The order of the chain itself is ghost state: the
/// sequence of slots from head to tail.
#[verifier::ext_equal]
pub struct LastLinkedList<T> {
    nodes: Vec<Option<Node<T>>>,
    head: Option<usize>,
    tail: Option<usize>,
    order: Ghost<Seq<usize>>,
}

impl<T> LastLinkedList<T> {
    /// The slots of the chain form a well-formed run through the arena, the
    /// head is its entry, and the tail marks its last slot (absent only when
    /// the list is empty).
    pub closed spec fn wf(&self) -> bool {
        &&& chain_wf(self.nodes@, self.head, self.order@)
        &&& arena_tight(self.nodes@, self.order@)
        &&& (if self.order@.len() == 0 {
            self.tail is None
        } else {
            self.tail == Some(self.order@.last())
        })
    }

    /// The values the list holds, head first.
    pub closed spec fn view(&self) -> Seq<T> {
        chain_datas(self.nodes@, self.order@)
    }

    /// How many nodes the list still owns: each one was created by exactly
    /// one append or prepend and not yet released.
    pub closed spec fn live_nodes(&self) -> nat {
        live_count(self.nodes@)
    }

    /// An empty list.
    pub fn new() -> (l: LastLinkedList<T>)
        ensures
            l.wf(),
            l@ == Seq::<T>::empty(),
            l.live_nodes() == 0,
    {
        LastLinkedList { nodes: Vec::new(), head: None, tail: None, order: Ghost(Seq::empty()) }
    }

    /// Add `data` at the back in O(1): a fresh node becomes the successor of
    /// the recorded tail (no walk from the head), or the head itself when the
    /// list was empty, and is recorded as the new tail.
    pub fn append(&mut self, data: T)
        requires
            old(self).wf(),
        ensures
            final(self).wf(),
            final(self)@ == old(self)@.push(data),
            final(self).live_nodes() == old(self).live_nodes() + 1,
    {
        let idx = self.nodes.len();
        self.nodes.push(Some(Node::new(None, data)));
        let ghost mid = self.nodes@;
        match self.tail {
            Some(t) => {
                proof {
                    let ord = old(self).order@;
                    assert(ord.len() > 0);
                    assert(old(self).nodes@[ord[ord.len() - 1] as int] is Some && ord[ord.len()
                        - 1] < old(self).nodes@.len());
                    assert(t == ord[ord.len() - 1]);
                    assert(self.nodes@[t as int] == old(self).nodes@[t as int]);
                }
                match &mut self.nodes[t] {
                    Some(prev_tail) => {
                        prev_tail.next = Some(idx);
                    },
                    None => {
                        // The recorded tail always resolves to a live node:
                        // well-formedness rules a cleared slot out.
                        proof {
                            assert(false);
                        }
                    },
                }
            },
            None => {
                self.head = Some(idx);
            },
        }
        self.tail = Some(idx);
        proof {
            let oldnodes = old(self).nodes@;
            let oldord = old(self).order@;
            let neword = oldord.push(idx);
            self.order@ = neword;
            let n = self.nodes@;
            assert forall|k: int|
                0 <= k < oldord.len() implies #[trigger] oldord[k] < oldnodes.len()
                    && oldnodes[oldord[k] as int] is Some by {
                assert(oldnodes[oldord[k] as int] is Some);
            }
            assert forall|k: int|
                0 <= k < neword.len() implies neword[k] < n.len() && #[trigger] n[neword[k] as int] is Some by {
                if k < oldord.len() {
                    assert(oldnodes[oldord[k] as int] is Some);
                }
            }
            assert forall|k: int|
                0 <= k < neword.len() implies (#[trigger] n[neword[k] as int])->0.next == (if k + 1
                    < neword.len() {
                    Some(neword[k + 1])
                } else {
                    None::<usize>
                }) by {
                if k < oldord.len() - 1 {
                    assert(oldnodes[oldord[k] as int] is Some);
                    assert(oldord[k] != oldord[oldord.len() - 1]);
                    assert(n[neword[k] as int] == oldnodes[oldord[k] as int]);
                }
            }
            assert forall|j: int|
                0 <= j < n.len() && #[trigger] n[j] is Some implies ord_has(neword, j) by {
                if j == idx as int {
                    assert(neword[neword.len() - 1] == idx);
                } else if oldord.len() > 0 && j == oldord[oldord.len() - 1] as int {
                    assert(neword[oldord.len() - 1] == oldord[oldord.len() - 1]);
                } else {
                    assert(n[j] == oldnodes[j]);
                    assert(oldnodes[j] is Some);
                    let k = choose|k: int| 0 <= k < oldord.len() && oldord[k] as int == j;
                    assert(neword[k] == oldord[k]);
                }
            }
            assert(self.wf());
            assert forall|k: int| 0 <= k < neword.len() implies #[trigger] self@[k] == old(
                self,
            )@.push(data)[k] by {
                if k < oldord.len() {
                    assert(oldnodes[oldord[k] as int] is Some);
                }
            }
            assert(self@ =~= old(self)@.push(data));
            lemma_live_count_push(oldnodes, mid[mid.len() - 1]);
            if oldord.len() > 0 {
                let t = oldord[oldord.len() - 1];
                assert(oldnodes[t as int] is Some);
                lemma_live_count_update(mid, t as int, n[t as int]);
            }
        }
    }

    /// Add `data` at the back; a synonym for `append`.
    pub fn push_back(&mut self, data: T)
        requires
            old(self).wf(),
        ensures
            final(self).wf(),
            final(self)@ == old(self)@.push(data),
            final(self).live_nodes() == old(self).live_nodes() + 1,
    {
        self.append(data);
    }

    /// Add `data` at the front in O(1): a fresh node whose successor is the
    /// old head becomes the new head. No existing node changes; an empty
    /// list also records the fresh node as its tail.
    pub fn prepend(&mut self, data: T)
        requires
            old(self).wf(),
        ensures
            final(self).wf(),
            final(self)@ == seq![data] + old(self)@,
            final(self).live_nodes() == old(self).live_nodes() + 1,
    {
        let idx = self.nodes.len();
        self.nodes.push(Some(Node::new(self.head, data)));
        if self.head.is_none() {
            self.tail = Some(idx);
        }
        self.head = Some(idx);
        proof {
            let oldnodes = old(self).nodes@;
            let oldord = old(self).order@;
            let neword = seq![idx] + oldord;
            self.order@ = neword;
            let n = self.nodes@;
            assert forall|k: int|
                0 <= k < oldord.len() implies #[trigger] oldord[k] < oldnodes.len()
                    && oldnodes[oldord[k] as int] is Some by {
                assert(oldnodes[oldord[k] as int] is Some);
            }
            assert forall|k: int|
                0 <= k < neword.len() implies neword[k] < n.len() && #[trigger] n[neword[k] as int] is Some by {
                if k >= 1 {
                    assert(neword[k] == oldord[k - 1]);
                    assert(oldnodes[oldord[k - 1] as int] is Some);
                }
            }
            assert forall|k: int|
                0 <= k < neword.len() implies (#[trigger] n[neword[k] as int])->0.next == (if k + 1
                    < neword.len() {
                    Some(neword[k + 1])
                } else {
                    None::<usize>
                }) by {
                if k >= 1 {
                    assert(neword[k] == oldord[k - 1]);
                    assert(oldnodes[oldord[k - 1] as int] is Some);
                    assert(n[neword[k] as int] == oldnodes[oldord[k - 1] as int]);
                }
            }
            assert forall|j: int|
                0 <= j < n.len() && #[trigger] n[j] is Some implies ord_has(neword, j) by {
                if j == idx as int {
                    assert(neword[0] == idx);
                } else {
                    assert(n[j] == oldnodes[j]);
                    assert(oldnodes[j] is Some);
                    let k = choose|k: int| 0 <= k < oldord.len() && oldord[k] as int == j;
                    assert(neword[k + 1] == oldord[k]);
                }
            }
            assert(self.wf());
            assert forall|k: int| 0 <= k < neword.len() implies #[trigger] self@[k] == (seq![data]
                + old(self)@)[k] by {
                if k >= 1 {
                    assert(neword[k] == oldord[k - 1]);
                    assert(oldnodes[oldord[k - 1] as int] is Some);
                }
            }
            assert(self@ =~= seq![data] + old(self)@);
            lemma_live_count_push(oldnodes, n[n.len() - 1]);
        }
    }

    /// Turn the list into a consuming iterator over its values, head first.
    /// The iterator takes over the head chain; the tail record is discarded,
    /// since iteration never needs it.
    pub fn into_iter(self) -> (it: IntoIter<T>)
        requires
            self.wf(),
        ensures
            it.wf(),
            it@ == self@,
            it.live_nodes() == self.live_nodes(),
    {
        let LastLinkedList { nodes, head, tail: _, order } = self;
        IntoIter::from_parts(nodes, head, Ghost(order@))
    }

    /// Release every node the list still owns, without recursing, and leave
    /// the list empty and reusable. Discarding a list mid-use is modelled by
    /// this walk over whatever remains; on an already empty list it does
    /// nothing at all.
    pub fn teardown(&mut self)
        requires
            old(self).wf(),
        ensures
            final(self).wf(),
            final(self)@ == Seq::<T>::empty(),
            final(self).live_nodes() == 0,
            old(self)@.len() == 0 ==> *final(self) == *old(self),
    {
        let start = self.head;
        let ghost ord = self.order@;
        self.head = None;
        self.tail = None;
        proof {
            self.order@ = Seq::empty();
        }
        teardown_chain(&mut self.nodes, start, Ghost(ord));
        proof {
            assert forall|j: int|
                0 <= j < self.nodes@.len() implies !(#[trigger] self.nodes@[j] is Some) by {
                if ord_has(ord, j) {
                    let k = choose|k: int| 0 <= k < ord.len() && ord[k] as int == j;
                    assert(self.nodes@[ord[k] as int] is None);
                } else {
                    assert(self.nodes@[j] == old(self).nodes@[j]);
                }
            }
            lemma_live_count_zero(self.nodes@);
            assert(self@ =~= Seq::<T>::empty());
            if old(self)@.len() == 0 {
                assert(ord.len() == 0);
                assert(self.nodes == old(self).nodes);
                assert(self.order@ =~= old(self).order@);
                assert(*self =~= *old(self));
            }
        }
    }
}

/// A list never leaks and never shares: at every well-formed state it owns
/// exactly one live node per value it holds, so releasing its values (by
/// consuming iteration or by teardown) releases all of its nodes.
pub proof fn lemma_list_owns_one_node_per_value<T>(l: &LastLinkedList<T>)
    requires
        l.wf(),
    ensures
        l.live_nodes() == l@.len(),
{
    lemma_chain_live_count(l.nodes@, l.head, l.order@);
}

/// The view of a list built by appending the values of `vals`, one after
/// another, to an empty list — each step as `append`'s contract describes
/// it.
pub open spec fn appended<T>(vals: Seq<T>) -> Seq<T>
    decreases vals.len(),
{
    if vals.len() == 0 {
        Seq::empty()
    } else {
        appended(vals.drop_last()).push(vals.last())
    }
}

/// The view of a list built by prepending the values of `vals`, one after
/// another, to an empty list — each step as `prepend`'s contract describes
/// it.
pub open spec fn prepended<T>(vals: Seq<T>) -> Seq<T>
    decreases vals.len(),
{
    if vals.len() == 0 {
        Seq::empty()
    } else {
        seq![vals.last()] + prepended(vals.drop_last())
    }
}

/// Appending values to an empty list leaves exactly those values, first
/// appended first; consumed front to back, they come out in append order.
pub proof fn lemma_appends_in_order<T>(vals: Seq<T>)
    ensures
        appended(vals) == vals,
    decreases vals.len(),
{
    if vals.len() > 0 {
        lemma_appends_in_order(vals.drop_last());
        assert(appended(vals) =~= vals);
    } else {
        assert(appended(vals) =~= vals);
    }
}

/// Prepending values to an empty list leaves them in reverse: the last one
/// prepended comes out first when the list is consumed front to back.
pub proof fn lemma_prepends_reverse<T>(vals: Seq<T>)
    ensures
        prepended(vals) == vals.reverse(),
    decreases vals.len(),
{
    if vals.len() > 0 {
        lemma_prepends_reverse(vals.drop_last());
        assert(prepended(vals) =~= vals.reverse());
    } else {
        assert(prepended(vals) =~= vals.reverse());
    }
}

} // verus!
