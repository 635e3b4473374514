//! One price level: a FIFO queue of resting orders kept as an intrusive
//! doubly-linked list whose nodes live in a shared arena.
use crate::arena::{arena_view, slab_get, slab_get_mut, slab_insert, slab_try_remove};
use crate::types::{Order, OrderId, Price, Qty};
use slab::Slab;
use vstd::prelude::*;

verus! {

/// The arena key under which a list node lives.
#[derive(Debug, Clone, Copy, PartialEq, Eq, Hash, Structural)]
pub struct NodeId(pub usize);

/// A resting order with the links to its neighbours in its price level.
#[derive(Debug, Clone)]
pub struct OrderNode {
    pub order: Order,
    prev: Option<NodeId>,
    next: Option<NodeId>,
}

impl OrderNode {
    /// The order held by the node.
    pub closed spec fn spec_order(&self) -> Order {
        self.order
    }

    pub closed spec fn spec_prev(&self) -> Option<NodeId> {
        self.prev
    }

    pub closed spec fn spec_next(&self) -> Option<NodeId> {
        self.next
    }

    /// The order held by the node.
    pub fn order(&self) -> (r: &Order)
        ensures
            *r == self.spec_order(),
    {
        &self.order
    }

    /// The node before this one in its level (towards the front of the queue).
    pub fn prev(&self) -> (r: Option<NodeId>)
        ensures
            r == self.spec_prev(),
    {
        self.prev
    }

    /// The node after this one in its level (towards the back of the queue).
    pub fn next(&self) -> (r: Option<NodeId>)
        ensures
            r == self.spec_next(),
    {
        self.next
    }
}

/// The sum of the remaining quantities of a sequence of orders.
pub open spec fn qty_sum(s: Seq<Order>) -> nat
    decreases s.len(),
{
    if s.len() == 0 {
        0
    } else {
        qty_sum(s.drop_last()) + s.last().remaining_qty.0 as nat
    }
}

/// The sum over a concatenation is the sum of the sums.
pub proof fn lemma_qty_sum_concat(a: Seq<Order>, b: Seq<Order>)
    ensures
        qty_sum(a + b) == qty_sum(a) + qty_sum(b),
    decreases b.len(),
{
    if b.len() == 0 {
        assert(a + b =~= a);
    } else {
        lemma_qty_sum_concat(a, b.drop_last());
        assert((a + b).drop_last() =~= a + b.drop_last());
    }
}

/// Removing the order at `i` takes exactly its remaining quantity off the sum.
pub proof fn lemma_qty_sum_remove(s: Seq<Order>, i: int)
    requires
        0 <= i < s.len(),
    ensures
        qty_sum(s.remove(i)) + s[i].remaining_qty.0 == qty_sum(s),
{
    let a = s.subrange(0, i);
    let b = s.subrange(i + 1, s.len() as int);
    lemma_qty_sum_concat(a, b);
    lemma_qty_sum_concat(a, seq![s[i]]);
    lemma_qty_sum_concat(a + seq![s[i]], b);
    assert(s =~= a + seq![s[i]] + b);
    assert(qty_sum(seq![s[i]]) == s[i].remaining_qty.0) by {
        reveal_with_fuel(qty_sum, 2);
        assert(seq![s[i]].drop_last() =~= Seq::<Order>::empty());
    }
}

/// Replacing the order at `i` swaps its remaining quantity in the sum.
pub proof fn lemma_qty_sum_update(s: Seq<Order>, i: int, o: Order)
    requires
        0 <= i < s.len(),
    ensures
        qty_sum(s.update(i, o)) + s[i].remaining_qty.0 == qty_sum(s) + o.remaining_qty.0,
{
    lemma_qty_sum_remove(s, i);
    lemma_qty_sum_remove(s.update(i, o), i);
    assert(s.update(i, o).remove(i) =~= s.remove(i));
}

/// Every remaining quantity is at most the sum.
pub proof fn lemma_qty_sum_bound(s: Seq<Order>, i: int)
    requires
        0 <= i < s.len(),
    ensures
        s[i].remaining_qty.0 <= qty_sum(s),
{
    lemma_qty_sum_remove(s, i);
}

/// The queue after pushing the orders of `s` at the back in turn.
pub open spec fn push_all(q: Seq<Order>, s: Seq<Order>) -> Seq<Order>
    decreases s.len(),
{
    if s.len() == 0 {
        q
    } else {
        push_all(q, s.drop_last()).push(s.last())
    }
}

/// The queue after taking `k` orders off its front.
pub open spec fn pop_n(q: Seq<Order>, k: nat) -> Seq<Order>
    decreases k,
{
    if k == 0 {
        q
    } else {
        pop_n(q, (k - 1) as nat).drop_first()
    }
}

/// A level is first in, first out: pushing the orders of `s` onto an empty
/// level (`push_back` appends at the back) gives the queue `s`, and after
/// `k` calls of `pop_front` (each takes the front) the next one returns
/// `s[k]` and lowers the total by its remaining quantity.
pub proof fn lemma_fifo(s: Seq<Order>, k: nat)
    requires
        k < s.len(),
    ensures
        push_all(Seq::empty(), s) == s,
        pop_n(s, k) == s.skip(k as int),
        pop_n(s, k)[0] == s[k as int],
        qty_sum(pop_n(s, k)) == qty_sum(pop_n(s, k + 1)) + s[k as int].remaining_qty.0,
{
    lemma_push_all(Seq::empty(), s);
    assert(Seq::<Order>::empty() + s =~= s);
    lemma_pop_n(s, k);
    lemma_pop_n(s, k + 1);
    let rest = s.skip(k as int);
    assert(rest =~= seq![s[k as int]] + s.skip(k as int + 1));
    lemma_qty_sum_concat(seq![s[k as int]], s.skip(k as int + 1));
    assert(qty_sum(seq![s[k as int]]) == s[k as int].remaining_qty.0) by {
        assert(seq![s[k as int]].drop_last() =~= Seq::<Order>::empty());
        assert(qty_sum(Seq::<Order>::empty()) == 0);
        assert(seq![s[k as int]].last() == s[k as int]);
    }
}

proof fn lemma_push_all(q: Seq<Order>, s: Seq<Order>)
    ensures
        push_all(q, s) == q + s,
    decreases s.len(),
{
    if s.len() > 0 {
        lemma_push_all(q, s.drop_last());
        assert((q + s.drop_last()).push(s.last()) =~= q + s);
    }
}

proof fn lemma_pop_n(q: Seq<Order>, k: nat)
    requires
        k <= q.len(),
    ensures
        pop_n(q, k) == q.skip(k as int),
    decreases k,
{
    if k > 0 {
        lemma_pop_n(q, (k - 1) as nat);
        assert(q.skip(k - 1).drop_first() =~= q.skip(k as int));
    }
}

/// A price level: the orders resting at one price in arrival order, linked
/// through the arena from `head` (oldest) to `tail` (newest), with the
/// running sum of their remaining quantities.
#[derive(Clone)]
pub struct Level {
    price: Price,
    head: Option<NodeId>,
    tail: Option<NodeId>,
    total_qty: Qty,
    nodes: Ghost<Seq<NodeId>>,
}

spec fn prev_of(ids: Seq<NodeId>, i: int) -> Option<NodeId> {
    if i == 0 {
        None
    } else {
        Some(ids[i - 1])
    }
}

spec fn next_of(ids: Seq<NodeId>, i: int) -> Option<NodeId> {
    if i + 1 == ids.len() {
        None
    } else {
        Some(ids[i + 1])
    }
}

impl Level {
    /// The arena keys of the level's nodes, front of the queue first.
    pub closed spec fn ids(&self) -> Seq<NodeId> {
        self.nodes@
    }

    /// The price this level was created for.
    pub closed spec fn level_price(&self) -> Price {
        self.price
    }

    /// The running total kept in the level.
    pub closed spec fn total(&self) -> u64 {
        self.total_qty.0
    }

    pub closed spec fn spec_head(&self) -> Option<NodeId> {
        self.head
    }

    pub closed spec fn spec_tail(&self) -> Option<NodeId> {
        self.tail
    }

    /// The queue of orders in the level, front (oldest) first.
    pub open spec fn orders(&self, arena: Map<usize, OrderNode>) -> Seq<Order> {
        Seq::new(self.ids().len(), |i: int| arena[self.ids()[i].0].spec_order())
    }

    /// The list structure: distinct nodes, all present in the arena, each
    /// linked to its neighbours, with `head` and `tail` at the two ends.
    pub closed spec fn links_wf(&self, arena: Map<usize, OrderNode>) -> bool {
        let ids = self.nodes@;
        &&& ids.no_duplicates()
        &&& forall|i: int| #![trigger ids[i]] 0 <= i < ids.len() ==> arena.contains_key(ids[i].0)
        &&& forall|i: int|
            #![trigger ids[i]]
            0 <= i < ids.len() ==> arena[ids[i].0].prev == prev_of(ids, i) && arena[ids[i].0].next
                == next_of(ids, i)
        &&& self.head == (if ids.len() == 0 {
            None
        } else {
            Some(ids[0])
        })
        &&& self.tail == (if ids.len() == 0 {
            None
        } else {
            Some(ids.last())
        })
    }

    /// Well-formed against `arena`: the list is intact and the running total
    /// equals the sum of the remaining quantities of the queued orders.
    pub open spec fn wf(&self, arena: Map<usize, OrderNode>) -> bool {
        &&& self.links_wf(arena)
        &&& self.total() == qty_sum(self.orders(arena))
    }

    /// A level stays well-formed, with the same queue, in any arena that
    /// agrees with the old one on the level's own nodes.
    pub proof fn lemma_frame(&self, a: Map<usize, OrderNode>, b: Map<usize, OrderNode>)
        requires
            self.wf(a),
            forall|i: int|
                #![trigger self.ids()[i]]
                0 <= i < self.ids().len() ==> b.contains_key(self.ids()[i].0) && b[self.ids()[i].0]
                    == a[self.ids()[i].0],
        ensures
            self.wf(b),
            self.orders(b) == self.orders(a),
    {
        assert(self.orders(b) =~= self.orders(a));
    }

    /// Every node of a well-formed level is in the arena.
    pub proof fn lemma_ids_in_arena(&self, a: Map<usize, OrderNode>, i: int)
        requires
            self.wf(a),
            0 <= i < self.ids().len(),
        ensures
            a.contains_key(self.ids()[i].0),
    {
    }

    /// The node keys of a well-formed level are distinct.
    pub proof fn lemma_ids_distinct(&self, a: Map<usize, OrderNode>)
        requires
            self.wf(a),
        ensures
            self.ids().no_duplicates(),
    {
    }

    /// A new, empty level for `price`.
    pub fn new(price: Price) -> (l: Level)
        ensures
            l.level_price() == price,
            l.ids().len() == 0,
            l.total() == 0,
            forall|a: Map<usize, OrderNode>| #[trigger] l.wf(a),
    {
        let l = Level { price: price, head: None, tail: None, total_qty: Qty(0), nodes: Ghost(Seq::empty()) };
        assert forall|a: Map<usize, OrderNode>| #[trigger] l.wf(a) by {
            assert(l.orders(a) =~= Seq::<Order>::empty());
        }
        l
    }

    /// Appends `order` at the back of the queue, in a fresh arena node.
    pub fn push_back(&mut self, arena: &mut Slab<OrderNode>, order: Order) -> (id: NodeId)
        requires
            old(self).wf(arena_view(*old(arena))),
            old(self).total() + order.remaining_qty.0 <= u64::MAX,
        ensures
            final(self).wf(arena_view(*final(arena))),
            final(self).level_price() == old(self).level_price(),
            final(self).ids() == old(self).ids().push(id),
            final(self).orders(arena_view(*final(arena))) == old(self).orders(
                arena_view(*old(arena)),
            ).push(order),
            final(self).total() == old(self).total() + order.remaining_qty.0,
            !arena_view(*old(arena)).contains_key(id.0),
            arena_view(*final(arena)).dom() == arena_view(*old(arena)).dom().insert(id.0),
            forall|k: usize|
                #![trigger arena_view(*final(arena))[k]]
                arena_view(*old(arena)).contains_key(k) && !old(self).ids().contains(NodeId(k))
                    ==> arena_view(*final(arena))[k] == arena_view(*old(arena))[k],
    {
        let ghost a0 = arena_view(*arena);
        let ghost ids0 = self.nodes@;
        let ghost q0 = self.orders(a0);
        self.total_qty.0 = self.total_qty.0 + order.remaining_qty.0;
        let node = OrderNode { order: order, prev: self.tail, next: None };
        let key = slab_insert(arena, node);
        let id = NodeId(key);
        let ghost a1 = arena_view(*arena);
        match self.tail {
            Some(old_tail) => {
                assert(ids0[ids0.len() - 1] == old_tail);
                let tail_node = slab_get_mut(arena, old_tail.0);
                tail_node.next = Some(id);
            },
            None => {
                self.head = Some(id);
            },
        }
        self.tail = Some(id);
        proof {
            self.nodes@ = ids0.push(id);
        }
        let ghost a2 = arena_view(*arena);
        let ghost ids = self.nodes@;
        proof {
            assert forall|i: int| 0 <= i < ids0.len() implies ids0[i].0 != key by {
                assert(a0.contains_key(ids0[i].0));
            }
            assert forall|i: int, j: int|
                0 <= i < ids.len() && 0 <= j < ids.len() && i != j implies ids[i] != ids[j] by {
                if i < ids0.len() && j < ids0.len() {
                    assert(ids0[i] != ids0[j]);
                }
            }
            assert forall|i: int| #![trigger ids[i]] 0 <= i < ids.len() implies a2.contains_key(
                ids[i].0,
            ) && a2[ids[i].0].prev == prev_of(ids, i) && a2[ids[i].0].next == next_of(ids, i) by {
                if i < ids0.len() {
                    assert(ids[i] == ids0[i]);
                    assert(a0.contains_key(ids0[i].0));
                    if i + 1 < ids0.len() {
                        assert(ids0[i] != ids0[ids0.len() - 1]);
                    }
                }
            }
            assert(self.orders(a2) =~= q0.push(order)) by {
                assert forall|i: int| 0 <= i < ids0.len() implies #[trigger] a2[ids0[i].0].order
                    == a0[ids0[i].0].order by {
                    assert(a0.contains_key(ids0[i].0));
                    assert(ids[i] == ids0[i]);
                }
            }
            assert(q0.push(order).drop_last() =~= q0);
            assert forall|k: usize|
                #![trigger a2[k]]
                a0.contains_key(k) && !ids0.contains(NodeId(k)) implies a2[k] == a0[k] by {
                if ids0.len() > 0 {
                    if k == ids0[ids0.len() - 1].0 {
                        assert(ids0.contains(NodeId(k)));
                    }
                }
            }
            assert(a2.dom() =~= a0.dom().insert(key));
        }
        id
    }

    /// The order at the front of the queue, if any.
    pub fn front<'a>(&self, arena: &'a Slab<OrderNode>) -> (r: Option<&'a Order>)
        requires
            self.wf(arena_view(*arena)),
        ensures
            match r {
                Some(o) => self.ids().len() > 0 && *o == self.orders(arena_view(*arena))[0],
                None => self.ids().len() == 0,
            },
    {
        match self.head {
            Some(h) => {
                match slab_get(arena, h.0) {
                    Some(node) => Some(&node.order),
                    None => None,
                }
            },
            None => None,
        }
    }

    /// Takes the front order off the queue and frees its arena node.
    pub fn pop_front(&mut self, arena: &mut Slab<OrderNode>) -> (r: Option<Order>)
        requires
            old(self).wf(arena_view(*old(arena))),
        ensures
            final(self).wf(arena_view(*final(arena))),
            final(self).level_price() == old(self).level_price(),
            old(self).ids().len() == 0 ==> {
                &&& r is None
                &&& *final(self) == *old(self)
                &&& arena_view(*final(arena)) == arena_view(*old(arena))
            },
            old(self).ids().len() > 0 ==> {
                &&& r == Some(old(self).orders(arena_view(*old(arena)))[0])
                &&& final(self).ids() == old(self).ids().drop_first()
                &&& final(self).orders(arena_view(*final(arena))) == old(self).orders(
                    arena_view(*old(arena)),
                ).drop_first()
                &&& arena_view(*final(arena)).dom() == arena_view(*old(arena)).dom().remove(
                    old(self).ids()[0].0,
                )
            },
            forall|k: usize|
                #![trigger arena_view(*final(arena))[k]]
                arena_view(*old(arena)).contains_key(k) && !old(self).ids().contains(NodeId(k))
                    ==> arena_view(*final(arena))[k] == arena_view(*old(arena))[k],
    {
        let ghost a0 = arena_view(*arena);
        let ghost ids0 = self.nodes@;
        let ghost q0 = self.orders(a0);
        let head_id = match self.head {
            Some(h) => h,
            None => {
                return None;
            },
        };
        assert(ids0[0] == head_id);
        let node = match slab_try_remove(arena, head_id.0) {
            Some(n) => n,
            None => {
                return None;
            },
        };
        self.head = node.next;
        match self.head {
            Some(new_head_id) => {
                assert(ids0[1] == new_head_id);
                assert(ids0[1] != ids0[0]);
                let new_head = slab_get_mut(arena, new_head_id.0);
                new_head.prev = None;
            },
            None => {
                self.tail = None;
            },
        }
        proof {
            lemma_qty_sum_remove(q0, 0);
        }
        self.total_qty.0 = self.total_qty.0 - node.order.remaining_qty.0;
        proof {
            self.nodes@ = ids0.drop_first();
        }
        let ghost a2 = arena_view(*arena);
        let ghost ids = self.nodes@;
        proof {
            assert(q0.remove(0) =~= q0.drop_first());
            assert forall|i: int| #![trigger ids[i]] 0 <= i < ids.len() implies a2.contains_key(
                ids[i].0,
            ) && a2[ids[i].0].prev == prev_of(ids, i) && a2[ids[i].0].next == next_of(ids, i) by {
                assert(ids[i] == ids0[i + 1]);
                assert(ids0[i + 1] != ids0[0]);
                assert(a0.contains_key(ids0[i + 1].0));
            }
            assert(self.orders(a2) =~= q0.drop_first()) by {
                assert forall|i: int| 0 <= i < ids.len() implies #[trigger] a2[ids[i].0].order
                    == a0[ids0[i + 1].0].order by {
                    assert(ids[i] == ids0[i + 1]);
                    assert(ids0[i + 1] != ids0[0]);
                }
            }
            assert forall|k: usize|
                #![trigger a2[k]]
                a0.contains_key(k) && !ids0.contains(NodeId(k)) implies a2[k] == a0[k] by {
                if ids0.len() > 1 && k == ids0[1].0 {
                    assert(ids0.contains(NodeId(k)));
                }
                assert(k != ids0[0].0) by {
                    if k == ids0[0].0 {
                        assert(ids0.contains(NodeId(k)));
                    }
                }
            }
            assert(a2.dom() =~= a0.dom().remove(ids0[0].0));
        }
        Some(node.order)
    }

    /// Unlinks the node `id` in O(1), splicing its neighbours together, and
    /// returns its order; `None` when the arena holds no node under `id`.
    #[verifier::rlimit(60)]
    pub fn remove(&mut self, arena: &mut Slab<OrderNode>, id: NodeId) -> (r: Option<Order>)
        requires
            old(self).wf(arena_view(*old(arena))),
            arena_view(*old(arena)).contains_key(id.0) ==> old(self).ids().contains(id),
        ensures
            final(self).wf(arena_view(*final(arena))),
            final(self).level_price() == old(self).level_price(),
            !arena_view(*old(arena)).contains_key(id.0) ==> {
                &&& r is None
                &&& *final(self) == *old(self)
                &&& arena_view(*final(arena)) == arena_view(*old(arena))
            },
            arena_view(*old(arena)).contains_key(id.0) ==> {
                let i = old(self).ids().index_of(id);
                &&& 0 <= i < old(self).ids().len()
                &&& old(self).ids()[i] == id
                &&& r == Some(old(self).orders(arena_view(*old(arena)))[i])
                &&& final(self).ids() == old(self).ids().remove(i)
                &&& final(self).orders(arena_view(*final(arena))) == old(self).orders(
                    arena_view(*old(arena)),
                ).remove(i)
                &&& arena_view(*final(arena)).dom() == arena_view(*old(arena)).dom().remove(id.0)
            },
            forall|k: usize|
                #![trigger arena_view(*final(arena))[k]]
                arena_view(*old(arena)).contains_key(k) && !old(self).ids().contains(NodeId(k))
                    ==> arena_view(*final(arena))[k] == arena_view(*old(arena))[k],
    {
        let ghost a0 = arena_view(*arena);
        let ghost ids0 = self.nodes@;
        let ghost q0 = self.orders(a0);
        let node = match slab_try_remove(arena, id.0) {
            Some(n) => n,
            None => {
                return None;
            },
        };
        let ghost i = ids0.index_of(id);
        assert(0 <= i < ids0.len() && ids0[i] == id);
        match node.prev {
            Some(prev_id) => {
                assert(prev_id == ids0[i - 1]);
                assert(ids0[i - 1] != ids0[i]);
                assert(a0.contains_key(ids0[i - 1].0));
                let prev_node = slab_get_mut(arena, prev_id.0);
                prev_node.next = node.next;
            },
            None => {
                self.head = node.next;
            },
        }
        let ghost a1 = arena_view(*arena);
        match node.next {
            Some(next_id) => {
                assert(next_id == ids0[i + 1]);
                assert(ids0[i + 1] != ids0[i]);
                assert(a0.contains_key(ids0[i + 1].0));
                assert(a1.contains_key(next_id.0)) by {
                    if i > 0 {
                        assert(ids0[i - 1] != ids0[i + 1]);
                    }
                }
                let next_node = slab_get_mut(arena, next_id.0);
                next_node.prev = node.prev;
            },
            None => {
                self.tail = node.prev;
            },
        }
        proof {
            lemma_qty_sum_remove(q0, i);
        }
        self.total_qty.0 = self.total_qty.0 - node.order.remaining_qty.0;
        proof {
            self.nodes@ = ids0.remove(i);
        }
        let ghost a2 = arena_view(*arena);
        let ghost ids = self.nodes@;
        proof {
            assert forall|j: int| 0 <= j < ids.len() implies #[trigger] ids[j] == (if j < i {
                ids0[j]
            } else {
                ids0[j + 1]
            }) by {}
            assert forall|j: int, k: int|
                0 <= j < ids.len() && 0 <= k < ids.len() && j != k implies ids[j] != ids[k] by {
                let jj = if j < i {
                    j
                } else {
                    j + 1
                };
                let kk = if k < i {
                    k
                } else {
                    k + 1
                };
                assert(ids[j] == ids0[jj]);
                assert(ids[k] == ids0[kk]);
            }
            assert forall|j: int| #![trigger ids[j]] 0 <= j < ids.len() implies a2.contains_key(
                ids[j].0,
            ) && a2[ids[j].0].prev == prev_of(ids, j) && a2[ids[j].0].next == next_of(ids, j) by {
                let jj = if j < i {
                    j
                } else {
                    j + 1
                };
                assert(ids[j] == ids0[jj]);
                assert(ids0[jj] != ids0[i]);
                assert(a0.contains_key(ids0[jj].0));
                if i > 0 && jj != i - 1 {
                    assert(ids0[jj] != ids0[i - 1]);
                }
                if jj != i + 1 {
                    if i + 1 < ids0.len() {
                        assert(ids0[jj] != ids0[i + 1]);
                    }
                }
                if i > 0 && jj == i - 1 && i + 1 < ids0.len() {
                    assert(ids0[i - 1] != ids0[i + 1]);
                }
                if j > 0 {
                    let pj = if j - 1 < i {
                        j - 1
                    } else {
                        j
                    };
                    assert(ids[j - 1] == ids0[pj]);
                }
                if j + 1 < ids.len() {
                    assert(ids[j + 1] == (if j + 1 < i {
                        ids0[j + 1]
                    } else {
                        ids0[j + 2]
                    }));
                }
            }
            assert(self.orders(a2) =~= q0.remove(i)) by {
                assert forall|j: int| 0 <= j < ids.len() implies #[trigger] a2[ids[j].0].order
                    == q0.remove(i)[j] by {
                    let jj = if j < i {
                        j
                    } else {
                        j + 1
                    };
                    assert(ids[j] == ids0[jj]);
                    assert(ids0[jj] != ids0[i]);
                    assert(a0.contains_key(ids0[jj].0));
                    if i > 0 && jj != i - 1 {
                        assert(ids0[jj] != ids0[i - 1]);
                    }
                    if i + 1 < ids0.len() && jj != i + 1 {
                        assert(ids0[jj] != ids0[i + 1]);
                    }
                }
            }
            assert forall|k: usize|
                #![trigger a2[k]]
                a0.contains_key(k) && !ids0.contains(NodeId(k)) implies a2[k] == a0[k] by {
                if i > 0 && k == ids0[i - 1].0 {
                    assert(ids0.contains(NodeId(k)));
                }
                if i + 1 < ids0.len() && k == ids0[i + 1].0 {
                    assert(ids0.contains(NodeId(k)));
                }
                if k == ids0[i].0 {
                    assert(ids0.contains(NodeId(k)));
                }
            }
            assert(a2.dom() =~= a0.dom().remove(id.0));
        }
        Some(node.order)
    }

    /// The running total of remaining quantity in the level.
    pub fn total_qty(&self) -> (q: Qty)
        ensures
            q.0 == self.total(),
    {
        self.total_qty
    }

    /// Whether the running total is zero.
    pub fn is_empty(&self) -> (b: bool)
        ensures
            b == (self.total() == 0),
    {
        self.total_qty.0 == 0
    }

    /// The key of the front node.
    pub fn head(&self) -> (r: Option<NodeId>)
        ensures
            r == self.spec_head(),
    {
        self.head
    }

    /// The key of the back node.
    pub fn tail(&self) -> (r: Option<NodeId>)
        ensures
            r == self.spec_tail(),
    {
        self.tail
    }

    /// The order stored in the arena under `id`, if any.
    pub fn get_order_by_id<'a>(&self, id: NodeId, arena: &'a Slab<OrderNode>) -> (r: Option<
        &'a Order,
    >)
        ensures
            match r {
                Some(o) => arena_view(*arena).contains_key(id.0) && *o == arena_view(
                    *arena,
                )[id.0].spec_order(),
                None => !arena_view(*arena).contains_key(id.0),
            },
    {
        match slab_get(arena, id.0) {
            Some(node) => Some(&node.order),
            None => None,
        }
    }

    /// The order stored in the arena under `id`, if any; the same lookup as
    /// `get_order_by_id`, spelled with a capitalised `ID`.
    #[allow(non_snake_case)]
    pub fn get_order_by_ID<'a>(&self, id: NodeId, arena: &'a Slab<OrderNode>) -> (r: Option<
        &'a Order,
    >)
        ensures
            match r {
                Some(o) => arena_view(*arena).contains_key(id.0) && *o == arena_view(
                    *arena,
                )[id.0].spec_order(),
                None => !arena_view(*arena).contains_key(id.0),
            },
    {
        self.get_order_by_id(id, arena)
    }

    /// Fills up to `qty` from the front order: returns its id, the filled
    /// amount `min(front remaining, qty)` and whether the front order is now
    /// fully filled, in which case it leaves the queue.
    #[verifier::rlimit(60)]
    pub fn consume_qty(&mut self, qty: Qty, arena: &mut Slab<OrderNode>) -> (r: Option<
        (OrderId, Qty, bool),
    >)
        requires
            old(self).wf(arena_view(*old(arena))),
        ensures
            final(self).wf(arena_view(*final(arena))),
            final(self).level_price() == old(self).level_price(),
            old(self).ids().len() == 0 ==> {
                &&& r is None
                &&& *final(self) == *old(self)
                &&& arena_view(*final(arena)) == arena_view(*old(arena))
            },
            old(self).ids().len() > 0 ==> {
                let q0 = old(self).orders(arena_view(*old(arena)));
                let f = q0[0];
                let fill = if f.remaining_qty.0 <= qty.0 {
                    f.remaining_qty.0
                } else {
                    qty.0
                };
                let full = f.remaining_qty.0 - fill == 0;
                &&& r == Some((f.id, Qty(fill), full))
                &&& final(self).total() == old(self).total() - fill
                &&& full ==> {
                    &&& final(self).ids() == old(self).ids().drop_first()
                    &&& final(self).orders(arena_view(*final(arena))) == q0.drop_first()
                    &&& arena_view(*final(arena)).dom() == arena_view(*old(arena)).dom().remove(
                        old(self).ids()[0].0,
                    )
                }
                &&& !full ==> {
                    &&& final(self).ids() == old(self).ids()
                    &&& final(self).orders(arena_view(*final(arena))) == q0.update(
                        0,
                        Order { remaining_qty: Qty((f.remaining_qty.0 - fill) as u64), ..f },
                    )
                    &&& arena_view(*final(arena)).dom() == arena_view(*old(arena)).dom()
                }
            },
            forall|k: usize|
                #![trigger arena_view(*final(arena))[k]]
                arena_view(*old(arena)).contains_key(k) && !old(self).ids().contains(NodeId(k))
                    ==> arena_view(*final(arena))[k] == arena_view(*old(arena))[k],
    {
        let ghost a0 = arena_view(*arena);
        let ghost ids0 = self.nodes@;
        let ghost q0 = self.orders(a0);
        let head_id = match self.head {
            Some(h) => h,
            None => {
                return None;
            },
        };
        assert(ids0[0] == head_id);
        let id: OrderId;
        let filledstatus: bool;
        let fill_amount: Qty;
        {
            let node = slab_get_mut(arena, head_id.0);
            fill_amount = Qty(
                if node.order.remaining_qty.0 <= qty.0 {
                    node.order.remaining_qty.0
                } else {
                    qty.0
                },
            );
            node.order.remaining_qty.0 = node.order.remaining_qty.0 - fill_amount.0;
            id = node.order.id;
            filledstatus = node.order.remaining_qty.0 == 0;
        }
        let ghost a1 = arena_view(*arena);
        let ghost f = q0[0];
        let ghost nf = Order { remaining_qty: Qty((f.remaining_qty.0 - fill_amount.0) as u64), ..f };
        proof {
            assert(self.orders(a1) =~= q0.update(0, nf)) by {
                assert forall|j: int| 0 <= j < ids0.len() implies #[trigger] a1[ids0[j].0].order
                    == q0.update(0, nf)[j] by {
                    if j > 0 {
                        assert(ids0[j] != ids0[0]);
                    }
                }
            }
            lemma_qty_sum_update(q0, 0, nf);
            lemma_qty_sum_bound(q0, 0);
            assert forall|j: int| #![trigger ids0[j]] 0 <= j < ids0.len() implies a1.contains_key(
                ids0[j].0,
            ) && a1[ids0[j].0].prev == prev_of(ids0, j) && a1[ids0[j].0].next == next_of(ids0, j) by {
                if j > 0 {
                    assert(ids0[j] != ids0[0]);
                }
            }
        }
        self.total_qty.0 = self.total_qty.0 - fill_amount.0;
        assert(self.wf(a1));
        if filledstatus {
            let _ = self.pop_front(arena);
        }
        proof {
            assert forall|k: usize|
                #![trigger arena_view(*arena)[k]]
                a0.contains_key(k) && !ids0.contains(NodeId(k)) implies arena_view(*arena)[k]
                    == a0[k] by {
                if k == ids0[0].0 {
                    assert(ids0.contains(NodeId(k)));
                }
                assert(a1[k] == a0[k]);
            }
            assert(q0.update(0, nf).drop_first() =~= q0.drop_first());
            assert(q0.update(0, nf).remove(0) =~= q0.update(0, nf).drop_first());
            lemma_qty_sum_remove(q0.update(0, nf), 0);
            assert(a1.dom() =~= a0.dom());
        }
        Some((id, fill_amount, filledstatus))
    }
}

} // verus!
