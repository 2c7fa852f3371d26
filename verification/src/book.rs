use vstd::prelude::*;
use vstd::multiset::Multiset;
use vstd::multiset::group_multiset_axioms;
use crate::order::{Order, OrderType, Side, spec_opposite};

verus! {

// ---------------------------------------------------------------------------
// Encoding of a resting order for the outside priority queue.
//
// An entry is a pair of plain integers only, so that the queue's notions of
// item equality and of priority order are exactly the ones std documents.
//
// A `QItem` is `(stamp, price, initial_qty, current_qty, user_id, type_code)`.
// The stamp is a serial number the book assigns at insertion; it makes every
// stored item unique, so an insertion never collides with an entry already
// stored. The side is not encoded: each side has its own queue.
//
// A `QPrio` is `(price_rank, arrival_rank)`, compared lexicographically, the
// greatest popping first. `price_rank` is the price on the buy side and its
// complement on the sell side, so the best price pops first; `arrival_rank`
// is the complement of the stamp, so that among equal prices the earliest
// stamp pops first, and no two entries ever compare equal.
// ---------------------------------------------------------------------------

pub type QItem = (u64, u64, u64, u64, u64, u8);

pub type QPrio = (u64, u64);

pub type QPair = (QItem, QPrio);

pub open spec fn spec_type_code(t: OrderType) -> u8 {
    match t {
        OrderType::Lim => 0,
        OrderType::Fok => 1,
        OrderType::Ioc => 2,
    }
}

pub open spec fn spec_type_of(c: u8) -> OrderType {
    if c == 0 {
        OrderType::Lim
    } else if c == 1 {
        OrderType::Fok
    } else {
        OrderType::Ioc
    }
}

fn type_code(t: OrderType) -> (r: u8)
    ensures
        r == spec_type_code(t),
{
    match t {
        OrderType::Lim => 0,
        OrderType::Fok => 1,
        OrderType::Ioc => 2,
    }
}

pub open spec fn spec_order_of(side: Side, it: QItem) -> Order {
    Order {
        order_type: spec_type_of(it.5),
        side,
        price: it.1,
        initial_qty: it.2,
        current_qty: it.3,
        user_id: it.4,
    }
}

pub open spec fn item_wf(it: QItem) -> bool {
    0 < it.3 && it.3 <= it.2 && it.5 <= 2
}

pub open spec fn spec_prio(side: Side, it: QItem) -> QPrio {
    match side {
        Side::Buy => (it.1, (u64::MAX - it.0) as u64),
        Side::Sell => ((u64::MAX - it.1) as u64, (u64::MAX - it.0) as u64),
    }
}

/// The order std gives `(u64, u64)`: lexicographic.
pub open spec fn prio_le(a: QPrio, b: QPrio) -> bool {
    a.0 < b.0 || (a.0 == b.0 && a.1 <= b.1)
}

/// `b` pops no later than `a` would on `side`: on the buy side the greatest
/// price wins, on the sell side the least.
pub open spec fn spec_price_le(side: Side, a: u64, b: u64) -> bool {
    match side {
        Side::Buy => a <= b,
        Side::Sell => a >= b,
    }
}

// ---------------------------------------------------------------------------
// Trusted boundary: the outside priority queue.
// ---------------------------------------------------------------------------

#[verifier::external_type_specification]
#[verifier::external_body]
#[verifier::reject_recursive_types(I)]
#[verifier::reject_recursive_types(P)]
#[verifier::reject_recursive_types(H)]
pub struct ExPriorityQueue<I, P, H>(priority_queue::PriorityQueue<I, P, H>);

/// The multiset of `(item, priority)` entries the queue holds.
pub uninterp spec fn pq_pairs(q: priority_queue::PriorityQueue<QItem, QPrio>) -> Multiset<QPair>;

/// Relies on priority_queue::PriorityQueue::new: creates an empty queue.
#[verifier::external_body]
fn pq_new() -> (q: priority_queue::PriorityQueue<QItem, QPrio>)
    ensures
        pq_pairs(q) == Multiset::<QPair>::empty(),
{
    priority_queue::PriorityQueue::new()
}

/// Relies on priority_queue::PriorityQueue::len: the number of stored entries.
#[verifier::external_body]
fn pq_len(q: &priority_queue::PriorityQueue<QItem, QPrio>) -> (r: usize)
    ensures
        r == pq_pairs(*q).len(),
{
    q.len()
}

/// Relies on priority_queue::PriorityQueue::push: stores the pair. Pushing an
/// item equal to a stored one would instead replace that item's priority, so
/// the caller must present an item unlike every stored one.
#[verifier::external_body]
fn pq_push(q: &mut priority_queue::PriorityQueue<QItem, QPrio>, item: QItem, prio: QPrio)
    requires
        forall|p: QPair| pq_pairs(*old(q)).contains(p) ==> p.0 != item,
    ensures
        pq_pairs(*final(q)) == pq_pairs(*old(q)).insert((item, prio)),
{
    q.push(item, prio);
}

/// Relies on priority_queue::PriorityQueue::pop: removes and returns a pair
/// whose priority is greatest under the `Ord` of `(u64, u64)`, which is
/// lexicographic; returns None exactly when the queue is empty.
#[verifier::external_body]
fn pq_pop(q: &mut priority_queue::PriorityQueue<QItem, QPrio>) -> (r: Option<QPair>)
    ensures
        match r {
            Option::None => pq_pairs(*old(q)).len() == 0 && pq_pairs(*final(q)) == pq_pairs(
                *old(q),
            ),
            Option::Some(pr) => pq_pairs(*old(q)).contains(pr) && pq_pairs(*final(q)) == pq_pairs(
                *old(q),
            ).remove(pr) && forall|p: QPair|
                pq_pairs(*old(q)).contains(p) ==> prio_le(p.1, pr.1),
        },
{
    q.pop()
}

// ---------------------------------------------------------------------------
// The erased view: what the book holds, as a multiset of orders.
// ---------------------------------------------------------------------------

pub closed spec fn erase(side: Side, m: Multiset<QPair>) -> Multiset<Order>
    decreases m.len(),
    via erase_decreases
{
    if m.len() == 0 {
        Multiset::<Order>::empty()
    } else {
        let p = m.choose();
        erase(side, m.remove(p)).insert(spec_order_of(side, p.0))
    }
}

#[via_fn]
proof fn erase_decreases(side: Side, m: Multiset<QPair>) {
    broadcast use group_multiset_axioms;

    if m.len() != 0 {
        assert(m.count(m.choose()) > 0);
    }
}

pub proof fn lemma_erase_empty(side: Side, m: Multiset<QPair>)
    requires
        m.len() == 0,
    ensures
        erase(side, m) == Multiset::<Order>::empty(),
{
}

pub proof fn lemma_erase_remove(side: Side, m: Multiset<QPair>, p: QPair)
    requires
        m.contains(p),
    ensures
        erase(side, m) == erase(side, m.remove(p)).insert(spec_order_of(side, p.0)),
    decreases m.len(),
{
    broadcast use group_multiset_axioms;

    let q = m.choose();
    assert(m.count(q) > 0);
    if q == p {
    } else {
        lemma_erase_remove(side, m.remove(q), p);
        lemma_erase_remove(side, m.remove(p), q);
        assert(m.remove(q).remove(p) =~= m.remove(p).remove(q));
        assert(erase(side, m.remove(q).remove(p)).insert(spec_order_of(side, p.0)).insert(
            spec_order_of(side, q.0),
        ) =~= erase(side, m.remove(p).remove(q)).insert(spec_order_of(side, q.0)).insert(
            spec_order_of(side, p.0),
        ));
    }
}

pub proof fn lemma_erase_insert(side: Side, m: Multiset<QPair>, p: QPair)
    ensures
        erase(side, m.insert(p)) == erase(side, m).insert(spec_order_of(side, p.0)),
{
    broadcast use group_multiset_axioms;

    lemma_erase_remove(side, m.insert(p), p);
    assert(m.insert(p).remove(p) =~= m);
}

pub proof fn lemma_erase_len(side: Side, m: Multiset<QPair>)
    ensures
        erase(side, m).len() == m.len(),
    decreases m.len(),
{
    broadcast use group_multiset_axioms;

    if m.len() != 0 {
        let p = m.choose();
        assert(m.count(p) > 0);
        lemma_erase_len(side, m.remove(p));
    }
}

pub proof fn lemma_erase_contains(side: Side, m: Multiset<QPair>, o: Order)
    requires
        erase(side, m).contains(o),
    ensures
        exists|p: QPair| #[trigger] m.contains(p) && spec_order_of(side, p.0) == o,
    decreases m.len(),
{
    broadcast use group_multiset_axioms;

    if m.len() == 0 {
    } else {
        let q = m.choose();
        assert(m.count(q) > 0);
        if spec_order_of(side, q.0) == o {
            assert(m.contains(q));
        } else {
            assert(erase(side, m.remove(q)).contains(o));
            lemma_erase_contains(side, m.remove(q), o);
            let p = choose|p: QPair| #[trigger] m.remove(q).contains(p) && spec_order_of(
                side,
                p.0,
            ) == o;
            assert(m.contains(p));
        }
    }
}

// ---------------------------------------------------------------------------
// Sums of residual quantities, for conservation statements.
// ---------------------------------------------------------------------------

pub closed spec fn qty_sum(m: Multiset<Order>) -> int
    decreases m.len(),
    via qty_sum_decreases
{
    if m.len() == 0 {
        0
    } else {
        let o = m.choose();
        o.current_qty + qty_sum(m.remove(o))
    }
}

#[via_fn]
proof fn qty_sum_decreases(m: Multiset<Order>) {
    broadcast use group_multiset_axioms;

    if m.len() != 0 {
        assert(m.count(m.choose()) > 0);
    }
}

pub proof fn lemma_qty_sum_empty(m: Multiset<Order>)
    requires
        m.len() == 0,
    ensures
        qty_sum(m) == 0,
{
}

pub proof fn lemma_qty_sum_remove(m: Multiset<Order>, o: Order)
    requires
        m.contains(o),
    ensures
        qty_sum(m) == qty_sum(m.remove(o)) + o.current_qty,
    decreases m.len(),
{
    broadcast use group_multiset_axioms;

    let q = m.choose();
    assert(m.count(q) > 0);
    if q == o {
    } else {
        lemma_qty_sum_remove(m.remove(q), o);
        lemma_qty_sum_remove(m.remove(o), q);
        assert(m.remove(q).remove(o) =~= m.remove(o).remove(q));
    }
}

pub proof fn lemma_qty_sum_insert(m: Multiset<Order>, o: Order)
    ensures
        qty_sum(m.insert(o)) == qty_sum(m) + o.current_qty,
{
    broadcast use group_multiset_axioms;

    lemma_qty_sum_remove(m.insert(o), o);
    assert(m.insert(o).remove(o) =~= m);
}

pub proof fn lemma_qty_sum_add(a: Multiset<Order>, b: Multiset<Order>)
    ensures
        qty_sum(a.add(b)) == qty_sum(a) + qty_sum(b),
    decreases b.len(),
{
    broadcast use group_multiset_axioms;

    if b.len() == 0 {
        assert(b =~= Multiset::<Order>::empty());
        assert(a.add(b) =~= a);
    } else {
        let x = b.choose();
        assert(b.count(x) > 0);
        lemma_qty_sum_add(a, b.remove(x));
        lemma_qty_sum_remove(b, x);
        lemma_qty_sum_insert(a.add(b.remove(x)), x);
        assert(a.add(b) =~= a.add(b.remove(x)).insert(x));
    }
}

pub proof fn lemma_qty_sum_nonneg(m: Multiset<Order>)
    ensures
        qty_sum(m) >= 0,
    decreases m.len(),
{
    broadcast use group_multiset_axioms;

    if m.len() != 0 {
        let o = m.choose();
        assert(m.count(o) > 0);
        lemma_qty_sum_nonneg(m.remove(o));
    }
}

// ---------------------------------------------------------------------------
// The book: a pair of side-keyed priority queues over resting orders.
// ---------------------------------------------------------------------------

pub open spec fn side_wf(side: Side, m: Multiset<QPair>, next: u64) -> bool {
    &&& forall|p: QPair| #[trigger] m.contains(p) ==> p.1 == spec_prio(side, p.0) && item_wf(p.0)
        && p.0.0 < next
    &&& forall|p: QPair| #[trigger] m.count(p) <= 1
    &&& forall|p1: QPair, p2: QPair|
        #![trigger m.contains(p1), m.contains(p2)]
        m.contains(p1) && m.contains(p2) && p1.0.0 == p2.0.0 ==> p1 == p2
}

pub open spec fn stamps_disjoint(a: Multiset<QPair>, b: Multiset<QPair>) -> bool {
    forall|p1: QPair, p2: QPair|
        #![trigger a.contains(p1), b.contains(p2)]
        a.contains(p1) && b.contains(p2) ==> p1.0.0 != p2.0.0
}

/// The entry of greatest priority in `m`. In a well-formed side no two
/// entries share a priority, so this is the one entry `pop` yields: what the
/// queue does next is a function of what it holds.
pub open spec fn best_pair(m: Multiset<QPair>) -> QPair {
    choose|p: QPair|
        #[trigger] m.contains(p) && forall|q: QPair| m.contains(q) ==> prio_le(q.1, p.1)
}

/// Every non-empty multiset of entries has a greatest-priority element, so
/// `best_pair` of a non-empty multiset is a member and a maximum.
pub proof fn lemma_best_pair_exists(m: Multiset<QPair>)
    requires
        m.len() > 0,
    ensures
        m.contains(best_pair(m)),
        forall|q: QPair| m.contains(q) ==> prio_le(q.1, best_pair(m).1),
    decreases m.len(),
{
    broadcast use group_multiset_axioms;

    let x = m.choose();
    assert(m.count(x) > 0);
    if m.len() == 1 {
        assert forall|q: QPair| m.contains(q) implies q == x by {
            if q != x {
                assert(m.remove(x).count(q) == m.count(q));
                assert(m.remove(x).count(q) <= m.remove(x).len());
            }
        }
        assert(m.contains(x) && forall|q: QPair| m.contains(q) ==> prio_le(q.1, x.1));
    } else {
        lemma_best_pair_exists(m.remove(x));
        let b = best_pair(m.remove(x));
        if prio_le(b.1, x.1) {
            assert forall|q: QPair| m.contains(q) implies prio_le(q.1, x.1) by {
                if q != x {
                    assert(m.remove(x).contains(q));
                }
            }
            assert(m.contains(x) && forall|q: QPair| m.contains(q) ==> prio_le(q.1, x.1));
        } else {
            assert(m.contains(b));
            assert forall|q: QPair| m.contains(q) implies prio_le(q.1, b.1) by {
                if q != x {
                    assert(m.remove(x).contains(q));
                }
            }
        }
    }
}

pub struct Book {
    buy_queue: priority_queue::PriorityQueue<QItem, QPrio>,
    sell_queue: priority_queue::PriorityQueue<QItem, QPrio>,
    next_stamp: u64,
}

impl Book {
    pub closed spec fn pairs(self, side: Side) -> Multiset<QPair> {
        match side {
            Side::Buy => pq_pairs(self.buy_queue),
            Side::Sell => pq_pairs(self.sell_queue),
        }
    }

    /// What the book holds on `side`, as a multiset of orders.
    pub closed spec fn orders(self, side: Side) -> Multiset<Order> {
        erase(side, self.pairs(side))
    }

    /// How many insertions the book can still stamp.
    pub closed spec fn headroom(self) -> int {
        u64::MAX - self.next_stamp
    }

    pub closed spec fn wf(self) -> bool {
        &&& side_wf(Side::Buy, self.pairs(Side::Buy), self.next_stamp)
        &&& side_wf(Side::Sell, self.pairs(Side::Sell), self.next_stamp)
        &&& stamps_disjoint(self.pairs(Side::Buy), self.pairs(Side::Sell))
    }

    /// No order can rest on both sides: every entry carries a stamp, and no
    /// stamp occurs on both sides of a well-formed book.
    pub proof fn lemma_no_cross_side(self)
        requires
            self.wf(),
        ensures
            forall|p1: QPair, p2: QPair|
                #![trigger self.pairs(Side::Buy).contains(p1), self.pairs(Side::Sell).contains(p2)]
                self.pairs(Side::Buy).contains(p1) && self.pairs(Side::Sell).contains(p2)
                    ==> p1.0.0 != p2.0.0,
    {
    }

    /// The order view is the entry view with stamps and priorities erased.
    pub proof fn lemma_orders_is_erase(self, side: Side)
        ensures
            self.orders(side) == erase(side, self.pairs(side)),
    {
    }

    /// Every order resting on a well-formed book carries positive quantity
    /// within its submitted quantity, on the side it rests on.
    pub proof fn lemma_orders_wf(self, side: Side)
        requires
            self.wf(),
        ensures
            forall|q: Order|
                #[trigger] self.orders(side).contains(q) ==> q.wf() && q.current_qty > 0
                    && q.side == side,
    {
        assert forall|q: Order| #[trigger] self.orders(side).contains(q) implies q.wf()
            && q.current_qty > 0 && q.side == side by {
            lemma_erase_contains(side, self.pairs(side), q);
            let p = choose|p: QPair| #[trigger]
                self.pairs(side).contains(p) && spec_order_of(side, p.0) == q;
            assert(item_wf(p.0));
        }
    }

    /// In a well-formed book every entry's priority is the one its side and
    /// item dictate, and every entry holds a live order.
    pub proof fn lemma_wf_entries(self, side: Side)
        requires
            self.wf(),
        ensures
            forall|p: QPair|
                #[trigger] self.pairs(side).contains(p) ==> p.1 == spec_prio(side, p.0)
                    && item_wf(p.0),
    {
    }

    /// Any two greatest-priority entries on one side coincide: arrival ranks
    /// make every stored priority unique, so which entry the queue yields
    /// next is a function of what the book holds, and the whole matching run
    /// is determined by the order stream alone.
    pub proof fn lemma_pop_deterministic(self, side: Side, p1: QPair, p2: QPair)
        requires
            self.wf(),
            self.pairs(side).contains(p1),
            self.pairs(side).contains(p2),
            forall|q: QPair| self.pairs(side).contains(q) ==> prio_le(q.1, p1.1),
            forall|q: QPair| self.pairs(side).contains(q) ==> prio_le(q.1, p2.1),
        ensures
            p1 == p2,
    {
        assert(prio_le(p1.1, p2.1));
        assert(prio_le(p2.1, p1.1));
        assert(p1.1 == spec_prio(side, p1.0));
        assert(p2.1 == spec_prio(side, p2.0));
        assert(p1.0.0 == p2.0.0);
    }

    pub fn len(&self, side: Side) -> (r: usize)
        ensures
            r == self.orders(side).len(),
    {
        proof {
            lemma_erase_len(side, self.pairs(side));
        }
        match side {
            Side::Buy => pq_len(&self.buy_queue),
            Side::Sell => pq_len(&self.sell_queue),
        }
    }

    pub fn headroom_left(&self) -> (r: u64)
        ensures
            r == self.headroom(),
    {
        u64::MAX - self.next_stamp
    }

    /// Inserts `o` into the queue of its own side, best price first.
    pub fn push(&mut self, o: Order)
        requires
            old(self).wf(),
            o.wf(),
            o.current_qty > 0,
            old(self).headroom() >= 1,
        ensures
            final(self).wf(),
            final(self).orders(o.side) == old(self).orders(o.side).insert(o),
            final(self).orders(spec_opposite(o.side)) == old(self).orders(spec_opposite(o.side)),
            final(self).headroom() == old(self).headroom() - 1,
    {
        let stamp = self.next_stamp;
        let item: QItem = (stamp, o.price, o.initial_qty, o.current_qty, o.user_id, type_code(
            o.order_type,
        ));
        let prio: QPrio = match o.side {
            Side::Buy => (o.price, u64::MAX - stamp),
            Side::Sell => (u64::MAX - o.price, u64::MAX - stamp),
        };
        proof {
            broadcast use group_multiset_axioms;

            assert(prio == spec_prio(o.side, item));
            assert(forall|p: QPair| old(self).pairs(o.side).contains(p) ==> p.0.0 < stamp);
        }
        match o.side {
            Side::Buy => pq_push(&mut self.buy_queue, item, prio),
            Side::Sell => pq_push(&mut self.sell_queue, item, prio),
        }
        self.next_stamp = stamp + 1;
        proof {
            broadcast use group_multiset_axioms;

            let side = o.side;
            let opp = spec_opposite(side);
            let pr: QPair = (item, prio);
            let oldm = old(self).pairs(side);
            let newm = self.pairs(side);
            lemma_erase_insert(side, oldm, pr);
            assert(spec_order_of(side, item) == o);
            assert(newm == oldm.insert(pr));
            assert(self.pairs(opp) == old(self).pairs(opp));
            assert(item_wf(item));
            assert forall|p: QPair| #[trigger] newm.contains(p) && p != pr implies oldm.contains(
                p,
            ) by {
                assert(newm.count(p) == oldm.count(p));
            }
            assert forall|p: QPair| #[trigger] newm.count(p) <= 1 by {
                if p != pr {
                    assert(newm.count(p) == oldm.count(p));
                } else {
                    assert(oldm.count(pr) == 0) by {
                        if oldm.count(pr) > 0 {
                            assert(oldm.contains(pr));
                        }
                    }
                }
            }
            assert forall|p: QPair| #[trigger] newm.contains(p) implies p.1 == spec_prio(
                side,
                p.0,
            ) && item_wf(p.0) && p.0.0 < self.next_stamp by {
                if p != pr {
                    assert(oldm.contains(p));
                }
            }
            assert forall|p1: QPair, p2: QPair|
                #![trigger newm.contains(p1), newm.contains(p2)]
                newm.contains(p1) && newm.contains(p2) && p1.0.0 == p2.0.0 implies p1 == p2 by {
                if p1 != pr && p2 != pr {
                    assert(oldm.contains(p1) && oldm.contains(p2));
                } else if p1 == pr && p2 != pr {
                    assert(oldm.contains(p2));
                    assert(p2.0.0 < stamp);
                } else if p1 != pr && p2 == pr {
                    assert(oldm.contains(p1));
                    assert(p1.0.0 < stamp);
                }
            }
            assert(side_wf(side, newm, self.next_stamp));
            assert forall|p: QPair| #[trigger] self.pairs(opp).contains(p) implies p.1
                == spec_prio(opp, p.0) && item_wf(p.0) && p.0.0 < self.next_stamp by {
                assert(old(self).pairs(opp).contains(p));
            }
            assert(side_wf(opp, self.pairs(opp), self.next_stamp));
            let bm = self.pairs(Side::Buy);
            let sm = self.pairs(Side::Sell);
            assert forall|p1: QPair, p2: QPair|
                #![trigger bm.contains(p1), sm.contains(p2)]
                bm.contains(p1) && sm.contains(p2) implies p1.0.0 != p2.0.0 by {
                match side {
                    Side::Buy => {
                        assert(old(self).pairs(Side::Sell).contains(p2));
                        if p1 != pr {
                            assert(old(self).pairs(Side::Buy).contains(p1));
                        } else {
                            assert(p2.0.0 < stamp);
                        }
                    },
                    Side::Sell => {
                        assert(old(self).pairs(Side::Buy).contains(p1));
                        if p2 != pr {
                            assert(old(self).pairs(Side::Sell).contains(p2));
                        } else {
                            assert(p1.0.0 < stamp);
                        }
                    },
                }
            }
            assert(self.wf());
        }
    }

    /// Removes and returns an order of best price on `side`, earliest stamp
    /// first among equal prices, or returns None if the side is empty.
    pub fn pop(&mut self, side: Side) -> (r: Option<Order>)
        requires
            old(self).wf(),
        ensures
            final(self).wf(),
            final(self).headroom() == old(self).headroom(),
            final(self).orders(spec_opposite(side)) == old(self).orders(spec_opposite(side)),
            final(self).pairs(spec_opposite(side)) == old(self).pairs(spec_opposite(side)),
            match r {
                Option::None => final(self).orders(side) == old(self).orders(side) && old(
                    self,
                ).orders(side).len() == 0 && final(self).pairs(side) == old(self).pairs(side)
                    && old(self).pairs(side).len() == 0,
                Option::Some(o) => old(self).orders(side).contains(o) && final(self).orders(side)
                    == old(self).orders(side).remove(o) && o.side == side && o.wf()
                    && o.current_qty > 0 && (forall|q: Order|
                    old(self).orders(side).contains(q) ==> spec_price_le(side, q.price, o.price))
                    && o == spec_order_of(side, best_pair(old(self).pairs(side)).0)
                    && final(self).pairs(side) == old(self).pairs(side).remove(
                    best_pair(old(self).pairs(side)),
                ),
            },
    {
        let popped = match side {
            Side::Buy => pq_pop(&mut self.buy_queue),
            Side::Sell => pq_pop(&mut self.sell_queue),
        };
        match popped {
            Option::None => {
                proof {
                    lemma_erase_len(side, old(self).pairs(side));
                }
                Option::None
            },
            Option::Some(pr) => {
                let (item, _prio) = pr;
                let o = Order {
                    order_type: match item.5 {
                        0 => OrderType::Lim,
                        1 => OrderType::Fok,
                        _ => OrderType::Ioc,
                    },
                    side,
                    price: item.1,
                    initial_qty: item.2,
                    current_qty: item.3,
                    user_id: item.4,
                };
                proof {
                    broadcast use group_multiset_axioms;

                    assert(old(self).pairs(side).contains(pr));
                    assert(item_wf(item));
                    assert(o == spec_order_of(side, item));
                    lemma_erase_remove(side, old(self).pairs(side), pr);
                    assert(self.pairs(side) == old(self).pairs(side).remove(pr));
                    assert(old(self).orders(side) == self.orders(side).insert(o));
                    assert(self.orders(side) =~= old(self).orders(side).remove(o));
                    assert(old(self).orders(side).contains(o));
                    assert forall|q: Order| old(self).orders(side).contains(q) implies
                        spec_price_le(side, q.price, o.price) by {
                        lemma_erase_contains(side, old(self).pairs(side), q);
                        let pq = choose|pq: QPair| #[trigger]
                            old(self).pairs(side).contains(pq) && spec_order_of(side, pq.0) == q;
                        assert(prio_le(pq.1, pr.1));
                        assert(pq.1 == spec_prio(side, pq.0));
                        assert(pr.1 == spec_prio(side, item));
                    }
                    assert forall|p: QPair| #[trigger] self.pairs(side).contains(p) implies
                        old(self).pairs(side).contains(p) by {}
                    assert(side_wf(side, self.pairs(side), self.next_stamp));
                    let m = old(self).pairs(side);
                    assert(m.contains(pr) && forall|q: QPair| m.contains(q) ==> prio_le(
                        q.1,
                        pr.1,
                    ));
                    assert(m.contains(best_pair(m)) && forall|q: QPair|
                        m.contains(q) ==> prio_le(q.1, best_pair(m).1));
                    old(self).lemma_pop_deterministic(side, best_pair(m), pr);
                }
                Option::Some(o)
            },
        }
    }
}

impl Default for Book {
    /// An empty book.
    fn default() -> (r: Book)
        ensures
            r.wf(),
            r.orders(Side::Buy) == Multiset::<Order>::empty(),
            r.orders(Side::Sell) == Multiset::<Order>::empty(),
            r.headroom() == u64::MAX,
    {
        let r = Book { buy_queue: pq_new(), sell_queue: pq_new(), next_stamp: 0 };
        proof {
            broadcast use group_multiset_axioms;

            lemma_erase_empty(Side::Buy, r.pairs(Side::Buy));
            lemma_erase_empty(Side::Sell, r.pairs(Side::Sell));
        }
        r
    }
}

} // verus!
