use vstd::prelude::*;
use vstd::multiset::Multiset;
use vstd::multiset::group_multiset_axioms;
use std::collections::VecDeque;
use crate::book::{
    Book, QPair, best_pair, lemma_best_pair_exists, spec_order_of, qty_sum, lemma_qty_sum_empty,
    lemma_qty_sum_remove, lemma_qty_sum_insert, lemma_qty_sum_nonneg, spec_price_le,
};
use crate::order::{
    Order, OrderType, Side, ExternalEvent, InternalEvent, EventKind, Event, spec_event,
    spec_opposite, with_qty,
};

verus! {

/// The outcome of holding an incoming order against a resting one.
#[derive(Debug, Copy, Clone, PartialEq, Eq, Structural)]
pub enum MatchResult {
    Matched,
    Discrepancy,
    SameUser,
    SameSide,
}

pub open spec fn spec_choose_prices(lhs: Order, rhs: Order) -> (u64, u64) {
    if lhs.side == Side::Buy {
        (lhs.price, rhs.price)
    } else {
        (rhs.price, lhs.price)
    }
}

/// The buy-side and sell-side prices of a two-sided pair, in that order.
pub fn choose_prices(lhs: &Order, rhs: &Order) -> (r: (u64, u64))
    ensures
        r == spec_choose_prices(*lhs, *rhs),
{
    if lhs.side() == Side::Buy {
        (lhs.price(), rhs.price())
    } else {
        (rhs.price(), lhs.price())
    }
}

pub fn opposite_side(o: &Order) -> (r: Side)
    ensures
        r == spec_opposite(o.side),
{
    if o.side() == Side::Buy {
        Side::Sell
    } else {
        Side::Buy
    }
}

pub open spec fn spec_orders_match(lhs: Order, rhs: Order) -> MatchResult {
    if lhs.side == rhs.side {
        MatchResult::SameSide
    } else if lhs.user_id == rhs.user_id {
        MatchResult::SameUser
    } else if spec_choose_prices(lhs, rhs).0 >= spec_choose_prices(lhs, rhs).1 {
        MatchResult::Matched
    } else {
        MatchResult::Discrepancy
    }
}

/// Classifies a pair: same side is fatal, same owner blocks, a buy price at or
/// above the sell price trades, anything else is a price discrepancy.
pub fn orders_match(lhs: &Order, rhs: &Order) -> (r: MatchResult)
    ensures
        r == spec_orders_match(*lhs, *rhs),
{
    if lhs.side() == rhs.side() {
        return MatchResult::SameSide;
    }
    if lhs.user_id() == rhs.user_id() {
        return MatchResult::SameUser;
    }
    let (a, b) = choose_prices(lhs, rhs);
    if a >= b {
        return MatchResult::Matched;
    }
    MatchResult::Discrepancy
}

/// The orders of a sequence that still carry quantity, as a multiset: what a
/// recovery buffer would put back on the book.
pub open spec fn live_mset(s: Seq<Order>) -> Multiset<Order>
    decreases s.len(),
{
    if s.len() == 0 {
        Multiset::<Order>::empty()
    } else {
        let rest = live_mset(s.drop_first());
        if s.first().current_qty > 0 {
            rest.insert(s.first())
        } else {
            rest
        }
    }
}

pub proof fn lemma_live_mset_push(s: Seq<Order>, o: Order)
    ensures
        live_mset(s.push(o)) == if o.current_qty > 0 {
            live_mset(s).insert(o)
        } else {
            live_mset(s)
        },
    decreases s.len(),
{
    broadcast use group_multiset_axioms;

    if s.len() == 0 {
        assert(s.push(o).drop_first() =~= s);
        assert(s.push(o).first() == o);
    } else {
        assert(s.push(o).drop_first() =~= s.drop_first().push(o));
        lemma_live_mset_push(s.drop_first(), o);
        if s.first().current_qty > 0 && o.current_qty > 0 {
            assert(live_mset(s.drop_first()).insert(o).insert(s.first()) =~= live_mset(
                s.drop_first(),
            ).insert(s.first()).insert(o));
        }
    }
}

/// What one matching pass decides, computed from the book's entries alone:
/// the entries consumed whole in pop order, the one possibly partially
/// consumed entry with the amount taken from it, and the incoming order's
/// residual quantity at exit.
pub struct WalkOutcome {
    pub consumed: Seq<QPair>,
    pub survivor: Option<(QPair, u64)>,
    pub residual: u64,
}

/// The matching walk over the entries of the side opposite to `o`: pop the
/// greatest-priority entry, stop on a blocker (same
/// owner or uncrossed prices), consume it whole if the need exceeds its
/// quantity, otherwise take only the need and stop. Fill-or-kill succeeds
/// exactly when this walk ends with residual 0.
pub open spec fn match_walk(side: Side, m: Multiset<QPair>, o: Order, need: u64) -> WalkOutcome
    decreases m.len(),
    via match_walk_decreases
{
    if need == 0 || m.len() == 0 {
        WalkOutcome { consumed: Seq::empty(), survivor: Option::None, residual: need }
    } else {
        let p = best_pair(m);
        let rest = spec_order_of(side, p.0);
        if spec_orders_match(o, rest) != MatchResult::Matched {
            WalkOutcome { consumed: Seq::empty(), survivor: Option::None, residual: need }
        } else if need > rest.current_qty {
            let sub = match_walk(side, m.remove(p), o, (need - rest.current_qty) as u64);
            WalkOutcome {
                consumed: seq![p] + sub.consumed,
                survivor: sub.survivor,
                residual: sub.residual,
            }
        } else if need == rest.current_qty {
            WalkOutcome { consumed: seq![p], survivor: Option::None, residual: 0 }
        } else {
            WalkOutcome { consumed: Seq::empty(), survivor: Option::Some((p, need)), residual: 0 }
        }
    }
}

#[via_fn]
proof fn match_walk_decreases(side: Side, m: Multiset<QPair>, o: Order, need: u64) {
    broadcast use group_multiset_axioms;

    if need != 0 && m.len() != 0 {
        lemma_best_pair_exists(m);
    }
}

/// Entries decoded to the orders they hold.
pub open spec fn entry_orders(side: Side, s: Seq<QPair>) -> Seq<Order> {
    s.map_values(|p: QPair| spec_order_of(side, p.0))
}

/// The Executed reports of the consumed entries, in pop order.
pub open spec fn executed_events(side: Side, s: Seq<QPair>) -> Seq<Event> {
    s.map_values(
        |p: QPair| spec_event(EventKind::Internal(InternalEvent::Executed), spec_order_of(side, p.0)),
    )
}

/// The terminal reports of entries drained in priority order.
pub open spec fn terminal_events(side: Side, s: Seq<QPair>) -> Seq<Event> {
    s.map_values(
        |p: QPair|
            spec_event(
                EventKind::Internal(spec_order_of(side, p.0).spec_terminal_event()),
                spec_order_of(side, p.0),
            ),
    )
}

/// The entries of one side in pop order: greatest priority first.
pub open spec fn drain_walk(m: Multiset<QPair>) -> Seq<QPair>
    decreases m.len(),
    via drain_walk_decreases
{
    if m.len() == 0 {
        Seq::empty()
    } else {
        seq![best_pair(m)] + drain_walk(m.remove(best_pair(m)))
    }
}

#[via_fn]
proof fn drain_walk_decreases(m: Multiset<QPair>) {
    broadcast use group_multiset_axioms;

    if m.len() != 0 {
        lemma_best_pair_exists(m);
    }
}

pub open spec fn orders_minus(m: Multiset<Order>, s: Seq<Order>) -> Multiset<Order>
    decreases s.len(),
{
    if s.len() == 0 {
        m
    } else {
        orders_minus(m, s.drop_last()).remove(s.last())
    }
}

/// The side of the book the walk ran over, after the walk: the consumed
/// orders are gone, and the survivor, if any, stays with its quantity cut by
/// the amount taken.
pub open spec fn walk_post(side: Side, pre: Multiset<Order>, w: WalkOutcome) -> Multiset<Order> {
    let after = orders_minus(pre, entry_orders(side, w.consumed));
    match w.survivor {
        Option::None => after,
        Option::Some((p, take)) => {
            let s_o = spec_order_of(side, p.0);
            after.remove(s_o).insert(with_qty(s_o, (s_o.current_qty - take) as u64))
        },
    }
}

pub proof fn lemma_orders_minus_prepend(m: Multiset<Order>, x: Order, s: Seq<Order>)
    ensures
        orders_minus(m, seq![x] + s) == orders_minus(m.remove(x), s),
    decreases s.len(),
{
    broadcast use group_multiset_axioms;

    if s.len() == 0 {
        assert((seq![x] + s).drop_last() =~= Seq::<Order>::empty());
        assert((seq![x] + s).last() == x);
        assert(orders_minus(m, (seq![x] + s).drop_last()) == m);
        assert(orders_minus(m, seq![x] + s) == orders_minus(
            m,
            (seq![x] + s).drop_last(),
        ).remove(x));
        assert(orders_minus(m.remove(x), s) == m.remove(x));
    } else {
        assert((seq![x] + s).drop_last() =~= seq![x] + s.drop_last());
        assert((seq![x] + s).last() == s.last());
        lemma_orders_minus_prepend(m, x, s.drop_last());
        assert(orders_minus(m, seq![x] + s) == orders_minus(
            m,
            seq![x] + s.drop_last(),
        ).remove(s.last()));
        assert(orders_minus(m.remove(x), s) == orders_minus(
            m.remove(x),
            s.drop_last(),
        ).remove(s.last()));
    }
}

/// Peeling the first consumed entry off a walk outcome matches removing that
/// order from the book before the rest of the walk is applied.
pub proof fn lemma_walk_post_step(side: Side, pre: Multiset<Order>, p: QPair, w: WalkOutcome)
    ensures
        walk_post(
            side,
            pre,
            WalkOutcome { consumed: seq![p] + w.consumed, survivor: w.survivor, residual: w.residual },
        ) == walk_post(side, pre.remove(spec_order_of(side, p.0)), w),
{
    broadcast use group_multiset_axioms;

    let x = spec_order_of(side, p.0);
    assert(entry_orders(side, seq![p] + w.consumed) =~= seq![x] + entry_orders(
        side,
        w.consumed,
    ));
    lemma_orders_minus_prepend(pre, x, entry_orders(side, w.consumed));
}

/// The total residual quantity of a sequence of orders.
pub open spec fn seq_qty(s: Seq<Order>) -> int
    decreases s.len(),
{
    if s.len() == 0 {
        0
    } else {
        seq_qty(s.drop_last()) + s.last().current_qty
    }
}

pub proof fn lemma_seq_qty_prepend(x: Order, s: Seq<Order>)
    ensures
        seq_qty(seq![x] + s) == x.current_qty + seq_qty(s),
    decreases s.len(),
{
    if s.len() == 0 {
        assert((seq![x] + s).drop_last() =~= Seq::<Order>::empty());
        assert((seq![x] + s).last() == x);
        assert(seq_qty((seq![x] + s).drop_last()) == 0);
        assert(seq_qty(seq![x] + s) == seq_qty((seq![x] + s).drop_last()) + x.current_qty);
    } else {
        assert((seq![x] + s).drop_last() =~= seq![x] + s.drop_last());
        assert((seq![x] + s).last() == s.last());
        lemma_seq_qty_prepend(x, s.drop_last());
        assert(seq_qty(seq![x] + s) == seq_qty(seq![x] + s.drop_last()) + s.last().current_qty);
        assert(seq_qty(s) == seq_qty(s.drop_last()) + s.last().current_qty);
    }
}

/// The walk consumes exactly the quantity it fills: the consumed entries'
/// quantities, plus what it takes from the survivor, equal need less residual.
pub proof fn lemma_walk_qty(side: Side, m: Multiset<QPair>, o: Order, need: u64)
    ensures
        seq_qty(entry_orders(side, match_walk(side, m, o, need).consumed)) + (
        match match_walk(side, m, o, need).survivor {
            Option::None => 0int,
            Option::Some((p, t)) => t as int,
        }) == need - match_walk(side, m, o, need).residual,
    decreases m.len(),
{
    broadcast use group_multiset_axioms;

    let w = match_walk(side, m, o, need);
    if need == 0 || m.len() == 0 {
        assert(entry_orders(side, w.consumed) =~= Seq::<Order>::empty());
    } else {
        let p = best_pair(m);
        let rest = spec_order_of(side, p.0);
        if spec_orders_match(o, rest) != MatchResult::Matched {
            assert(entry_orders(side, w.consumed) =~= Seq::<Order>::empty());
        } else if need > rest.current_qty {
            lemma_best_pair_exists(m);
            lemma_walk_qty(side, m.remove(p), o, (need - rest.current_qty) as u64);
            let sub = match_walk(side, m.remove(p), o, (need - rest.current_qty) as u64);
            assert(entry_orders(side, seq![p] + sub.consumed) =~= seq![rest] + entry_orders(
                side,
                sub.consumed,
            ));
            lemma_seq_qty_prepend(rest, entry_orders(side, sub.consumed));
        } else if need == rest.current_qty {
            assert(entry_orders(side, seq![p]) =~= seq![rest]);
            assert(seq![rest].drop_last() =~= Seq::<Order>::empty());
            assert(seq_qty(seq![rest].drop_last()) == 0);
            assert(seq_qty(seq![rest]) == seq_qty(seq![rest].drop_last()) + rest.current_qty);
        } else {
            assert(entry_orders(side, w.consumed) =~= Seq::<Order>::empty());
        }
    }
}

/// For a sequence of live orders, the multiset it builds carries the same
/// total quantity.
pub proof fn lemma_live_qty(s: Seq<Order>)
    requires
        forall|i: int| 0 <= i < s.len() ==> (#[trigger] s[i]).current_qty > 0,
    ensures
        qty_sum(live_mset(s)) == seq_qty(s),
    decreases s.len(),
{
    if s.len() == 0 {
        lemma_qty_sum_empty(live_mset(s));
    } else {
        assert(s =~= s.drop_last().push(s.last()));
        lemma_live_mset_push(s.drop_last(), s.last());
        lemma_live_qty(s.drop_last());
        lemma_qty_sum_insert(live_mset(s.drop_last()), s.last());
    }
}

/// Removing a sequence of live orders undoes adding them.
pub proof fn lemma_minus_add(m: Multiset<Order>, s: Seq<Order>)
    requires
        forall|i: int| 0 <= i < s.len() ==> (#[trigger] s[i]).current_qty > 0,
    ensures
        orders_minus(m.add(live_mset(s)), s) == m,
    decreases s.len(),
{
    broadcast use group_multiset_axioms;

    if s.len() == 0 {
        assert(live_mset(s) =~= Multiset::<Order>::empty());
        assert(m.add(live_mset(s)) =~= m);
    } else {
        let x = s.last();
        assert(s =~= s.drop_last().push(x));
        lemma_live_mset_push(s.drop_last(), x);
        assert(live_mset(s) == live_mset(s.drop_last()).insert(x));
        lemma_minus_add(m.insert(x), s.drop_last());
        assert(m.add(live_mset(s)) =~= m.insert(x).add(live_mset(s.drop_last())));
        assert(orders_minus(m.add(live_mset(s)), s) == orders_minus(
            m.add(live_mset(s)),
            s.drop_last(),
        ).remove(x));
        assert(m.insert(x).remove(x) =~= m);
    }
}

/// Some best-priced order on `side` of `m`'s book blocks `o`: they share an
/// owner, or their prices do not cross.
pub open spec fn blocked_by_head(m: Matcher, side: Side, o: Order) -> bool {
    exists|h: Order|
        #[trigger] m.book_side(side).contains(h) && (forall|q: Order|
            m.book_side(side).contains(q) ==> spec_price_le(side, q.price, h.price))
            && spec_orders_match(o, h) != MatchResult::Matched
}

/// Quantity conservation across one accepted order `o`: for some residual
/// `rq`, exactly the filled quantity `initial_qty - rq` left the opposite
/// side of the book, and the order's own side either gained the residual (a
/// limit order that rests) or is unchanged. A limit or immediate-or-cancel
/// order keeps a residual only when the opposite side cannot serve it: it is
/// empty, or its head blocks the order.
pub open spec fn conserves_quantity(pre: Matcher, post: Matcher, o: Order) -> bool {
    exists|rq: u64|
        #![trigger with_qty(o, rq)]
        rq <= o.initial_qty && qty_sum(post.book_side(spec_opposite(o.side))) == qty_sum(
            pre.book_side(spec_opposite(o.side)),
        ) - (o.initial_qty - rq) && ((o.order_type == OrderType::Lim && rq > 0 && post.book_side(
            o.side,
        ) == pre.book_side(o.side).insert(with_qty(o, rq))) || post.book_side(o.side)
            == pre.book_side(o.side)) && (o.order_type == OrderType::Fok || rq == 0
            || post.book_side(spec_opposite(o.side)).len() == 0 || blocked_by_head(
            post,
            spec_opposite(o.side),
            with_qty(o, rq),
        ))
}

/// The engine: one two-sided book, the transient buffer used by fill-or-kill
/// processing, and the event log.
pub struct Matcher {
    g: Book,
    orders_to_recover: VecDeque<Order>,
    log: Vec<Event>,
}

impl Matcher {
    /// What rests on `side` of the book.
    pub closed spec fn book_side(self, side: Side) -> Multiset<Order> {
        self.g.orders(side)
    }

    /// The events emitted so far, in emission order.
    pub closed spec fn log_view(self) -> Seq<Event> {
        self.log@
    }

    pub closed spec fn headroom(self) -> int {
        self.g.headroom()
    }

    /// The recovery buffer, in parking order.
    pub closed spec fn buffer_view(self) -> Seq<Order> {
        self.orders_to_recover@
    }

    /// The book alone is well formed; the buffer may hold parked orders.
    pub closed spec fn book_wf(self) -> bool {
        self.g.wf()
    }

    /// The entries resting on `side`, with their priorities: the state the
    /// matching walk runs over.
    pub closed spec fn book_pairs(self, side: Side) -> Multiset<QPair> {
        self.g.pairs(side)
    }

    /// The order view is the entry view with stamps and priorities erased.
    pub proof fn lemma_book_view(self, side: Side)
        ensures
            self.book_side(side) == crate::book::erase(side, self.book_pairs(side)),
    {
        self.g.lemma_orders_is_erase(side);
    }

    /// The steady state implies a well-formed book and an empty buffer.
    pub proof fn lemma_wf_book(self)
        requires
            self.wf(),
        ensures
            self.book_wf(),
            self.buffer_view().len() == 0,
    {
    }

    /// Every resting order is well formed, live, and on its own side.
    pub proof fn lemma_resting_wf(self, side: Side)
        requires
            self.book_wf(),
        ensures
            forall|q: Order|
                #[trigger] self.book_side(side).contains(q) ==> q.wf() && q.current_qty > 0
                    && q.side == side,
    {
        self.g.lemma_orders_wf(side);
    }

    /// Entry well-formedness, for reasoning over `book_pairs` from outside.
    pub proof fn lemma_book_pairs_wf(self, side: Side)
        requires
            self.book_wf(),
        ensures
            forall|p: QPair|
                #[trigger] self.book_pairs(side).contains(p) ==> p.1 == crate::book::spec_prio(
                    side,
                    p.0,
                ) && crate::book::item_wf(p.0),
    {
        self.g.lemma_wf_entries(side);
    }

    /// Steady state between calls: the book is well formed and the recovery
    /// buffer is empty.
    pub closed spec fn wf(self) -> bool {
        &&& self.g.wf()
        &&& self.orders_to_recover@.len() == 0
    }

    /// Room for one full call: every insertion a call can make is covered.
    pub open spec fn can_accept_spec(self) -> bool {
        self.headroom() >= self.book_side(Side::Buy).len() + self.book_side(Side::Sell).len() + 2
    }

    pub fn can_accept(&self) -> (r: bool)
        ensures
            r == self.can_accept_spec(),
    {
        let hr = self.g.headroom_left();
        let nb = self.g.len(Side::Buy);
        let ns = self.g.len(Side::Sell);
        (nb as u128) + (ns as u128) + 2 <= hr as u128
    }

    pub fn new() -> (r: Matcher)
        ensures
            r.wf(),
            r.book_side(Side::Buy) == Multiset::<Order>::empty(),
            r.book_side(Side::Sell) == Multiset::<Order>::empty(),
            r.log_view() == Seq::<Event>::empty(),
            r.headroom() == u64::MAX,
    {
        let r = Matcher {
            g: Book::default(),
            orders_to_recover: VecDeque::new(),
            log: Vec::new(),
        };
        proof {
            assert(r.log@ =~= Seq::<Event>::empty());
        }
        r
    }

    /// A read-only view of the event log.
    pub fn log(&self) -> (r: &Vec<Event>)
        ensures
            r@ == self.log_view(),
    {
        &self.log
    }

    /// The matching loop shared by limit and immediate-or-cancel processing:
    /// consumes the best opposite resting orders while the pair still trades,
    /// and returns the incoming order with its residual quantity.
    ///
    /// The quantity taken from the incoming order equals the quantity taken
    /// from the opposite side of the book, every resting order consumed whole
    /// is reported Executed, and when a residual survives, some best-priced
    /// opposite resting order blocks it (by owner or by price), if any rests.
    pub fn common_processing(&mut self, o: Order) -> (r: Order)
        requires
            old(self).wf(),
            o.wf(),
            old(self).headroom() >= 1,
        ensures
            final(self).wf(),
            final(self).headroom() >= old(self).headroom() - 1,
            r == with_qty(o, r.current_qty),
            r.current_qty <= o.current_qty,
            r.wf(),
            final(self).book_side(o.side) == old(self).book_side(o.side),
            final(self).book_side(spec_opposite(o.side)).len() <= old(self).book_side(
                spec_opposite(o.side),
            ).len(),
            qty_sum(final(self).book_side(spec_opposite(o.side))) == qty_sum(
                old(self).book_side(spec_opposite(o.side)),
            ) - (o.current_qty - r.current_qty),
            old(self).log_view().is_prefix_of(final(self).log_view()),
            forall|i: int|
                old(self).log_view().len() <= i < final(self).log_view().len() ==> (
                #[trigger] final(self).log_view()[i]).kind == EventKind::Internal(
                    InternalEvent::Executed,
                ) && final(self).log_view()[i].side == spec_opposite(o.side),
            r.current_qty > 0 ==> final(self).book_side(spec_opposite(o.side)).len() == 0
                || exists|h: Order|
                #[trigger] final(self).book_side(spec_opposite(o.side)).contains(h) && (forall|
                    q: Order,
                |
                    final(self).book_side(spec_opposite(o.side)).contains(q) ==> spec_price_le(
                        spec_opposite(o.side),
                        q.price,
                        h.price,
                    )) && spec_orders_match(r, h) != MatchResult::Matched,
            ({
                let w = match_walk(
                    spec_opposite(o.side),
                    old(self).book_pairs(spec_opposite(o.side)),
                    o,
                    o.current_qty,
                );
                &&& r.current_qty == w.residual
                &&& final(self).book_side(spec_opposite(o.side)) == walk_post(
                    spec_opposite(o.side),
                    old(self).book_side(spec_opposite(o.side)),
                    w,
                )
                &&& final(self).log_view() == old(self).log_view() + executed_events(
                    spec_opposite(o.side),
                    w.consumed,
                )
            }),
    {
        let opp_s = opposite_side(&o);
        let ghost opp = spec_opposite(o.side);
        let mut cur = o;
        let ghost pairs0 = self.book_pairs(opp);
        let ghost w0 = match_walk(opp, pairs0, o, o.current_qty);
        let ghost mut done: Seq<QPair> = Seq::empty();
        proof {
            assert(Seq::<QPair>::empty() + w0.consumed =~= w0.consumed);
            assert(executed_events(opp, done) =~= Seq::<Event>::empty());
            assert(self.log_view() =~= old(self).log_view() + executed_events(opp, done));
        }
        loop
            invariant_except_break
                self.headroom() == old(self).headroom(),
                self.headroom() >= 1,
                ({
                    let sub = match_walk(opp, self.book_pairs(opp), o, cur.current_qty);
                    &&& w0.consumed == done + sub.consumed
                    &&& w0.survivor == sub.survivor
                    &&& w0.residual == sub.residual
                    &&& walk_post(opp, old(self).book_side(opp), w0) == walk_post(
                        opp,
                        self.book_side(opp),
                        sub,
                    )
                }),
            invariant
                self.wf(),
                opp == spec_opposite(o.side),
                opp_s == spec_opposite(o.side),
                o.side == spec_opposite(opp_s),
                cur == with_qty(o, cur.current_qty),
                cur.wf(),
                cur.current_qty <= o.current_qty,
                self.book_side(o.side) == old(self).book_side(o.side),
                self.book_side(opp).len() <= old(self).book_side(opp).len(),
                qty_sum(self.book_side(opp)) == qty_sum(old(self).book_side(opp)) - (o.current_qty
                    - cur.current_qty),
                old(self).log_view().is_prefix_of(self.log_view()),
                forall|i: int|
                    old(self).log_view().len() <= i < self.log_view().len() ==> (
                    #[trigger] self.log_view()[i]).kind == EventKind::Internal(
                        InternalEvent::Executed,
                    ) && self.log_view()[i].side == opp,
                self.log_view() == old(self).log_view() + executed_events(opp, done),
            ensures
                self.wf(),
                self.headroom() >= old(self).headroom() - 1,
                cur.current_qty == w0.residual,
                done == w0.consumed,
                self.book_side(opp) == walk_post(opp, old(self).book_side(opp), w0),
                self.log_view() == old(self).log_view() + executed_events(opp, done),
                cur == with_qty(o, cur.current_qty),
                cur.wf(),
                cur.current_qty <= o.current_qty,
                self.book_side(o.side) == old(self).book_side(o.side),
                self.book_side(opp).len() <= old(self).book_side(opp).len(),
                qty_sum(self.book_side(opp)) == qty_sum(old(self).book_side(opp)) - (o.current_qty
                    - cur.current_qty),
                old(self).log_view().is_prefix_of(self.log_view()),
                forall|i: int|
                    old(self).log_view().len() <= i < self.log_view().len() ==> (
                    #[trigger] self.log_view()[i]).kind == EventKind::Internal(
                        InternalEvent::Executed,
                    ) && self.log_view()[i].side == opp,
                cur.current_qty > 0 ==> self.book_side(opp).len() == 0 || exists|h: Order|
                    #[trigger] self.book_side(opp).contains(h) && (forall|q: Order|
                        self.book_side(opp).contains(q) ==> spec_price_le(opp, q.price, h.price))
                        && spec_orders_match(cur, h) != MatchResult::Matched,
            decreases self.book_side(opp).len(),
        {
            let ghost m0 = self.book_side(opp);
            let ghost hp = self.book_pairs(opp);
            let ghost need0 = cur.current_qty;
            proof {
                self.g.lemma_orders_is_erase(opp);
                assert(m0 == crate::book::erase(opp, hp));
                crate::book::lemma_erase_len(opp, hp);
            }
            let popped = self.g.pop(opp_s);
            match popped {
                Option::None => {
                    proof {
                        broadcast use group_multiset_axioms;

                        assert(hp.len() == 0);
                        assert(match_walk(opp, hp, o, need0).consumed =~= Seq::<QPair>::empty());
                        assert(done + match_walk(opp, hp, o, need0).consumed =~= done);
                        assert(entry_orders(opp, Seq::<QPair>::empty()) =~= Seq::<
                            Order,
                        >::empty());
                        assert(walk_post(opp, m0, match_walk(opp, hp, o, need0)) == m0);
                    }
                    break ;
                },
                Option::Some(rest) => {
                    proof {
                        broadcast use group_multiset_axioms;

                        assert(m0.contains(rest));
                        assert(m0.len() > 0);
                        assert(hp.len() > 0);
                        assert(rest == spec_order_of(opp, best_pair(hp).0));
                        assert(spec_orders_match(o, rest) == spec_orders_match(cur, rest));
                    }
                    match orders_match(&cur, &rest) {
                        MatchResult::SameSide => {
                            // Unreachable: the pair was popped from the queue
                            // of the opposite side, so the sides differ.
                            proof {
                                assert(cur.side == rest.side);
                                assert(rest.side == opp);
                                assert(false);
                            }
                            break ;
                        },
                        MatchResult::SameUser | MatchResult::Discrepancy => {
                            self.g.push(rest);
                            proof {
                                broadcast use group_multiset_axioms;

                                assert(self.book_side(opp) =~= m0);
                                assert(self.book_side(opp).contains(rest));
                                assert(spec_orders_match(cur, rest) != MatchResult::Matched);
                                let sub = match_walk(opp, hp, o, need0);
                                assert(sub.consumed =~= Seq::<QPair>::empty());
                                assert(done + sub.consumed =~= done);
                                assert(entry_orders(opp, Seq::<QPair>::empty()) =~= Seq::<
                                    Order,
                                >::empty());
                                assert(walk_post(opp, m0, sub) == m0);
                                assert(self.book_side(opp) == m0);
                            }
                            break ;
                        },
                        MatchResult::Matched => {
                            if cur.current_qty() > rest.current_qty() {
                                cur.reduce_quantity(rest.current_qty());
                                self.log.push(
                                    Event::for_order(
                                        EventKind::Internal(InternalEvent::Executed),
                                        &rest,
                                    ),
                                );
                                proof {
                                    broadcast use group_multiset_axioms;

                                    lemma_qty_sum_remove(m0, rest);
                                    let bp = best_pair(hp);
                                    let subh = match_walk(opp, hp, o, need0);
                                    let subn = match_walk(
                                        opp,
                                        hp.remove(bp),
                                        o,
                                        (need0 - rest.current_qty) as u64,
                                    );
                                    assert(subh.consumed == seq![bp] + subn.consumed
                                        && subh.survivor == subn.survivor && subh.residual
                                        == subn.residual);
                                    lemma_walk_post_step(opp, m0, bp, subn);
                                    let done_prev = done;
                                    done = done + seq![bp];
                                    assert(done_prev + (seq![bp] + subn.consumed) =~= done
                                        + subn.consumed);
                                    assert(executed_events(opp, done) =~= executed_events(
                                        opp,
                                        done_prev,
                                    ) + seq![
                                        spec_event(
                                            EventKind::Internal(InternalEvent::Executed),
                                            rest,
                                        ),
                                    ]);
                                    assert(self.log_view() =~= old(self).log_view()
                                        + executed_events(opp, done));
                                }
                            } else {
                                let take = cur.current_qty();
                                let mut r2 = rest;
                                r2.reduce_quantity(take);
                                cur.reduce_quantity(take);
                                proof {
                                    broadcast use group_multiset_axioms;

                                    lemma_qty_sum_remove(m0, rest);
                                }
                                if r2.current_qty() == 0 {
                                    self.log.push(
                                        Event::for_order(
                                            EventKind::Internal(InternalEvent::Executed),
                                            &r2,
                                        ),
                                    );
                                    proof {
                                        broadcast use group_multiset_axioms;

                                        let bp = best_pair(hp);
                                        let subh = match_walk(opp, hp, o, need0);
                                        assert(need0 == rest.current_qty);
                                        assert(subh.consumed == seq![bp] && subh.survivor
                                            == Option::<(QPair, u64)>::None && subh.residual
                                            == 0);
                                        let done_prev = done;
                                        done = done + seq![bp];
                                        assert(done_prev + subh.consumed =~= done);
                                        assert(entry_orders(opp, seq![bp]) =~= seq![rest]);
                                        assert(seq![rest].drop_last() =~= Seq::<Order>::empty());
                                        assert(orders_minus(m0, seq![rest].drop_last()) == m0);
                                        assert(seq![rest].last() == rest);
                                        assert(orders_minus(m0, seq![rest]) == orders_minus(
                                            m0,
                                            seq![rest].drop_last(),
                                        ).remove(rest));
                                        assert(walk_post(opp, m0, subh) == m0.remove(rest));
                                        assert(executed_events(opp, done) =~= executed_events(
                                            opp,
                                            done_prev,
                                        ) + seq![
                                            spec_event(
                                                EventKind::Internal(InternalEvent::Executed),
                                                rest,
                                            ),
                                        ]);
                                        assert(self.log_view() =~= old(self).log_view()
                                            + executed_events(opp, done));
                                    }
                                } else {
                                    self.g.push(r2);
                                    proof {
                                        broadcast use group_multiset_axioms;

                                        lemma_qty_sum_insert(self.book_side(opp).remove(r2), r2);
                                        assert(self.book_side(opp).remove(r2).insert(r2)
                                            =~= self.book_side(opp));
                                        lemma_qty_sum_insert(m0.remove(rest), r2);
                                        let bp = best_pair(hp);
                                        let subh = match_walk(opp, hp, o, need0);
                                        if need0 == 0 {
                                            assert(subh.consumed =~= Seq::<QPair>::empty());
                                            assert(done + subh.consumed =~= done);
                                            assert(entry_orders(
                                                opp,
                                                Seq::<QPair>::empty(),
                                            ) =~= Seq::<Order>::empty());
                                            assert(walk_post(opp, m0, subh) == m0);
                                            assert(r2 == rest);
                                            assert(self.book_side(opp) =~= m0);
                                        } else {
                                            assert(need0 < rest.current_qty);
                                            assert(subh.consumed =~= Seq::<QPair>::empty());
                                            assert(subh.survivor == Option::Some((bp, need0))
                                                && subh.residual == 0);
                                            assert(done + subh.consumed =~= done);
                                            assert(entry_orders(
                                                opp,
                                                Seq::<QPair>::empty(),
                                            ) =~= Seq::<Order>::empty());
                                            assert(orders_minus(
                                                m0,
                                                entry_orders(opp, subh.consumed),
                                            ) == m0);
                                            assert(r2 == with_qty(
                                                rest,
                                                (rest.current_qty - need0) as u64,
                                            ));
                                            assert(walk_post(opp, m0, subh) == m0.remove(
                                                rest,
                                            ).insert(r2));
                                            assert(self.book_side(opp) =~= m0.remove(rest).insert(
                                                r2,
                                            ));
                                        }
                                    }
                                }
                                break ;
                            }
                        },
                    }
                },
            }
        }
        proof {
            assert(self.log_view() == old(self).log_view() + executed_events(opp, w0.consumed));
        }
        cur
    }
    /// Drains the recovery buffer back into the book, in parking order. When
    /// the head of the book on the parked side shares the price of the last
    /// parked order, the whole price level is drained into the buffer first,
    /// so the parked orders re-enter no later than orders of that price that
    /// arrived after them. Parked orders left without quantity are not
    /// re-pushed; each is reported Executed instead.
    pub fn put_recovered_orders_back(&mut self)
        requires
            old(self).book_wf(),
            forall|i: int|
                0 <= i < old(self).buffer_view().len() ==> (#[trigger] old(self).buffer_view()[i]).wf()
                    && old(self).buffer_view()[i].side == old(self).buffer_view()[0].side,
            old(self).buffer_view().len() > 0 ==> old(self).headroom() >= old(
                self,
            ).buffer_view().len() + old(self).book_side(old(self).buffer_view()[0].side).len() + 1,
        ensures
            final(self).wf(),
            old(self).log_view().is_prefix_of(final(self).log_view()),
            forall|i: int|
                old(self).log_view().len() <= i < final(self).log_view().len() ==> (
                #[trigger] final(self).log_view()[i]).kind == EventKind::Internal(
                    InternalEvent::Executed,
                ) && final(self).log_view()[i].side == old(self).buffer_view()[0].side,
            old(self).buffer_view().len() == 0 ==> final(self).book_side(Side::Buy) == old(
                self,
            ).book_side(Side::Buy) && final(self).book_side(Side::Sell) == old(self).book_side(
                Side::Sell,
            ) && final(self).log_view() == old(self).log_view(),
            old(self).buffer_view().len() > 0 ==> final(self).book_side(
                old(self).buffer_view()[0].side,
            ) == old(self).book_side(old(self).buffer_view()[0].side).add(
                live_mset(old(self).buffer_view()),
            ) && final(self).book_side(spec_opposite(old(self).buffer_view()[0].side)) == old(
                self,
            ).book_side(spec_opposite(old(self).buffer_view()[0].side)),
            (forall|i: int|
                0 <= i < old(self).buffer_view().len() ==> (#[trigger] old(self).buffer_view()[i]).current_qty
                    > 0) ==> final(self).log_view() == old(self).log_view(),
            old(self).buffer_view().len() == 0 ==> final(self).headroom() == old(self).headroom(),
            old(self).buffer_view().len() > 0 ==> final(self).headroom() >= old(self).headroom()
                - (old(self).buffer_view().len() + old(self).book_side(
                old(self).buffer_view()[0].side,
            ).len() + 1),
    {
        let ghost all_pos = forall|i: int|
            0 <= i < old(self).buffer_view().len() ==> (#[trigger] old(self).buffer_view()[i]).current_qty
                > 0;
        if self.orders_to_recover.len() == 0 {
            return ;
        }
        let last = match self.orders_to_recover.pop_back() {
            Option::Some(x) => x,
            Option::None => {
                proof {
                    assert(false);
                }
                return ;
            },
        };
        self.orders_to_recover.push_back(last);
        proof {
            assert(self.orders_to_recover@ =~= old(self).orders_to_recover@);
        }
        let s = last.side();
        let border_price = last.price();
        let ghost s0 = old(self).buffer_view()[0].side;
        proof {
            assert(old(self).buffer_view()[old(self).buffer_view().len() - 1].wf());
            assert(s == s0);
        }
        // Drain the book's head price level if it matches the last parked order.
        loop
            invariant_except_break
                self.headroom() >= self.buffer_view().len() + self.book_side(s0).len() + 1,
                self.headroom() == old(self).headroom(),
            invariant
                self.g.wf(),
                s == s0,
                old(self).buffer_view().len() > 0,
                forall|i: int|
                    0 <= i < self.buffer_view().len() ==> (#[trigger] self.buffer_view()[i]).wf()
                        && self.buffer_view()[i].side == s0,
                self.book_side(s0).add(live_mset(self.buffer_view())) =~= old(self).book_side(
                    s0,
                ).add(live_mset(old(self).buffer_view())),
                self.book_side(spec_opposite(s0)) == old(self).book_side(spec_opposite(s0)),
                self.log_view() == old(self).log_view(),
                self.buffer_view().len() > 0,
                all_pos ==> forall|i: int|
                    0 <= i < self.buffer_view().len() ==> (#[trigger] self.buffer_view()[i]).current_qty
                        > 0,
                self.buffer_view().len() + self.book_side(s0).len() <= old(
                    self,
                ).buffer_view().len() + old(self).book_side(s0).len(),
            ensures
                self.g.wf(),
                forall|i: int|
                    0 <= i < self.buffer_view().len() ==> (#[trigger] self.buffer_view()[i]).wf()
                        && self.buffer_view()[i].side == s0,
                self.book_side(s0).add(live_mset(self.buffer_view())) =~= old(self).book_side(
                    s0,
                ).add(live_mset(old(self).buffer_view())),
                self.book_side(spec_opposite(s0)) == old(self).book_side(spec_opposite(s0)),
                self.log_view() == old(self).log_view(),
                self.headroom() >= self.buffer_view().len(),
                all_pos ==> forall|i: int|
                    0 <= i < self.buffer_view().len() ==> (#[trigger] self.buffer_view()[i]).current_qty
                        > 0,
                self.headroom() >= old(self).headroom() - 1,
                self.buffer_view().len() <= old(self).buffer_view().len() + old(self).book_side(
                    s0,
                ).len(),
            decreases self.book_side(s0).len(),
        {
            let ghost m0 = self.book_side(s0);
            let popped = self.g.pop(s);
            match popped {
                Option::None => {
                    break ;
                },
                Option::Some(front) => {
                    if front.price() != border_price {
                        self.g.push(front);
                        proof {
                            broadcast use group_multiset_axioms;

                            assert(self.book_side(s0) =~= m0);
                        }
                        break ;
                    } else {
                        let ghost b0 = self.buffer_view();
                        self.orders_to_recover.push_back(front);
                        proof {
                            broadcast use group_multiset_axioms;

                            lemma_live_mset_push(b0, front);
                            assert(self.book_side(s0).add(live_mset(self.buffer_view()))
                                =~= m0.add(live_mset(b0)));
                        }
                    }
                },
            }
        }
        // Re-insert the parked orders in parking order.
        let ghost hr_b = self.headroom();
        let ghost buf_b = self.buffer_view().len() as int;
        loop
            invariant
                self.g.wf(),
                self.headroom() >= hr_b - (buf_b - self.buffer_view().len()),
                self.buffer_view().len() <= buf_b,
                forall|i: int|
                    0 <= i < self.buffer_view().len() ==> (#[trigger] self.buffer_view()[i]).wf()
                        && self.buffer_view()[i].side == s0,
                self.book_side(s0).add(live_mset(self.buffer_view())) =~= old(self).book_side(
                    s0,
                ).add(live_mset(old(self).buffer_view())),
                self.book_side(spec_opposite(s0)) == old(self).book_side(spec_opposite(s0)),
                old(self).log_view().is_prefix_of(self.log_view()),
                forall|i: int|
                    old(self).log_view().len() <= i < self.log_view().len() ==> (
                    #[trigger] self.log_view()[i]).kind == EventKind::Internal(
                        InternalEvent::Executed,
                    ) && self.log_view()[i].side == s0,
                self.headroom() >= self.buffer_view().len(),
                all_pos ==> (forall|i: int|
                    0 <= i < self.buffer_view().len() ==> (#[trigger] self.buffer_view()[i]).current_qty
                        > 0) && self.log_view() == old(self).log_view(),
            ensures
                self.g.wf(),
                self.buffer_view().len() == 0,
                self.book_side(s0).add(live_mset(self.buffer_view())) =~= old(self).book_side(
                    s0,
                ).add(live_mset(old(self).buffer_view())),
                self.book_side(spec_opposite(s0)) == old(self).book_side(spec_opposite(s0)),
                old(self).log_view().is_prefix_of(self.log_view()),
                forall|i: int|
                    old(self).log_view().len() <= i < self.log_view().len() ==> (
                    #[trigger] self.log_view()[i]).kind == EventKind::Internal(
                        InternalEvent::Executed,
                    ) && self.log_view()[i].side == s0,
                all_pos ==> self.log_view() == old(self).log_view(),
                self.headroom() >= hr_b - buf_b,
            decreases self.buffer_view().len(),
        {
            let popped = self.orders_to_recover.pop_front();
            match popped {
                Option::None => {
                    break ;
                },
                Option::Some(o) => {
                    if o.current_qty() > 0 {
                        self.g.push(o);
                        proof {
                            broadcast use group_multiset_axioms;
                        }
                    } else {
                        self.log.push(
                            Event::for_order(EventKind::Internal(InternalEvent::Executed), &o),
                        );
                    }
                },
            }
        }
        proof {
            broadcast use group_multiset_axioms;

            assert(live_mset(self.buffer_view()) =~= Multiset::<Order>::empty());
            assert(self.book_side(s0) =~= old(self).book_side(s0).add(
                live_mset(old(self).buffer_view()),
            ));
        }
    }

    /// Limit discipline: match, then rest any residual on the book under a
    /// Queued report; a wholly consumed order is reported Executed.
    pub fn process_lim(&mut self, o: Order) -> (rq: u64)
        requires
            old(self).wf(),
            o.wf(),
            old(self).headroom() >= 2,
        ensures
            final(self).wf(),
            final(self).headroom() >= old(self).headroom() - 2,
            final(self).book_side(spec_opposite(o.side)).len() <= old(self).book_side(
                spec_opposite(o.side),
            ).len(),
            final(self).book_side(o.side).len() <= old(self).book_side(o.side).len() + 1,
            rq <= o.current_qty,
            qty_sum(final(self).book_side(spec_opposite(o.side))) == qty_sum(
                old(self).book_side(spec_opposite(o.side)),
            ) - (o.current_qty - rq),
            rq > 0 ==> final(self).book_side(o.side) == old(self).book_side(o.side).insert(
                with_qty(o, rq),
            ),
            rq == 0 ==> final(self).book_side(o.side) == old(self).book_side(o.side),
            old(self).log_view().is_prefix_of(final(self).log_view()),
            final(self).log_view().len() > old(self).log_view().len(),
            forall|i: int|
                old(self).log_view().len() <= i < final(self).log_view().len() - 1 ==> (
                #[trigger] final(self).log_view()[i]).kind == EventKind::Internal(
                    InternalEvent::Executed,
                ) && final(self).log_view()[i].side == spec_opposite(o.side),
            rq > 0 ==> final(self).log_view().last() == spec_event(
                EventKind::External(ExternalEvent::Queued),
                o,
            ),
            rq == 0 ==> final(self).log_view().last() == spec_event(
                EventKind::Internal(InternalEvent::Executed),
                o,
            ),
            rq > 0 ==> final(self).book_side(spec_opposite(o.side)).len() == 0 || exists|h: Order|
                #[trigger] final(self).book_side(spec_opposite(o.side)).contains(h) && (forall|
                    q: Order,
                |
                    final(self).book_side(spec_opposite(o.side)).contains(q) ==> spec_price_le(
                        spec_opposite(o.side),
                        q.price,
                        h.price,
                    )) && spec_orders_match(with_qty(o, rq), h) != MatchResult::Matched,
            ({
                let w = match_walk(
                    spec_opposite(o.side),
                    old(self).book_pairs(spec_opposite(o.side)),
                    o,
                    o.current_qty,
                );
                &&& rq == w.residual
                &&& final(self).book_side(spec_opposite(o.side)) == walk_post(
                    spec_opposite(o.side),
                    old(self).book_side(spec_opposite(o.side)),
                    w,
                )
                &&& final(self).log_view() == old(self).log_view() + executed_events(
                    spec_opposite(o.side),
                    w.consumed,
                ) + (if w.residual > 0 {
                    seq![spec_event(EventKind::External(ExternalEvent::Queued), o)]
                } else {
                    seq![spec_event(EventKind::Internal(InternalEvent::Executed), o)]
                })
            }),
    {
        let ghost opp = spec_opposite(o.side);
        let ghost w = match_walk(opp, self.book_pairs(opp), o, o.current_qty);
        let r = self.common_processing(o);
        if r.current_qty() != 0 {
            self.log.push(Event::for_order(EventKind::External(ExternalEvent::Queued), &r));
            self.g.push(r);
            proof {
                assert(self.log_view() =~= old(self).log_view() + executed_events(opp, w.consumed)
                    + seq![spec_event(EventKind::External(ExternalEvent::Queued), o)]);
            }
        } else {
            self.log.push(Event::for_order(EventKind::Internal(InternalEvent::Executed), &r));
            proof {
                assert(self.log_view() =~= old(self).log_view() + executed_events(opp, w.consumed)
                    + seq![spec_event(EventKind::Internal(InternalEvent::Executed), o)]);
            }
        }
        r.current_qty()
    }

    /// Immediate-or-cancel discipline: match, then discard any residual; the
    /// terminal report follows the residual (Executed, PartiallyExecuted or
    /// Canceled).
    pub fn process_ioc(&mut self, o: Order) -> (rq: u64)
        requires
            old(self).wf(),
            o.wf(),
            old(self).headroom() >= 1,
        ensures
            final(self).wf(),
            final(self).headroom() >= old(self).headroom() - 1,
            final(self).book_side(spec_opposite(o.side)).len() <= old(self).book_side(
                spec_opposite(o.side),
            ).len(),
            rq <= o.current_qty,
            qty_sum(final(self).book_side(spec_opposite(o.side))) == qty_sum(
                old(self).book_side(spec_opposite(o.side)),
            ) - (o.current_qty - rq),
            final(self).book_side(o.side) == old(self).book_side(o.side),
            old(self).log_view().is_prefix_of(final(self).log_view()),
            final(self).log_view().len() > old(self).log_view().len(),
            forall|i: int|
                old(self).log_view().len() <= i < final(self).log_view().len() - 1 ==> (
                #[trigger] final(self).log_view()[i]).kind == EventKind::Internal(
                    InternalEvent::Executed,
                ) && final(self).log_view()[i].side == spec_opposite(o.side),
            final(self).log_view().last() == spec_event(
                EventKind::Internal(with_qty(o, rq).spec_terminal_event()),
                o,
            ),
            ({
                let w = match_walk(
                    spec_opposite(o.side),
                    old(self).book_pairs(spec_opposite(o.side)),
                    o,
                    o.current_qty,
                );
                &&& rq == w.residual
                &&& final(self).book_side(spec_opposite(o.side)) == walk_post(
                    spec_opposite(o.side),
                    old(self).book_side(spec_opposite(o.side)),
                    w,
                )
                &&& final(self).log_view() == old(self).log_view() + executed_events(
                    spec_opposite(o.side),
                    w.consumed,
                ) + seq![
                    spec_event(EventKind::Internal(with_qty(o, w.residual).spec_terminal_event()), o),
                ]
            }),
            rq > 0 ==> final(self).book_side(spec_opposite(o.side)).len() == 0 || exists|h: Order|
                #[trigger] final(self).book_side(spec_opposite(o.side)).contains(h) && (forall|
                    q: Order,
                |
                    final(self).book_side(spec_opposite(o.side)).contains(q) ==> spec_price_le(
                        spec_opposite(o.side),
                        q.price,
                        h.price,
                    )) && spec_orders_match(with_qty(o, rq), h) != MatchResult::Matched,
    {
        let ghost opp = spec_opposite(o.side);
        let ghost w = match_walk(opp, self.book_pairs(opp), o, o.current_qty);
        let r = self.common_processing(o);
        let ev = r.terminal_event();
        self.log.push(Event::for_order(EventKind::Internal(ev), &r));
        proof {
            assert(r == with_qty(o, w.residual));
            assert(self.log_view() =~= old(self).log_view() + executed_events(opp, w.consumed)
                + seq![
                spec_event(EventKind::Internal(with_qty(o, w.residual).spec_terminal_event()), o),
            ]);
        }
        r.current_qty()
    }

    /// Fill-or-kill discipline: a probe pops best opposite orders into the
    /// recovery buffer without altering them; the order fills exactly when the
    /// matching walk over the pre-state ends with residual 0. On success the
    /// parked quantity is consumed, each wholly consumed resting order is
    /// reported Executed in pop order, and the one possibly partial survivor
    /// returns to the book reduced; on failure every parked order returns
    /// unchanged, so the book ends exactly as it began, and the order is
    /// reported Canceled.
    #[verifier::rlimit(80)]
    pub fn process_fok(&mut self, o: Order) -> (rq: u64)
        requires
            old(self).wf(),
            o.wf(),
            old(self).headroom() >= old(self).book_side(Side::Buy).len() + old(self).book_side(
                Side::Sell,
            ).len() + 2,
        ensures
            final(self).wf(),
            final(self).headroom() >= old(self).headroom() - (old(self).book_side(
                spec_opposite(o.side),
            ).len() + 2),
            final(self).book_side(spec_opposite(o.side)).len() <= old(self).book_side(
                spec_opposite(o.side),
            ).len(),
            final(self).book_side(o.side).len() <= old(self).book_side(o.side).len(),
            rq == 0 || rq == o.current_qty,
            rq > 0 ==> final(self).book_side(Side::Buy) == old(self).book_side(Side::Buy)
                && final(self).book_side(Side::Sell) == old(self).book_side(Side::Sell)
                && final(self).log_view().last() == spec_event(
                EventKind::Internal(InternalEvent::Canceled),
                o,
            ),
            rq == 0 ==> qty_sum(final(self).book_side(spec_opposite(o.side))) == qty_sum(
                old(self).book_side(spec_opposite(o.side)),
            ) - o.current_qty && final(self).book_side(o.side) == old(self).book_side(o.side)
                && final(self).log_view().last() == spec_event(
                EventKind::Internal(InternalEvent::Executed),
                o,
            ),
            old(self).log_view().is_prefix_of(final(self).log_view()),
            final(self).log_view().len() > old(self).log_view().len(),
            forall|i: int|
                old(self).log_view().len() <= i < final(self).log_view().len() - 1 ==> (
                #[trigger] final(self).log_view()[i]).kind == EventKind::Internal(
                    InternalEvent::Executed,
                ) && final(self).log_view()[i].side == spec_opposite(o.side),
            ({
                let w = match_walk(
                    spec_opposite(o.side),
                    old(self).book_pairs(spec_opposite(o.side)),
                    o,
                    o.current_qty,
                );
                &&& (rq == 0) == (w.residual == 0)
                &&& (w.residual == 0 ==> final(self).book_side(spec_opposite(o.side)) == walk_post(
                    spec_opposite(o.side),
                    old(self).book_side(spec_opposite(o.side)),
                    w,
                ) && final(self).log_view() == old(self).log_view() + executed_events(
                    spec_opposite(o.side),
                    w.consumed,
                ) + seq![spec_event(EventKind::Internal(InternalEvent::Executed), o)])
                &&& (w.residual > 0 ==> final(self).log_view() == old(self).log_view() + seq![
                    spec_event(EventKind::Internal(InternalEvent::Canceled), o),
                ])
            }),
    {
        let opp_s = opposite_side(&o);
        let ghost opp = spec_opposite(o.side);
        let ghost pairs0 = self.book_pairs(opp);
        let ghost w0 = match_walk(opp, pairs0, o, o.current_qty);
        let mut need = o.current_qty();
        let mut last_take: u64 = 0;
        let mut has_survivor = false;
        let ghost mut done: Seq<QPair> = Seq::empty();
        let ghost mut parked: Seq<QPair> = Seq::empty();
        proof {
            broadcast use group_multiset_axioms;

            assert(live_mset(self.buffer_view()) =~= Multiset::<Order>::empty());
            lemma_qty_sum_empty(live_mset(self.buffer_view()));
            assert(old(self).book_side(opp) =~= self.book_side(opp).add(
                live_mset(self.buffer_view()),
            ));
            assert(Seq::<QPair>::empty() + w0.consumed =~= w0.consumed);
            assert(self.buffer_view() =~= entry_orders(opp, parked));
        }
        loop
            invariant_except_break
                has_survivor == false,
                last_take == 0,
                parked == done,
                ({
                    let sub = match_walk(opp, self.book_pairs(opp), o, need);
                    &&& w0.consumed == done + sub.consumed
                    &&& w0.survivor == sub.survivor
                    &&& w0.residual == sub.residual
                }),
            invariant
                self.g.wf(),
                opp == spec_opposite(o.side),
                opp_s == opp,
                o.side == spec_opposite(opp),
                o.wf(),
                need <= o.current_qty,
                forall|i: int|
                    0 <= i < self.buffer_view().len() ==> (#[trigger] self.buffer_view()[i]).wf()
                        && self.buffer_view()[i].side == opp && self.buffer_view()[i].current_qty
                        > 0,
                old(self).book_side(opp) =~= self.book_side(opp).add(
                    live_mset(self.buffer_view()),
                ),
                self.book_side(o.side) == old(self).book_side(o.side),
                self.log_view() == old(self).log_view(),
                self.headroom() == old(self).headroom(),
                o.current_qty - need <= qty_sum(live_mset(self.buffer_view())),
                self.buffer_view().len() + self.book_side(opp).len() == old(self).book_side(
                    opp,
                ).len(),
                self.buffer_view() == entry_orders(opp, parked),
            ensures
                need == w0.residual,
                self.buffer_view() == entry_orders(opp, parked),
                need == 0 ==> ((!has_survivor && w0.survivor == Option::<(QPair, u64)>::None
                    && w0.consumed == parked) || (has_survivor && parked.len() > 0 && w0.survivor
                    == Option::Some((parked.last(), last_take)) && w0.consumed
                    == parked.drop_last() && 0 < last_take && last_take < spec_order_of(
                    opp,
                    parked.last().0,
                ).current_qty)),
            decreases self.book_side(opp).len(),
        {
            if need == 0 {
                proof {
                    assert(match_walk(opp, self.book_pairs(opp), o, need).consumed =~= Seq::<
                        QPair,
                    >::empty());
                    assert(done + match_walk(opp, self.book_pairs(opp), o, need).consumed
                        =~= done);
                }
                break ;
            }
            let ghost m0 = self.book_side(opp);
            let ghost hp = self.book_pairs(opp);
            let ghost need0 = need;
            proof {
                self.g.lemma_orders_is_erase(opp);
                crate::book::lemma_erase_len(opp, hp);
            }
            let popped = self.g.pop(opp_s);
            match popped {
                Option::None => {
                    proof {
                        assert(hp.len() == 0);
                        assert(match_walk(opp, hp, o, need0).consumed =~= Seq::<QPair>::empty());
                        assert(done + match_walk(opp, hp, o, need0).consumed =~= done);
                    }
                    break ;
                },
                Option::Some(rest) => {
                    proof {
                        broadcast use group_multiset_axioms;

                        assert(m0.contains(rest));
                        assert(m0.len() > 0);
                        assert(hp.len() > 0);
                        assert(rest == spec_order_of(opp, best_pair(hp).0));
                    }
                    match orders_match(&o, &rest) {
                        MatchResult::SameSide => {
                            // Unreachable: the pair was popped from the queue
                            // of the opposite side, so the sides differ.
                            proof {
                                assert(o.side == rest.side);
                                assert(rest.side == opp);
                                assert(false);
                            }
                            break ;
                        },
                        MatchResult::SameUser | MatchResult::Discrepancy => {
                            let ghost b0 = self.buffer_view();
                            self.orders_to_recover.push_back(rest);
                            proof {
                                broadcast use group_multiset_axioms;

                                lemma_live_mset_push(b0, rest);
                                lemma_qty_sum_insert(live_mset(b0), rest);
                                assert(old(self).book_side(opp) =~= self.book_side(opp).add(
                                    live_mset(self.buffer_view()),
                                ));
                                let bp = best_pair(hp);
                                parked = parked + seq![bp];
                                assert(self.buffer_view() =~= entry_orders(opp, parked));
                                let sub = match_walk(opp, hp, o, need0);
                                assert(sub.consumed =~= Seq::<QPair>::empty());
                                assert(done + sub.consumed =~= done);
                            }
                            break ;
                        },
                        MatchResult::Matched => {
                            let ghost b0 = self.buffer_view();
                            self.orders_to_recover.push_back(rest);
                            proof {
                                broadcast use group_multiset_axioms;

                                lemma_live_mset_push(b0, rest);
                                lemma_qty_sum_insert(live_mset(b0), rest);
                                assert(old(self).book_side(opp) =~= self.book_side(opp).add(
                                    live_mset(self.buffer_view()),
                                ));
                                let bp = best_pair(hp);
                                parked = parked + seq![bp];
                                assert(self.buffer_view() =~= entry_orders(opp, parked));
                            }
                            if need > rest.current_qty() {
                                need = need - rest.current_qty();
                                proof {
                                    let bp = best_pair(hp);
                                    let subh = match_walk(opp, hp, o, need0);
                                    let subn = match_walk(
                                        opp,
                                        hp.remove(bp),
                                        o,
                                        (need0 - rest.current_qty) as u64,
                                    );
                                    assert(subh.consumed == seq![bp] + subn.consumed
                                        && subh.survivor == subn.survivor && subh.residual
                                        == subn.residual);
                                    let done_prev = done;
                                    done = done + seq![bp];
                                    assert(done_prev + (seq![bp] + subn.consumed) =~= done
                                        + subn.consumed);
                                }
                            } else {
                                if need == rest.current_qty() {
                                    proof {
                                        let bp = best_pair(hp);
                                        let subh = match_walk(opp, hp, o, need0);
                                        assert(subh.consumed == seq![bp] && subh.survivor
                                            == Option::<(QPair, u64)>::None && subh.residual
                                            == 0);
                                        let done_prev = done;
                                        done = done + seq![bp];
                                        assert(done_prev + seq![bp] =~= done);
                                        assert(w0.consumed == done_prev + subh.consumed);
                                        assert(done_prev + subh.consumed =~= parked);
                                        assert(w0.consumed == parked);
                                    }
                                    need = 0;
                                    break ;
                                } else {
                                    last_take = need;
                                    has_survivor = true;
                                    proof {
                                        let bp = best_pair(hp);
                                        let subh = match_walk(opp, hp, o, need0);
                                        assert(subh.consumed =~= Seq::<QPair>::empty());
                                        assert(subh.survivor == Option::Some((bp, need0))
                                            && subh.residual == 0);
                                        assert(done + subh.consumed =~= done);
                                        assert(w0.consumed == done);
                                        assert(parked.last() == bp);
                                        assert(parked.drop_last() =~= done);
                                    }
                                    need = 0;
                                    break ;
                                }
                            }
                        },
                    }
                },
            }
        }
        if need == 0 {
            // Success: consume exactly the walked quantity from the parked
            // orders; only the survivor keeps quantity and returns.
            let ghost full = parked;
            let ghost bookp = self.book_side(opp);
            let ghost log_mid = self.log_view();
            let ghost mut i: int = 0;
            let mut kept: VecDeque<Order> = VecDeque::new();
            proof {
                broadcast use group_multiset_axioms;

                assert(kept@ =~= Seq::<Order>::empty());
                assert(entry_orders(opp, full).skip(0) =~= entry_orders(opp, full));
                assert(full.take(0) =~= Seq::<QPair>::empty());
                assert(executed_events(opp, full.take(0)) =~= Seq::<Event>::empty());
                assert(log_mid + executed_events(opp, full.take(0)) =~= log_mid);
                assert forall|j: int| 0 <= j < full.len() implies (#[trigger] spec_order_of(
                    opp,
                    full[j].0,
                )).wf() && spec_order_of(opp, full[j].0).side == opp && spec_order_of(
                    opp,
                    full[j].0,
                ).current_qty > 0 by {
                    assert(self.buffer_view()[j] == spec_order_of(opp, full[j].0));
                }
            }
            loop
                invariant
                    self.g.wf(),
                    opp == spec_opposite(o.side),
                    o.side == spec_opposite(opp),
                    self.book_side(opp) == bookp,
                    self.book_side(o.side) == old(self).book_side(o.side),
                    self.headroom() == old(self).headroom(),
                    log_mid == old(self).log_view(),
                    0 <= i <= full.len(),
                    self.buffer_view() == entry_orders(opp, full).skip(i),
                    forall|j: int|
                        0 <= j < full.len() ==> (#[trigger] spec_order_of(opp, full[j].0)).wf()
                            && spec_order_of(opp, full[j].0).side == opp && spec_order_of(
                            opp,
                            full[j].0,
                        ).current_qty > 0,
                    has_survivor ==> full.len() >= 1 && 0 < last_take && last_take
                        < spec_order_of(opp, full.last().0).current_qty,
                    !has_survivor ==> self.log_view() == log_mid + executed_events(
                        opp,
                        full.take(i),
                    ) && kept@.len() == 0,
                    has_survivor && i < full.len() ==> self.log_view() == log_mid
                        + executed_events(opp, full.take(i)) && kept@.len() == 0,
                    has_survivor && i == full.len() ==> self.log_view() == log_mid
                        + executed_events(opp, full.take(full.len() - 1)) && kept@ == seq![
                        with_qty(
                            spec_order_of(opp, full.last().0),
                            (spec_order_of(opp, full.last().0).current_qty - last_take) as u64,
                        ),
                    ],
                ensures
                    i == full.len(),
                    self.buffer_view().len() == 0,
                decreases self.buffer_view().len(),
            {
                let popped = self.orders_to_recover.pop_front();
                match popped {
                    Option::None => {
                        proof {
                            assert(entry_orders(opp, full).skip(i).len() == 0);
                            assert(i == full.len());
                        }
                        break ;
                    },
                    Option::Some(rest) => {
                        proof {
                            assert(entry_orders(opp, full).skip(i).len() > 0);
                            assert(i < full.len());
                            assert(rest == entry_orders(opp, full).skip(i)[0]);
                            assert(rest == spec_order_of(opp, full[i].0));
                            assert(self.buffer_view() =~= entry_orders(opp, full).skip(i + 1));
                        }
                        let is_last = self.orders_to_recover.len() == 0;
                        if has_survivor && is_last {
                            let mut r2 = rest;
                            r2.reduce_quantity(last_take);
                            kept.push_back(r2);
                            proof {
                                assert(entry_orders(opp, full).skip(i + 1).len() == 0);
                                assert(i + 1 == full.len());
                                assert(full[i] == full.last());
                                assert(full.take(i) =~= full.take(full.len() - 1));
                                assert(kept@ =~= seq![
                                    with_qty(
                                        spec_order_of(opp, full.last().0),
                                        (spec_order_of(opp, full.last().0).current_qty
                                            - last_take) as u64,
                                    ),
                                ]);
                                i = i + 1;
                            }
                        } else {
                            self.log.push(
                                Event::for_order(
                                    EventKind::Internal(InternalEvent::Executed),
                                    &rest,
                                ),
                            );
                            proof {
                                if has_survivor {
                                    assert(entry_orders(opp, full).skip(i + 1).len() > 0);
                                    assert(i + 1 < full.len());
                                }
                                assert(full.take(i + 1) =~= full.take(i).push(full[i]));
                                assert(executed_events(opp, full.take(i + 1)) =~= executed_events(
                                    opp,
                                    full.take(i),
                                ).push(
                                    spec_event(EventKind::Internal(InternalEvent::Executed), rest),
                                ));
                                assert(self.log_view() =~= log_mid + executed_events(
                                    opp,
                                    full.take(i + 1),
                                ));
                                i = i + 1;
                            }
                        }
                    },
                }
            }
            self.orders_to_recover = kept;
            let ghost kept_view = self.buffer_view();
            let ghost log_walked = self.log_view();
            proof {
                broadcast use group_multiset_axioms;

                lemma_walk_qty(opp, pairs0, o, o.current_qty);
                lemma_live_qty(entry_orders(opp, full));
                crate::book::lemma_qty_sum_add(bookp, live_mset(entry_orders(opp, full)));
                if has_survivor {
                    let sl = spec_order_of(opp, full.last().0);
                    let red = with_qty(sl, (sl.current_qty - last_take) as u64);
                    assert(kept_view =~= seq![red]);
                    assert(entry_orders(opp, full) =~= entry_orders(opp, full.drop_last()).push(
                        sl,
                    ));
                    lemma_live_mset_push(entry_orders(opp, full.drop_last()), sl);
                    assert(entry_orders(opp, w0.consumed) =~= entry_orders(opp, full.drop_last()));
                    lemma_minus_add(
                        bookp.insert(sl),
                        entry_orders(opp, full.drop_last()),
                    );
                    assert(old(self).book_side(opp) =~= bookp.insert(sl).add(
                        live_mset(entry_orders(opp, full.drop_last())),
                    ));
                    assert(orders_minus(
                        old(self).book_side(opp),
                        entry_orders(opp, w0.consumed),
                    ) == bookp.insert(sl));
                    assert(walk_post(opp, old(self).book_side(opp), w0) =~= bookp.insert(red));
                    lemma_live_qty(entry_orders(opp, full.drop_last()));
                } else {
                    assert(w0.consumed == full);
                    assert(kept_view.len() == 0);
                    lemma_minus_add(bookp, entry_orders(opp, full));
                    assert(orders_minus(
                        old(self).book_side(opp),
                        entry_orders(opp, w0.consumed),
                    ) == bookp);
                    assert(walk_post(opp, old(self).book_side(opp), w0) == bookp);
                }
            }
            self.put_recovered_orders_back();
            proof {
                broadcast use group_multiset_axioms;

                if has_survivor {
                    let sl = spec_order_of(opp, full.last().0);
                    let red = with_qty(sl, (sl.current_qty - last_take) as u64);
                    assert(kept_view[0] == red);
                    assert(kept_view[0].side == opp);
                    assert(kept_view.len() == 1);
                    assert(kept_view.first() == red);
                    assert(red.current_qty > 0);
                    assert(kept_view.drop_first() =~= Seq::<Order>::empty());
                    assert(live_mset(kept_view.drop_first()) =~= Multiset::<Order>::empty());
                    assert(live_mset(kept_view) =~= Multiset::<Order>::empty().insert(red));
                    assert(self.book_side(opp) =~= bookp.insert(red));
                    assert(self.log_view() == log_walked);
                } else {
                    assert(self.book_side(opp) == bookp);
                    assert(self.log_view() == log_walked);
                }
                assert(self.book_side(opp) == walk_post(opp, old(self).book_side(opp), w0));
                assert(full.len() + bookp.len() == old(self).book_side(opp).len());
                assert(kept_view.len() <= 1);
                if kept_view.len() > 0 {
                    assert(full.len() >= 1);
                    assert(self.book_side(opp).len() == bookp.len() + live_mset(kept_view).len());
                    assert(live_mset(kept_view).len() == 1);
                } else {
                    assert(self.book_side(opp).len() == bookp.len());
                }
                assert(self.book_side(opp).len() <= old(self).book_side(opp).len());
                assert(self.headroom() >= old(self).headroom() - (old(self).book_side(
                    opp,
                ).len() + 2));
                assert(qty_sum(self.book_side(opp)) == qty_sum(old(self).book_side(opp))
                    - o.current_qty) by {
                    if has_survivor {
                        let sl = spec_order_of(opp, full.last().0);
                        let red = with_qty(sl, (sl.current_qty - last_take) as u64);
                        lemma_qty_sum_insert(bookp, red);
                        assert(seq_qty(entry_orders(opp, full)) == seq_qty(
                            entry_orders(opp, full).drop_last(),
                        ) + sl.current_qty);
                        assert(entry_orders(opp, full).drop_last() =~= entry_orders(
                            opp,
                            full.drop_last(),
                        ));
                    } else {
                        assert(entry_orders(opp, w0.consumed) == entry_orders(opp, full));
                    }
                }
            }
            self.log.push(Event::for_order(EventKind::Internal(InternalEvent::Executed), &o));
            proof {
                assert(self.log_view() =~= old(self).log_view() + executed_events(
                    opp,
                    w0.consumed,
                ) + seq![spec_event(EventKind::Internal(InternalEvent::Executed), o)]);
                assert forall|j: int|
                    old(self).log_view().len() <= j < self.log_view().len() - 1 implies (
                #[trigger] self.log_view()[j]).kind == EventKind::Internal(InternalEvent::Executed)
                    && self.log_view()[j].side == opp by {
                    let k = j - old(self).log_view().len();
                    assert(self.log_view()[j] == executed_events(opp, w0.consumed)[k]);
                }
            }
            0
        } else {
            // Failure: everything parked goes back untouched.
            let ghost probe_book = self.book_side(opp);
            let ghost probe_buf = self.buffer_view();
            let ghost log_probe = self.log_view();
            self.put_recovered_orders_back();
            proof {
                broadcast use group_multiset_axioms;

                if probe_buf.len() > 0 {
                    assert(self.book_side(opp) == probe_book.add(live_mset(probe_buf)));
                } else {
                    assert(live_mset(probe_buf) =~= Multiset::<Order>::empty());
                    assert(self.book_side(opp) =~= probe_book.add(live_mset(probe_buf)));
                }
                assert(self.book_side(opp) =~= old(self).book_side(opp));
                assert(self.log_view() == log_probe);
                assert(probe_buf.len() + probe_book.len() == old(self).book_side(opp).len());
                assert(self.headroom() >= old(self).headroom() - (old(self).book_side(
                    opp,
                ).len() + 2));
            }
            self.log.push(Event::for_order(EventKind::Internal(InternalEvent::Canceled), &o));
            proof {
                assert(self.log_view() =~= old(self).log_view() + seq![
                    spec_event(EventKind::Internal(InternalEvent::Canceled), o),
                ]);
            }
            o.current_qty()
        }
    }

    /// Accepts one incoming order: reports it Accepted, then dispatches on its
    /// discipline. The Accepted report precedes every event the call adds; a
    /// fill-or-kill order either consumes exactly its quantity or leaves the
    /// book exactly as it was; and the quantity that leaves the opposite side
    /// always equals the quantity filled on the incoming order.
    pub fn proceed_record(&mut self, o: Order)
        requires
            old(self).wf(),
            o.wf(),
            o.current_qty == o.initial_qty,
            old(self).can_accept_spec(),
        ensures
            final(self).wf(),
            old(self).log_view().is_prefix_of(final(self).log_view()),
            forall|i: int|
                0 <= i < old(self).log_view().len() ==> final(self).log_view()[i] == old(
                    self,
                ).log_view()[i],
            final(self).log_view().len() > old(self).log_view().len(),
            final(self).log_view()[old(self).log_view().len() as int] == spec_event(
                EventKind::External(ExternalEvent::Accepted),
                o,
            ),
            forall|i: int|
                old(self).log_view().len() < i < final(self).log_view().len() ==> (
                #[trigger] final(self).log_view()[i]).kind != EventKind::External(
                    ExternalEvent::Accepted,
                ),
            o.order_type == OrderType::Fok ==> (final(self).book_side(Side::Buy) == old(
                self,
            ).book_side(Side::Buy) && final(self).book_side(Side::Sell) == old(self).book_side(
                Side::Sell,
            ) && final(self).log_view().last() == spec_event(
                EventKind::Internal(InternalEvent::Canceled),
                o,
            )) || (qty_sum(final(self).book_side(spec_opposite(o.side))) == qty_sum(
                old(self).book_side(spec_opposite(o.side)),
            ) - o.initial_qty && final(self).book_side(o.side) == old(self).book_side(o.side)
                && final(self).log_view().last() == spec_event(
                EventKind::Internal(InternalEvent::Executed),
                o,
            )),
            conserves_quantity(*old(self), *final(self), o),
            old(self).headroom() - final(self).headroom() <= old(self).book_side(
                Side::Buy,
            ).len() + old(self).book_side(Side::Sell).len() + 2,
            final(self).book_side(Side::Buy).len() + final(self).book_side(Side::Sell).len()
                <= old(self).book_side(Side::Buy).len() + old(self).book_side(Side::Sell).len()
                + 1,
            old(self).headroom() >= 2 * (old(self).book_side(Side::Buy).len() + old(
                self,
            ).book_side(Side::Sell).len()) + 5 ==> final(self).can_accept_spec(),
            ({
                let opp = spec_opposite(o.side);
                let w = match_walk(opp, old(self).book_pairs(opp), o, o.initial_qty);
                let acc = seq![spec_event(EventKind::External(ExternalEvent::Accepted), o)];
                match o.order_type {
                    OrderType::Lim => {
                        &&& final(self).book_side(opp) == walk_post(
                            opp,
                            old(self).book_side(opp),
                            w,
                        )
                        &&& (w.residual > 0 ==> final(self).book_side(o.side) == old(
                            self,
                        ).book_side(o.side).insert(with_qty(o, w.residual)) && final(self).log_view() == old(self).log_view() + acc + executed_events(
                            opp,
                            w.consumed,
                        ) + seq![spec_event(EventKind::External(ExternalEvent::Queued), o)])
                        &&& (w.residual == 0 ==> final(self).book_side(o.side) == old(
                            self,
                        ).book_side(o.side) && final(self).log_view() == old(self).log_view() + acc
                            + executed_events(opp, w.consumed) + seq![
                            spec_event(EventKind::Internal(InternalEvent::Executed), o),
                        ])
                    },
                    OrderType::Ioc => {
                        &&& final(self).book_side(opp) == walk_post(
                            opp,
                            old(self).book_side(opp),
                            w,
                        )
                        &&& final(self).book_side(o.side) == old(self).book_side(o.side)
                        &&& final(self).log_view() == old(self).log_view() + acc
                            + executed_events(opp, w.consumed) + seq![
                            spec_event(
                                EventKind::Internal(with_qty(o, w.residual).spec_terminal_event()),
                                o,
                            ),
                        ]
                    },
                    OrderType::Fok => {
                        &&& (w.residual == 0 ==> final(self).book_side(opp) == walk_post(
                            opp,
                            old(self).book_side(opp),
                            w,
                        ) && final(self).book_side(o.side) == old(self).book_side(o.side)
                            && final(self).log_view() == old(self).log_view() + acc
                            + executed_events(opp, w.consumed) + seq![
                            spec_event(EventKind::Internal(InternalEvent::Executed), o),
                        ])
                        &&& (w.residual > 0 ==> final(self).book_side(Side::Buy) == old(
                            self,
                        ).book_side(Side::Buy) && final(self).book_side(Side::Sell) == old(
                            self,
                        ).book_side(Side::Sell) && final(self).log_view() == old(self).log_view()
                            + acc + seq![
                            spec_event(EventKind::Internal(InternalEvent::Canceled), o),
                        ])
                    },
                }
            }),
    {
        let ghost opp = spec_opposite(o.side);
        let ghost w = match_walk(opp, self.book_pairs(opp), o, o.current_qty);
        let ghost acc = seq![spec_event(EventKind::External(ExternalEvent::Accepted), o)];
        self.log.push(Event::for_order(EventKind::External(ExternalEvent::Accepted), &o));
        let ghost mid = *self;
        proof {
            assert(mid.book_pairs(opp) == old(self).book_pairs(opp));
            assert(mid.log_view() =~= old(self).log_view() + acc);
        }
        match o.order_type() {
            OrderType::Lim => {
                let rq = self.process_lim(o);
                proof {
                    assert(with_qty(o, rq) == with_qty(o, rq));
                    assert(rq <= o.initial_qty);
                    assert(qty_sum(self.book_side(spec_opposite(o.side))) == qty_sum(
                        old(self).book_side(spec_opposite(o.side)),
                    ) - (o.initial_qty - rq));
                    if rq > 0 {
                        assert(self.book_side(o.side) == old(self).book_side(o.side).insert(
                            with_qty(o, rq),
                        ));
                    } else {
                        assert(self.book_side(o.side) == old(self).book_side(o.side));
                    }
                    assert(with_qty(o, rq).initial_qty == o.initial_qty);
                    if rq > 0 && self.book_side(spec_opposite(o.side)).len() != 0 {
                        assert(blocked_by_head(*self, spec_opposite(o.side), with_qty(o, rq)));
                    }
                    assert(conserves_quantity(*old(self), *self, o));
                    assert(rq == w.residual);
                    if w.residual > 0 {
                        assert(self.log_view() =~= old(self).log_view() + acc + executed_events(
                            opp,
                            w.consumed,
                        ) + seq![spec_event(EventKind::External(ExternalEvent::Queued), o)]);
                    } else {
                        assert(self.log_view() =~= old(self).log_view() + acc + executed_events(
                            opp,
                            w.consumed,
                        ) + seq![spec_event(EventKind::Internal(InternalEvent::Executed), o)]);
                    }
                }
            },
            OrderType::Ioc => {
                let rq = self.process_ioc(o);
                proof {
                    assert(with_qty(o, rq) == with_qty(o, rq));
                    assert(rq <= o.initial_qty);
                    assert(qty_sum(self.book_side(spec_opposite(o.side))) == qty_sum(
                        old(self).book_side(spec_opposite(o.side)),
                    ) - (o.initial_qty - rq));
                    assert(self.book_side(o.side) == old(self).book_side(o.side));
                    assert(with_qty(o, rq).initial_qty == o.initial_qty);
                    if rq > 0 && self.book_side(spec_opposite(o.side)).len() != 0 {
                        assert(blocked_by_head(*self, spec_opposite(o.side), with_qty(o, rq)));
                    }
                    assert(conserves_quantity(*old(self), *self, o));
                    assert(rq == w.residual);
                    assert(self.log_view() =~= old(self).log_view() + acc + executed_events(
                        opp,
                        w.consumed,
                    ) + seq![
                        spec_event(
                            EventKind::Internal(with_qty(o, w.residual).spec_terminal_event()),
                            o,
                        ),
                    ]);
                }
            },
            OrderType::Fok => {
                let rq = self.process_fok(o);
                proof {
                    assert(with_qty(o, rq) == with_qty(o, rq));
                    if rq == 0 {
                        assert(with_qty(o, 0u64) == with_qty(o, 0u64));
                    } else {
                        assert(self.book_side(o.side) == old(self).book_side(o.side));
                        assert(qty_sum(self.book_side(spec_opposite(o.side))) == qty_sum(
                            old(self).book_side(spec_opposite(o.side)),
                        ));
                    }
                    assert(with_qty(o, rq).initial_qty == o.initial_qty);
                    assert(conserves_quantity(*old(self), *self, o));
                    assert((rq == 0) == (w.residual == 0));
                    if w.residual == 0 {
                        assert(self.log_view() =~= old(self).log_view() + acc + executed_events(
                            opp,
                            w.consumed,
                        ) + seq![spec_event(EventKind::Internal(InternalEvent::Executed), o)]);
                    } else {
                        assert(self.log_view() =~= old(self).log_view() + acc + seq![
                            spec_event(EventKind::Internal(InternalEvent::Canceled), o),
                        ]);
                    }
                }
            },
        }
        proof {
            match o.side {
                Side::Buy => {
                    assert(opp == Side::Sell);
                },
                Side::Sell => {
                    assert(opp == Side::Buy);
                },
            }
            assert(old(self).headroom() - self.headroom() <= old(self).book_side(Side::Buy).len()
                + old(self).book_side(Side::Sell).len() + 2);
            assert(self.book_side(Side::Buy).len() + self.book_side(Side::Sell).len() <= old(
                self,
            ).book_side(Side::Buy).len() + old(self).book_side(Side::Sell).len() + 1);
            assert(self.log_view()[old(self).log_view().len() as int] == mid.log_view().last());
            assert forall|i: int| 0 <= i < old(self).log_view().len() implies self.log_view()[i]
                == old(self).log_view()[i] by {
                let ml = mid.log_view().len() as int;
                assert(mid.log_view() =~= self.log_view().subrange(0, ml));
                assert(mid.log_view()[i] == self.log_view().subrange(0, ml)[i]);
            }
            assert forall|i: int|
                old(self).log_view().len() < i < self.log_view().len() implies (
            #[trigger] self.log_view()[i]).kind != EventKind::External(ExternalEvent::Accepted) by {
                if i < self.log_view().len() - 1 {
                    assert(self.log_view()[i].kind == EventKind::Internal(InternalEvent::Executed));
                }
            }
        }
    }

    /// Winds the engine down: every order still resting is popped, buy side
    /// first, best price first, and reported with its terminal event. These
    /// reports are part of the observable log.
    pub fn shutdown(&mut self)
        requires
            old(self).wf(),
        ensures
            final(self).wf(),
            final(self).book_side(Side::Buy).len() == 0,
            final(self).book_side(Side::Sell).len() == 0,
            old(self).log_view().is_prefix_of(final(self).log_view()),
            forall|i: int|
                0 <= i < old(self).log_view().len() ==> final(self).log_view()[i] == old(
                    self,
                ).log_view()[i],
            final(self).log_view().len() == old(self).log_view().len() + old(self).book_side(
                Side::Buy,
            ).len() + old(self).book_side(Side::Sell).len(),
            forall|i: int|
                old(self).log_view().len() <= i < final(self).log_view().len() ==> (
                #[trigger] final(self).log_view()[i]).kind matches EventKind::Internal(_),
            final(self).log_view() == old(self).log_view() + terminal_events(
                Side::Buy,
                drain_walk(old(self).book_pairs(Side::Buy)),
            ) + terminal_events(Side::Sell, drain_walk(old(self).book_pairs(Side::Sell))),
    {
        let ghost pairs_b = self.book_pairs(Side::Buy);
        let ghost mut done_b: Seq<QPair> = Seq::empty();
        proof {
            assert(Seq::<QPair>::empty() + drain_walk(pairs_b) =~= drain_walk(pairs_b));
            assert(terminal_events(Side::Buy, done_b) =~= Seq::<Event>::empty());
            assert(self.log_view() =~= old(self).log_view() + terminal_events(Side::Buy, done_b));
        }
        loop
            invariant
                self.g.wf(),
                self.orders_to_recover@.len() == 0,
                self.book_side(Side::Sell) == old(self).book_side(Side::Sell),
                self.book_pairs(Side::Sell) == old(self).book_pairs(Side::Sell),
                self.book_side(Side::Buy).len() <= old(self).book_side(Side::Buy).len(),
                old(self).log_view().is_prefix_of(self.log_view()),
                self.log_view().len() == old(self).log_view().len() + old(self).book_side(
                    Side::Buy,
                ).len() - self.book_side(Side::Buy).len(),
                forall|i: int|
                    old(self).log_view().len() <= i < self.log_view().len() ==> (
                    #[trigger] self.log_view()[i]).kind matches EventKind::Internal(_),
                drain_walk(pairs_b) == done_b + drain_walk(self.book_pairs(Side::Buy)),
                self.log_view() == old(self).log_view() + terminal_events(Side::Buy, done_b),
            ensures
                self.book_side(Side::Buy).len() == 0,
                self.log_view() == old(self).log_view() + terminal_events(
                    Side::Buy,
                    drain_walk(pairs_b),
                ),
            decreases self.book_side(Side::Buy).len(),
        {
            let ghost hp = self.book_pairs(Side::Buy);
            proof {
                self.g.lemma_orders_is_erase(Side::Buy);
                crate::book::lemma_erase_len(Side::Buy, hp);
            }
            let popped = self.g.pop(Side::Buy);
            match popped {
                Option::None => {
                    proof {
                        assert(hp.len() == 0);
                        assert(drain_walk(hp) =~= Seq::<QPair>::empty());
                        assert(done_b + drain_walk(hp) =~= done_b);
                    }
                    break ;
                },
                Option::Some(rest) => {
                    let ev = rest.terminal_event();
                    self.log.push(Event::for_order(EventKind::Internal(ev), &rest));
                    proof {
                        broadcast use group_multiset_axioms;

                        assert(hp.len() > 0);
                        let bp = best_pair(hp);
                        assert(rest == spec_order_of(Side::Buy, bp.0));
                        assert(drain_walk(hp) == seq![bp] + drain_walk(hp.remove(bp)));
                        let done_prev = done_b;
                        done_b = done_b + seq![bp];
                        assert(done_prev + (seq![bp] + drain_walk(hp.remove(bp))) =~= done_b
                            + drain_walk(hp.remove(bp)));
                        assert(terminal_events(Side::Buy, done_b) =~= terminal_events(
                            Side::Buy,
                            done_prev,
                        ).push(spec_event(EventKind::Internal(ev), rest)));
                        assert(self.log_view() =~= old(self).log_view() + terminal_events(
                            Side::Buy,
                            done_b,
                        ));
                    }
                },
            }
        }
        let ghost mid = *self;
        let ghost pairs_s = self.book_pairs(Side::Sell);
        let ghost mut done_s: Seq<QPair> = Seq::empty();
        proof {
            assert(Seq::<QPair>::empty() + drain_walk(pairs_s) =~= drain_walk(pairs_s));
            assert(terminal_events(Side::Sell, done_s) =~= Seq::<Event>::empty());
            assert(self.log_view() =~= mid.log_view() + terminal_events(Side::Sell, done_s));
            self.g.lemma_orders_is_erase(Side::Sell);
            crate::book::lemma_erase_len(Side::Sell, pairs_s);
        }
        loop
            invariant
                self.g.wf(),
                self.orders_to_recover@.len() == 0,
                self.book_side(Side::Buy).len() == 0,
                self.book_side(Side::Sell).len() <= mid.book_side(Side::Sell).len(),
                mid.book_side(Side::Sell) == old(self).book_side(Side::Sell),
                mid.log_view().is_prefix_of(self.log_view()),
                old(self).log_view().is_prefix_of(mid.log_view()),
                mid.log_view().len() == old(self).log_view().len() + old(self).book_side(
                    Side::Buy,
                ).len(),
                self.log_view().len() == mid.log_view().len() + old(self).book_side(
                    Side::Sell,
                ).len() - self.book_side(Side::Sell).len(),
                forall|i: int|
                    old(self).log_view().len() <= i < self.log_view().len() ==> (
                    #[trigger] self.log_view()[i]).kind matches EventKind::Internal(_),
                drain_walk(pairs_s) == done_s + drain_walk(self.book_pairs(Side::Sell)),
                self.log_view() == mid.log_view() + terminal_events(Side::Sell, done_s),
            ensures
                self.book_side(Side::Sell).len() == 0,
                self.log_view() == mid.log_view() + terminal_events(
                    Side::Sell,
                    drain_walk(pairs_s),
                ),
            decreases self.book_side(Side::Sell).len(),
        {
            let ghost hp = self.book_pairs(Side::Sell);
            proof {
                self.g.lemma_orders_is_erase(Side::Sell);
                crate::book::lemma_erase_len(Side::Sell, hp);
            }
            let popped = self.g.pop(Side::Sell);
            match popped {
                Option::None => {
                    proof {
                        assert(hp.len() == 0);
                        assert(drain_walk(hp) =~= Seq::<QPair>::empty());
                        assert(done_s + drain_walk(hp) =~= done_s);
                    }
                    break ;
                },
                Option::Some(rest) => {
                    let ev = rest.terminal_event();
                    self.log.push(Event::for_order(EventKind::Internal(ev), &rest));
                    proof {
                        broadcast use group_multiset_axioms;

                        assert(hp.len() > 0);
                        let bp = best_pair(hp);
                        assert(rest == spec_order_of(Side::Sell, bp.0));
                        assert(drain_walk(hp) == seq![bp] + drain_walk(hp.remove(bp)));
                        let done_prev = done_s;
                        done_s = done_s + seq![bp];
                        assert(done_prev + (seq![bp] + drain_walk(hp.remove(bp))) =~= done_s
                            + drain_walk(hp.remove(bp)));
                        assert(terminal_events(Side::Sell, done_s) =~= terminal_events(
                            Side::Sell,
                            done_prev,
                        ).push(spec_event(EventKind::Internal(ev), rest)));
                        assert(self.log_view() =~= mid.log_view() + terminal_events(
                            Side::Sell,
                            done_s,
                        ));
                    }
                },
            }
        }
        proof {
            assert(self.log_view() =~= old(self).log_view() + terminal_events(
                Side::Buy,
                drain_walk(pairs_b),
            ) + terminal_events(Side::Sell, drain_walk(pairs_s)));
        }
        proof {
            assert forall|i: int| 0 <= i < old(self).log_view().len() implies self.log_view()[i]
                == old(self).log_view()[i] by {
                let ol = old(self).log_view().len() as int;
                let ml = mid.log_view().len() as int;
                assert(old(self).log_view() =~= mid.log_view().subrange(0, ol));
                assert(old(self).log_view()[i] == mid.log_view().subrange(0, ol)[i]);
                assert(mid.log_view() =~= self.log_view().subrange(0, ml));
                assert(mid.log_view()[i] == self.log_view().subrange(0, ml)[i]);
            }
        }
    }
}

} // verus!
