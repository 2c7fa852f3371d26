use vstd::prelude::*;

verus! {

/// Discipline governing how an order's residual quantity is handled.
#[derive(Debug, Copy, Clone, PartialEq, Eq, Structural)]
pub enum OrderType {
    Lim,
    Fok,
    Ioc,
}

/// Direction of an order.
#[derive(Debug, Copy, Clone, PartialEq, Eq, Structural)]
pub enum Side {
    Buy,
    Sell,
}

/// Events emitted explicitly by the matcher while an order is live.
#[derive(Debug, Copy, Clone, PartialEq, Eq, Structural)]
pub enum ExternalEvent {
    Accepted,
    Queued,
}

/// Terminal events, emitted exactly once when an order leaves the engine.
#[derive(Debug, Copy, Clone, PartialEq, Eq, Structural)]
pub enum InternalEvent {
    Canceled,
    Executed,
    PartiallyExecuted,
}

/// The label of a logged event: a lifecycle report or a terminal disposition.
#[derive(Debug, Copy, Clone, PartialEq, Eq, Structural)]
pub enum EventKind {
    External(ExternalEvent),
    Internal(InternalEvent),
}

/// One line of the event log: a label together with the static descriptors of
/// the order it reports on.
#[derive(Debug, Copy, Clone, PartialEq, Eq, Structural)]
pub struct Event {
    pub kind: EventKind,
    pub order_type: OrderType,
    pub side: Side,
    pub price: u64,
    pub initial_qty: u64,
    pub user_id: u64,
}

/// The atomic record flowing through the engine: immutable in identity,
/// mutable only in its residual quantity.
#[derive(Debug, Copy, Clone)]
pub struct Order {
    pub order_type: OrderType,
    pub side: Side,
    pub price: u64,
    pub initial_qty: u64,
    pub current_qty: u64,
    pub user_id: u64,
}

impl Order {
    /// The lifetime invariant of an order: the residual never exceeds the
    /// submitted quantity, and the submitted quantity is positive.
    pub open spec fn wf(self) -> bool {
        self.current_qty <= self.initial_qty && self.initial_qty >= 1
    }

    pub fn new(
        order_type: OrderType,
        side: Side,
        price: u64,
        initial_qty: u64,
        user_id: u64,
    ) -> (r: Order)
        requires
            initial_qty >= 1,
        ensures
            r == (Order { order_type, side, price, initial_qty, current_qty: initial_qty, user_id }),
            r.wf(),
    {
        Order { order_type, side, price, initial_qty, current_qty: initial_qty, user_id }
    }

    pub fn side(&self) -> (r: Side)
        ensures
            r == self.side,
    {
        self.side
    }

    pub fn price(&self) -> (r: u64)
        ensures
            r == self.price,
    {
        self.price
    }

    pub fn initial_qty(&self) -> (r: u64)
        ensures
            r == self.initial_qty,
    {
        self.initial_qty
    }

    pub fn current_qty(&self) -> (r: u64)
        ensures
            r == self.current_qty,
    {
        self.current_qty
    }

    pub fn order_type(&self) -> (r: OrderType)
        ensures
            r == self.order_type,
    {
        self.order_type
    }

    pub fn user_id(&self) -> (r: u64)
        ensures
            r == self.user_id,
    {
        self.user_id
    }

    /// Deducts `qty` from the residual. Callers must never ask for more than
    /// is available; such a call would be an invariant violation.
    pub fn reduce_quantity(&mut self, qty: u64)
        requires
            qty <= old(self).current_qty,
        ensures
            *final(self) == (Order { current_qty: (old(self).current_qty - qty) as u64, ..*old(self) }),
    {
        self.current_qty = self.current_qty - qty;
    }

    /// The terminal event this order would emit if it left the engine now.
    pub open spec fn spec_terminal_event(self) -> InternalEvent {
        match self.order_type {
            OrderType::Ioc | OrderType::Lim => if self.current_qty == 0 {
                InternalEvent::Executed
            } else if self.current_qty < self.initial_qty {
                InternalEvent::PartiallyExecuted
            } else {
                InternalEvent::Canceled
            },
            OrderType::Fok => if self.current_qty != 0 {
                InternalEvent::Canceled
            } else {
                InternalEvent::Executed
            },
        }
    }

    pub fn terminal_event(&self) -> (r: InternalEvent)
        ensures
            r == self.spec_terminal_event(),
    {
        match self.order_type {
            OrderType::Ioc | OrderType::Lim => if self.current_qty == 0 {
                InternalEvent::Executed
            } else if self.current_qty < self.initial_qty {
                InternalEvent::PartiallyExecuted
            } else {
                InternalEvent::Canceled
            },
            OrderType::Fok => if self.current_qty != 0 {
                InternalEvent::Canceled
            } else {
                InternalEvent::Executed
            },
        }
    }
}

/// The decimal digits of a non-negative number, most significant first.
pub open spec fn dec_bytes(n: int) -> Seq<u8>
    decreases n,
    via dec_bytes_decreases
{
    if n <= 9 {
        seq![(48 + if n >= 0 { n } else { 0 }) as u8]
    } else {
        dec_bytes(n / 10).push((48 + n % 10) as u8)
    }
}

#[via_fn]
proof fn dec_bytes_decreases(n: int) {
    if n > 9 {
        vstd::arithmetic::div_mod::lemma_div_decreases(n, 10);
    }
}

/// Appends the decimal digits of `x`.
fn push_decimal(out: &mut Vec<u8>, x: u64)
    ensures
        final(out)@ == old(out)@ + dec_bytes(x as int),
    decreases x,
{
    if x <= 9 {
        out.push(48 + x as u8);
        proof {
            assert(out@ =~= old(out)@ + dec_bytes(x as int));
        }
    } else {
        proof {
            vstd::arithmetic::div_mod::lemma_div_decreases(x as int, 10);
        }
        push_decimal(out, x / 10);
        out.push(48 + (x % 10) as u8);
        proof {
            assert(out@ =~= old(out)@ + dec_bytes(x as int));
        }
    }
}

pub open spec fn label_bytes(kind: EventKind) -> Seq<u8> {
    match kind {
        EventKind::External(ExternalEvent::Accepted) => seq![
            65u8,
            99u8,
            99u8,
            101u8,
            112u8,
            116u8,
            101u8,
            100u8,
        ],
        EventKind::External(ExternalEvent::Queued) => seq![81u8, 117u8, 101u8, 117u8, 101u8, 100u8],
        EventKind::Internal(InternalEvent::Canceled) => seq![
            67u8,
            97u8,
            110u8,
            99u8,
            101u8,
            108u8,
            101u8,
            100u8,
        ],
        EventKind::Internal(InternalEvent::Executed) => seq![
            69u8,
            120u8,
            101u8,
            99u8,
            117u8,
            116u8,
            101u8,
            100u8,
        ],
        EventKind::Internal(InternalEvent::PartiallyExecuted) => seq![
            80u8,
            97u8,
            114u8,
            116u8,
            105u8,
            97u8,
            108u8,
            108u8,
            121u8,
            69u8,
            120u8,
            101u8,
            99u8,
            117u8,
            116u8,
            101u8,
            100u8,
        ],
    }
}

pub open spec fn type_bytes(t: OrderType) -> Seq<u8> {
    match t {
        OrderType::Lim => seq![76u8, 105u8, 109u8],
        OrderType::Fok => seq![70u8, 111u8, 107u8],
        OrderType::Ioc => seq![73u8, 111u8, 99u8],
    }
}

pub open spec fn side_bytes(s: Side) -> Seq<u8> {
    match s {
        Side::Buy => seq![66u8, 117u8, 121u8],
        Side::Sell => seq![83u8, 101u8, 108u8, 108u8],
    }
}

fn push_label(out: &mut Vec<u8>, kind: EventKind)
    ensures
        final(out)@ == old(out)@ + label_bytes(kind),
{
    match kind {
        EventKind::External(ExternalEvent::Accepted) => {
            out.push(65u8);
            out.push(99u8);
            out.push(99u8);
            out.push(101u8);
            out.push(112u8);
            out.push(116u8);
            out.push(101u8);
            out.push(100u8);
        },
        EventKind::External(ExternalEvent::Queued) => {
            out.push(81u8);
            out.push(117u8);
            out.push(101u8);
            out.push(117u8);
            out.push(101u8);
            out.push(100u8);
        },
        EventKind::Internal(InternalEvent::Canceled) => {
            out.push(67u8);
            out.push(97u8);
            out.push(110u8);
            out.push(99u8);
            out.push(101u8);
            out.push(108u8);
            out.push(101u8);
            out.push(100u8);
        },
        EventKind::Internal(InternalEvent::Executed) => {
            out.push(69u8);
            out.push(120u8);
            out.push(101u8);
            out.push(99u8);
            out.push(117u8);
            out.push(116u8);
            out.push(101u8);
            out.push(100u8);
        },
        EventKind::Internal(InternalEvent::PartiallyExecuted) => {
            out.push(80u8);
            out.push(97u8);
            out.push(114u8);
            out.push(116u8);
            out.push(105u8);
            out.push(97u8);
            out.push(108u8);
            out.push(108u8);
            out.push(121u8);
            out.push(69u8);
            out.push(120u8);
            out.push(101u8);
            out.push(99u8);
            out.push(117u8);
            out.push(116u8);
            out.push(101u8);
            out.push(100u8);
        },
    }
    proof {
        assert(out@ =~= old(out)@ + label_bytes(kind));
    }
}

fn push_type(out: &mut Vec<u8>, t: OrderType)
    ensures
        final(out)@ == old(out)@ + type_bytes(t),
{
    match t {
        OrderType::Lim => {
            out.push(76u8);
            out.push(105u8);
            out.push(109u8);
        },
        OrderType::Fok => {
            out.push(70u8);
            out.push(111u8);
            out.push(107u8);
        },
        OrderType::Ioc => {
            out.push(73u8);
            out.push(111u8);
            out.push(99u8);
        },
    }
    proof {
        assert(out@ =~= old(out)@ + type_bytes(t));
    }
}

fn push_side(out: &mut Vec<u8>, s: Side)
    ensures
        final(out)@ == old(out)@ + side_bytes(s),
{
    match s {
        Side::Buy => {
            out.push(66u8);
            out.push(117u8);
            out.push(121u8);
        },
        Side::Sell => {
            out.push(83u8);
            out.push(101u8);
            out.push(108u8);
            out.push(108u8);
        },
    }
    proof {
        assert(out@ =~= old(out)@ + side_bytes(s));
    }
}

/// The event `kind` would report for `o`: the label and `o`'s descriptors.
pub open spec fn spec_event(kind: EventKind, o: Order) -> Event {
    Event {
        kind,
        order_type: o.order_type,
        side: o.side,
        price: o.price,
        initial_qty: o.initial_qty,
        user_id: o.user_id,
    }
}

impl Event {
    /// The text line reporting this event: the label and the order's
    /// descriptors, comma-separated, without the terminating newline.
    pub open spec fn spec_line(self) -> Seq<u8> {
        label_bytes(self.kind) + seq![44u8] + type_bytes(self.order_type) + seq![44u8]
            + side_bytes(self.side) + seq![44u8] + dec_bytes(self.price as int) + seq![44u8]
            + dec_bytes(self.initial_qty as int) + seq![44u8] + dec_bytes(self.user_id as int)
    }

    pub fn line(&self) -> (r: Vec<u8>)
        ensures
            r@ == self.spec_line(),
    {
        let mut out: Vec<u8> = Vec::new();
        push_label(&mut out, self.kind);
        out.push(44u8);
        push_type(&mut out, self.order_type);
        out.push(44u8);
        push_side(&mut out, self.side);
        out.push(44u8);
        push_decimal(&mut out, self.price);
        out.push(44u8);
        push_decimal(&mut out, self.initial_qty);
        out.push(44u8);
        push_decimal(&mut out, self.user_id);
        proof {
            assert(out@ =~= self.spec_line());
        }
        out
    }

    pub fn for_order(kind: EventKind, o: &Order) -> (r: Event)
        ensures
            r == spec_event(kind, *o),
    {
        Event {
            kind,
            order_type: o.order_type,
            side: o.side,
            price: o.price,
            initial_qty: o.initial_qty,
            user_id: o.user_id,
        }
    }
}

pub open spec fn spec_opposite(s: Side) -> Side {
    match s {
        Side::Buy => Side::Sell,
        Side::Sell => Side::Buy,
    }
}

/// The same order with its residual quantity replaced.
pub open spec fn with_qty(o: Order, q: u64) -> Order {
    Order { current_qty: q, ..o }
}

/// Two orders are equal if they agree on order type, side, price, submitted
/// quantity and owner; identity and residual quantity are not compared.
impl PartialEq for Order {
    fn eq(&self, other: &Self) -> (r: bool) {
        self.order_type == other.order_type && self.side == other.side && self.price
            == other.price && self.initial_qty == other.initial_qty && self.user_id
            == other.user_id
    }
}

impl vstd::std_specs::cmp::PartialEqSpecImpl for Order {
    open spec fn obeys_eq_spec() -> bool {
        true
    }

    open spec fn eq_spec(&self, other: &Order) -> bool {
        self.order_type == other.order_type && self.side == other.side && self.price
            == other.price && self.initial_qty == other.initial_qty && self.user_id
            == other.user_id
    }
}

} // verus!
