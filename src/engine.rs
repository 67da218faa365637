use vstd::prelude::*;
use crate::types::{
    bytes_equal, Event, EventView, PaymentOutcome, PendingPurchase, PurchaseError, Ticket,
    TicketView,
};

verus! {

/// A purchase attempt in flight for one (event, buyer) pair.
pub struct Hold {
    pub event_id: u64,
    pub buyer: Vec<u8>,
}

/// True when some ticket in `tickets` was issued for `event_id` to `buyer`.
pub open spec fn ticket_exists(tickets: Seq<TicketView>, event_id: u64, buyer: Seq<u8>) -> bool {
    exists|j: int|
        0 <= j < tickets.len() && #[trigger] tickets[j].event_id == event_id && tickets[j].buyer
            == buyer
}

/// True when `holds` holds the pair (`event_id`, `buyer`).
pub open spec fn hold_exists(holds: Seq<(u64, Seq<u8>)>, event_id: u64, buyer: Seq<u8>) -> bool {
    exists|j: int| 0 <= j < holds.len() && #[trigger] holds[j] == (event_id, buyer)
}

/// True when ticket number `n` of `event_id` has been issued.
pub open spec fn number_issued(tickets: Seq<TicketView>, event_id: u64, n: u32) -> bool {
    exists|j: int|
        0 <= j < tickets.len() && #[trigger] tickets[j].event_id == event_id
            && tickets[j].ticket_number == n
}

/// True when some event in `events` has identifier `id`.
pub open spec fn has_event(events: Seq<EventView>, id: u64) -> bool {
    exists|i: int| 0 <= i < events.len() && #[trigger] events[i].id == id
}

/// The event with identifier `id` (meaningful when there is one).
pub open spec fn event_of(events: Seq<EventView>, id: u64) -> EventView {
    events[choose|i: int| 0 <= i < events.len() && #[trigger] events[i].id == id]
}

/// True when no two events share an identifier.
pub open spec fn unique_ids(events: Seq<EventView>) -> bool {
    forall|i: int, k: int|
        0 <= i < events.len() && 0 <= k < events.len() && i != k ==> events[i].id != events[k].id
}

/// `events` with one more ticket sold for the event `id`.
pub open spec fn sell_one(events: Seq<EventView>, id: u64) -> Seq<EventView> {
    events.map_values(
        |e: EventView|
            if e.id == id {
                EventView {
                    id: e.id,
                    name: e.name,
                    date: e.date,
                    total_tickets: e.total_tickets,
                    tickets_sold: (e.tickets_sold + 1) as u32,
                    price: e.price,
                }
            } else {
                e
            },
    )
}

/// With unique identifiers, the event looked up by an identifier is the one at its position.
pub proof fn lemma_event_of(events: Seq<EventView>, i: int)
    requires
        unique_ids(events),
        0 <= i < events.len(),
    ensures
        has_event(events, events[i].id),
        event_of(events, events[i].id) == events[i],
{
    assert(events[i].id == events[i].id);
}

/// Selling one ticket of event `e` keeps identifiers, and the event looked up by
/// any other identifier.
pub proof fn lemma_sell_one_lookup(events: Seq<EventView>, e: u64)
    requires
        unique_ids(events),
    ensures
        unique_ids(sell_one(events, e)),
        forall|id: u64| has_event(sell_one(events, e), id) <==> has_event(events, id),
        forall|id: u64|
            id != e && has_event(events, id) ==> event_of(sell_one(events, e), id) == event_of(events, id),
{
    let s = sell_one(events, e);
    assert forall|i: int| 0 <= i < s.len() implies #[trigger] s[i].id == events[i].id && (s[i].id != e ==> s[i] == events[i]) by {}
    assert forall|id: u64| has_event(s, id) <==> has_event(events, id) by {
        if has_event(s, id) {
            let i = choose|i: int| 0 <= i < s.len() && #[trigger] s[i].id == id;
            assert(events[i].id == id);
        }
        if has_event(events, id) {
            let i = choose|i: int| 0 <= i < events.len() && #[trigger] events[i].id == id;
            assert(s[i].id == id);
        }
    }
    assert forall|id: u64| id != e && has_event(events, id) implies event_of(s, id) == event_of(events, id) by {
        let i = choose|i: int| 0 <= i < events.len() && #[trigger] events[i].id == id;
        lemma_event_of(events, i);
        lemma_event_of(s, i);
    }
}

/// Adding an event with a new identifier keeps the event looked up by every
/// other identifier.
pub proof fn lemma_push_lookup(events: Seq<EventView>, ev: EventView)
    requires
        unique_ids(events.push(ev)),
    ensures
        unique_ids(events),
        forall|id: u64| has_event(events.push(ev), id) <==> (has_event(events, id) || id == ev.id),
        forall|id: u64| has_event(events, id) ==> event_of(events.push(ev), id) == event_of(events, id),
        has_event(events.push(ev), ev.id),
        event_of(events.push(ev), ev.id) == ev,
{
    let s = events.push(ev);
    assert forall|i: int, k: int| 0 <= i < events.len() && 0 <= k < events.len() && i != k implies events[i].id != events[k].id by {
        assert(s[i] == events[i] && s[k] == events[k]);
    }
    assert forall|id: u64| has_event(s, id) <==> (has_event(events, id) || id == ev.id) by {
        if has_event(s, id) {
            let i = choose|i: int| 0 <= i < s.len() && #[trigger] s[i].id == id;
            if i < events.len() {
                assert(events[i].id == id);
            }
        }
        if has_event(events, id) {
            let i = choose|i: int| 0 <= i < events.len() && #[trigger] events[i].id == id;
            assert(s[i].id == id);
        }
        if id == ev.id {
            assert(s[events.len() as int].id == id);
        }
    }
    assert forall|id: u64| has_event(events, id) implies event_of(s, id) == event_of(events, id) by {
        let i = choose|i: int| 0 <= i < events.len() && #[trigger] events[i].id == id;
        lemma_event_of(events, i);
        lemma_event_of(s, i);
    }
    lemma_event_of(s, events.len() as int);
}

/// Removing one of a set of distinct holds removes exactly that pair.
pub proof fn lemma_remove_hold(holds: Seq<(u64, Seq<u8>)>, h: int)
    requires
        0 <= h < holds.len(),
        forall|j: int, k: int| 0 <= j < holds.len() && 0 <= k < holds.len() && j != k ==> holds[j] != holds[k],
    ensures
        forall|e: u64, b: Seq<u8>|
            hold_exists(holds.remove(h), e, b) <==> (hold_exists(holds, e, b) && (e, b) != holds[h]),
        forall|j: int, k: int|
            0 <= j < holds.len() - 1 && 0 <= k < holds.len() - 1 && j != k ==> holds.remove(h)[j] != holds.remove(h)[k],
        forall|j: int| 0 <= j < holds.len() - 1 ==> holds.remove(h)[j] != holds[h],
{
    let r = holds.remove(h);
    assert forall|e: u64, b: Seq<u8>|
        hold_exists(r, e, b) <==> (hold_exists(holds, e, b) && (e, b) != holds[h]) by {
        if hold_exists(r, e, b) {
            let j = choose|j: int| 0 <= j < r.len() && #[trigger] r[j] == (e, b);
            if j < h {
                assert(holds[j] == (e, b));
            } else {
                assert(holds[j + 1] == (e, b));
            }
        }
        if hold_exists(holds, e, b) && (e, b) != holds[h] {
            let j = choose|j: int| 0 <= j < holds.len() && #[trigger] holds[j] == (e, b);
            if j < h {
                assert(r[j] == (e, b));
            } else {
                assert(r[j - 1] == (e, b));
            }
        }
    }
    assert forall|j: int, k: int|
        0 <= j < holds.len() - 1 && 0 <= k < holds.len() - 1 && j != k implies r[j] != r[k] by {
        let jj = if j < h { j } else { j + 1 };
        let kk = if k < h { k } else { k + 1 };
        assert(r[j] == holds[jj]);
        assert(r[k] == holds[kk]);
    }
    assert forall|j: int| 0 <= j < holds.len() - 1 implies r[j] != holds[h] by {
        let jj = if j < h { j } else { j + 1 };
        assert(r[j] == holds[jj]);
    }
}

/// The first half of a purchase of `event_id` by `buyer` took the ledger from
/// `o` to `n` and answered `r`: eligibility is decided on `o`, and on success
/// the pair's hold is added in the same step. Events and tickets never change.
pub open spec fn purchase_begun(
    o: LedgerView,
    n: LedgerView,
    event_id: u64,
    buyer: Seq<u8>,
    r: Result<PendingPurchase, PurchaseError>,
) -> bool {
    let ev = event_of(o.events, event_id);
    &&& n.events == o.events
    &&& n.tickets == o.tickets
    &&& n.next_id == o.next_id
    &&& if !has_event(o.events, event_id) {
        r == Err::<PendingPurchase, PurchaseError>(PurchaseError::EventNotFound) && n.holds == o.holds
    } else if ev.tickets_sold >= ev.total_tickets {
        r == Err::<PendingPurchase, PurchaseError>(PurchaseError::SoldOut(None)) && n.holds == o.holds
    } else if ticket_exists(o.tickets, event_id, buyer) || hold_exists(o.holds, event_id, buyer) {
        r == Err::<PendingPurchase, PurchaseError>(PurchaseError::DuplicateTicket) && n.holds == o.holds
    } else {
        &&& r is Ok
        &&& r->Ok_0.event_id == event_id
        &&& r->Ok_0.buyer@ == buyer
        &&& r->Ok_0.amount == ev.price
        &&& n.holds == o.holds.push((event_id, buyer))
    }
}

/// The second half of a purchase of `event_id` by `buyer`, with the payment's
/// `outcome`, took the ledger from `o` to `n` and answered `r`: the pair's
/// hold is gone and no other; a failed payment, or an event sold out in the
/// meantime, leaves events and tickets as they were; otherwise one ticket
/// numbered with the new count is added and the event's count goes up by one.
pub open spec fn purchase_completed(
    o: LedgerView,
    n: LedgerView,
    event_id: u64,
    buyer: Seq<u8>,
    outcome: PaymentOutcome,
    now: u64,
    r: Result<Ticket, PurchaseError>,
) -> bool {
    let ev = event_of(o.events, event_id);
    let unchanged = n.events == o.events && n.tickets == o.tickets;
    &&& n.next_id == o.next_id
    &&& n.holds.len() == o.holds.len() - 1
    &&& forall|e: u64, b: Seq<u8>|
        hold_exists(n.holds, e, b) <==> (hold_exists(o.holds, e, b) && (e, b) != (event_id, buyer))
    &&& match outcome {
        PaymentOutcome::Rejected(reason) => {
            r == Err::<Ticket, PurchaseError>(PurchaseError::PaymentRejected(reason)) && unchanged
        },
        PaymentOutcome::CallFailed(code, message) => {
            r == Err::<Ticket, PurchaseError>(PurchaseError::PaymentCallFailed(code, message))
                && unchanged
        },
        PaymentOutcome::Confirmed(receipt) => {
            if ev.tickets_sold >= ev.total_tickets {
                r == Err::<Ticket, PurchaseError>(PurchaseError::SoldOut(Some(receipt))) && unchanged
            } else {
                &&& r is Ok
                &&& r->Ok_0@ == (TicketView {
                    event_id,
                    buyer,
                    purchase_time: now,
                    ticket_number: (ev.tickets_sold + 1) as u32,
                })
                &&& n.tickets == o.tickets.push(r->Ok_0@)
                &&& n.events == sell_one(o.events, event_id)
            }
        },
    }
}

/// Adding an event with a new, already issued identifier and no tickets sold
/// keeps a ledger well-formed.
pub proof fn lemma_add_event_wf(o: LedgerView, e: EventView)
    requires
        o.wf(),
        !has_event(o.events, e.id),
        e.id < o.next_id,
        e.tickets_sold == 0,
    ensures
        (LedgerView { events: o.events.push(e), ..o }).wf(),
{
    let v = LedgerView { events: o.events.push(e), ..o };
    assert forall|i: int, k: int| 0 <= i < v.events.len() && 0 <= k < v.events.len() && i != k
        implies v.events[i].id != v.events[k].id by {
        if i == o.events.len() {
            assert(o.events[k].id == v.events[k].id);
        } else if k == o.events.len() {
            assert(o.events[i].id == v.events[i].id);
        }
    }
    assert forall|j: int| 0 <= j < v.tickets.len() implies {
        &&& has_event(v.events, #[trigger] v.tickets[j].event_id)
        &&& v.tickets[j].ticket_number <= event_of(v.events, v.tickets[j].event_id).tickets_sold
    } by {
        let k = choose|k: int| 0 <= k < o.events.len() && #[trigger] o.events[k].id == v.tickets[j].event_id;
        lemma_event_of(o.events, k);
        lemma_event_of(v.events, k);
    }
    assert forall|i: int, n: u32| 0 <= i < v.events.len() && 1 <= n <= v.events[i].tickets_sold
        implies #[trigger] number_issued(v.tickets, v.events[i].id, n) by {
        assert(i < o.events.len());
        assert(number_issued(o.tickets, o.events[i].id, n));
    }
    assert forall|j: int| 0 <= j < v.holds.len() implies has_event(v.events, #[trigger] v.holds[j].0) by {
        let k = choose|k: int| 0 <= k < o.events.len() && #[trigger] o.events[k].id == v.holds[j].0;
        assert(v.events[k].id == v.holds[j].0);
    }
}

/// The mathematical value of a [`Ledger`].
pub ghost struct LedgerView {
    pub events: Seq<EventView>,
    pub tickets: Seq<TicketView>,
    pub holds: Seq<(u64, Seq<u8>)>,
    pub next_id: u64,
}

impl LedgerView {
    /// Well-formedness of the events, tickets and holds together.
    pub open spec fn wf(self) -> bool {
        let events = self.events;
        let tickets = self.tickets;
        let holds = self.holds;
        // identifiers are unique and below the next one to be issued
        &&& unique_ids(events)
        &&& (forall|i: int| 0 <= i < events.len() ==> events[i].id < self.next_id)
        // no event is oversold
        &&& (forall|i: int|
            0 <= i < events.len() ==> events[i].tickets_sold <= events[i].total_tickets)
        // every ticket belongs to an event and carries a number already sold
        &&& (forall|j: int|
            0 <= j < tickets.len() ==> {
                &&& has_event(events, #[trigger] tickets[j].event_id)
                &&& 1 <= tickets[j].ticket_number
                &&& tickets[j].ticket_number <= event_of(
                    events,
                    tickets[j].event_id,
                ).tickets_sold
            })
        // every number sold has been issued: numbers are dense
        &&& (forall|i: int, n: u32|
            0 <= i < events.len() && 1 <= n <= events[i].tickets_sold ==> #[trigger] number_issued(
                tickets,
                events[i].id,
                n,
            ))
        // one ticket per number and one per buyer, within an event
        &&& (forall|j: int, k: int|
            0 <= j < tickets.len() && 0 <= k < tickets.len() && j != k && tickets[j].event_id
                == tickets[k].event_id ==> tickets[j].ticket_number != tickets[k].ticket_number
                && tickets[j].buyer != tickets[k].buyer)
        // holds are for existing events, one per pair, never beside a ticket of the pair
        &&& (forall|j: int| 0 <= j < holds.len() ==> has_event(events, #[trigger] holds[j].0))
        &&& (forall|j: int|
            0 <= j < holds.len() ==> !ticket_exists(tickets, #[trigger] holds[j].0, holds[j].1))
        &&& (forall|j: int, k: int|
            0 <= j < holds.len() && 0 <= k < holds.len() && j != k ==> holds[j] != holds[k])
    }
}

/// Events, issued tickets and the purchases in flight, with the identifier
/// counter. Events and tickets are the durable part; holds are not.
pub struct Ledger {
    events: Vec<Event>,
    tickets: Vec<Ticket>,
    holds: Vec<Hold>,
    next_id: u64,
}

impl View for Ledger {
    type V = LedgerView;

    closed spec fn view(&self) -> LedgerView {
        LedgerView {
            events: self.events@.map_values(|e: Event| e@),
            tickets: self.tickets@.map_values(|t: Ticket| t@),
            holds: self.holds@.map_values(|h: Hold| (h.event_id, h.buyer@)),
            next_id: self.next_id,
        }
    }
}

impl Ledger {
    /// An empty ledger whose first identifier will be `first_id`.
    pub fn new(first_id: u64) -> (r: Ledger)
        ensures
            r@.wf(),
            r@.events.len() == 0,
            r@.tickets.len() == 0,
            r@.holds.len() == 0,
            r@.next_id == first_id,
    {
        let r = Ledger { events: Vec::new(), tickets: Vec::new(), holds: Vec::new(), next_id: first_id };
        proof {
            assert(r@.events =~= Seq::<EventView>::empty());
            assert(r@.tickets =~= Seq::<TicketView>::empty());
            assert(r@.holds =~= Seq::<(u64, Seq<u8>)>::empty());
        }
        r
    }

    /// The event with identifier `id`, if there is one.
    pub fn get_event(&self, id: u64) -> (r: Option<Event>)
        requires
            self@.wf(),
        ensures
            match r {
                Some(e) => has_event(self@.events, id) && e@ == event_of(self@.events, id),
                None => !has_event(self@.events, id),
            },
    {
        match self.find_event(id) {
            Some(i) => {
                proof {
                    lemma_event_of(self@.events, i as int);
                }
                Some(self.events[i].duplicate())
            },
            None => None,
        }
    }

    /// All issued tickets, in the order they were issued.
    pub fn get_tickets(&self) -> (r: Vec<Ticket>)
        ensures
            r@.map_values(|t: Ticket| t@) == self@.tickets,
    {
        let mut r: Vec<Ticket> = Vec::new();
        let mut i: usize = 0;
        while i < self.tickets.len()
            invariant
                i <= self.tickets@.len(),
                r@.len() == i,
                forall|k: int| 0 <= k < i ==> #[trigger] r@[k]@ == self@.tickets[k],
            decreases self.tickets@.len() - i,
        {
            r.push(self.tickets[i].duplicate());
            i = i + 1;
        }
        assert(r@.map_values(|t: Ticket| t@) =~= self@.tickets);
        r
    }

    /// The number of tickets issued so far.
    pub fn ticket_count(&self) -> (r: usize)
        ensures
            r == self@.tickets.len(),
    {
        self.tickets.len()
    }

    /// Whether a new identifier can still be issued.
    pub fn ids_left(&self) -> (r: bool)
        ensures
            r == (self@.next_id < u64::MAX),
    {
        self.next_id < u64::MAX
    }

    /// Issues the next identifier: strictly greater than every earlier one.
    pub fn allocate_id(&mut self) -> (r: u64)
        requires
            old(self)@.wf(),
            old(self)@.next_id < u64::MAX,
        ensures
            final(self)@.wf(),
            r == old(self)@.next_id,
            final(self)@.next_id == r + 1,
            final(self)@.events == old(self)@.events,
            final(self)@.tickets == old(self)@.tickets,
            final(self)@.holds == old(self)@.holds,
    {
        let ghost old_v = self@;
        let r = self.next_id;
        self.next_id = r + 1;
        assert(self@.events == old_v.events);
        assert(self@.tickets == old_v.tickets);
        assert(self@.holds == old_v.holds);
        r
    }

    /// Creates an event with a fresh identifier and no tickets sold.
    pub fn create_event(&mut self, name: String, date: String, total_tickets: u32, price: u64) -> (r: Event)
        requires
            old(self)@.wf(),
            old(self)@.next_id < u64::MAX,
        ensures
            final(self)@.wf(),
            r@ == (EventView {
                id: old(self)@.next_id,
                name: name@,
                date: date@,
                total_tickets,
                tickets_sold: 0,
                price,
            }),
            final(self)@.events == old(self)@.events.push(r@),
            final(self)@.next_id == old(self)@.next_id + 1,
            final(self)@.tickets == old(self)@.tickets,
            final(self)@.holds == old(self)@.holds,
    {
        let id = self.allocate_id();
        let ghost mid = self@;
        let event = Event { id, name, date, total_tickets, tickets_sold: 0, price };
        self.events.push(event.duplicate());
        proof {
            assert(!has_event(mid.events, id)) by {
                if has_event(mid.events, id) {
                    let k = choose|k: int| 0 <= k < mid.events.len() && #[trigger] mid.events[k].id == id;
                }
            }
            lemma_add_event_wf(mid, event@);
            assert(self@.events =~= mid.events.push(event@));
            assert(self@.tickets =~= mid.tickets);
            assert(self@.holds =~= mid.holds);
            assert(self@ == LedgerView { events: mid.events.push(event@), ..mid });
        }
        event
    }

    /// Whether a purchase by `buyer` for `event_id` is waiting for its payment.
    pub fn is_pending(&self, event_id: u64, buyer: &Vec<u8>) -> (r: bool)
        ensures
            r == hold_exists(self@.holds, event_id, buyer@),
    {
        self.find_hold(event_id, buyer).is_some()
    }

    /// First half of a purchase: checks eligibility and takes a hold for
    /// (`event_id`, `buyer`) in the same step, so that no other attempt of the
    /// pair can pass the checks before the hold exists. On success the caller
    /// runs the payment for the returned amount and then calls
    /// [`Ledger::complete_purchase`].
    pub fn begin_purchase(&mut self, event_id: u64, buyer: Vec<u8>) -> (r: Result<PendingPurchase, PurchaseError>)
        requires
            old(self)@.wf(),
        ensures
            final(self)@.wf(),
            purchase_begun(old(self)@, final(self)@, event_id, buyer@, r),
    {
        let ghost old_v = self@;
        let i = match self.find_event(event_id) {
            Some(i) => i,
            None => return Err(PurchaseError::EventNotFound),
        };
        proof {
            lemma_event_of(self@.events, i as int);
        }
        if self.events[i].tickets_sold >= self.events[i].total_tickets {
            return Err(PurchaseError::SoldOut(None));
        }
        if self.find_ticket(event_id, &buyer) || self.find_hold(event_id, &buyer).is_some() {
            return Err(PurchaseError::DuplicateTicket);
        }
        let amount = self.events[i].price;
        self.holds.push(Hold { event_id, buyer: buyer.clone() });
        proof {
            let v = self@;
            assert(v.holds =~= old_v.holds.push((event_id, buyer@)));
            assert(v.events == old_v.events);
            assert(v.tickets == old_v.tickets);
            assert forall|j: int| 0 <= j < v.holds.len() implies has_event(v.events, #[trigger] v.holds[j].0) by {
                if j == old_v.holds.len() {
                    assert(v.events[i as int].id == event_id);
                } else {
                    assert(old_v.holds[j] == v.holds[j]);
                }
            }
            assert forall|j: int| 0 <= j < v.holds.len() implies !ticket_exists(v.tickets, #[trigger] v.holds[j].0, v.holds[j].1) by {
                if j < old_v.holds.len() {
                    assert(old_v.holds[j] == v.holds[j]);
                }
            }
            assert forall|j: int, k: int| 0 <= j < v.holds.len() && 0 <= k < v.holds.len() && j != k
                implies v.holds[j] != v.holds[k] by {
                if j == old_v.holds.len() {
                    assert(old_v.holds[k] == v.holds[k]);
                } else if k == old_v.holds.len() {
                    assert(old_v.holds[j] == v.holds[j]);
                } else {
                    assert(old_v.holds[j] == v.holds[j]);
                    assert(old_v.holds[k] == v.holds[k]);
                }
            }
        }
        Ok(PendingPurchase { event_id, buyer, amount })
    }

    /// Second half of a purchase: takes the outcome of the payment made for
    /// `pending` and always drops its hold. A declined or failed payment changes
    /// nothing else. A confirmed one re-reads the event, since other purchases
    /// may have completed meanwhile: if it is sold out by now the attempt fails
    /// with `SoldOut` carrying the payment's receipt; otherwise the sale is
    /// committed in one step, the counter raised by one and the ticket
    /// numbered with the new count.
    pub fn complete_purchase(&mut self, pending: PendingPurchase, outcome: PaymentOutcome, now: u64) -> (r: Result<Ticket, PurchaseError>)
        requires
            old(self)@.wf(),
            hold_exists(old(self)@.holds, pending.event_id, pending.buyer@),
        ensures
            final(self)@.wf(),
            purchase_completed(old(self)@, final(self)@, pending.event_id, pending.buyer@, outcome, now, r),
    {
        let ghost o = self@;
        let ghost e = pending.event_id;
        let ghost b = pending.buyer@;
        let h = match self.find_hold(pending.event_id, &pending.buyer) {
            Some(h) => h,
            None => {
                proof {
                    assert(false);
                }
                return Err(PurchaseError::StoreFailure);
            },
        };
        self.holds.remove(h);
        proof {
            lemma_remove_hold(o.holds, h as int);
            assert(self@.holds =~= o.holds.remove(h as int));
            assert(self@.events == o.events);
            assert(self@.tickets == o.tickets);
            let v = self@;
            assert forall|j: int| 0 <= j < v.holds.len() implies has_event(v.events, #[trigger] v.holds[j].0)
                && !ticket_exists(v.tickets, v.holds[j].0, v.holds[j].1) by {
                let jj = if j < h { j } else { j + 1 };
                assert(v.holds[j] == o.holds[jj]);
            }
        }
        match outcome {
            PaymentOutcome::Rejected(reason) => Err(PurchaseError::PaymentRejected(reason)),
            PaymentOutcome::CallFailed(code, message) => Err(PurchaseError::PaymentCallFailed(code, message)),
            PaymentOutcome::Confirmed(receipt) => {
                let i = match self.find_event(pending.event_id) {
                    Some(i) => i,
                    None => {
                        proof {
                            assert(o.holds[h as int].0 == e);
                            assert(has_event(o.events, o.holds[h as int].0));
                        }
                        return Err(PurchaseError::StoreFailure);
                    },
                };
                proof {
                    lemma_event_of(o.events, i as int);
                }
                if self.events[i].tickets_sold >= self.events[i].total_tickets {
                    return Err(PurchaseError::SoldOut(Some(receipt)));
                }
                proof {
                    assert(!hold_exists(self@.holds, e, b));
                    assert(!ticket_exists(o.tickets, e, b)) by {
                        let hh = o.holds[h as int];
                        assert(hh == (e, b));
                        assert(!ticket_exists(o.tickets, hh.0, hh.1));
                    }
                }
                let ticket = self.commit_sale(i, pending.buyer, now);
                Ok(ticket)
            },
        }
    }

    /// Records one sale of the event at position `i` to `buyer`: the counter
    /// and the ticket change together, and the ticket's number is the new count.
    fn commit_sale(&mut self, i: usize, buyer: Vec<u8>, now: u64) -> (ticket: Ticket)
        requires
            old(self)@.wf(),
            i < old(self)@.events.len(),
            old(self)@.events[i as int].tickets_sold < old(self)@.events[i as int].total_tickets,
            !ticket_exists(old(self)@.tickets, old(self)@.events[i as int].id, buyer@),
            !hold_exists(old(self)@.holds, old(self)@.events[i as int].id, buyer@),
        ensures
            final(self)@.wf(),
            ticket@ == (TicketView {
                event_id: old(self)@.events[i as int].id,
                buyer: buyer@,
                purchase_time: now,
                ticket_number: (old(self)@.events[i as int].tickets_sold + 1) as u32,
            }),
            final(self)@.tickets == old(self)@.tickets.push(ticket@),
            final(self)@.events == sell_one(old(self)@.events, old(self)@.events[i as int].id),
            final(self)@.holds == old(self)@.holds,
            final(self)@.next_id == old(self)@.next_id,
    {
        let ghost o = self@;
        let ghost e = self@.events[i as int].id;
        let ghost b = buyer@;
        proof {
            lemma_event_of(o.events, i as int);
        }
        let number = self.events[i].tickets_sold + 1;
        self.events[i].tickets_sold = number;
        let ticket = Ticket {
            event_id: self.events[i].id,
            buyer,
            purchase_time: now,
            ticket_number: number,
        };
        self.tickets.push(ticket.duplicate());
        proof {
            let v = self@;
            let t = ticket@;
            let ii = i as int;
            assert(v.events =~= sell_one(o.events, e));
            assert(v.tickets =~= o.tickets.push(t));
            assert(v.holds =~= o.holds);
            assert forall|k: int| 0 <= k < v.events.len() implies #[trigger] v.events[k].id == o.events[k].id
                && (k != ii ==> v.events[k] == o.events[k]) by {
                if k != ii {
                    assert(o.events[k].id != e);
                }
            }
            assert(unique_ids(v.events));
            assert forall|j: int| 0 <= j < v.tickets.len() implies {
                &&& has_event(v.events, #[trigger] v.tickets[j].event_id)
                &&& 1 <= v.tickets[j].ticket_number
                &&& v.tickets[j].ticket_number <= event_of(v.events, v.tickets[j].event_id).tickets_sold
            } by {
                if j == o.tickets.len() {
                    lemma_event_of(v.events, ii);
                } else {
                    let k = choose|k: int| 0 <= k < o.events.len() && #[trigger] o.events[k].id == o.tickets[j].event_id;
                    lemma_event_of(o.events, k);
                    lemma_event_of(v.events, k);
                }
            }
            assert forall|k: int, n: u32| 0 <= k < v.events.len() && 1 <= n <= v.events[k].tickets_sold
                implies #[trigger] number_issued(v.tickets, v.events[k].id, n) by {
                if k == ii && n == number {
                    assert(v.tickets[o.tickets.len() as int].event_id == v.events[k].id);
                } else {
                    assert(number_issued(o.tickets, o.events[k].id, n));
                    let m = choose|m: int| 0 <= m < o.tickets.len() && #[trigger] o.tickets[m].event_id == o.events[k].id
                        && o.tickets[m].ticket_number == n;
                    assert(v.tickets[m].event_id == v.events[k].id);
                }
            }
            assert forall|j: int, k: int| 0 <= j < v.tickets.len() && 0 <= k < v.tickets.len() && j != k
                && v.tickets[j].event_id == v.tickets[k].event_id
                implies v.tickets[j].ticket_number != v.tickets[k].ticket_number
                    && v.tickets[j].buyer != v.tickets[k].buyer by {
                let last = o.tickets.len() as int;
                if j == last || k == last {
                    let m = if j == last { k } else { j };
                    lemma_event_of(o.events, ii);
                    assert(o.tickets[m].event_id == e);
                    assert(o.tickets[m].ticket_number <= o.events[ii].tickets_sold);
                    if o.tickets[m].buyer == b {
                        assert(ticket_exists(o.tickets, e, b));
                    }
                }
            }
            assert forall|j: int| 0 <= j < v.holds.len() implies !ticket_exists(v.tickets, #[trigger] v.holds[j].0, v.holds[j].1) by {
                let jj = j;
                assert(v.holds[j] == o.holds[jj]);
                assert(o.holds[jj] != (e, b));
                if ticket_exists(v.tickets, v.holds[j].0, v.holds[j].1) {
                    let m = choose|m: int| 0 <= m < v.tickets.len() && #[trigger] v.tickets[m].event_id == v.holds[j].0
                        && v.tickets[m].buyer == v.holds[j].1;
                    if m < o.tickets.len() {
                        assert(o.tickets[m].event_id == o.holds[jj].0);
                        assert(ticket_exists(o.tickets, o.holds[jj].0, o.holds[jj].1));
                    }
                }
            }
            assert forall|j: int| 0 <= j < v.holds.len() implies has_event(v.events, #[trigger] v.holds[j].0) by {
                assert(has_event(o.events, o.holds[j].0));
                let k = choose|k: int| 0 <= k < o.events.len() && #[trigger] o.events[k].id == o.holds[j].0;
                assert(v.events[k].id == v.holds[j].0);
            }
        }
        ticket
    }

    /// Takes back an event read from durable storage, with its sold count
    /// set to zero: the tickets read back afterwards raise it again. Refused
    /// when the identifier is taken or was never issued.
    pub fn restore_event(&mut self, e: &Event) -> (r: bool)
        requires
            old(self)@.wf(),
        ensures
            final(self)@.wf(),
            r == (!has_event(old(self)@.events, e.id) && e.id < old(self)@.next_id),
            r ==> final(self)@.events == old(self)@.events.push(
                EventView {
                    id: e.id,
                    name: e.name@,
                    date: e.date@,
                    total_tickets: e.total_tickets,
                    tickets_sold: 0,
                    price: e.price,
                },
            ),
            !r ==> final(self)@.events == old(self)@.events,
            final(self)@.tickets == old(self)@.tickets,
            final(self)@.holds == old(self)@.holds,
            final(self)@.next_id == old(self)@.next_id,
    {
        if self.find_event(e.id).is_some() || e.id >= self.next_id {
            return false;
        }
        let ghost old_v = self@;
        let mut event = e.duplicate();
        event.tickets_sold = 0;
        self.events.push(event);
        proof {
            lemma_add_event_wf(old_v, event@);
            assert(self@.events =~= old_v.events.push(event@));
            assert(self@.tickets =~= old_v.tickets);
            assert(self@.holds =~= old_v.holds);
            assert(self@ == LedgerView { events: old_v.events.push(event@), ..old_v });
        }
        true
    }

    /// Takes back a ticket read from durable storage. Accepted only as the
    /// next sale of its event: the event exists and has room, the number is
    /// one more than the count sold so far, and the buyer holds no ticket or
    /// hold for the event.
    pub fn restore_ticket(&mut self, t: Ticket) -> (r: bool)
        requires
            old(self)@.wf(),
        ensures
            final(self)@.wf(),
            ({
                let ev = event_of(old(self)@.events, t.event_id);
                r == (has_event(old(self)@.events, t.event_id) && ev.tickets_sold < ev.total_tickets
                    && t.ticket_number == ev.tickets_sold + 1
                    && !ticket_exists(old(self)@.tickets, t.event_id, t.buyer@)
                    && !hold_exists(old(self)@.holds, t.event_id, t.buyer@))
            }),
            r ==> final(self)@.tickets == old(self)@.tickets.push(t@)
                && final(self)@.events == sell_one(old(self)@.events, t.event_id),
            !r ==> final(self)@.tickets == old(self)@.tickets && final(self)@.events == old(self)@.events,
            final(self)@.holds == old(self)@.holds,
            final(self)@.next_id == old(self)@.next_id,
    {
        let i = match self.find_event(t.event_id) {
            Some(i) => i,
            None => return false,
        };
        proof {
            lemma_event_of(self@.events, i as int);
        }
        if self.events[i].tickets_sold >= self.events[i].total_tickets
            || t.ticket_number != self.events[i].tickets_sold + 1
            || self.find_ticket(t.event_id, &t.buyer)
            || self.find_hold(t.event_id, &t.buyer).is_some() {
            return false;
        }
        let _ticket = self.commit_sale(i, t.buyer, t.purchase_time);
        true
    }

    /// Position of the event with identifier `id`.
    fn find_event(&self, id: u64) -> (r: Option<usize>)
        ensures
            match r {
                Some(i) => i < self@.events.len() && self@.events[i as int].id == id,
                None => !has_event(self@.events, id),
            },
    {
        let mut i: usize = 0;
        while i < self.events.len()
            invariant
                i <= self.events@.len(),
                forall|k: int| 0 <= k < i ==> #[trigger] self@.events[k].id != id,
            decreases self.events@.len() - i,
        {
            if self.events[i].id == id {
                return Some(i);
            }
            i = i + 1;
        }
        None
    }

    /// Whether a ticket for `event_id` was issued to `buyer`.
    fn find_ticket(&self, event_id: u64, buyer: &Vec<u8>) -> (r: bool)
        ensures
            r == ticket_exists(self@.tickets, event_id, buyer@),
    {
        let mut i: usize = 0;
        while i < self.tickets.len()
            invariant
                i <= self.tickets@.len(),
                forall|k: int|
                    0 <= k < i ==> !(#[trigger] self@.tickets[k].event_id == event_id
                        && self@.tickets[k].buyer == buyer@),
            decreases self.tickets@.len() - i,
        {
            if self.tickets[i].event_id == event_id && bytes_equal(&self.tickets[i].buyer, buyer) {
                assert(self@.tickets[i as int].event_id == event_id);
                return true;
            }
            i = i + 1;
        }
        false
    }

    /// Position of the hold for (`event_id`, `buyer`).
    fn find_hold(&self, event_id: u64, buyer: &Vec<u8>) -> (r: Option<usize>)
        ensures
            match r {
                Some(i) => i < self@.holds.len() && self@.holds[i as int] == (event_id, buyer@),
                None => !hold_exists(self@.holds, event_id, buyer@),
            },
    {
        let mut i: usize = 0;
        while i < self.holds.len()
            invariant
                i <= self.holds@.len(),
                forall|k: int| 0 <= k < i ==> #[trigger] self@.holds[k] != (event_id, buyer@),
            decreases self.holds@.len() - i,
        {
            if self.holds[i].event_id == event_id && bytes_equal(&self.holds[i].buyer, buyer) {
                return Some(i);
            }
            i = i + 1;
        }
        None
    }
}

} // verus!
