//! Properties of the reservation protocol that hold of every ledger and of
//! every pair of steps, stated over the contracts of the operations.
use vstd::prelude::*;
use crate::engine::{
    event_of, has_event, hold_exists, ticket_exists, lemma_event_of, number_issued, purchase_begun,
    purchase_completed, sell_one, LedgerView,
};
use crate::codec::{lemma_event_round_trip, lemma_ticket_round_trip};
use crate::office::records_match;
use crate::types::{PaymentOutcome, PendingPurchase, PurchaseError, Ticket, TicketView};
use vstd::utf8::encode_utf8;

verus! {

/// No event of a well-formed ledger is oversold; every operation keeps the
/// ledger well-formed, so this holds at all times.
pub proof fn law_never_oversold(l: LedgerView)
    requires
        l.wf(),
    ensures
        forall|i: int| 0 <= i < l.events.len() ==> l.events[i].tickets_sold <= l.events[i].total_tickets,
{
}

/// In a well-formed ledger no buyer holds two tickets for one event.
pub proof fn law_one_ticket_per_buyer(l: LedgerView)
    requires
        l.wf(),
    ensures
        forall|j: int, k: int|
            0 <= j < l.tickets.len() && 0 <= k < l.tickets.len() && j != k
                && l.tickets[j].event_id == l.tickets[k].event_id ==> l.tickets[j].buyer != l.tickets[k].buyer,
{
}

/// In a well-formed ledger a buyer has, for one event, at most one ticket and
/// at most one purchase in flight, and never both. Every operation keeps the
/// ledger well-formed, a purchase can only be completed through its hold, and
/// a new hold is refused while either exists: so of any number of attempts by
/// one buyer for one event, however they interleave, at most one commits.
pub proof fn law_pair_exclusive(l: LedgerView, event_id: u64, buyer: Seq<u8>)
    requires
        l.wf(),
    ensures
        forall|j: int, k: int|
            0 <= j < l.tickets.len() && 0 <= k < l.tickets.len() && l.tickets[j].event_id == event_id
                && l.tickets[j].buyer == buyer && l.tickets[k].event_id == event_id
                && l.tickets[k].buyer == buyer ==> j == k,
        forall|j: int, k: int|
            0 <= j < l.holds.len() && 0 <= k < l.holds.len() && l.holds[j] == (event_id, buyer)
                && l.holds[k] == (event_id, buyer) ==> j == k,
        !(ticket_exists(l.tickets, event_id, buyer) && hold_exists(l.holds, event_id, buyer)),
{
    if hold_exists(l.holds, event_id, buyer) {
        let j = choose|j: int| 0 <= j < l.holds.len() && #[trigger] l.holds[j] == (event_id, buyer);
        assert(!ticket_exists(l.tickets, l.holds[j].0, l.holds[j].1));
    }
}

/// While a buyer's first attempt for an event waits for its payment, a second
/// attempt by the same buyer for the same event is refused as a duplicate.
pub proof fn law_second_attempt_refused(
    o: LedgerView,
    m: LedgerView,
    n: LedgerView,
    event_id: u64,
    buyer: Seq<u8>,
    first: Result<PendingPurchase, PurchaseError>,
    second: Result<PendingPurchase, PurchaseError>,
)
    requires
        o.wf(),
        purchase_begun(o, m, event_id, buyer, first),
        first is Ok,
        purchase_begun(m, n, event_id, buyer, second),
    ensures
        second == Err::<PendingPurchase, PurchaseError>(PurchaseError::DuplicateTicket),
        n == m,
{
    assert(m.holds[o.holds.len() as int] == (event_id, buyer));
}

/// After a buyer's purchase for an event has been committed, any later attempt
/// by that buyer for that event fails, as a duplicate or because the event is
/// sold out.
pub proof fn law_no_purchase_after_commit(
    o: LedgerView,
    m: LedgerView,
    n: LedgerView,
    event_id: u64,
    buyer: Seq<u8>,
    outcome: PaymentOutcome,
    now: u64,
    done: Result<Ticket, PurchaseError>,
    again: Result<PendingPurchase, PurchaseError>,
)
    requires
        o.wf(),
        hold_exists(o.holds, event_id, buyer),
        purchase_completed(o, m, event_id, buyer, outcome, now, done),
        done is Ok,
        purchase_begun(m, n, event_id, buyer, again),
    ensures
        again == Err::<PendingPurchase, PurchaseError>(PurchaseError::DuplicateTicket)
            || again == Err::<PendingPurchase, PurchaseError>(PurchaseError::SoldOut(None)),
        n == m,
{
    let last = o.tickets.len() as int;
    assert(m.tickets[last].event_id == event_id && m.tickets[last].buyer == buyer);
    let h = choose|h: int| 0 <= h < o.holds.len() && #[trigger] o.holds[h] == (event_id, buyer);
    assert(has_event(o.events, o.holds[h].0));
    let i = choose|i: int| 0 <= i < o.events.len() && #[trigger] o.events[i].id == event_id;
    assert(m.events[i].id == event_id);
}

/// In a well-formed ledger the ticket numbers of an event are exactly
/// 1, 2, ..., up to its sold count: each is issued, once.
pub proof fn law_numbers_dense(l: LedgerView)
    requires
        l.wf(),
    ensures
        forall|j: int|
            #![trigger l.tickets[j]]
            0 <= j < l.tickets.len() ==> 1 <= l.tickets[j].ticket_number <= event_of(
                l.events,
                l.tickets[j].event_id,
            ).tickets_sold,
        forall|i: int, n: u32|
            0 <= i < l.events.len() && 1 <= n <= l.events[i].tickets_sold ==> #[trigger] number_issued(
                l.tickets,
                l.events[i].id,
                n,
            ),
        forall|j: int, k: int|
            0 <= j < l.tickets.len() && 0 <= k < l.tickets.len() && j != k
                && l.tickets[j].event_id == l.tickets[k].event_id ==> l.tickets[j].ticket_number
                != l.tickets[k].ticket_number,
{
    assert forall|j: int| #![trigger l.tickets[j]] 0 <= j < l.tickets.len() implies 1 <= l.tickets[j].ticket_number
        <= event_of(l.events, l.tickets[j].event_id).tickets_sold by {
        assert(has_event(l.events, l.tickets[j].event_id));
    }
}

/// A purchase whose payment was declined or failed changes no event's count
/// and issues no ticket.
pub proof fn law_failed_payment_changes_nothing(
    o: LedgerView,
    n: LedgerView,
    event_id: u64,
    buyer: Seq<u8>,
    outcome: PaymentOutcome,
    now: u64,
    r: Result<Ticket, PurchaseError>,
)
    requires
        purchase_completed(o, n, event_id, buyer, outcome, now, r),
        !(outcome is Confirmed),
    ensures
        n.events == o.events,
        n.tickets == o.tickets,
        r is Err,
{
}

/// When two purchases of an event's last free place both pass eligibility and
/// both are paid, the one that completes first takes the place, and the other
/// fails with `SoldOut`, its hold released and nothing issued.
pub proof fn law_last_place_goes_once(
    o: LedgerView,
    m: LedgerView,
    n: LedgerView,
    event_id: u64,
    first_buyer: Seq<u8>,
    second_buyer: Seq<u8>,
    first_receipt: u64,
    second_receipt: u64,
    now: u64,
    first: Result<Ticket, PurchaseError>,
    second: Result<Ticket, PurchaseError>,
)
    requires
        o.wf(),
        has_event(o.events, event_id),
        event_of(o.events, event_id).tickets_sold + 1 == event_of(o.events, event_id).total_tickets,
        purchase_completed(o, m, event_id, first_buyer, PaymentOutcome::Confirmed(first_receipt), now, first),
        purchase_completed(m, n, event_id, second_buyer, PaymentOutcome::Confirmed(second_receipt), now, second),
    ensures
        first is Ok,
        first->Ok_0.ticket_number == event_of(o.events, event_id).total_tickets,
        second == Err::<Ticket, PurchaseError>(PurchaseError::SoldOut(Some(second_receipt))),
        n.tickets == m.tickets,
        n.events == m.events,
        !hold_exists(n.holds, event_id, second_buyer),
{
    let i = choose|i: int| 0 <= i < o.events.len() && #[trigger] o.events[i].id == event_id;
    lemma_event_of(o.events, i);
    assert(m.events == sell_one(o.events, event_id));
    assert(m.events[i].id == event_id);
    assert forall|a: int, b: int| 0 <= a < m.events.len() && 0 <= b < m.events.len() && a != b
        implies m.events[a].id != m.events[b].id by {
        assert(m.events[a].id == o.events[a].id);
        assert(m.events[b].id == o.events[b].id);
    }
    lemma_event_of(m.events, i);
}

/// Two ledgers that match the same stored regions have the same tickets, in
/// the same order, and the same events under each identifier: what was
/// stored before a restart is exactly what is read back after it.
pub proof fn law_restart_keeps_records(
    before: LedgerView,
    after: LedgerView,
    stored_events: Map<u64, Seq<u8>>,
    stored_tickets: Map<u64, Seq<u8>>,
)
    requires
        before.wf(),
        after.wf(),
        records_match(before, stored_events, stored_tickets),
        records_match(after, stored_events, stored_tickets),
        before.tickets.len() <= u64::MAX,
        after.tickets.len() <= u64::MAX,
        forall|j: int| 0 <= j < before.tickets.len() ==> (#[trigger] before.tickets[j]).buyer.len() <= u64::MAX,
        forall|j: int| 0 <= j < after.tickets.len() ==> (#[trigger] after.tickets[j]).buyer.len() <= u64::MAX,
        forall|i: int| 0 <= i < before.events.len() ==> encode_utf8((#[trigger] before.events[i]).name).len() <= u64::MAX
            && encode_utf8(before.events[i].date).len() <= u64::MAX,
        forall|i: int| 0 <= i < after.events.len() ==> encode_utf8((#[trigger] after.events[i]).name).len() <= u64::MAX
            && encode_utf8(after.events[i].date).len() <= u64::MAX,
    ensures
        after.tickets == before.tickets,
        forall|id: u64| has_event(after.events, id) <==> has_event(before.events, id),
        forall|id: u64| has_event(before.events, id) ==> event_of(after.events, id) == event_of(before.events, id),
{
    if after.tickets.len() < before.tickets.len() {
        assert(stored_tickets.contains_key(after.tickets.len() as u64));
    }
    if before.tickets.len() < after.tickets.len() {
        assert(stored_tickets.contains_key(before.tickets.len() as u64));
    }
    assert forall|j: int| 0 <= j < before.tickets.len() implies after.tickets[j] == before.tickets[j] by {
        assert(stored_tickets.contains_key(j as u64));
        lemma_ticket_round_trip(after.tickets[j]);
        lemma_ticket_round_trip(before.tickets[j]);
    }
    assert(after.tickets =~= before.tickets);
    assert forall|id: u64| has_event(before.events, id) implies event_of(after.events, id) == event_of(before.events, id) by {
        assert(stored_events.contains_key(id));
        let i = choose|i: int| 0 <= i < before.events.len() && #[trigger] before.events[i].id == id;
        lemma_event_of(before.events, i);
        let k = choose|k: int| 0 <= k < after.events.len() && #[trigger] after.events[k].id == id;
        lemma_event_of(after.events, k);
        lemma_event_round_trip(before.events[i]);
        lemma_event_round_trip(after.events[k]);
    }
    assert forall|id: u64| has_event(after.events, id) <==> has_event(before.events, id) by {
        if has_event(after.events, id) {
            assert(stored_events.contains_key(id));
        }
        if has_event(before.events, id) {
            assert(stored_events.contains_key(id));
        }
    }
}

/// `b` keeps every ticket of `a`, in place, and may add more after them.
pub open spec fn extends(a: Seq<TicketView>, b: Seq<TicketView>) -> bool {
    a.len() <= b.len() && forall|k: int| 0 <= k < a.len() ==> #[trigger] b[k] == a[k]
}

/// Step `i` of `trace` issued a ticket for `event_id` to `buyer`.
pub open spec fn issues_to(trace: Seq<LedgerView>, i: int, event_id: u64, buyer: Seq<u8>) -> bool {
    let before = trace[i].tickets;
    let after = trace[i + 1].tickets;
    after.len() == before.len() + 1 && after[before.len() as int].event_id == event_id
        && after[before.len() as int].buyer == buyer
}

proof fn lemma_extends_along(trace: Seq<LedgerView>, i: int, j: int)
    requires
        0 <= i <= j < trace.len(),
        forall|k: int| 0 <= k < trace.len() - 1 ==> extends(#[trigger] trace[k].tickets, trace[k + 1].tickets),
    ensures
        extends(trace[i].tickets, trace[j].tickets),
    decreases j - i,
{
    if i < j {
        lemma_extends_along(trace, i, j - 1);
        assert(extends(trace[j - 1].tickets, trace[j].tickets));
    }
}

/// Along any run of operations, where every state is well-formed and every
/// step keeps the tickets issued so far (as every operation's contract says),
/// at most one step issues a ticket for a given event to a given buyer: of any
/// number of interleaved attempts by one buyer for one event, at most one
/// commits.
pub proof fn law_one_commit_per_pair(trace: Seq<LedgerView>, event_id: u64, buyer: Seq<u8>)
    requires
        forall|k: int| 0 <= k < trace.len() ==> (#[trigger] trace[k]).wf(),
        forall|k: int| 0 <= k < trace.len() - 1 ==> extends(#[trigger] trace[k].tickets, trace[k + 1].tickets),
    ensures
        forall|i: int, j: int|
            0 <= i < j < trace.len() - 1 && issues_to(trace, i, event_id, buyer) ==> !issues_to(
                trace,
                j,
                event_id,
                buyer,
            ),
{
    assert forall|i: int, j: int|
        0 <= i < j < trace.len() - 1 && issues_to(trace, i, event_id, buyer) implies !issues_to(
            trace,
            j,
            event_id,
            buyer,
        ) by {
        if issues_to(trace, j, event_id, buyer) {
            lemma_extends_along(trace, i + 1, j);
            lemma_extends_along(trace, j, j + 1);
            let p = trace[i].tickets.len() as int;
            let q = trace[j].tickets.len() as int;
            let last = trace[j + 1];
            assert(last.wf());
            assert(last.tickets[p] == trace[i + 1].tickets[p]);
            assert(last.tickets[p].buyer != last.tickets[q].buyer);
        }
    }
}

} // verus!
