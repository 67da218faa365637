//! Rebuilding the ledger from the records read back from durable storage.
//! The records are taken back in order, events first with no tickets sold,
//! then each ticket as the next sale of its event; the stored sold counts
//! must then agree with the tickets counted.
use vstd::prelude::*;
use crate::codec::{decode_event, decode_ticket, parse_event, parse_ticket};
use crate::engine::{
    event_of, has_event, hold_exists, lemma_event_of, sell_one, ticket_exists, Ledger, LedgerView,
};
use crate::types::{EventView, PurchaseError, TicketView};

verus! {

/// Records as keys and byte strings.
pub open spec fn records_view(records: Seq<(u64, Vec<u8>)>) -> Seq<(u64, Seq<u8>)> {
    records.map_values(|p: (u64, Vec<u8>)| (p.0, p.1@))
}

/// An empty ledger whose next identifier is `counter`.
pub open spec fn empty_ledger(counter: u64) -> LedgerView {
    LedgerView {
        events: Seq::empty(),
        tickets: Seq::empty(),
        holds: Seq::empty(),
        next_id: counter,
    }
}

/// `e` with no tickets sold.
pub open spec fn unsold(e: EventView) -> EventView {
    EventView {
        id: e.id,
        name: e.name,
        date: e.date,
        total_tickets: e.total_tickets,
        tickets_sold: 0,
        price: e.price,
    }
}

/// Taking back event `e`: its identifier must be new and already issued.
pub open spec fn event_step(l: LedgerView, e: EventView) -> Option<LedgerView> {
    if !has_event(l.events, e.id) && e.id < l.next_id {
        Some(LedgerView { events: l.events.push(unsold(e)), ..l })
    } else {
        None
    }
}

/// Taking back ticket `t`: it must be the next sale of its event.
pub open spec fn ticket_step(l: LedgerView, t: TicketView) -> Option<LedgerView> {
    let ev = event_of(l.events, t.event_id);
    if has_event(l.events, t.event_id) && ev.tickets_sold < ev.total_tickets && t.ticket_number
        == ev.tickets_sold + 1 && !ticket_exists(l.tickets, t.event_id, t.buyer) && !hold_exists(
        l.holds,
        t.event_id,
        t.buyer,
    ) {
        Some(
            LedgerView {
                events: sell_one(l.events, t.event_id),
                tickets: l.tickets.push(t),
                ..l
            },
        )
    } else {
        None
    }
}

/// Takes back the events of `es` in order, starting from `l`.
pub open spec fn load_events(l: LedgerView, es: Seq<EventView>) -> Option<LedgerView>
    decreases es.len(),
{
    if es.len() == 0 {
        Some(l)
    } else {
        match load_events(l, es.drop_last()) {
            Some(m) => event_step(m, es.last()),
            None => None,
        }
    }
}

/// Takes back the tickets of `ts` in order, starting from `l`.
pub open spec fn load_tickets(l: LedgerView, ts: Seq<TicketView>) -> Option<LedgerView>
    decreases ts.len(),
{
    if ts.len() == 0 {
        Some(l)
    } else {
        match load_tickets(l, ts.drop_last()) {
            Some(m) => ticket_step(m, ts.last()),
            None => None,
        }
    }
}

/// Every event record decodes to an event with its key; the ticket records
/// are keyed 0, 1, 2, ... and each decodes.
pub open spec fn records_decode(events: Seq<(u64, Seq<u8>)>, tickets: Seq<(u64, Seq<u8>)>) -> bool {
    &&& forall|i: int|
        0 <= i < events.len() ==> parse_event(#[trigger] events[i].1) is Some
            && parse_event(events[i].1)->Some_0.id == events[i].0
    &&& forall|j: int|
        0 <= j < tickets.len() ==> #[trigger] tickets[j].0 == j && parse_ticket(tickets[j].1) is Some
}

/// The events that the event records decode to.
pub open spec fn event_list(events: Seq<(u64, Seq<u8>)>) -> Seq<EventView> {
    events.map_values(|p: (u64, Seq<u8>)| parse_event(p.1)->Some_0)
}

/// The tickets that the ticket records decode to.
pub open spec fn ticket_list(tickets: Seq<(u64, Seq<u8>)>) -> Seq<TicketView> {
    tickets.map_values(|p: (u64, Seq<u8>)| parse_ticket(p.1)->Some_0)
}

/// The ledger that the records give back, when they decode and take back.
pub open spec fn restored(counter: u64, events: Seq<(u64, Seq<u8>)>, tickets: Seq<(u64, Seq<u8>)>) -> Option<LedgerView> {
    if !records_decode(events, tickets) {
        None
    } else {
        match load_events(empty_ledger(counter), event_list(events)) {
            Some(l) => load_tickets(l, ticket_list(tickets)),
            None => None,
        }
    }
}

/// The records are consistent: they decode, take back in order, and every
/// stored sold count equals the tickets taken back for its event.
pub open spec fn records_consistent(counter: u64, events: Seq<(u64, Seq<u8>)>, tickets: Seq<(u64, Seq<u8>)>) -> bool {
    &&& restored(counter, events, tickets) is Some
    &&& forall|i: int|
        0 <= i < events.len() ==> (#[trigger] restored(counter, events, tickets)->Some_0.events[i]).tickets_sold
            == event_list(events)[i].tickets_sold
}

/// Once taking back fails, taking back more events still fails.
proof fn lemma_load_events_stays_none(l: LedgerView, es: Seq<EventView>, n: int, m: int)
    requires
        0 <= n <= m <= es.len(),
        load_events(l, es.take(n)) is None,
    ensures
        load_events(l, es.take(m)) is None,
    decreases m - n,
{
    if n < m {
        lemma_load_events_stays_none(l, es, n, m - 1);
        assert(es.take(m).drop_last() =~= es.take(m - 1));
    }
}

/// Once taking back fails, taking back more tickets still fails.
proof fn lemma_load_tickets_stays_none(l: LedgerView, ts: Seq<TicketView>, n: int, m: int)
    requires
        0 <= n <= m <= ts.len(),
        load_tickets(l, ts.take(n)) is None,
    ensures
        load_tickets(l, ts.take(m)) is None,
    decreases m - n,
{
    if n < m {
        lemma_load_tickets_stays_none(l, ts, n, m - 1);
        assert(ts.take(m).drop_last() =~= ts.take(m - 1));
    }
}

/// Rebuilds the ledger from the records read back: the event records by key,
/// the ticket records by position of issue, and the stored counter. Succeeds
/// exactly when the records are consistent, and then gives back the ledger
/// with those events, sold counts included, and those tickets, in order, and
/// no purchase in flight.
pub fn restore_ledger(counter: u64, events: &Vec<(u64, Vec<u8>)>, tickets: &Vec<(u64, Vec<u8>)>) -> (r: Result<Ledger, PurchaseError>)
    ensures
        r is Ok <==> records_consistent(counter, records_view(events@), records_view(tickets@)),
        r is Ok ==> {
            &&& r->Ok_0@ == restored(counter, records_view(events@), records_view(tickets@))->Some_0
            &&& r->Ok_0@.wf()
            &&& r->Ok_0@.holds.len() == 0
            &&& r->Ok_0@.next_id == counter
            &&& r->Ok_0@.events == event_list(records_view(events@))
            &&& r->Ok_0@.tickets == ticket_list(records_view(tickets@))
        },
        r is Err ==> r == Err::<Ledger, PurchaseError>(PurchaseError::StoreFailure),
{
    let ghost ev = records_view(events@);
    let ghost tv = records_view(tickets@);
    let ghost el = event_list(ev);
    let ghost tl = ticket_list(tv);
    let mut ledger = Ledger::new(counter);
    proof {
        assert(ledger@.events =~= Seq::<EventView>::empty());
        assert(ledger@.tickets =~= Seq::<TicketView>::empty());
        assert(ledger@.holds =~= Seq::<(u64, Seq<u8>)>::empty());
        assert(ledger@ == empty_ledger(counter));
        assert(el.take(0) =~= Seq::<EventView>::empty());
    }
    let mut i: usize = 0;
    while i < events.len()
        invariant
            ledger@.wf(),
            i <= events@.len(),
            ev == records_view(events@),
            el == event_list(ev),
            load_events(empty_ledger(counter), el.take(i as int)) == Some(ledger@),
            ledger@.events.len() == i,
            ledger@.tickets.len() == 0,
            ledger@.holds.len() == 0,
            ledger@.next_id == counter,
            forall|p: int| 0 <= p < i ==> parse_event(#[trigger] ev[p].1) is Some && parse_event(ev[p].1)->Some_0.id == ev[p].0,
            forall|p: int| 0 <= p < i ==> #[trigger] ledger@.events[p] == unsold(el[p]),
        decreases events@.len() - i,
    {
        let event = match decode_event(events[i].1.as_slice()) {
            Some(e) => e,
            None => {
                assert(!records_decode(ev, tv)) by {
                    assert(ev[i as int].1 == events@[i as int].1@);
                }
                return Err(PurchaseError::StoreFailure);
            },
        };
        proof {
            assert(ev[i as int] == (events@[i as int].0, events@[i as int].1@));
            assert(el[i as int] == event@);
            assert(el.take(i + 1).drop_last() =~= el.take(i as int));
        }
        if event.id != events[i].0 {
            return Err(PurchaseError::StoreFailure);
        }
        let ghost before = ledger@;
        if !ledger.restore_event(&event) {
            proof {
                assert(event_step(before, el[i as int]) is None);
                lemma_load_events_stays_none(empty_ledger(counter), el, i + 1, el.len() as int);
                assert(el.take(el.len() as int) =~= el);
            }
            return Err(PurchaseError::StoreFailure);
        }
        proof {
            assert(ledger@ == event_step(before, el[i as int])->Some_0);
        }
        i = i + 1;
    }
    let ghost loaded = ledger@;
    proof {
        assert(el.take(el.len() as int) =~= el);
        assert(tl.take(0) =~= Seq::<TicketView>::empty());
    }
    let mut j: usize = 0;
    while j < tickets.len()
        invariant
            ledger@.wf(),
            j <= tickets@.len(),
            ev == records_view(events@),
            tv == records_view(tickets@),
            el == event_list(ev),
            tl == ticket_list(tv),
            load_events(empty_ledger(counter), el) == Some(loaded),
            load_tickets(loaded, tl.take(j as int)) == Some(ledger@),
            forall|p: int| 0 <= p < events@.len() ==> parse_event(#[trigger] ev[p].1) is Some && parse_event(ev[p].1)->Some_0.id == ev[p].0,
            forall|q: int| 0 <= q < j ==> #[trigger] tv[q].0 == q && parse_ticket(tv[q].1) is Some,
            ledger@.events.len() == events@.len(),
            forall|p: int| 0 <= p < events@.len() ==> {
                &&& (#[trigger] ledger@.events[p]).id == el[p].id
                &&& ledger@.events[p].name == el[p].name
                &&& ledger@.events[p].date == el[p].date
                &&& ledger@.events[p].total_tickets == el[p].total_tickets
                &&& ledger@.events[p].price == el[p].price
            },
            ledger@.tickets == tl.take(j as int),
            ledger@.holds.len() == 0,
            ledger@.next_id == counter,
        decreases tickets@.len() - j,
    {
        proof {
            assert(tv[j as int] == (tickets@[j as int].0, tickets@[j as int].1@));
        }
        if tickets[j].0 != j as u64 {
            assert(!records_decode(ev, tv)) by {
                assert(tv[j as int].0 != j);
            }
            return Err(PurchaseError::StoreFailure);
        }
        let ticket = match decode_ticket(tickets[j].1.as_slice()) {
            Some(t) => t,
            None => {
                assert(!records_decode(ev, tv)) by {
                    assert(tickets@[j as int].1@ == tv[j as int].1);
                    assert(parse_ticket(tv[j as int].1) is None);
                    assert(tv[j as int].0 == j);
                }
                return Err(PurchaseError::StoreFailure);
            },
        };
        proof {
            assert(tickets@[j as int].1@ == tv[j as int].1);
            assert(tl[j as int] == ticket@);
            assert(tl.take(j + 1).drop_last() =~= tl.take(j as int));
        }
        let ghost before = ledger@;
        if !ledger.restore_ticket(ticket) {
            proof {
                assert(ticket_step(before, tl[j as int]) is None);
                lemma_load_tickets_stays_none(loaded, tl, j + 1, tl.len() as int);
                assert(tl.take(tl.len() as int) =~= tl);
            }
            return Err(PurchaseError::StoreFailure);
        }
        proof {
            assert(ledger@ == ticket_step(before, tl[j as int])->Some_0);
            assert(ledger@.tickets =~= tl.take(j + 1));
            assert(parse_ticket(tv[j as int].1) is Some);
            assert forall|q: int| 0 <= q < j + 1 implies #[trigger] tv[q].0 == q && parse_ticket(tv[q].1) is Some by {
                if q == j {
                    assert(tv[q].0 == tickets@[q].0);
                }
            }
        }
        j = j + 1;
    }
    proof {
        assert(tl.take(tl.len() as int) =~= tl);
        assert(ev.len() == events@.len());
        assert(tv.len() == tickets@.len());
        assert(records_decode(ev, tv));
        assert(restored(counter, ev, tv) == Some(ledger@));
    }
    let mut k: usize = 0;
    while k < events.len()
        invariant
            ledger@.wf(),
            k <= events@.len(),
            ev == records_view(events@),
            tv == records_view(tickets@),
            el == event_list(ev),
            restored(counter, ev, tv) == Some(ledger@),
            ledger@.events.len() == events@.len(),
            forall|p: int| 0 <= p < events@.len() ==> parse_event(#[trigger] ev[p].1) is Some && parse_event(ev[p].1)->Some_0.id == ev[p].0,
            forall|p: int| 0 <= p < k ==> (#[trigger] ledger@.events[p]).tickets_sold == el[p].tickets_sold,
            forall|p: int| 0 <= p < events@.len() ==> (#[trigger] ledger@.events[p]).id == el[p].id,
        decreases events@.len() - k,
    {
        proof {
            lemma_event_of(ledger@.events, k as int);
            assert(ev[k as int] == (events@[k as int].0, events@[k as int].1@));
        }
        let sold = match ledger.get_event(events[k].0) {
            Some(e) => e.tickets_sold,
            None => return Err(PurchaseError::StoreFailure),
        };
        let recorded = match decode_event(events[k].1.as_slice()) {
            Some(e) => e.tickets_sold,
            None => return Err(PurchaseError::StoreFailure),
        };
        if sold != recorded {
            proof {
                let l = restored(counter, ev, tv)->Some_0;
                assert(el[k as int] == parse_event(ev[k as int].1)->Some_0);
                assert(events@[k as int].1@ == ev[k as int].1);
                assert(recorded == el[k as int].tickets_sold);
                assert(ledger@.events[k as int].id == events@[k as int].0);
                assert(sold == ledger@.events[k as int].tickets_sold);
                assert(l == ledger@);
                assert(restored(counter, ev, tv)->Some_0.events[k as int].tickets_sold != event_list(ev)[k as int].tickets_sold);
                assert(!records_consistent(counter, ev, tv));
                assert(l.events[k as int].tickets_sold != el[k as int].tickets_sold);
            }
            return Err(PurchaseError::StoreFailure);
        }
        k = k + 1;
    }
    proof {
        assert(ledger@.events =~= el);
    }
    Ok(ledger)
}

/// Whether every blob key read back is an identifier already issued, that
/// is, below the stored counter.
pub fn blob_keys_issued(counter: u64, keys: &Vec<u64>) -> (r: bool)
    ensures
        r == forall|i: int| 0 <= i < keys@.len() ==> #[trigger] keys@[i] < counter,
{
    let mut i: usize = 0;
    while i < keys.len()
        invariant
            i <= keys@.len(),
            forall|p: int| 0 <= p < i ==> #[trigger] keys@[p] < counter,
        decreases keys@.len() - i,
    {
        if keys[i] >= counter {
            return false;
        }
        i = i + 1;
    }
    true
}

} // verus!
