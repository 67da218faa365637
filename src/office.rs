//! The ticket office: the ledger together with the durable regions it writes
//! through to, one operation at a time.
use vstd::prelude::*;
use ic_stable_structures::DefaultMemoryImpl;
use crate::codec::{
    encode_event, encode_ticket, event_bytes, lemma_event_canonical, lemma_ticket_canonical,
    parse_event, parse_ticket, ticket_bytes,
};
use crate::restore::{
    blob_keys_issued, event_list, records_decode, records_view, restore_ledger, ticket_list,
};
use crate::engine::{
    event_of, has_event, hold_exists, lemma_event_of, lemma_push_lookup, lemma_sell_one_lookup, purchase_begun,
    purchase_completed, sell_one, Ledger, LedgerView,
};
use crate::store::{
    cell_header_loads, counter_get, counter_set, counter_value, manager_header_loads,
    map_header_loads, open_counter, open_region, open_stable_memory, raw_header, raw_memory,
    region_contents, region_get, region_header, region_insert, region_keys, region_memory, Counter,
    Region, StableMemory,
};
use crate::types::{Blob, Event, EventView, PaymentOutcome, PendingPurchase, PurchaseError, Ticket};

verus! {

/// Virtual memory of the events region.
pub const EVENTS_MEMORY: u8 = 0;

/// Virtual memory of the identifier counter.
pub const COUNTER_MEMORY: u8 = 1;

/// Virtual memory of the tickets region.
pub const TICKETS_MEMORY: u8 = 2;

/// Virtual memory of the blobs region.
pub const BLOBS_MEMORY: u8 = 5;

/// The stored regions hold exactly the ledger's events, by identifier, and its
/// tickets, by position of issue, each as its encoding.
pub open spec fn records_match(l: LedgerView, events: Map<u64, Seq<u8>>, tickets: Map<u64, Seq<u8>>) -> bool {
    &&& forall|id: u64| #[trigger] events.contains_key(id) <==> has_event(l.events, id)
    &&& forall|id: u64| #[trigger] events.contains_key(id) ==> events[id] == event_bytes(event_of(l.events, id))
    &&& forall|k: u64| #[trigger] tickets.contains_key(k) <==> k < l.tickets.len()
    &&& forall|k: u64| #[trigger] tickets.contains_key(k) ==> tickets[k] == ticket_bytes(l.tickets[k as int])
}

/// Reads every record of a region, in increasing key order.
fn read_records(r: &Region) -> (out: Vec<(u64, Vec<u8>)>)
    ensures
        forall|i: int, j: int| 0 <= i < j < out@.len() ==> out@[i].0 < out@[j].0,
        forall|i: int|
            0 <= i < out@.len() ==> region_contents(*r).contains_key((#[trigger] out@[i]).0)
                && region_contents(*r)[out@[i].0] == out@[i].1@,
        forall|k: u64|
            #[trigger] region_contents(*r).contains_key(k) ==> exists|i: int| 0 <= i < out@.len() && out@[i].0 == k,
{
    let keys = region_keys(r);
    let mut out: Vec<(u64, Vec<u8>)> = Vec::new();
    let mut i: usize = 0;
    while i < keys.len()
        invariant
            i <= keys@.len(),
            out@.len() == i,
            forall|a: int, b: int| 0 <= a < b < keys@.len() ==> keys@[a] < keys@[b],
            forall|k: u64| region_contents(*r).contains_key(k) <==> keys@.contains(k),
            forall|p: int| 0 <= p < i ==> (#[trigger] out@[p]).0 == keys@[p]
                && region_contents(*r).contains_key(keys@[p])
                && region_contents(*r)[keys@[p]] == out@[p].1@,
        decreases keys@.len() - i,
    {
        let key = keys[i];
        match region_get(r, key) {
            Some(b) => out.push((key, b)),
            None => {
                proof {
                    assert(keys@.contains(keys@[i as int]));
                }
            },
        }
        i = i + 1;
    }
    proof {
        assert forall|k: u64| #[trigger] region_contents(*r).contains_key(k) implies exists|i: int| 0 <= i < out@.len() && out@[i].0 == k by {
            assert(keys@.contains(k));
            let p = choose|p: int| 0 <= p < keys@.len() && keys@[p] == k;
            assert(out@[p].0 == k);
        }
    }
    out
}

/// Events, tickets and blobs kept in stable memory, with the purchases in
/// flight kept beside them in ordinary memory only.
pub struct TicketOffice {
    ledger: Ledger,
    events: Region,
    tickets: Region,
    blob_region: Region,
    counter: Counter,
}

impl TicketOffice {
    /// The ledger: events, tickets, holds and the next identifier.
    pub closed spec fn ledger(&self) -> LedgerView {
        self.ledger@
    }

    /// What the events region holds, by event identifier.
    pub closed spec fn stored_events(&self) -> Map<u64, Seq<u8>> {
        region_contents(self.events)
    }

    /// What the tickets region holds, by position of issue.
    pub closed spec fn stored_tickets(&self) -> Map<u64, Seq<u8>> {
        region_contents(self.tickets)
    }

    /// What the blobs region holds, by blob identifier.
    pub closed spec fn stored_blobs(&self) -> Map<u64, Seq<u8>> {
        region_contents(self.blob_region)
    }

    /// The identifier counter as stored.
    pub closed spec fn stored_counter(&self) -> u64 {
        counter_value(self.counter)
    }

    pub open spec fn wf(&self) -> bool {
        &&& self.ledger().wf()
        &&& self.stored_counter() == self.ledger().next_id
        &&& records_match(self.ledger(), self.stored_events(), self.stored_tickets())
        &&& forall|k: u64| #[trigger] self.stored_blobs().contains_key(k) ==> k < self.ledger().next_id
    }

    /// Opens the office kept in `memory`, or a new empty one. The records of
    /// the three regions are read back and handed to [`restore_ledger`] and
    /// [`blob_keys_issued`]: the result is `StoreFailure` exactly when they
    /// are not consistent, and otherwise the ledger they give back, with the
    /// stored blobs and no purchase in flight. Each memory's header is read
    /// first, and a memory whose layout does not load gives `StoreFailure`.
    ///
    /// The office must be the only user of `memory` for as long as it lives:
    /// the regions cache their layout, and writes made through another handle
    /// to the same memory (a second office opened on a clone of it, say) would
    /// make what they read and write disagree with what this office states.
    pub fn open(memory: DefaultMemoryImpl) -> (r: Result<TicketOffice, PurchaseError>)
        ensures
            match r {
                Ok(office) => office.wf() && office.ledger().holds.len() == 0 && office.ledger().next_id
                    == office.stored_counter(),
                Err(e) => e == PurchaseError::StoreFailure,
            },
    {
        let raw = raw_memory(memory);
        if !manager_header_loads(&raw_header(&raw)) {
            return Err(PurchaseError::StoreFailure);
        }
        let memory = open_stable_memory(raw);
        let events = match open_map(&memory, EVENTS_MEMORY) {
            Some(r) => r,
            None => return Err(PurchaseError::StoreFailure),
        };
        let counter_memory = region_memory(&memory, COUNTER_MEMORY);
        if !cell_header_loads(&region_header(&counter_memory)) {
            return Err(PurchaseError::StoreFailure);
        }
        let counter = open_counter(counter_memory, 0);
        let tickets = match open_map(&memory, TICKETS_MEMORY) {
            Some(r) => r,
            None => return Err(PurchaseError::StoreFailure),
        };
        let blob_region = match open_map(&memory, BLOBS_MEMORY) {
            Some(r) => r,
            None => return Err(PurchaseError::StoreFailure),
        };
        let event_records = read_records(&events);
        let ticket_records = read_records(&tickets);
        let blob_keys = region_keys(&blob_region);
        let next = counter_get(&counter);
        let ledger = match restore_ledger(next, &event_records, &ticket_records) {
            Ok(l) => l,
            Err(e) => return Err(e),
        };
        if !blob_keys_issued(next, &blob_keys) {
            return Err(PurchaseError::StoreFailure);
        }
        proof {
            let l = ledger@;
            let se = region_contents(events);
            let st = region_contents(tickets);
            let sb = region_contents(blob_region);
            let ev = records_view(event_records@);
            let tv = records_view(ticket_records@);
            assert(records_decode(ev, tv));
            assert forall|p: int| 0 <= p < ev.len() implies #[trigger] l.events[p] == parse_event(ev[p].1)->Some_0
                && ev[p] == (event_records@[p].0, event_records@[p].1@) && l.events[p].id == ev[p].0 by {
                assert(event_list(ev)[p] == parse_event(ev[p].1)->Some_0);
            }
            assert forall|id: u64| #[trigger] se.contains_key(id) <==> has_event(l.events, id) by {
                if se.contains_key(id) {
                    let p = choose|p: int| 0 <= p < event_records@.len() && event_records@[p].0 == id;
                    assert(l.events[p].id == id);
                }
                if has_event(l.events, id) {
                    let p = choose|p: int| 0 <= p < l.events.len() && #[trigger] l.events[p].id == id;
                    assert(se.contains_key(event_records@[p].0));
                }
            }
            assert forall|id: u64| #[trigger] se.contains_key(id) implies se[id] == event_bytes(event_of(l.events, id)) by {
                let p = choose|p: int| 0 <= p < event_records@.len() && event_records@[p].0 == id;
                assert(l.events[p].id == id);
                lemma_event_of(l.events, p);
                assert(se[id] == ev[p].1);
                lemma_event_canonical(ev[p].1);
            }
            assert forall|q: int| 0 <= q < tv.len() implies #[trigger] l.tickets[q] == parse_ticket(tv[q].1)->Some_0
                && tv[q] == (ticket_records@[q].0, ticket_records@[q].1@) && tv[q].0 == q by {
                assert(ticket_list(tv)[q] == parse_ticket(tv[q].1)->Some_0);
            }
            assert forall|k: u64| #[trigger] st.contains_key(k) <==> k < l.tickets.len() by {
                if st.contains_key(k) {
                    let q = choose|q: int| 0 <= q < ticket_records@.len() && ticket_records@[q].0 == k;
                    assert(tv[q].0 == q);
                }
                if k < l.tickets.len() {
                    assert(tv[k as int].0 == k);
                    assert(st.contains_key(ticket_records@[k as int].0));
                }
            }
            assert forall|k: u64| #[trigger] st.contains_key(k) implies st[k] == ticket_bytes(l.tickets[k as int]) by {
                let q = choose|q: int| 0 <= q < ticket_records@.len() && ticket_records@[q].0 == k;
                assert(tv[q].0 == q);
                assert(st[k] == tv[q].1);
                lemma_ticket_canonical(tv[q].1);
            }
            assert forall|k: u64| #[trigger] sb.contains_key(k) implies k < next by {
                assert(blob_keys@.contains(k));
                let i = choose|i: int| 0 <= i < blob_keys@.len() && blob_keys@[i] == k;
                assert(blob_keys@[i] < next);
            }
        }
        Ok(TicketOffice { ledger, events, tickets, blob_region, counter })
    }

    /// Issues the next identifier and stores the counter.
    fn next_id(&mut self) -> (r: u64)
        requires
            old(self).wf(),
            old(self).ledger().next_id < u64::MAX,
        ensures
            final(self).wf(),
            r == old(self).ledger().next_id,
            final(self).ledger() == (LedgerView { next_id: (r + 1) as u64, ..old(self).ledger() }),
            final(self).stored_events() == old(self).stored_events(),
            final(self).stored_tickets() == old(self).stored_tickets(),
            final(self).stored_blobs() == old(self).stored_blobs(),
    {
        let ghost blobs_before = self.stored_blobs();
        let r = self.ledger.allocate_id();
        counter_set(&mut self.counter, r + 1);
        proof {
            assert forall|k: u64| #[trigger] self.stored_blobs().contains_key(k) implies k < self.ledger().next_id by {
                assert(blobs_before.contains_key(k));
            }
        }
        r
    }

    /// Whether a new identifier can still be issued.
    pub fn ids_left(&self) -> (r: bool)
        ensures
            r == (self.ledger().next_id < u64::MAX),
    {
        self.ledger.ids_left()
    }

    /// Creates an event with a fresh identifier and no tickets sold, and
    /// stores it.
    pub fn create_event(&mut self, name: String, date: String, total_tickets: u32, price: u64) -> (r: Event)
        requires
            old(self).wf(),
            old(self).ledger().next_id < u64::MAX,
        ensures
            final(self).wf(),
            r@ == (EventView {
                id: old(self).ledger().next_id,
                name: name@,
                date: date@,
                total_tickets,
                tickets_sold: 0,
                price,
            }),
            final(self).ledger().events == old(self).ledger().events.push(r@),
            final(self).ledger().next_id == old(self).ledger().next_id + 1,
            final(self).ledger().tickets == old(self).ledger().tickets,
            final(self).ledger().holds == old(self).ledger().holds,
            final(self).stored_events() == old(self).stored_events().insert(r.id, event_bytes(r@)),
            !final(self).stored_blobs().contains_key(r.id),
            final(self).stored_tickets() == old(self).stored_tickets(),
            final(self).stored_blobs() == old(self).stored_blobs(),
    {
        let ghost o = self.ledger@;
        let ghost stored = self.stored_events();
        let ghost blobs_before = self.stored_blobs();
        let event = self.ledger.create_event(name, date, total_tickets, price);
        counter_set(&mut self.counter, event.id + 1);
        region_insert(&mut self.events, event.id, encode_event(&event));
        proof {
            let l = self.ledger@;
            lemma_push_lookup(o.events, event@);
            assert(!has_event(o.events, event.id)) by {
                if has_event(o.events, event.id) {
                    let i = choose|i: int| 0 <= i < o.events.len() && #[trigger] o.events[i].id == event.id;
                }
            }
            assert forall|id: u64| #[trigger] self.stored_events().contains_key(id) implies
                self.stored_events()[id] == event_bytes(event_of(l.events, id)) by {
                if id != event.id {
                    assert(stored.contains_key(id));
                }
            }
        }
        proof {
            assert forall|k: u64| #[trigger] self.stored_blobs().contains_key(k) implies k < self.ledger().next_id by {
                assert(blobs_before.contains_key(k));
            }
            assert(!blobs_before.contains_key(event.id));
        }
        event
    }

    /// The event with identifier `id`, if there is one.
    pub fn get_event(&self, id: u64) -> (r: Option<Event>)
        requires
            self.wf(),
        ensures
            match r {
                Some(e) => has_event(self.ledger().events, id) && e@ == event_of(self.ledger().events, id),
                None => !has_event(self.ledger().events, id),
            },
    {
        self.ledger.get_event(id)
    }

    /// All issued tickets, in the order they were issued.
    pub fn get_tickets(&self) -> (r: Vec<Ticket>)
        ensures
            r@.map_values(|t: Ticket| t@) == self.ledger().tickets,
    {
        self.ledger.get_tickets()
    }

    /// Whether a purchase by `buyer` for `event_id` is waiting for its payment.
    pub fn is_pending(&self, event_id: u64, buyer: &Vec<u8>) -> (r: bool)
        ensures
            r == hold_exists(self.ledger().holds, event_id, buyer@),
    {
        self.ledger.is_pending(event_id, buyer)
    }

    /// First half of a purchase (see [`Ledger::begin_purchase`]); it writes
    /// nothing durable.
    pub fn begin_purchase(&mut self, event_id: u64, buyer: Vec<u8>) -> (r: Result<PendingPurchase, PurchaseError>)
        requires
            old(self).wf(),
        ensures
            final(self).wf(),
            purchase_begun(old(self).ledger(), final(self).ledger(), event_id, buyer@, r),
            final(self).stored_events() == old(self).stored_events(),
            final(self).stored_tickets() == old(self).stored_tickets(),
            final(self).stored_blobs() == old(self).stored_blobs(),
    {
        let ghost blobs_before = self.stored_blobs();
        let r = self.ledger.begin_purchase(event_id, buyer);
        proof {
            assert forall|k: u64| #[trigger] self.stored_blobs().contains_key(k) implies k < self.ledger().next_id by {
                assert(blobs_before.contains_key(k));
            }
        }
        r
    }

    /// Second half of a purchase (see [`Ledger::complete_purchase`]). A sale
    /// stores the event with its new count and the ticket under its position
    /// of issue; any other outcome stores nothing.
    pub fn complete_purchase(&mut self, pending: PendingPurchase, outcome: PaymentOutcome, now: u64) -> (r: Result<Ticket, PurchaseError>)
        requires
            old(self).wf(),
            hold_exists(old(self).ledger().holds, pending.event_id, pending.buyer@),
        ensures
            final(self).wf(),
            purchase_completed(old(self).ledger(), final(self).ledger(), pending.event_id, pending.buyer@, outcome, now, r),
            r is Ok ==> final(self).stored_events() == old(self).stored_events().insert(
                pending.event_id,
                event_bytes(event_of(final(self).ledger().events, pending.event_id)),
            ) && final(self).stored_tickets() == old(self).stored_tickets().insert(
                old(self).ledger().tickets.len() as u64,
                ticket_bytes(r->Ok_0@),
            ),
            r is Err ==> final(self).stored_events() == old(self).stored_events()
                && final(self).stored_tickets() == old(self).stored_tickets(),
            final(self).stored_blobs() == old(self).stored_blobs(),
    {
        let event_id = pending.event_id;
        let ghost blobs_before = self.stored_blobs();
        let ghost o = self.ledger@;
        let ghost buyer = pending.buyer@;
        let position = self.ledger.ticket_count();
        let r = self.ledger.complete_purchase(pending, outcome, now);
        proof {
            assert forall|k: u64| #[trigger] self.stored_blobs().contains_key(k) implies k < self.ledger().next_id by {
                assert(blobs_before.contains_key(k));
            }
        }

        match r {
            Ok(ticket) => {
                let event = match self.ledger.get_event(event_id) {
                    Some(e) => e,
                    None => {
                        proof {
                            let hj = choose|j: int| 0 <= j < o.holds.len() && #[trigger] o.holds[j] == (event_id, buyer);
                            assert(has_event(o.events, o.holds[hj].0));
                            let k = choose|k: int| 0 <= k < o.events.len() && #[trigger] o.events[k].id == event_id;
                            assert(self.ledger@.events[k].id == event_id);
                        }
                        return Err(PurchaseError::StoreFailure);
                    },
                };
                let ghost stored_events = self.stored_events();
                let ghost stored_tickets = self.stored_tickets();
                region_insert(&mut self.events, event_id, encode_event(&event));
                region_insert(&mut self.tickets, position as u64, encode_ticket(&ticket));
                proof {
                    let l = self.ledger@;
                    lemma_sell_one_lookup(o.events, event_id);
                    assert forall|id: u64| #[trigger] self.stored_events().contains_key(id) implies
                        self.stored_events()[id] == event_bytes(event_of(l.events, id)) by {
                        if id != event_id {
                            assert(stored_events.contains_key(id));
                        }
                    }
                    assert forall|id: u64| #[trigger] self.stored_events().contains_key(id) <==> has_event(l.events, id) by {
                        if id != event_id {
                            assert(stored_events.contains_key(id) <==> has_event(o.events, id));
                        }
                    }
                    assert forall|k: u64| #[trigger] self.stored_tickets().contains_key(k) <==> k < l.tickets.len() by {
                        if k != position as u64 {
                            assert(stored_tickets.contains_key(k) <==> k < o.tickets.len());
                        }
                    }
                    assert forall|k: u64| #[trigger] self.stored_tickets().contains_key(k) implies
                        self.stored_tickets()[k] == ticket_bytes(l.tickets[k as int]) by {
                        if k != position as u64 {
                            assert(stored_tickets.contains_key(k));
                        }
                    }
                }
                Ok(ticket)
            },
            Err(e) => Err(e),
        }
    }

    /// Stores `data` under a fresh identifier; earlier blobs are kept.
    pub fn upload_blob(&mut self, data: Vec<u8>) -> (r: Blob)
        requires
            old(self).wf(),
            old(self).ledger().next_id < u64::MAX,
        ensures
            final(self).wf(),
            r.id == old(self).ledger().next_id,
            r.data@ == data@,
            !old(self).stored_blobs().contains_key(r.id),
            final(self).stored_blobs() == old(self).stored_blobs().insert(r.id, data@),
            final(self).ledger() == (LedgerView { next_id: (r.id + 1) as u64, ..old(self).ledger() }),
            final(self).stored_events() == old(self).stored_events(),
            final(self).stored_tickets() == old(self).stored_tickets(),
    {
        let id = self.next_id();
        region_insert(&mut self.blob_region, id, data.clone());
        Blob { id, data }
    }

    /// The blob stored under `id`, if any.
    pub fn get_blob(&self, id: u64) -> (r: Option<Blob>)
        ensures
            match r {
                Some(b) => b.id == id && self.stored_blobs().contains_key(id) && b.data@ == self.stored_blobs()[id],
                None => !self.stored_blobs().contains_key(id),
            },
    {
        match region_get(&self.blob_region, id) {
            Some(data) => Some(Blob { id, data }),
            None => None,
        }
    }
}

/// Opens the map in virtual memory `id`, where its header loads.
fn open_map(memory: &StableMemory, id: u8) -> (r: Option<Region>)
    requires
        id < 255,
{
    let m = region_memory(memory, id);
    if map_header_loads(&region_header(&m)) {
        Some(open_region(m))
    } else {
        None
    }
}

} // verus!
