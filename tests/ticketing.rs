use ic_stable_structures::memory_manager::{MemoryId, MemoryManager};
use ic_stable_structures::{DefaultMemoryImpl, Memory, StableBTreeMap};
use ticketing::codec::{decode_event, decode_ticket, encode_event, encode_ticket};
use ticketing::engine::Ledger;
use ticketing::office::TicketOffice;
use ticketing::restore::{blob_keys_issued, restore_ledger};
use ticketing::types::{bytes_equal, Event, PaymentOutcome, PurchaseError, Ticket};

fn buyer(n: u8) -> Vec<u8> {
    vec![n, 0xAB, n]
}

fn buy(ledger: &mut Ledger, event_id: u64, who: Vec<u8>, now: u64) -> Result<Ticket, PurchaseError> {
    let pending = ledger.begin_purchase(event_id, who)?;
    ledger.complete_purchase(pending, PaymentOutcome::Confirmed(7), now)
}

#[test]
fn create_event_assigns_fresh_ids() {
    let mut ledger = Ledger::new(0);
    let a = ledger.create_event("Concert".to_string(), "2024-05-01".to_string(), 100, 500);
    let b = ledger.create_event("Play".to_string(), "2024-06-01".to_string(), 10, 0);
    assert_eq!(a.id, 0);
    assert_eq!(b.id, 1);
    assert_eq!(a.tickets_sold, 0);
    assert_eq!(a.total_tickets, 100);
    assert_eq!(a.price, 500);
    assert_eq!(ledger.get_event(1), Some(b));
    assert_eq!(ledger.get_event(2), None);
}

#[test]
fn purchase_issues_ticket_one() {
    let mut ledger = Ledger::new(0);
    let e = ledger.create_event("Concert".to_string(), "2024-05-01".to_string(), 2, 250);
    let pending = ledger.begin_purchase(e.id, buyer(1)).unwrap();
    assert_eq!(pending.amount, 250);
    assert!(ledger.is_pending(e.id, &buyer(1)));
    let t = ledger.complete_purchase(pending, PaymentOutcome::Confirmed(42), 1000).unwrap();
    assert_eq!(t.ticket_number, 1);
    assert_eq!(t.event_id, e.id);
    assert_eq!(t.buyer, buyer(1));
    assert_eq!(t.purchase_time, 1000);
    assert!(!ledger.is_pending(e.id, &buyer(1)));
    assert_eq!(ledger.get_event(e.id).unwrap().tickets_sold, 1);
    assert_eq!(ledger.get_tickets(), vec![t]);
}

#[test]
fn unknown_event_is_not_found() {
    let mut ledger = Ledger::new(0);
    assert_eq!(ledger.begin_purchase(9, buyer(1)), Err(PurchaseError::EventNotFound));
}

#[test]
fn event_without_capacity_is_sold_out() {
    let mut ledger = Ledger::new(0);
    let e = ledger.create_event("Empty".to_string(), "d".to_string(), 0, 1);
    assert_eq!(ledger.begin_purchase(e.id, buyer(1)), Err(PurchaseError::SoldOut(None)));
}

#[test]
fn second_attempt_while_pending_is_duplicate() {
    let mut ledger = Ledger::new(0);
    let e = ledger.create_event("Concert".to_string(), "d".to_string(), 5, 1);
    let first = ledger.begin_purchase(e.id, buyer(1)).unwrap();
    assert_eq!(ledger.begin_purchase(e.id, buyer(1)), Err(PurchaseError::DuplicateTicket));
    let t = ledger.complete_purchase(first, PaymentOutcome::Confirmed(1), 5).unwrap();
    assert_eq!(t.ticket_number, 1);
    assert_eq!(ledger.get_tickets().len(), 1);
}

#[test]
fn attempt_after_commit_is_duplicate() {
    let mut ledger = Ledger::new(0);
    let e = ledger.create_event("Concert".to_string(), "d".to_string(), 5, 1);
    buy(&mut ledger, e.id, buyer(1), 1).unwrap();
    assert_eq!(ledger.begin_purchase(e.id, buyer(1)), Err(PurchaseError::DuplicateTicket));
    assert_eq!(ledger.get_event(e.id).unwrap().tickets_sold, 1);
}

#[test]
fn retry_after_release_is_allowed() {
    let mut ledger = Ledger::new(0);
    let e = ledger.create_event("Concert".to_string(), "d".to_string(), 5, 1);
    let p = ledger.begin_purchase(e.id, buyer(1)).unwrap();
    let r = ledger.complete_purchase(p, PaymentOutcome::Rejected("insufficient funds".to_string()), 1);
    assert_eq!(r, Err(PurchaseError::PaymentRejected("insufficient funds".to_string())));
    let t = buy(&mut ledger, e.id, buyer(1), 2).unwrap();
    assert_eq!(t.ticket_number, 1);
}

#[test]
fn rejected_payment_changes_nothing() {
    let mut ledger = Ledger::new(0);
    let e = ledger.create_event("Concert".to_string(), "d".to_string(), 5, 1);
    let p = ledger.begin_purchase(e.id, buyer(1)).unwrap();
    let r = ledger.complete_purchase(p, PaymentOutcome::Rejected("declined".to_string()), 1);
    assert_eq!(r, Err(PurchaseError::PaymentRejected("declined".to_string())));
    assert_eq!(ledger.get_event(e.id).unwrap().tickets_sold, 0);
    assert!(ledger.get_tickets().is_empty());
    assert!(!ledger.is_pending(e.id, &buyer(1)));
}

#[test]
fn failed_call_changes_nothing() {
    let mut ledger = Ledger::new(0);
    let e = ledger.create_event("Concert".to_string(), "d".to_string(), 5, 1);
    let p = ledger.begin_purchase(e.id, buyer(1)).unwrap();
    let r = ledger.complete_purchase(p, PaymentOutcome::CallFailed(2, "unreachable".to_string()), 1);
    assert_eq!(r, Err(PurchaseError::PaymentCallFailed(2, "unreachable".to_string())));
    assert_eq!(ledger.get_event(e.id).unwrap().tickets_sold, 0);
    assert!(ledger.get_tickets().is_empty());
}

#[test]
fn interleaved_purchases_never_oversell() {
    let mut ledger = Ledger::new(0);
    let e = ledger.create_event("Small".to_string(), "d".to_string(), 3, 10);
    let mut pending = Vec::new();
    for n in 0..10u8 {
        pending.push(ledger.begin_purchase(e.id, buyer(n)).unwrap());
    }
    let mut sold = 0;
    let mut sold_out = 0;
    for (k, p) in pending.into_iter().enumerate() {
        match ledger.complete_purchase(p, PaymentOutcome::Confirmed(k as u64), k as u64) {
            Ok(_) => sold += 1,
            Err(PurchaseError::SoldOut(Some(receipt))) => {
                assert_eq!(receipt, k as u64);
                sold_out += 1
            },
            Err(other) => panic!("unexpected {:?}", other),
        }
    }
    assert_eq!(sold, 3);
    assert_eq!(sold_out, 7);
    let event = ledger.get_event(e.id).unwrap();
    assert_eq!(event.tickets_sold, 3);
    let numbers: Vec<u32> = ledger.get_tickets().iter().map(|t| t.ticket_number).collect();
    assert_eq!(numbers, vec![1, 2, 3]);
}

#[test]
fn numbers_follow_issue_order_per_event() {
    let mut ledger = Ledger::new(0);
    let a = ledger.create_event("A".to_string(), "d".to_string(), 10, 1);
    let b = ledger.create_event("B".to_string(), "d".to_string(), 10, 1);
    let pa1 = ledger.begin_purchase(a.id, buyer(1)).unwrap();
    let pb1 = ledger.begin_purchase(b.id, buyer(1)).unwrap();
    let pa2 = ledger.begin_purchase(a.id, buyer(2)).unwrap();
    let t1 = ledger.complete_purchase(pa2, PaymentOutcome::Confirmed(1), 1).unwrap();
    let t2 = ledger.complete_purchase(pb1, PaymentOutcome::Confirmed(2), 2).unwrap();
    let t3 = ledger.complete_purchase(pa1, PaymentOutcome::Confirmed(3), 3).unwrap();
    assert_eq!((t1.event_id, t1.ticket_number), (a.id, 1));
    assert_eq!((t2.event_id, t2.ticket_number), (b.id, 1));
    assert_eq!((t3.event_id, t3.ticket_number), (a.id, 2));
    assert_eq!(t3.buyer, buyer(1));
}

#[test]
fn last_place_goes_to_first_to_resume() {
    let mut ledger = Ledger::new(0);
    let e = ledger.create_event("One seat".to_string(), "d".to_string(), 1, 100);
    let first = ledger.begin_purchase(e.id, buyer(1)).unwrap();
    let second = ledger.begin_purchase(e.id, buyer(2)).unwrap();
    let t = ledger.complete_purchase(first, PaymentOutcome::Confirmed(1), 10).unwrap();
    assert_eq!(t.ticket_number, 1);
    let r = ledger.complete_purchase(second, PaymentOutcome::Confirmed(2), 11);
    assert_eq!(r, Err(PurchaseError::SoldOut(Some(2))));
    assert!(!ledger.is_pending(e.id, &buyer(2)));
    let event = ledger.get_event(e.id).unwrap();
    assert_eq!(event.tickets_sold, 1);
    assert_eq!(event.total_tickets, 1);
    assert_eq!(ledger.get_tickets().len(), 1);
}

#[test]
fn event_record_round_trip() {
    let e = Event {
        id: 77,
        name: "Fête à Zürich".to_string(),
        date: "2024-07-14".to_string(),
        total_tickets: 300,
        tickets_sold: 12,
        price: 1_000_000,
    };
    let bytes = encode_event(&e);
    assert_eq!(bytes.len(), 40 + e.name.len() + e.date.len());
    assert_eq!(&bytes[0..8], &77u64.to_le_bytes());
    assert_eq!(decode_event(&bytes), Some(e));
}

#[test]
fn ticket_record_round_trip() {
    let t = Ticket { event_id: 3, buyer: buyer(9), purchase_time: 123456789, ticket_number: 4 };
    let bytes = encode_ticket(&t);
    assert_eq!(bytes.len(), 28 + 3);
    assert_eq!(decode_ticket(&bytes), Some(t));
}

#[test]
fn malformed_records_are_refused() {
    assert_eq!(decode_event(&[1, 2, 3]), None);
    assert_eq!(decode_ticket(&[0; 27]), None);
    let e = Event {
        id: 1,
        name: "ab".to_string(),
        date: "c".to_string(),
        total_tickets: 1,
        tickets_sold: 0,
        price: 0,
    };
    let mut bytes = encode_event(&e);
    bytes[32] = 0xFF;
    assert_eq!(decode_event(&bytes), None);
    let mut longer = encode_event(&e);
    longer.push(0);
    assert_eq!(decode_event(&longer), None);
}

#[test]
fn byte_strings_compare_by_content() {
    assert!(bytes_equal(&vec![1, 2, 3], &vec![1, 2, 3]));
    assert!(!bytes_equal(&vec![1, 2, 3], &vec![1, 2, 4]));
    assert!(!bytes_equal(&vec![1, 2], &vec![1, 2, 3]));
    assert!(bytes_equal(&vec![], &vec![]));
}

#[test]
fn office_stores_blobs() {
    let mut office = TicketOffice::open(DefaultMemoryImpl::default()).unwrap();
    let blob = office.upload_blob(vec![9, 8, 7]);
    assert_eq!(blob.data, vec![9, 8, 7]);
    assert_eq!(office.get_blob(blob.id).unwrap().data, vec![9, 8, 7]);
    assert_eq!(office.get_blob(blob.id + 1), None);
    let e = office.create_event("After blob".to_string(), "d".to_string(), 1, 0);
    assert!(e.id > blob.id);
}

#[test]
fn office_survives_restart() {
    let memory = DefaultMemoryImpl::default();
    let mut office = TicketOffice::open(memory.clone()).unwrap();
    let a = office.create_event("Concert".to_string(), "2024-05-01".to_string(), 2, 300);
    let b = office.create_event("Talk".to_string(), "2024-05-02".to_string(), 5, 0);
    let p = office.begin_purchase(a.id, buyer(1)).unwrap();
    let t1 = office.complete_purchase(p, PaymentOutcome::Confirmed(1), 100).unwrap();
    let p = office.begin_purchase(b.id, buyer(2)).unwrap();
    let t2 = office.complete_purchase(p, PaymentOutcome::Confirmed(2), 200).unwrap();
    let blob = office.upload_blob(vec![1, 2, 3, 4]);
    let in_flight = office.begin_purchase(a.id, buyer(3)).unwrap();
    assert!(office.is_pending(in_flight.event_id, &in_flight.buyer));
    drop(office);

    let mut reopened = TicketOffice::open(memory.clone()).unwrap();
    let a2 = reopened.get_event(a.id).unwrap();
    assert_eq!(a2.name, "Concert");
    assert_eq!(a2.tickets_sold, 1);
    assert_eq!(reopened.get_event(b.id).unwrap().tickets_sold, 1);
    assert_eq!(reopened.get_tickets(), vec![t1, t2]);
    assert_eq!(reopened.get_blob(blob.id).unwrap().data, vec![1, 2, 3, 4]);
    assert!(!reopened.is_pending(a.id, &buyer(3)));
    assert_eq!(reopened.begin_purchase(a.id, buyer(1)), Err(PurchaseError::DuplicateTicket));
    let p = reopened.begin_purchase(a.id, buyer(3)).unwrap();
    let t3 = reopened.complete_purchase(p, PaymentOutcome::Confirmed(3), 300).unwrap();
    assert_eq!(t3.ticket_number, 2);
    let c = reopened.create_event("Later".to_string(), "d".to_string(), 1, 0);
    assert!(c.id > blob.id);
}

#[test]
fn garbled_event_record_is_store_failure() {
    let memory = DefaultMemoryImpl::default();
    {
        let manager = MemoryManager::init(memory.clone());
        let mut events: StableBTreeMap<u64, Vec<u8>, _> = StableBTreeMap::init(manager.get(MemoryId::new(0)));
        events.insert(0, vec![1, 2, 3]);
    }
    assert!(matches!(TicketOffice::open(memory), Err(PurchaseError::StoreFailure)));
}

#[test]
fn ticket_without_event_is_store_failure() {
    let memory = DefaultMemoryImpl::default();
    {
        let manager = MemoryManager::init(memory.clone());
        let mut tickets: StableBTreeMap<u64, Vec<u8>, _> = StableBTreeMap::init(manager.get(MemoryId::new(2)));
        let t = Ticket { event_id: 4, buyer: buyer(1), purchase_time: 1, ticket_number: 1 };
        tickets.insert(0, encode_ticket(&t));
    }
    assert!(matches!(TicketOffice::open(memory), Err(PurchaseError::StoreFailure)));
}

#[test]
fn fresh_memory_opens_empty() {
    let office = TicketOffice::open(DefaultMemoryImpl::default()).unwrap();
    assert!(office.get_tickets().is_empty());
    assert_eq!(office.get_event(0), None);
    assert_eq!(office.get_blob(0), None);
}

fn event_record(id: u64, total: u32, sold: u32) -> (u64, Vec<u8>) {
    let e = Event {
        id,
        name: format!("event {id}"),
        date: "d".to_string(),
        total_tickets: total,
        tickets_sold: sold,
        price: 3,
    };
    (id, encode_event(&e))
}

fn ticket_record(key: u64, event_id: u64, who: u8, number: u32) -> (u64, Vec<u8>) {
    let t = Ticket { event_id, buyer: buyer(who), purchase_time: 5, ticket_number: number };
    (key, encode_ticket(&t))
}

#[test]
fn consistent_records_restore() {
    let events = vec![event_record(0, 2, 1), event_record(3, 1, 0)];
    let tickets = vec![ticket_record(0, 0, 7, 1)];
    let ledger = restore_ledger(4, &events, &tickets).unwrap();
    assert_eq!(ledger.get_event(0).unwrap().tickets_sold, 1);
    assert_eq!(ledger.get_event(3).unwrap().tickets_sold, 0);
    assert_eq!(ledger.get_tickets().len(), 1);
    assert_eq!(ledger.get_tickets()[0].buyer, buyer(7));
    assert!(!ledger.is_pending(0, &buyer(7)));
}

#[test]
fn stored_count_must_match_tickets() {
    let events = vec![event_record(0, 5, 2)];
    let tickets = vec![ticket_record(0, 0, 7, 1)];
    assert!(matches!(restore_ledger(1, &events, &tickets), Err(PurchaseError::StoreFailure)));
}

#[test]
fn event_id_must_be_issued() {
    let events = vec![event_record(4, 5, 0)];
    assert!(matches!(restore_ledger(4, &events, &vec![]), Err(PurchaseError::StoreFailure)));
    assert!(restore_ledger(5, &events, &vec![]).is_ok());
}

#[test]
fn ticket_keys_must_be_positions() {
    let events = vec![event_record(0, 5, 1)];
    let tickets = vec![ticket_record(1, 0, 7, 1)];
    assert!(matches!(restore_ledger(1, &events, &tickets), Err(PurchaseError::StoreFailure)));
}

#[test]
fn repeated_buyer_is_refused_on_restore() {
    let events = vec![event_record(0, 5, 2)];
    let tickets = vec![ticket_record(0, 0, 7, 1), ticket_record(1, 0, 7, 2)];
    assert!(matches!(restore_ledger(1, &events, &tickets), Err(PurchaseError::StoreFailure)));
}

#[test]
fn blob_keys_must_be_issued() {
    assert!(blob_keys_issued(5, &vec![1, 4]));
    assert!(!blob_keys_issued(4, &vec![1, 4]));
    assert!(blob_keys_issued(0, &vec![]));
}

#[test]
fn unknown_manager_layout_is_store_failure() {
    let memory = DefaultMemoryImpl::default();
    memory.grow(1);
    memory.write(0, b"MGR\x02");
    assert!(matches!(TicketOffice::open(memory), Err(PurchaseError::StoreFailure)));
}

#[test]
fn unknown_map_layout_is_store_failure() {
    let memory = DefaultMemoryImpl::default();
    {
        let manager = MemoryManager::init(memory.clone());
        let events = manager.get(MemoryId::new(0));
        events.grow(1);
        events.write(0, b"BTR\x07");
    }
    assert!(matches!(TicketOffice::open(memory), Err(PurchaseError::StoreFailure)));
}

#[test]
fn unknown_cell_layout_is_store_failure() {
    let memory = DefaultMemoryImpl::default();
    {
        let manager = MemoryManager::init(memory.clone());
        let counter = manager.get(MemoryId::new(1));
        counter.grow(1);
        counter.write(0, b"SCL\x02");
    }
    assert!(matches!(TicketOffice::open(memory), Err(PurchaseError::StoreFailure)));
}

#[test]
fn event_id_is_not_a_blob() {
    let mut office = TicketOffice::open(DefaultMemoryImpl::default()).unwrap();
    let blob = office.upload_blob(vec![5]);
    let e = office.create_event("E".to_string(), "d".to_string(), 1, 0);
    assert_eq!(office.get_blob(e.id), None);
    assert_eq!(office.get_blob(blob.id).unwrap().data, vec![5]);
    let second = office.upload_blob(vec![6]);
    assert!(second.id > e.id);
    assert_eq!(office.get_blob(blob.id).unwrap().data, vec![5]);
}
