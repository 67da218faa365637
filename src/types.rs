use vstd::prelude::*;

verus! {

/// An event with a fixed capacity and a counter of tickets sold.
/// `price` is in the ledger's smallest unit (e8s); zero means free.
#[derive(Clone, Debug, PartialEq, Eq)]
pub struct Event {
    pub id: u64,
    pub name: String,
    pub date: String,
    pub total_tickets: u32,
    pub tickets_sold: u32,
    pub price: u64,
}

/// A ticket issued after a confirmed payment; never changed afterwards.
/// `buyer` holds the bytes of the buyer's stable identity.
#[derive(Clone, Debug, PartialEq, Eq)]
pub struct Ticket {
    pub event_id: u64,
    pub buyer: Vec<u8>,
    pub purchase_time: u64,
    pub ticket_number: u32,
}

/// An opaque byte payload stored under an identifier.
#[derive(Clone, Debug, PartialEq, Eq)]
pub struct Blob {
    pub id: u64,
    pub data: Vec<u8>,
}

/// A purchase attempt that holds its place and waits for payment.
#[derive(Clone, Debug, PartialEq, Eq)]
pub struct PendingPurchase {
    pub event_id: u64,
    pub buyer: Vec<u8>,
    pub amount: u64,
}

/// How the external payment call ended.
#[derive(Clone, Debug, PartialEq, Eq)]
pub enum PaymentOutcome {
    /// The ledger accepted the transfer; the value is its receipt (block index).
    Confirmed(u64),
    /// The ledger explicitly declined, with its reason.
    Rejected(String),
    /// The call itself did not complete; the outcome is unknown.
    CallFailed(u32, String),
}

#[derive(Clone, Debug, PartialEq, Eq)]
pub enum PurchaseError {
    EventNotFound,
    /// No place is left. After a confirmed payment it carries that payment's
    /// receipt, which was taken without a ticket being issued.
    SoldOut(Option<u64>),
    DuplicateTicket,
    PaymentRejected(String),
    PaymentCallFailed(u32, String),
    StoreFailure,
}

/// The mathematical value of an [`Event`].
pub ghost struct EventView {
    pub id: u64,
    pub name: Seq<char>,
    pub date: Seq<char>,
    pub total_tickets: u32,
    pub tickets_sold: u32,
    pub price: u64,
}

/// The mathematical value of a [`Ticket`].
pub ghost struct TicketView {
    pub event_id: u64,
    pub buyer: Seq<u8>,
    pub purchase_time: u64,
    pub ticket_number: u32,
}

impl View for Event {
    type V = EventView;

    open spec fn view(&self) -> EventView {
        EventView {
            id: self.id,
            name: self.name@,
            date: self.date@,
            total_tickets: self.total_tickets,
            tickets_sold: self.tickets_sold,
            price: self.price,
        }
    }
}

impl View for Ticket {
    type V = TicketView;

    open spec fn view(&self) -> TicketView {
        TicketView {
            event_id: self.event_id,
            buyer: self.buyer@,
            purchase_time: self.purchase_time,
            ticket_number: self.ticket_number,
        }
    }
}

impl Event {
    /// A copy of this event.
    pub fn duplicate(&self) -> (r: Event)
        ensures
            r@ == self@,
    {
        Event {
            id: self.id,
            name: self.name.clone(),
            date: self.date.clone(),
            total_tickets: self.total_tickets,
            tickets_sold: self.tickets_sold,
            price: self.price,
        }
    }
}

impl Ticket {
    /// A copy of this ticket.
    pub fn duplicate(&self) -> (r: Ticket)
        ensures
            r@ == self@,
    {
        Ticket {
            event_id: self.event_id,
            buyer: self.buyer.clone(),
            purchase_time: self.purchase_time,
            ticket_number: self.ticket_number,
        }
    }
}

impl Blob {
    /// A copy of this blob.
    pub fn duplicate(&self) -> (r: Blob)
        ensures
            r.id == self.id,
            r.data@ == self.data@,
    {
        let data = self.data.clone();
        proof {
            assert(data@ =~= self.data@);
        }
        Blob { id: self.id, data }
    }
}

/// True when two byte strings are equal.
pub fn bytes_equal(a: &Vec<u8>, b: &Vec<u8>) -> (r: bool)
    ensures
        r == (a@ == b@),
{
    if a.len() != b.len() {
        return false;
    }
    let mut i: usize = 0;
    while i < a.len()
        invariant
            a@.len() == b@.len(),
            i <= a@.len(),
            forall|k: int| 0 <= k < i ==> a@[k] == b@[k],
        decreases a@.len() - i,
    {
        if a[i] != b[i] {
            return false;
        }
        i = i + 1;
    }
    assert(a@ =~= b@);
    true
}

} // verus!
