//! Byte layout of the records kept in the durable regions.
//!
//! An event is its identifier, capacity, sold count and price as
//! little-endian integers, then its name and date, each as a 64-bit length
//! followed by that many bytes of UTF-8. A ticket is its event identifier,
//! purchase time and number, then the buyer's bytes behind a 64-bit length.
use vstd::prelude::*;
use vstd::bytes::{
    spec_u32_from_le_bytes, spec_u32_to_le_bytes, spec_u64_from_le_bytes, spec_u64_to_le_bytes,
    u32_from_le_bytes, u32_to_le_bytes, u64_from_le_bytes, u64_to_le_bytes,
};
use vstd::slice::{slice_subrange, slice_to_vec};
use vstd::string::StringSliceAdditionalSpecFns;
use vstd::utf8::{decode_utf8, encode_utf8, valid_utf8};
use crate::types::{Event, EventView, Ticket, TicketView};

verus! {

broadcast use vstd::utf8::group_utf8_lib;

/// Relies on `String::from_utf8`: it succeeds exactly on valid UTF-8, and the
/// string then holds the characters those bytes encode.
#[verifier::external_body]
fn string_from_utf8(bytes: Vec<u8>) -> (r: Option<String>)
    ensures
        match r {
            Some(s) => valid_utf8(bytes@) && s@ == decode_utf8(bytes@),
            None => !valid_utf8(bytes@),
        },
{
    String::from_utf8(bytes).ok()
}

/// A byte string behind its length as a little-endian `u64`.
pub open spec fn field_bytes(b: Seq<u8>) -> Seq<u8> {
    spec_u64_to_le_bytes(b.len() as u64) + b
}

/// The encoding of an event.
pub open spec fn event_bytes(e: EventView) -> Seq<u8> {
    spec_u64_to_le_bytes(e.id) + spec_u32_to_le_bytes(e.total_tickets) + spec_u32_to_le_bytes(
        e.tickets_sold,
    ) + spec_u64_to_le_bytes(e.price) + field_bytes(encode_utf8(e.name)) + field_bytes(
        encode_utf8(e.date),
    )
}

/// The encoding of a ticket.
pub open spec fn ticket_bytes(t: TicketView) -> Seq<u8> {
    spec_u64_to_le_bytes(t.event_id) + spec_u64_to_le_bytes(t.purchase_time) + spec_u32_to_le_bytes(
        t.ticket_number,
    ) + field_bytes(t.buyer)
}

/// The `u64` stored little-endian at `at`.
pub open spec fn u64_at(b: Seq<u8>, at: int) -> u64 {
    spec_u64_from_le_bytes(b.subrange(at, at + 8))
}

/// The `u32` stored little-endian at `at`.
pub open spec fn u32_at(b: Seq<u8>, at: int) -> u32 {
    spec_u32_from_le_bytes(b.subrange(at, at + 4))
}

/// The event that `b` encodes, if it encodes one.
pub open spec fn parse_event(b: Seq<u8>) -> Option<EventView> {
    if b.len() < 32 {
        None
    } else {
        let name_len = u64_at(b, 24) as int;
        if name_len > b.len() - 40 {
            None
        } else {
            let p = 32 + name_len;
            let date_len = u64_at(b, p) as int;
            let name = b.subrange(32, p);
            let date = b.subrange(p + 8, b.len() as int);
            if date_len != b.len() - p - 8 || !valid_utf8(name) || !valid_utf8(date) {
                None
            } else {
                Some(
                    EventView {
                        id: u64_at(b, 0),
                        name: decode_utf8(name),
                        date: decode_utf8(date),
                        total_tickets: u32_at(b, 8),
                        tickets_sold: u32_at(b, 12),
                        price: u64_at(b, 16),
                    },
                )
            }
        }
    }
}

/// The ticket that `b` encodes, if it encodes one.
pub open spec fn parse_ticket(b: Seq<u8>) -> Option<TicketView> {
    if b.len() < 28 || u64_at(b, 20) != b.len() - 28 {
        None
    } else {
        Some(
            TicketView {
                event_id: u64_at(b, 0),
                purchase_time: u64_at(b, 8),
                ticket_number: u32_at(b, 16),
                buyer: b.subrange(28, b.len() as int),
            },
        )
    }
}

/// Decoding the encoding of an event gives the event back.
pub proof fn lemma_event_round_trip(e: EventView)
    requires
        encode_utf8(e.name).len() <= u64::MAX,
        encode_utf8(e.date).len() <= u64::MAX,
    ensures
        parse_event(event_bytes(e)) == Some(e),
{
    vstd::bytes::lemma_auto_spec_u64_to_from_le_bytes();
    vstd::bytes::lemma_auto_spec_u32_to_from_le_bytes();
    let b = event_bytes(e);
    let n = encode_utf8(e.name);
    let d = encode_utf8(e.date);
    let p: int = 32 + n.len() as int;
    assert(b.len() == 40 + n.len() + d.len());
    assert(b.subrange(0, 8) =~= spec_u64_to_le_bytes(e.id));
    assert(b.subrange(8, 12) =~= spec_u32_to_le_bytes(e.total_tickets));
    assert(b.subrange(12, 16) =~= spec_u32_to_le_bytes(e.tickets_sold));
    assert(b.subrange(16, 24) =~= spec_u64_to_le_bytes(e.price));
    assert(b.subrange(24, 32) =~= spec_u64_to_le_bytes(n.len() as u64));
    assert(b.subrange(32, p) =~= n);
    assert(b.subrange(p, p + 8) =~= spec_u64_to_le_bytes(d.len() as u64));
    assert(b.subrange(p + 8, b.len() as int) =~= d);
}

/// Decoding the encoding of a ticket gives the ticket back.
pub proof fn lemma_ticket_round_trip(t: TicketView)
    requires
        t.buyer.len() <= u64::MAX,
    ensures
        parse_ticket(ticket_bytes(t)) == Some(t),
{
    vstd::bytes::lemma_auto_spec_u64_to_from_le_bytes();
    vstd::bytes::lemma_auto_spec_u32_to_from_le_bytes();
    let b = ticket_bytes(t);
    assert(b.len() == 28 + t.buyer.len());
    assert(b.subrange(0, 8) =~= spec_u64_to_le_bytes(t.event_id));
    assert(b.subrange(8, 16) =~= spec_u64_to_le_bytes(t.purchase_time));
    assert(b.subrange(16, 20) =~= spec_u32_to_le_bytes(t.ticket_number));
    assert(b.subrange(20, 28) =~= spec_u64_to_le_bytes(t.buyer.len() as u64));
    assert(b.subrange(28, b.len() as int) =~= t.buyer);
}

/// The encoding is canonical: bytes that decode to an event are that event's encoding.
pub proof fn lemma_event_canonical(b: Seq<u8>)
    requires
        parse_event(b) is Some,
    ensures
        event_bytes(parse_event(b)->Some_0) == b,
{
    vstd::bytes::lemma_auto_spec_u64_to_from_le_bytes();
    vstd::bytes::lemma_auto_spec_u32_to_from_le_bytes();
    let e = parse_event(b)->Some_0;
    let p: int = 32 + u64_at(b, 24) as int;
    let name = b.subrange(32, p);
    let date = b.subrange(p + 8, b.len() as int);
    assert(encode_utf8(e.name) == name);
    assert(encode_utf8(e.date) == date);
    assert(spec_u64_to_le_bytes(u64_at(b, 0)) == b.subrange(0, 8));
    assert(spec_u32_to_le_bytes(u32_at(b, 8)) == b.subrange(8, 12));
    assert(spec_u32_to_le_bytes(u32_at(b, 12)) == b.subrange(12, 16));
    assert(spec_u64_to_le_bytes(u64_at(b, 16)) == b.subrange(16, 24));
    assert(spec_u64_to_le_bytes(u64_at(b, 24)) == b.subrange(24, 32));
    assert(spec_u64_to_le_bytes(u64_at(b, p)) == b.subrange(p, p + 8));
    assert(name.len() as u64 == u64_at(b, 24));
    assert(date.len() as u64 == u64_at(b, p));
    assert(event_bytes(e) =~= b);
}

/// The encoding is canonical: bytes that decode to a ticket are that ticket's encoding.
pub proof fn lemma_ticket_canonical(b: Seq<u8>)
    requires
        parse_ticket(b) is Some,
    ensures
        ticket_bytes(parse_ticket(b)->Some_0) == b,
{
    vstd::bytes::lemma_auto_spec_u64_to_from_le_bytes();
    vstd::bytes::lemma_auto_spec_u32_to_from_le_bytes();
    let t = parse_ticket(b)->Some_0;
    assert(spec_u64_to_le_bytes(u64_at(b, 0)) == b.subrange(0, 8));
    assert(spec_u64_to_le_bytes(u64_at(b, 8)) == b.subrange(8, 16));
    assert(spec_u32_to_le_bytes(u32_at(b, 16)) == b.subrange(16, 20));
    assert(spec_u64_to_le_bytes(u64_at(b, 20)) == b.subrange(20, 28));
    assert(t.buyer.len() as u64 == u64_at(b, 20));
    assert(ticket_bytes(t) =~= b);
}

/// Appends `b` to `out`.
fn append_bytes(out: &mut Vec<u8>, b: &[u8])
    ensures
        final(out)@ == old(out)@ + b@,
{
    let ghost start = out@;
    let mut i: usize = 0;
    while i < b.len()
        invariant
            i <= b@.len(),
            out@ == start + b@.subrange(0, i as int),
        decreases b@.len() - i,
    {
        out.push(b[i]);
        i = i + 1;
        assert(out@ =~= start + b@.subrange(0, i as int));
    }
    assert(b@.subrange(0, b@.len() as int) =~= b@);
}

/// Appends `b` behind its length.
fn append_field(out: &mut Vec<u8>, b: &[u8])
    ensures
        final(out)@ == old(out)@ + field_bytes(b@),
{
    let n = u64_to_le_bytes(b.len() as u64);
    append_bytes(out, n.as_slice());
    append_bytes(out, b);
    assert(final(out)@ =~= old(out)@ + field_bytes(b@));
}

/// Encodes an event.
pub fn encode_event(e: &Event) -> (r: Vec<u8>)
    ensures
        r@ == event_bytes(e@),
{
    let mut r = u64_to_le_bytes(e.id);
    append_bytes(&mut r, u32_to_le_bytes(e.total_tickets).as_slice());
    append_bytes(&mut r, u32_to_le_bytes(e.tickets_sold).as_slice());
    append_bytes(&mut r, u64_to_le_bytes(e.price).as_slice());
    append_field(&mut r, e.name.as_str().as_bytes());
    append_field(&mut r, e.date.as_str().as_bytes());
    assert(r@ =~= event_bytes(e@));
    r
}

/// Encodes a ticket.
pub fn encode_ticket(t: &Ticket) -> (r: Vec<u8>)
    ensures
        r@ == ticket_bytes(t@),
{
    let mut r = u64_to_le_bytes(t.event_id);
    append_bytes(&mut r, u64_to_le_bytes(t.purchase_time).as_slice());
    append_bytes(&mut r, u32_to_le_bytes(t.ticket_number).as_slice());
    append_field(&mut r, t.buyer.as_slice());
    assert(r@ =~= ticket_bytes(t@));
    r
}

fn read_u64(b: &[u8], at: usize) -> (r: u64)
    requires
        at + 8 <= b@.len(),
    ensures
        r == u64_at(b@, at as int),
{
    let _len = b.len();
    u64_from_le_bytes(slice_subrange(b, at, at + 8))
}

fn read_u32(b: &[u8], at: usize) -> (r: u32)
    requires
        at + 4 <= b@.len(),
    ensures
        r == u32_at(b@, at as int),
{
    let _len = b.len();
    u32_from_le_bytes(slice_subrange(b, at, at + 4))
}

/// Decodes an event.
pub fn decode_event(b: &[u8]) -> (r: Option<Event>)
    ensures
        match r {
            Some(e) => parse_event(b@) == Some(e@),
            None => parse_event(b@) is None,
        },
{
    let len = b.len();
    if len < 32 {
        return None;
    }
    let name_len = read_u64(b, 24);
    if len < 40 || name_len > (len - 40) as u64 {
        return None;
    }
    let p = 32 + name_len as usize;
    let date_len = read_u64(b, p);
    if date_len != (len - p - 8) as u64 {
        return None;
    }
    let name = match string_from_utf8(slice_to_vec(slice_subrange(b, 32, p))) {
        Some(s) => s,
        None => return None,
    };
    let date = match string_from_utf8(slice_to_vec(slice_subrange(b, p + 8, len))) {
        Some(s) => s,
        None => return None,
    };
    Some(Event {
        id: read_u64(b, 0),
        name,
        date,
        total_tickets: read_u32(b, 8),
        tickets_sold: read_u32(b, 12),
        price: read_u64(b, 16),
    })
}

/// Decodes a ticket.
pub fn decode_ticket(b: &[u8]) -> (r: Option<Ticket>)
    ensures
        match r {
            Some(t) => parse_ticket(b@) == Some(t@),
            None => parse_ticket(b@) is None,
        },
{
    let len = b.len();
    if len < 28 {
        return None;
    }
    if read_u64(b, 20) != (len - 28) as u64 {
        return None;
    }
    Some(Ticket {
        event_id: read_u64(b, 0),
        purchase_time: read_u64(b, 8),
        ticket_number: read_u32(b, 16),
        buyer: slice_to_vec(slice_subrange(b, 28, len)),
    })
}

} // verus!
