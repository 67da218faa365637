//! Ticket sales for events: a reservation engine that never oversells and
//! never issues two tickets to one buyer for one event, even when purchases
//! interleave around the external payment step, over durable record regions.

pub mod types;
pub mod engine;
pub mod codec;
pub mod store;
pub mod office;
pub mod laws;
pub mod restore;
