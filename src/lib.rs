//! A CDR (Common Data Representation) codec driven by schema descriptors,
//! the message and service types built on it, and the request/reply logic
//! of the `add_two_ints` service.

pub mod cdr;
pub mod msg;
pub mod srv;
