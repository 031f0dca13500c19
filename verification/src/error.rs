//! Error type for order book operations.

use vstd::prelude::*;
use vstd::string::StringExecFns;
use crate::text::{decimal, push_decimal};

verus! {

/// Something went wrong applying or reading an order book.
#[derive(Debug, Clone, PartialEq, Eq)]
pub enum Error {
    /// A delta skipped a sequence number; it was not applied and the book needs a
    /// fresh snapshot.
    SequenceGap {
        /// The sequence number the book expected next.
        expected: u64,
        /// The sequence number that arrived.
        received: u64,
    },
    /// A snapshot is older than the book it would replace; it was not applied.
    OutOfOrder {
        /// The book's current sequence number.
        current: u64,
        /// The snapshot's sequence number.
        received: u64,
    },
    /// The input could not be turned into a valid book.
    InvalidData(String),
    /// No book exists for this venue and instrument.
    NotFound {
        /// Venue identifier.
        venue: String,
        /// Instrument identifier.
        inst: String,
    },
    /// The book has not been updated recently enough to be used.
    Stale {
        /// Age of the book in milliseconds.
        age_ms: u64,
        /// Maximum age the caller was willing to accept.
        max_age_ms: u64,
    },
}

/// The human-readable text of an error.
pub open spec fn error_text(e: Error) -> Seq<char> {
    match e {
        Error::SequenceGap { expected, received } => "sequence gap: expected "@ + decimal(
            expected as nat,
        ) + ", received "@ + decimal(received as nat),
        Error::OutOfOrder { current, received } => "snapshot seq "@ + decimal(received as nat)
            + " is older than book seq "@ + decimal(current as nat)
            + "; if the venue reset its sequence, call remove first"@,
        Error::InvalidData(msg) => "invalid data: "@ + msg@,
        Error::NotFound { venue, inst } => "no order book for "@ + venue@ + "/"@ + inst@,
        Error::Stale { age_ms, max_age_ms } => "order book is stale: "@ + decimal(age_ms as nat)
            + " ms old, maximum is "@ + decimal(max_age_ms as nat) + " ms"@,
    }
}

impl Error {
    /// The human-readable text of this error.
    pub fn message(&self) -> (r: String)
        ensures
            r@ == error_text(*self),
    {
        match self {
            Error::SequenceGap { expected, received } => {
                let mut out = String::from_str("sequence gap: expected ");
                push_decimal(&mut out, *expected);
                out.append(", received ");
                push_decimal(&mut out, *received);
                out
            },
            Error::OutOfOrder { current, received } => {
                let mut out = String::from_str("snapshot seq ");
                push_decimal(&mut out, *received);
                out.append(" is older than book seq ");
                push_decimal(&mut out, *current);
                out.append("; if the venue reset its sequence, call remove first");
                out
            },
            Error::InvalidData(msg) => {
                let mut out = String::from_str("invalid data: ");
                out.append(msg.as_str());
                out
            },
            Error::NotFound { venue, inst } => {
                let mut out = String::from_str("no order book for ");
                out.append(venue.as_str());
                out.append("/");
                out.append(inst.as_str());
                out
            },
            Error::Stale { age_ms, max_age_ms } => {
                let mut out = String::from_str("order book is stale: ");
                push_decimal(&mut out, *age_ms);
                out.append(" ms old, maximum is ");
                push_decimal(&mut out, *max_age_ms);
                out.append(" ms");
                out
            },
        }
    }
}

} // verus!
