use vstd::prelude::*;

/// Framing of outbound commands and decoding of inbound lines.
pub mod codec;
/// The table of requests in flight and their resolution.
pub mod correlator;
/// The platform form of an endpoint path.
pub mod endpoint;
/// The check that an endpoint belongs to the expected process.
pub mod identity;
/// Fan-out of events to subscribers through bounded queues.
pub mod router;
/// The byte-level state machine that decoding walks a line with.
pub mod scan;
/// One verified connection: commands out, lines in, time and closing.
pub mod session;

verus! {

} // verus!
