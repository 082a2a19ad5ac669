use vstd::prelude::*;

verus! {

/// Identity of a persisted notetype; zero means "not yet assigned".
#[derive(Clone, Copy, PartialEq, Eq, Structural, Debug, Hash)]
pub struct NotetypeId(pub i64);

/// Seconds since the epoch, as stamped on modified notetypes.
#[derive(Clone, Copy, PartialEq, Eq, Structural, Debug)]
pub struct TimestampSecs(pub i64);

/// Update sequence number handed out by the synchronization layer.
#[derive(Clone, Copy, PartialEq, Eq, Structural, Debug)]
pub struct Usn(pub i32);

/// Identity of the deck that new cards of a notetype are filed into.
#[derive(Clone, Copy, PartialEq, Eq, Structural, Debug)]
pub struct DeckId(pub i64);

} // verus!
