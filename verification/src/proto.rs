//! The messages of the feed: ticks published per symbol, and the control
//! requests and responses exchanged on the request/reply channel.

use vstd::prelude::*;

use crate::keyed::{assoc, lemma_assoc_prefix};

verus! {

/// One market-data update for one symbol.
///
/// Prices are carried as the IEEE-754 binary64 bit patterns of the
/// `f64` values (`f64::to_bits`); nothing in the library computes on them.
#[derive(Debug, Clone, PartialEq, Eq)]
pub struct Tick {
    pub symbol: String,
    pub bid: u64,
    pub ask: u64,
    pub last: u64,
    pub size: u32,
    pub seq: u64,
    pub ts_nanos: u64,
}

impl Tick {
    /// A field-by-field copy of the tick.
    pub fn duplicate(&self) -> (r: Tick)
        ensures
            r == *self,
    {
        Tick {
            symbol: self.symbol.clone(),
            bid: self.bid,
            ask: self.ask,
            last: self.last,
            size: self.size,
            seq: self.seq,
            ts_nanos: self.ts_nanos,
        }
    }
}

/// The symbols of `ticks`, in order.
pub open spec fn symbols_of(ticks: Seq<Tick>) -> Seq<Seq<char>> {
    ticks.map_values(|t: Tick| t.symbol@)
}

/// The latest tick of every symbol that occurs in `ticks`: later ticks of a
/// symbol replace earlier ones.
pub open spec fn latest(ticks: Seq<Tick>) -> Map<Seq<char>, Tick> {
    assoc(symbols_of(ticks), ticks, ticks.len())
}

/// Appending a tick replaces the entry of its symbol.
pub proof fn lemma_latest_push(ticks: Seq<Tick>, t: Tick)
    ensures
        latest(ticks.push(t)) == latest(ticks).insert(t.symbol@, t),
{
    let s2 = ticks.push(t);
    assert(symbols_of(s2)[ticks.len() as int] == t.symbol@);
    lemma_assoc_prefix(symbols_of(s2), s2, symbols_of(ticks), ticks, ticks.len());
}

/// A request on the control channel.
#[derive(Debug, Clone, PartialEq, Eq)]
pub enum ControlRequest {
    Subscribe { symbol: String },
    Unsubscribe { symbol: String },
    Snapshot,
    Ping,
}

/// The reply to a [`ControlRequest`].
#[derive(Debug, Clone, PartialEq, Eq)]
pub enum ControlResponse {
    /// Plain acknowledgement.
    Ack,
    Snapshot { ticks: Vec<Tick> },
    Pong,
    Error { msg: String },
}

} // verus!
