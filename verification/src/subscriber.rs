//! The subscriber's decisions. On the receiving side: per-topic sequence
//! tracking, gap detection, which snapshot ticks to forward, and the
//! counters of received and dropped ticks. On the coalescing side: the
//! per-frame cache of the latest tick of each symbol and the batch it
//! becomes at the end of a frame. Sockets, channels, threads and clocks
//! are driven from outside.

use std::time::Duration;
use vstd::prelude::*;

use crate::keyed::{distinct_keys, lemma_assoc_value, LatestMap};
use crate::proto::{latest, lemma_latest_push, symbols_of, ControlResponse, Tick};

verus! {

/// The value of `std::time::Duration::from_millis(ms)`.
pub uninterp spec fn duration_of_millis(ms: u64) -> Duration;

/// Calls `std::time::Duration::from_millis`, whose result depends on `ms`
/// alone; the contract names that result and claims nothing more of it.
#[verifier::external_body]
fn duration_from_millis(ms: u64) -> (d: Duration)
    ensures
        d == duration_of_millis(ms),
{
    Duration::from_millis(ms)
}

/// Where the subscriber connects, how often it flushes a frame, how many
/// ticks may wait between the receiving and the coalescing side, and which
/// symbols it subscribes to.
pub struct SubscriberConfig {
    pub sub_addr: String,
    pub req_addr: String,
    pub frame_interval: Duration,
    pub channel_capacity: usize,
    pub symbols: Vec<String>,
}

impl Default for SubscriberConfig {
    /// Local ports 5555 (SUB) and 5556 (REQ), 16 ms frames, room for
    /// 10 000 queued ticks, no symbols.
    fn default() -> (c: Self)
        ensures
            c.sub_addr@ == "tcp://127.0.0.1:5555"@,
            c.req_addr@ == "tcp://127.0.0.1:5556"@,
            c.frame_interval == duration_of_millis(16),
            c.channel_capacity == 10_000,
            c.symbols.len() == 0,
    {
        SubscriberConfig {
            sub_addr: String::from_str("tcp://127.0.0.1:5555"),
            req_addr: String::from_str("tcp://127.0.0.1:5556"),
            frame_interval: duration_from_millis(16),
            channel_capacity: 10_000,
            symbols: Vec::new(),
        }
    }
}

/// `x + k` modulo 2^64: a counter advanced `k` times with wrap-around.
pub open spec fn bump_by(x: u64, k: nat) -> u64 {
    ((x + k) % 0x1_0000_0000_0000_0000) as u64
}

/// Counters of what the subscriber has seen and done.
#[derive(Debug, Clone, Copy, PartialEq, Eq)]
pub struct Metrics {
    /// Ticks taken in, live or from a snapshot.
    pub received: u64,
    /// Ticks that did not fit into the queue towards the coalescing side.
    pub dropped: u64,
    /// Frames flushed.
    pub flushes: u64,
    /// Ticks that replaced a tick of the same symbol within a frame.
    pub coalesced: u64,
    /// Sequence gaps detected.
    pub seq_gaps: u64,
}

/// All counters at zero.
pub open spec fn zero_metrics() -> Metrics {
    Metrics { received: 0, dropped: 0, flushes: 0, coalesced: 0, seq_gaps: 0 }
}

impl Metrics {
    /// All counters at zero.
    pub fn new() -> (m: Self)
        ensures
            m.received == 0,
            m.dropped == 0,
            m.flushes == 0,
            m.coalesced == 0,
            m.seq_gaps == 0,
    {
        Metrics { received: 0, dropped: 0, flushes: 0, coalesced: 0, seq_gaps: 0 }
    }
}

/// Advances a counter by one, wrapping at 2^64.
fn bump(x: u64) -> (r: u64)
    ensures
        r == bump_by(x, 1),
{
    x.wrapping_add(1)
}

/// The expected distance between consecutive sequence numbers of one
/// topic. Sequence numbers are global across symbols, so no finer stride
/// is known here and any forward step is accepted: it is 1.
pub fn symbols_stride(_seq: u64, _sym: &str) -> (r: u64)
    ensures
        r == 1,
{
    1
}

/// The gap rule: `next` is not `prev + stride`, and it lies more than 1000
/// away from `prev` in either direction (ticks were lost, or the publisher
/// restarted its numbering).
pub open spec fn is_seq_gap_spec(prev: u64, next: u64, stride: u64) -> bool {
    &&& next != prev + stride
    &&& (next > prev + 1000 || prev > next + 1000)
}

/// The inputs on which the gap rule's sum `prev + stride` fits in `u64`.
pub open spec fn gap_rule_in_range(prev: u64, stride: u64) -> bool {
    prev + stride <= u64::MAX
}

/// Whether a tick numbered `next`, arriving after `prev` on the same topic
/// whose expected stride is `stride`, reveals a gap in the sequence: lost
/// ticks, or a publisher that started counting afresh.
pub fn is_seq_gap(prev: u64, next: u64, stride: u64) -> (gap: bool)
    requires
        gap_rule_in_range(prev, stride),
    ensures
        gap == is_seq_gap_spec(prev, next, stride),
{
    next != prev + stride && ((next > prev && next - prev > 1000) || (prev > next && prev - next
        > 1000))
}

/// Advancing a wrapping counter by `k` and then by one is advancing it by
/// `k + 1`.
pub proof fn lemma_bump_step(x: u64, k: nat)
    ensures
        bump_by(bump_by(x, k), 1) == bump_by(x, k + 1),
{
    let m: int = 0x1_0000_0000_0000_0000;
    vstd::arithmetic::div_mod::lemma_add_mod_noop(x + k, 1, m);
    vstd::arithmetic::div_mod::lemma_small_mod(1nat, m as nat);
    vstd::arithmetic::div_mod::lemma_mod_bound(x + k, m);
}


/// The ticks of `ticks` whose symbol is one of `subs`, in order.
pub open spec fn keep_subscribed(ticks: Seq<Tick>, subs: Seq<Seq<char>>) -> Seq<Tick>
    decreases ticks.len(),
{
    if ticks.len() == 0 {
        Seq::empty()
    } else {
        let rest = keep_subscribed(ticks.drop_last(), subs);
        if subs.contains(ticks.last().symbol@) {
            rest.push(ticks.last())
        } else {
            rest
        }
    }
}

/// What became of a tick handed to the queue towards the coalescing side.
#[derive(Debug, Clone, Copy, PartialEq, Eq)]
pub enum SendOutcome {
    Sent,
    Full,
    Disconnected,
}

/// The receiving side: the subscribed symbols, the last sequence number
/// seen on each topic, and the counters of received, dropped and gaps.
/// Besides the counters, which wrap at 2^64 like the atomic counters they
/// feed, it keeps the unbounded totals of ticks received, queued, dropped,
/// and abandoned because the queue's other end was gone.
pub struct TickReceiver {
    subscribed: Vec<String>,
    last_seq: LatestMap<u64>,
    metrics: Metrics,
    received_total: Ghost<nat>,
    queued_total: Ghost<nat>,
    dropped_total: Ghost<nat>,
    abandoned_total: Ghost<nat>,
}

impl TickReceiver {
    pub closed spec fn subscribed_list(&self) -> Seq<Seq<char>> {
        self.subscribed@.map_values(|s: String| s@)
    }

    /// The last sequence number seen on each topic.
    pub closed spec fn last_seen(&self) -> Map<Seq<char>, u64> {
        self.last_seq.as_map()
    }

    pub closed spec fn counters(&self) -> Metrics {
        self.metrics
    }

    /// Ticks taken in so far, live or from a snapshot.
    pub closed spec fn received_total(&self) -> nat {
        self.received_total@
    }

    /// Ticks that went into the queue towards the coalescing side.
    pub closed spec fn queued_total(&self) -> nat {
        self.queued_total@
    }

    /// Ticks that did not go into the queue and were counted as dropped.
    pub closed spec fn dropped_total(&self) -> nat {
        self.dropped_total@
    }

    /// Live ticks that found the queue's other end gone.
    pub closed spec fn abandoned_total(&self) -> nat {
        self.abandoned_total@
    }

    pub closed spec fn table_ok(&self) -> bool {
        self.last_seq.wf()
    }

    /// The counters are the totals modulo 2^64, and every tick received was
    /// queued, dropped or abandoned.
    pub open spec fn wf(&self) -> bool {
        &&& self.table_ok()
        &&& self.counters().received == bump_by(0, self.received_total())
        &&& self.counters().dropped == bump_by(0, self.dropped_total())
        &&& self.received_total() == self.queued_total() + self.dropped_total()
            + self.abandoned_total()
    }

    /// A receiver for `symbols` that has seen nothing yet.
    pub fn new(symbols: Vec<String>) -> (r: Self)
        ensures
            r.wf(),
            r.subscribed_list() == symbols@.map_values(|s: String| s@),
            r.last_seen() == Map::<Seq<char>, u64>::empty(),
            r.counters() == zero_metrics(),
            r.received_total() == 0,
            r.queued_total() == 0,
            r.dropped_total() == 0,
            r.abandoned_total() == 0,
    {
        proof {
            vstd::arithmetic::div_mod::lemma_small_mod(0nat, 0x1_0000_0000_0000_0000nat);
        }
        TickReceiver {
            subscribed: symbols,
            last_seq: LatestMap::new(),
            metrics: Metrics::new(),
            received_total: Ghost(0),
            queued_total: Ghost(0),
            dropped_total: Ghost(0),
            abandoned_total: Ghost(0),
        }
    }

    pub fn metrics(&self) -> (m: Metrics)
        ensures
            m == self.counters(),
    {
        self.metrics
    }

    /// Whether the gap rule would overflow `u64` on a tick arriving on
    /// `topic`.
    pub fn gap_rule_overflows(&self, topic: &String) -> (b: bool)
        requires
            self.wf(),
        ensures
            b == (self.last_seen().dom().contains(topic@) && !gap_rule_in_range(
                self.last_seen()[topic@],
                1,
            )),
    {
        match self.last_seq.get(topic) {
            Some(prev) => {
                let prev = *prev;
                prev > u64::MAX - symbols_stride(prev, topic.as_str())
            },
            None => false,
        }
    }

    /// Takes in a live tick numbered `seq` on `topic`: notes its sequence
    /// number and reports whether it reveals a gap after the topic's
    /// previous tick (then a snapshot is due and the gap is counted). The
    /// tick counts as received once its fate is noted by `note_live_send`.
    pub fn observe(&mut self, topic: String, seq: u64) -> (gap: bool)
        requires
            old(self).wf(),
            old(self).last_seen().dom().contains(topic@) ==> gap_rule_in_range(
                old(self).last_seen()[topic@],
                1,
            ),
        ensures
            final(self).wf(),
            gap == (old(self).last_seen().dom().contains(topic@) && is_seq_gap_spec(
                old(self).last_seen()[topic@],
                seq,
                1,
            )),
            gap == (old(self).last_seen().dom().contains(topic@) && (seq
                > old(self).last_seen()[topic@] + 1000 || old(self).last_seen()[topic@]
                > seq + 1000)),
            final(self).last_seen() == old(self).last_seen().insert(topic@, seq),
            final(self).subscribed_list() == old(self).subscribed_list(),
            final(self).counters() == (Metrics {
                seq_gaps: if gap {
                    bump_by(old(self).counters().seq_gaps, 1)
                } else {
                    old(self).counters().seq_gaps
                },
                ..old(self).counters()
            }),
            final(self).received_total() == old(self).received_total(),
            final(self).queued_total() == old(self).queued_total(),
            final(self).dropped_total() == old(self).dropped_total(),
            final(self).abandoned_total() == old(self).abandoned_total(),
    {
        let gap = match self.last_seq.get(&topic) {
            Some(prev) => is_seq_gap(*prev, seq, symbols_stride(*prev, topic.as_str())),
            None => false,
        };
        if gap {
            self.metrics.seq_gaps = bump(self.metrics.seq_gaps);
        }
        self.last_seq.insert(topic, seq);
        gap
    }

    /// Whether `symbol` is one of the subscribed symbols.
    pub fn is_subscribed(&self, symbol: &String) -> (b: bool)
        ensures
            b == self.subscribed_list().contains(symbol@),
    {
        let n = self.subscribed.len();
        let mut i: usize = 0;
        while i < n
            invariant
                n == self.subscribed@.len(),
                i <= n,
                forall|j: int| 0 <= j < i ==> self.subscribed_list()[j] != symbol@,
            decreases n - i,
        {
            if self.subscribed[i] == *symbol {
                assert(self.subscribed_list()[i as int] == symbol@);
                return true;
            }
            i = i + 1;
        }
        false
    }

    /// Takes in the reply to a snapshot request: the ticks of subscribed
    /// symbols, in the reply's order, are to be forwarded; each counts as
    /// received once its fate is noted by `note_snapshot_send`. Any other
    /// reply forwards nothing.
    pub fn accept_snapshot(&self, response: ControlResponse) -> (forward: Vec<Tick>)
        ensures
            match response {
                ControlResponse::Snapshot { ticks } => forward@ == keep_subscribed(
                    ticks@,
                    self.subscribed_list(),
                ),
                _ => forward@ == Seq::<Tick>::empty(),
            },
    {
        let mut forward: Vec<Tick> = Vec::new();
        match response {
            ControlResponse::Snapshot { ticks } => {
                let n = ticks.len();
                let mut k: usize = 0;
                while k < n
                    invariant
                        n == ticks@.len(),
                        k <= n,
                        forward@ == keep_subscribed(
                            ticks@.subrange(0, k as int),
                            self.subscribed_list(),
                        ),
                    decreases n - k,
                {
                    assert(ticks@.subrange(0, k + 1).drop_last() =~= ticks@.subrange(0, k as int));
                    if self.is_subscribed(&ticks[k].symbol) {
                        forward.push(ticks[k].duplicate());
                    }
                    k = k + 1;
                }
                assert(ticks@.subrange(0, n as int) =~= ticks@);
            },
            _ => {},
        }
        forward
    }

    /// Notes the fate of a forwarded snapshot tick: it counts as received,
    /// and any failure to queue it counts as a drop.
    pub fn note_snapshot_send(&mut self, outcome: SendOutcome)
        requires
            old(self).wf(),
        ensures
            final(self).wf(),
            final(self).last_seen() == old(self).last_seen(),
            final(self).subscribed_list() == old(self).subscribed_list(),
            final(self).counters() == (Metrics {
                received: bump_by(old(self).counters().received, 1),
                dropped: if outcome == SendOutcome::Sent {
                    old(self).counters().dropped
                } else {
                    bump_by(old(self).counters().dropped, 1)
                },
                ..old(self).counters()
            }),
            final(self).received_total() == old(self).received_total() + 1,
            final(self).queued_total() == old(self).queued_total() + if outcome
                == SendOutcome::Sent {
                1nat
            } else {
                0nat
            },
            final(self).dropped_total() == old(self).dropped_total() + if outcome
                == SendOutcome::Sent {
                0nat
            } else {
                1nat
            },
            final(self).abandoned_total() == old(self).abandoned_total(),
    {
        proof {
            lemma_bump_step(0, self.received_total@);
            lemma_bump_step(0, self.dropped_total@);
        }
        self.metrics.received = bump(self.metrics.received);
        self.received_total = Ghost(self.received_total@ + 1);
        match outcome {
            SendOutcome::Sent => {
                self.queued_total = Ghost(self.queued_total@ + 1);
            },
            _ => {
                self.metrics.dropped = bump(self.metrics.dropped);
                self.dropped_total = Ghost(self.dropped_total@ + 1);
            },
        }
    }

    /// Notes the fate of a live tick: it counts as received; a full queue
    /// counts as a drop; a queue whose other end is gone ends the receiving
    /// side (`false`).
    pub fn note_live_send(&mut self, outcome: SendOutcome) -> (keep_running: bool)
        requires
            old(self).wf(),
        ensures
            final(self).wf(),
            keep_running == (outcome != SendOutcome::Disconnected),
            final(self).last_seen() == old(self).last_seen(),
            final(self).subscribed_list() == old(self).subscribed_list(),
            final(self).counters() == (Metrics {
                received: bump_by(old(self).counters().received, 1),
                dropped: if outcome == SendOutcome::Full {
                    bump_by(old(self).counters().dropped, 1)
                } else {
                    old(self).counters().dropped
                },
                ..old(self).counters()
            }),
            final(self).received_total() == old(self).received_total() + 1,
            final(self).queued_total() == old(self).queued_total() + if outcome
                == SendOutcome::Sent {
                1nat
            } else {
                0nat
            },
            final(self).dropped_total() == old(self).dropped_total() + if outcome
                == SendOutcome::Full {
                1nat
            } else {
                0nat
            },
            final(self).abandoned_total() == old(self).abandoned_total() + if outcome
                == SendOutcome::Disconnected {
                1nat
            } else {
                0nat
            },
    {
        proof {
            lemma_bump_step(0, self.received_total@);
            lemma_bump_step(0, self.dropped_total@);
        }
        self.metrics.received = bump(self.metrics.received);
        self.received_total = Ghost(self.received_total@ + 1);
        match outcome {
            SendOutcome::Sent => {
                self.queued_total = Ghost(self.queued_total@ + 1);
                true
            },
            SendOutcome::Full => {
                self.metrics.dropped = bump(self.metrics.dropped);
                self.dropped_total = Ghost(self.dropped_total@ + 1);
                true
            },
            SendOutcome::Disconnected => {
                self.abandoned_total = Ghost(self.abandoned_total@ + 1);
                false
            },
        }
    }
}

/// Every tick received is queued, dropped or abandoned. While the queue's
/// other end is alive (nothing abandoned), drops never exceed receptions
/// and received minus dropped is the number of ticks queued; the received
/// and dropped counters are those totals modulo 2^64.
pub proof fn lemma_receiver_accounting(r: &TickReceiver)
    requires
        r.wf(),
    ensures
        r.dropped_total() <= r.received_total(),
        r.abandoned_total() == 0 ==> r.received_total() - r.dropped_total() == r.queued_total(),
        r.counters().received == bump_by(0, r.received_total()),
        r.counters().dropped == bump_by(0, r.dropped_total()),
{
}

/// The latest tick of each symbol seen during one frame, and how many ticks
/// of the frame were overwritten by a later tick of the same symbol.
#[derive(Debug, Clone)]
pub struct FrameBatch {
    pub ticks: Vec<Tick>,
    pub coalesced_count: u64,
}

/// The coalescing side: the cache of the current frame and the counters of
/// coalesced ticks and flushed frames.
pub struct Coalescer {
    cache: LatestMap<Tick>,
    coalesced_this_frame: u64,
    frame: Ghost<Seq<Tick>>,
    coalesced_at_frame_start: Ghost<u64>,
    metrics: Metrics,
}

impl Coalescer {
    /// The latest tick of each symbol in the current frame.
    pub closed spec fn cache_map(&self) -> Map<Seq<char>, Tick> {
        self.cache.as_map()
    }

    /// The number of symbols cached in the current frame.
    pub closed spec fn cached_count(&self) -> nat {
        self.cache.entry_keys().len()
    }

    /// Every tick taken in during the current frame, in order.
    pub closed spec fn frame_ticks(&self) -> Seq<Tick> {
        self.frame@
    }

    /// Ticks of the current frame that replaced a cached tick.
    pub closed spec fn pending_coalesced(&self) -> u64 {
        self.coalesced_this_frame
    }

    pub closed spec fn counters(&self) -> Metrics {
        self.metrics
    }

    /// The coalesced counter as the current frame began.
    pub closed spec fn frame_start_coalesced(&self) -> u64 {
        self.coalesced_at_frame_start@
    }

    pub closed spec fn cache_ok(&self) -> bool {
        &&& self.cache.wf()
        &&& self.cache.entry_keys() == symbols_of(self.cache.entry_values())
    }

    /// The cache is the latest tick of each symbol of the frame, every tick
    /// of the frame is either cached or counted as coalesced, and the
    /// coalesced counter has grown during the frame by the frame's count.
    pub open spec fn wf(&self) -> bool {
        &&& self.cache_ok()
        &&& self.cache_map() == latest(self.frame_ticks())
        &&& self.pending_coalesced() + self.cached_count() == self.frame_ticks().len()
        &&& self.counters().coalesced == bump_by(
            self.frame_start_coalesced(),
            self.pending_coalesced() as nat,
        )
    }

    /// An empty frame with all counters at zero.
    pub fn new() -> (c: Self)
        ensures
            c.wf(),
            c.frame_ticks() == Seq::<Tick>::empty(),
            c.counters() == zero_metrics(),
    {
        let c = Coalescer {
            cache: LatestMap::new(),
            coalesced_this_frame: 0,
            frame: Ghost(Seq::empty()),
            coalesced_at_frame_start: Ghost(0),
            metrics: Metrics::new(),
        };
        proof {
            vstd::arithmetic::div_mod::lemma_small_mod(0nat, 0x1_0000_0000_0000_0000nat);
        }
        assert(c.cache.entry_keys() =~= symbols_of(c.cache.entry_values()));
        assert(latest(Seq::<Tick>::empty()) =~= Map::<Seq<char>, Tick>::empty());
        c
    }

    pub fn metrics(&self) -> (m: Metrics)
        ensures
            m == self.counters(),
    {
        self.metrics
    }

    /// The number of ticks coalesced so far in the current frame.
    pub fn coalesced_in_frame(&self) -> (n: u64)
        ensures
            n == self.pending_coalesced(),
    {
        self.coalesced_this_frame
    }

    /// Takes a tick into the current frame: it becomes the cached tick of
    /// its symbol, and if it replaces one, it is counted as coalesced.
    pub fn ingest(&mut self, tick: Tick)
        requires
            old(self).wf(),
            old(self).pending_coalesced() < u64::MAX,
        ensures
            final(self).wf(),
            final(self).frame_ticks() == old(self).frame_ticks().push(tick),
            final(self).cache_map() == old(self).cache_map().insert(tick.symbol@, tick),
            final(self).pending_coalesced() == if old(self).cache_map().dom().contains(
                tick.symbol@,
            ) {
                old(self).pending_coalesced() + 1
            } else {
                old(self).pending_coalesced() as int
            },
            final(self).counters() == (Metrics {
                coalesced: if old(self).cache_map().dom().contains(tick.symbol@) {
                    bump_by(old(self).counters().coalesced, 1)
                } else {
                    old(self).counters().coalesced
                },
                ..old(self).counters()
            }),
            final(self).frame_start_coalesced() == old(self).frame_start_coalesced(),
    {
        proof {
            lemma_bump_step(self.coalesced_at_frame_start@, self.coalesced_this_frame as nat);
        }
        let ghost t = tick;
        let ghost old_frame = self.frame@;
        let key = tick.symbol.clone();
        let replaced = self.cache.insert(key, tick);
        if replaced {
            self.coalesced_this_frame = self.coalesced_this_frame + 1;
            self.metrics.coalesced = bump(self.metrics.coalesced);
        }
        self.frame = Ghost(old_frame.push(t));
        proof {
            lemma_latest_push(old_frame, t);
            assert(self.cache.entry_keys() =~= symbols_of(self.cache.entry_values()));
        }
    }

    /// Ends the frame if its interval has elapsed and it holds anything:
    /// the cached ticks and the frame's coalesced count go out as a batch,
    /// and a new, empty frame begins. Otherwise nothing changes.
    pub fn flush(&mut self, interval_elapsed: bool) -> (batch: Option<FrameBatch>)
        requires
            old(self).wf(),
        ensures
            final(self).wf(),
            interval_elapsed && old(self).cached_count() > 0 ==> match batch {
                Some(b) => {
                    &&& latest(b.ticks@) == old(self).cache_map()
                    &&& latest(b.ticks@) == latest(old(self).frame_ticks())
                    &&& distinct_keys(symbols_of(b.ticks@))
                    &&& b.coalesced_count == old(self).pending_coalesced()
                    &&& b.ticks@.len() + b.coalesced_count == old(self).frame_ticks().len()
                    &&& old(self).counters().coalesced == bump_by(
                        old(self).frame_start_coalesced(),
                        b.coalesced_count as nat,
                    )
                    &&& final(self).frame_start_coalesced() == old(self).counters().coalesced
                    &&& final(self).frame_ticks() == Seq::<Tick>::empty()
                    &&& final(self).pending_coalesced() == 0
                    &&& final(self).counters() == (Metrics {
                        flushes: bump_by(old(self).counters().flushes, 1),
                        ..old(self).counters()
                    })
                },
                None => false,
            },
            !(interval_elapsed && old(self).cached_count() > 0) ==> {
                &&& batch is None
                &&& final(self).frame_ticks() == old(self).frame_ticks()
                &&& final(self).cache_map() == old(self).cache_map()
                &&& final(self).pending_coalesced() == old(self).pending_coalesced()
                &&& final(self).counters() == old(self).counters()
                &&& final(self).frame_start_coalesced() == old(self).frame_start_coalesced()
            },
    {
        if !interval_elapsed || self.cache.is_empty() {
            return None;
        }
        let ghost keys = self.cache.entry_keys();
        let ticks = self.cache.take_values();
        let batch = FrameBatch { ticks, coalesced_count: self.coalesced_this_frame };
        self.coalesced_this_frame = 0;
        self.frame = Ghost(Seq::empty());
        self.coalesced_at_frame_start = Ghost(self.metrics.coalesced);
        self.metrics.flushes = bump(self.metrics.flushes);
        proof {
            vstd::arithmetic::div_mod::lemma_small_mod(
                self.metrics.coalesced as nat,
                0x1_0000_0000_0000_0000nat,
            );
        }
        proof {
            assert(symbols_of(batch.ticks@) == keys);
            assert(self.cache.entry_keys() =~= symbols_of(self.cache.entry_values()));
            assert(latest(Seq::<Tick>::empty()) =~= Map::<Seq<char>, Tick>::empty());
        }
        Some(batch)
    }
}

/// Within a frame, the cache holds for each symbol the last tick of that
/// symbol taken in: a tick stays cached until a later tick of its symbol
/// arrives.
pub proof fn lemma_cache_holds_last_tick(c: &Coalescer, i: int)
    requires
        c.wf(),
        0 <= i < c.frame_ticks().len(),
        forall|j: int|
            i < j < c.frame_ticks().len() ==> (#[trigger] c.frame_ticks()[j]).symbol@
                != c.frame_ticks()[i].symbol@,
    ensures
        c.cache_map().dom().contains(c.frame_ticks()[i].symbol@),
        c.cache_map()[c.frame_ticks()[i].symbol@] == c.frame_ticks()[i],
{
    let f = c.frame_ticks();
    assert forall|j: int| i < j < f.len() implies symbols_of(f)[j] != symbols_of(f)[i] by {
        assert(f[j].symbol@ != f[i].symbol@);
    }
    lemma_assoc_value(symbols_of(f), f, f.len(), i);
}

/// Every tick kept from `ticks` is one of `ticks`.
proof fn lemma_keep_subscribed_from(ticks: Seq<Tick>, subs: Seq<Seq<char>>)
    ensures
        forall|k: int|
            0 <= k < keep_subscribed(ticks, subs).len() ==> exists|j: int|
                0 <= j < ticks.len() && #[trigger] keep_subscribed(ticks, subs)[k] == ticks[j],
    decreases ticks.len(),
{
    if ticks.len() > 0 {
        let dl = ticks.drop_last();
        lemma_keep_subscribed_from(dl, subs);
        let r = keep_subscribed(dl, subs);
        assert forall|k: int| 0 <= k < keep_subscribed(ticks, subs).len() implies exists|j: int|
            0 <= j < ticks.len() && #[trigger] keep_subscribed(ticks, subs)[k] == ticks[j] by {
            if k < r.len() {
                let j = choose|j: int| 0 <= j < dl.len() && r[k] == dl[j];
                assert(keep_subscribed(ticks, subs)[k] == ticks[j]);
            } else {
                assert(keep_subscribed(ticks, subs)[k] == ticks[ticks.len() - 1]);
            }
        }
    }
}

/// A snapshot that names each symbol once, filtered to the subscribed
/// symbols, is the snapshot's book restricted to those symbols: the
/// subscriber forwards the latest tick of every subscribed symbol that the
/// publisher has sent, and nothing else.
pub proof fn lemma_forwarded_snapshot(ticks: Seq<Tick>, subs: Seq<Seq<char>>)
    requires
        distinct_keys(symbols_of(ticks)),
    ensures
        latest(keep_subscribed(ticks, subs)) == latest(ticks).restrict(subs.to_set()),
        distinct_keys(symbols_of(keep_subscribed(ticks, subs))),
    decreases ticks.len(),
{
    let set = subs.to_set();
    if ticks.len() == 0 {
        assert(latest(ticks) =~= Map::<Seq<char>, Tick>::empty());
        assert(keep_subscribed(ticks, subs) =~= Seq::<Tick>::empty());
        assert(latest(Seq::<Tick>::empty()) =~= Map::<Seq<char>, Tick>::empty());
        assert(latest(ticks).restrict(set) =~= Map::<Seq<char>, Tick>::empty());
        assert(symbols_of(Seq::<Tick>::empty()) =~= Seq::<Seq<char>>::empty());
    } else {
        let dl = ticks.drop_last();
        let t = ticks.last();
        assert(dl.push(t) =~= ticks);
        assert forall|i: int, j: int|
            0 <= i < symbols_of(dl).len() && 0 <= j < symbols_of(dl).len() && i != j implies symbols_of(
            dl,
        )[i] != symbols_of(dl)[j] by {
            assert(symbols_of(ticks)[i] != symbols_of(ticks)[j]);
        }
        lemma_forwarded_snapshot(dl, subs);
        lemma_latest_push(dl, t);
        let r = keep_subscribed(dl, subs);
        if subs.contains(t.symbol@) {
            lemma_latest_push(r, t);
            assert(latest(keep_subscribed(ticks, subs)) =~= latest(ticks).restrict(set));
            lemma_keep_subscribed_from(dl, subs);
            assert forall|i: int, j: int|
                0 <= i < symbols_of(r.push(t)).len() && 0 <= j < symbols_of(r.push(t)).len() && i
                    != j implies symbols_of(r.push(t))[i] != symbols_of(r.push(t))[j] by {
                let n = r.len() as int;
                if i < n && j < n {
                    assert(symbols_of(r)[i] != symbols_of(r)[j]);
                } else if i < n {
                    let a = choose|a: int| 0 <= a < dl.len() && #[trigger] r[i] == dl[a];
                    assert(symbols_of(ticks)[a] != symbols_of(ticks)[ticks.len() - 1]);
                } else {
                    let a = choose|a: int| 0 <= a < dl.len() && #[trigger] r[j] == dl[a];
                    assert(symbols_of(ticks)[a] != symbols_of(ticks)[ticks.len() - 1]);
                }
            }
        } else {
            assert(keep_subscribed(ticks, subs) == r);
            assert(latest(keep_subscribed(ticks, subs)) =~= latest(ticks).restrict(set));
        }
    }
}

} // verus!
