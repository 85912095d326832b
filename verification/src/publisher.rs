//! The publisher's decisions: which symbol the next tick belongs to, its
//! sequence number and size, the book of the latest tick sent per symbol,
//! and the reply to each control request. Sockets, pacing and the price
//! walk (floating point) are driven from outside.

use vstd::prelude::*;

use crate::keyed::{distinct_keys, lemma_assoc_dom, lemma_assoc_value, LatestMap};
use crate::proto::{latest, lemma_latest_push, symbols_of, ControlRequest, ControlResponse, Tick};
use crate::symbols::{symbol_name_spec, symbol_names};

verus! {

/// Where the publisher binds, how fast it sends, and which symbols it
/// cycles through.
pub struct PublisherConfig {
    pub pub_addr: String,
    pub rep_addr: String,
    pub rate: u64,
    pub symbols: Vec<String>,
}

impl Default for PublisherConfig {
    /// Local ports 5555 (PUB) and 5556 (REP), 10 000 ticks per second,
    /// symbols `SYM000` to `SYM019`.
    fn default() -> (c: Self)
        ensures
            c.pub_addr@ == "tcp://127.0.0.1:5555"@,
            c.rep_addr@ == "tcp://127.0.0.1:5556"@,
            c.rate == 10_000,
            c.symbols.len() == 20,
            forall|k: int| 0 <= k < 20 ==> (#[trigger] c.symbols[k])@ == symbol_name_spec(k as nat),
    {
        PublisherConfig {
            pub_addr: String::from_str("tcp://127.0.0.1:5555"),
            rep_addr: String::from_str("tcp://127.0.0.1:5556"),
            rate: 10_000,
            symbols: symbol_names(20),
        }
    }
}

/// The multiplier of the linear-congruential step behind the price walk.
pub const DRIFT_MULTIPLIER: u64 = 6364136223846793005;

/// `seq * DRIFT_MULTIPLIER + 1` modulo 2^64.
pub open spec fn drift_seed_spec(seq: u64) -> u64 {
    ((seq as nat * DRIFT_MULTIPLIER as nat + 1) % 0x1_0000_0000_0000_0000) as u64
}

/// The pseudo-random word from which the price drift of tick `seq` is
/// derived: `seq * DRIFT_MULTIPLIER + 1`, wrapping at 2^64.
pub fn drift_seed(seq: u64) -> (r: u64)
    ensures
        r == drift_seed_spec(seq),
{
    let x = seq.wrapping_mul(DRIFT_MULTIPLIER);
    let r = x.wrapping_add(1);
    proof {
        let m: int = 0x1_0000_0000_0000_0000;
        let p: int = (seq as nat * DRIFT_MULTIPLIER as nat) as int;
        assert(x as int == p % m);
        vstd::arithmetic::div_mod::lemma_add_mod_noop(p, 1, m);
        assert(1int % m == 1);
        assert((p % m + 1) % m == (p + 1) % m);
        if x as int + 1 >= m {
            assert(r == 0);
            assert((x as int + 1) % m == 0) by {
                vstd::arithmetic::div_mod::lemma_mod_self_0(m);
            }
        } else {
            vstd::arithmetic::div_mod::lemma_small_mod((x + 1) as nat, m as nat);
        }
    }
    r
}

/// The size of tick `seq`: 100 plus `seq` modulo 900.
pub fn tick_size(seq: u64) -> (r: u32)
    ensures
        r == 100 + seq % 900,
{
    100 + (seq % 900) as u32
}

/// The position in a list of `n` symbols that tick `seq` goes to.
pub open spec fn slot(seq: u64, n: nat) -> int {
    (seq as usize) as int % (n as int)
}

/// Tick `k` of `history` carries sequence number `k`, the symbol at
/// position `k` modulo the number of symbols, and size 100 + `k` mod 900.
pub open spec fn round_robin(history: Seq<Tick>, symbols: Seq<Seq<char>>) -> bool {
    forall|k: int|
        0 <= k < history.len() ==> {
            &&& (#[trigger] history[k]).seq == k
            &&& history[k].symbol@ == symbols[slot(k as u64, symbols.len())]
            &&& history[k].size == 100 + k % 900
        }
}

/// The state of a running publisher: its symbols, the next sequence number,
/// and the latest tick sent for each symbol.
pub struct Publisher {
    symbols: Vec<String>,
    seq: u64,
    book: LatestMap<Tick>,
    history: Ghost<Seq<Tick>>,
}

impl Publisher {
    /// The symbols cycled through, in order.
    pub closed spec fn symbol_list(&self) -> Seq<Seq<char>> {
        self.symbols@.map_values(|s: String| s@)
    }

    /// The sequence number of the next tick.
    pub closed spec fn next_seq(&self) -> u64 {
        self.seq
    }

    /// Every tick recorded as sent, in order.
    pub closed spec fn history(&self) -> Seq<Tick> {
        self.history@
    }

    /// The latest tick sent for each symbol, as the snapshot reports it.
    pub closed spec fn book(&self) -> Map<Seq<char>, Tick> {
        self.book.as_map()
    }

    /// The book's entries are keyed by their own symbols.
    pub closed spec fn book_keyed_by_symbol(&self) -> bool {
        &&& self.book.wf()
        &&& self.book.entry_keys() == symbols_of(self.book.entry_values())
    }

    pub open spec fn wf(&self) -> bool {
        &&& 0 < self.symbol_list().len() <= usize::MAX
        &&& self.history().len() == self.next_seq()
        &&& round_robin(self.history(), self.symbol_list())
        &&& self.book() == latest(self.history())
        &&& self.book_keyed_by_symbol()
    }

    /// Whether `t` is the tick due next: the next sequence number, the
    /// symbol whose turn it is, and the size that goes with the number.
    pub open spec fn is_next(&self, t: Tick) -> bool {
        &&& t.seq == self.next_seq()
        &&& t.symbol@ == self.symbol_list()[slot(self.next_seq(), self.symbol_list().len())]
        &&& t.size == 100 + self.next_seq() % 900
    }

    /// A publisher that has sent nothing yet.
    pub fn new(symbols: Vec<String>) -> (p: Self)
        requires
            symbols.len() > 0,
        ensures
            p.wf(),
            p.symbol_list() == symbols@.map_values(|s: String| s@),
            p.next_seq() == 0,
            p.history() == Seq::<Tick>::empty(),
    {
        let p = Publisher {
            symbols,
            seq: 0,
            book: LatestMap::new(),
            history: Ghost(Seq::empty()),
        };
        assert(p.book.entry_keys() =~= symbols_of(p.book.entry_values()));
        assert(latest(Seq::<Tick>::empty()) =~= Map::<Seq<char>, Tick>::empty());
        p
    }

    pub fn seq(&self) -> (r: u64)
        ensures
            r == self.next_seq(),
    {
        self.seq
    }

    /// The position of the symbol whose turn it is.
    pub fn next_index(&self) -> (i: usize)
        requires
            self.wf(),
        ensures
            i == slot(self.next_seq(), self.symbol_list().len()),
            i < self.symbol_list().len(),
            self.next_seq() <= usize::MAX ==> i as int == self.next_seq() as int
                % self.symbol_list().len() as int,
    {
        (self.seq as usize) % self.symbols.len()
    }

    /// The tick due next, with the given prices and timestamp.
    pub fn next_tick(&self, bid: u64, ask: u64, last: u64, ts_nanos: u64) -> (t: Tick)
        requires
            self.wf(),
        ensures
            self.is_next(t),
            t.symbol@ == self.symbol_list()[slot(self.next_seq(), self.symbol_list().len())],
            self.next_seq() <= usize::MAX ==> t.symbol@ == self.symbol_list()[self.next_seq() as int
                % self.symbol_list().len() as int],
            t.seq == self.next_seq(),
            t.size == 100 + self.next_seq() % 900,
            t.bid == bid,
            t.ask == ask,
            t.last == last,
            t.ts_nanos == ts_nanos,
    {
        let i = self.next_index();
        Tick {
            symbol: self.symbols[i].clone(),
            bid,
            ask,
            last,
            size: tick_size(self.seq),
            seq: self.seq,
            ts_nanos,
        }
    }

    /// Records that `tick` went out: it becomes the latest tick of its
    /// symbol and the sequence number advances. A tick that is not the one
    /// due next, or a sequence number that cannot advance, is refused and
    /// nothing changes.
    pub fn record_sent(&mut self, tick: Tick) -> (accepted: bool)
        requires
            old(self).wf(),
        ensures
            final(self).wf(),
            accepted == (old(self).is_next(tick) && old(self).next_seq() < u64::MAX),
            final(self).symbol_list() == old(self).symbol_list(),
            accepted ==> final(self).next_seq() == old(self).next_seq() + 1,
            accepted ==> final(self).history() == old(self).history().push(tick),
            accepted ==> final(self).book() == old(self).book().insert(tick.symbol@, tick),
            !accepted ==> final(self).next_seq() == old(self).next_seq(),
            !accepted ==> final(self).history() == old(self).history(),
            !accepted ==> final(self).book() == old(self).book(),
    {
        if self.seq == u64::MAX {
            return false;
        }
        let i = self.next_index();
        if tick.seq != self.seq || tick.symbol != self.symbols[i] || tick.size != tick_size(
            self.seq,
        ) {
            return false;
        }
        let ghost old_hist = self.history@;
        let key = tick.symbol.clone();
        let ghost t = tick;
        self.book.insert(key, tick);
        self.seq = self.seq + 1;
        self.history = Ghost(old_hist.push(t));
        proof {
            lemma_latest_push(old_hist, t);
            assert(self.book.entry_keys() =~= symbols_of(self.book.entry_values()));
            assert(round_robin(self.history(), self.symbol_list())) by {
                assert forall|k: int| 0 <= k < self.history().len() implies {
                    &&& (#[trigger] self.history()[k]).seq == k
                    &&& self.history()[k].symbol@ == self.symbol_list()[slot(
                        k as u64,
                        self.symbol_list().len(),
                    )]
                    &&& self.history()[k].size == 100 + k % 900
                } by {
                    if k < old_hist.len() {
                        assert(self.history()[k] == old_hist[k]);
                    }
                }
            }
        }
        true
    }

    /// The reply to a control request; `request` is `Err` with the
    /// decoder's message when the request bytes did not decode.
    pub fn respond(&self, request: Result<ControlRequest, String>) -> (r: ControlResponse)
        requires
            self.wf(),
        ensures
            match request {
                Ok(ControlRequest::Ping) => r == ControlResponse::Pong,
                Ok(ControlRequest::Snapshot) => match r {
                    ControlResponse::Snapshot { ticks } => {
                        &&& latest(ticks@) == self.book()
                        &&& distinct_keys(symbols_of(ticks@))
                    },
                    _ => false,
                },
                Ok(ControlRequest::Subscribe { .. }) => r == ControlResponse::Ack,
                Ok(ControlRequest::Unsubscribe { .. }) => r == ControlResponse::Ack,
                Err(detail) => match r {
                    ControlResponse::Error { msg } => msg@ == "decode error: "@ + detail@,
                    _ => false,
                },
            },
    {
        match request {
            Ok(ControlRequest::Ping) => ControlResponse::Pong,
            Ok(ControlRequest::Snapshot) => ControlResponse::Snapshot { ticks: self.snapshot() },
            Ok(ControlRequest::Subscribe { .. }) => ControlResponse::Ack,
            Ok(ControlRequest::Unsubscribe { .. }) => ControlResponse::Ack,
            Err(detail) => {
                let mut msg = String::from_str("decode error: ");
                msg.append(detail.as_str());
                ControlResponse::Error { msg }
            },
        }
    }

    /// The latest tick sent for each symbol, one per symbol.
    pub fn snapshot(&self) -> (ticks: Vec<Tick>)
        requires
            self.wf(),
        ensures
            latest(ticks@) == self.book(),
            distinct_keys(symbols_of(ticks@)),
    {
        let vals = self.book.values();
        let n = vals.len();
        let mut out: Vec<Tick> = Vec::new();
        let mut k: usize = 0;
        while k < n
            invariant
                n == vals@.len(),
                vals@ == self.book.entry_values(),
                k <= n,
                out@ =~= vals@.subrange(0, k as int),
            decreases n - k,
        {
            out.push(vals[k].duplicate());
            k = k + 1;
        }
        proof {
            assert(out@ =~= self.book.entry_values());
            assert(symbols_of(out@) == self.book.entry_keys());
        }
        out
    }
}

/// Once every symbol has had its turn, the book holds a tick for each of
/// them, and each held tick is the last one sent for its symbol.
pub proof fn lemma_book_covers_symbols(p: &Publisher)
    requires
        p.wf(),
        p.next_seq() >= p.symbol_list().len(),
    ensures
        forall|j: int|
            0 <= j < p.symbol_list().len() ==> p.book().dom().contains(
                #[trigger] p.symbol_list()[j],
            ),
{
    let h = p.history();
    let n = p.symbol_list().len();
    assert forall|j: int| 0 <= j < n implies p.book().dom().contains(
        #[trigger] p.symbol_list()[j],
    ) by {
        assert(h[j].seq == j);
        assert((j as u64 as usize) as int == j);
        assert(slot(j as u64, n) == j) by {
            vstd::arithmetic::div_mod::lemma_small_mod(j as nat, n);
        }
        assert(symbols_of(h)[j] == p.symbol_list()[j]);
        lemma_assoc_dom(symbols_of(h), h, h.len(), p.symbol_list()[j]);
    }
}

/// A tick recorded as sent is what the snapshot reports for its symbol
/// until a later tick of that symbol is recorded.
pub proof fn lemma_recorded_tick_is_latest(p: &Publisher, i: int)
    requires
        p.wf(),
        0 <= i < p.history().len(),
        forall|j: int|
            i < j < p.history().len() ==> (#[trigger] p.history()[j]).symbol@
                != p.history()[i].symbol@,
    ensures
        p.book().dom().contains(p.history()[i].symbol@),
        p.book()[p.history()[i].symbol@] == p.history()[i],
{
    let h = p.history();
    assert forall|j: int| i < j < h.len() implies symbols_of(h)[j] != symbols_of(h)[i] by {
        assert(h[j].symbol@ != h[i].symbol@);
    }
    lemma_assoc_value(symbols_of(h), h, h.len(), i);
}

/// The symbols take turns: tick `k` goes to symbol `k mod n` of the `n`
/// configured symbols (for every `k` that fits in `usize`), so each symbol
/// gets exactly one tick in every run of `n` consecutive ticks, and tick
/// `k` has the same symbol as tick `k - n`.
pub proof fn lemma_round_robin_turns(p: &Publisher)
    requires
        p.wf(),
    ensures
        forall|k: int|
            0 <= k < p.history().len() && k <= usize::MAX ==> (#[trigger] p.history()[k]).symbol@
                == p.symbol_list()[k % p.symbol_list().len() as int],
        forall|k: int|
            p.symbol_list().len() <= k < p.history().len() && k <= usize::MAX ==> (#[trigger] p.history()[k]).symbol@
                == p.history()[k - p.symbol_list().len()].symbol@,
        forall|k: int|
            0 <= k < p.history().len() ==> (#[trigger] p.history()[k]).seq == k
                && p.history()[k].size == 100 + k % 900,
{
    let h = p.history();
    let n = p.symbol_list().len() as int;
    assert forall|k: int| 0 <= k < h.len() && k <= usize::MAX implies (#[trigger] h[k]).symbol@
        == p.symbol_list()[k % n] by {
        assert((k as u64 as usize) as int == k);
    }
    assert forall|k: int| n <= k < h.len() && k <= usize::MAX implies (#[trigger] h[k]).symbol@
        == h[k - n].symbol@ by {
        assert((k as u64 as usize) as int == k);
        assert(((k - n) as u64 as usize) as int == k - n);
        vstd::arithmetic::div_mod::lemma_mod_sub_multiples_vanish(k, n);
    }
}

} // verus!
