//! Connections: how many there may be, how many from one address, and how
//! long one may take to say what it wants.
//!
//! The request timeout starts once a request has been read. Everything before
//! that is here. A connection that opens and says nothing, or trickles its
//! headers in a byte at a time, or sits idle after its last request, holds a
//! socket and a task for as long as it likes unless something closes it, and a
//! few thousand of those are a server nobody else reaches. So there is a
//! deadline for the headers, a connection that has not yet said which HTTP it
//! speaks gets a deadline of its own, a connection with nothing to answer is
//! closed once it has had nothing for as long, and there are only so many
//! connections at once: in all, and from any one address.
//!
//! What is being answered is never cut short by any of this. An event stream
//! says nothing for minutes on end and that is fine: the deadlines are for
//! reading a request, not for serving one.

use crate::config::Config;
use crate::limits::{is_due, moment, since};
use crate::state::{counted, counted_text, Address};
use crate::text;
use vstd::prelude::*;

verus! {

/// How long a client has for the headers of a request, and how long a
/// connection is kept that has nothing to answer, HTTP/1.1 or HTTP/2, in
/// nanoseconds. Plenty for a phone on a bad link; a connection that needs
/// longer is not a device syncing.
pub const HEADER_TIMEOUT: u64 = 15_000_000_000;

/// HTTP/2 has no header deadline (a request's headers arrive in one frame)
/// but a connection can go quiet for good, in the middle of an answer too. A
/// ping every half minute finds out, and one not answered within twenty
/// seconds ends it.
pub const H2_PING_EVERY: u64 = 30_000_000_000;

pub const H2_PING_TIMEOUT: u64 = 20_000_000_000;

/// Requests in flight on one HTTP/2 connection. A device needs a handful.
pub const H2_STREAMS: u32 = 8;

/// Before a deadline for the headers can start, the connection has to say
/// which HTTP it speaks: up to the 24 bytes of the HTTP/2 preface. No HTTP/1.1
/// request is shorter than that either (it has to name its host), so every
/// honest client sends them at once.
pub const FIRST_BYTES: usize = 24;

/// How often the log hears that somebody was turned away: a flood of refusals
/// must not become a flood of lines.
pub const SAY_EVERY: u64 = 60_000_000_000;

/// What connections may do.
#[derive(Debug, Clone, Copy, PartialEq, Eq, Structural)]
pub struct Limits {
    /// Open at once, from everybody.
    pub max: usize,
    /// Open at once from one address; zero for no limit.
    pub per_address: usize,
    /// For the headers of a request, for a connection to start one, and for
    /// a connection that has nothing to answer before it is closed.
    pub header_timeout: u64,
}

impl Limits {
    /// The configured ones. Behind a proxy every connection comes from the
    /// proxy, so counting per address would count the proxy; there, only the
    /// total counts.
    pub fn from_config(config: &Config) -> (limits: Limits)
        ensures
            limits == (Limits {
                max: config@.max_connections,
                per_address: if config@.trust_forwarded {
                    0
                } else {
                    config@.max_connections_per_address
                },
                header_timeout: HEADER_TIMEOUT,
            }),
    {
        Limits {
            max: config.max_connections,
            per_address: if config.trust_forwarded {
                0
            } else {
                config.max_connections_per_address
            },
            header_timeout: HEADER_TIMEOUT,
        }
    }
}

/// Open connections from one address.
#[derive(Debug)]
struct OpenRow {
    address: String,
    count: usize,
}

/// Why a connection was turned away, for the log.
#[derive(Debug)]
pub enum TurnedAway {
    /// As many connections as the server takes.
    Full { open: usize },
    /// As many connections from one address as the server takes from one.
    Address { address: String, open: usize },
}

/// A [`TurnedAway`] with its text as a sequence of characters.
pub enum TurnedAwayView {
    Full { open: usize },
    Address { address: Seq<char>, open: usize },
}

impl View for TurnedAway {
    type V = TurnedAwayView;

    open spec fn view(&self) -> TurnedAwayView {
        match self {
            TurnedAway::Full { open } => TurnedAwayView::Full { open: *open },
            TurnedAway::Address { address, open } => TurnedAwayView::Address {
                address: address@,
                open: *open,
            },
        }
    }
}

/// The count of open connections, in all and per address.
#[derive(Debug)]
pub struct Gate {
    limits: Limits,
    all: usize,
    by_address: Vec<OpenRow>,
    /// When the log last heard that somebody was turned away.
    said: Option<u64>,
    /// The moment from which it counts.
    born: std::time::Instant,
}

/// A [`Gate`] by its contents.
pub struct GateView {
    pub limits: Limits,
    pub all: nat,
    pub by_address: Map<Seq<char>, nat>,
    pub said: Option<u64>,
}

spec fn has_row(rows: Seq<OpenRow>, address: Seq<char>) -> bool {
    exists|i: int| 0 <= i < rows.len() && (#[trigger] rows[i]).address@ == address
}

spec fn row_at(rows: Seq<OpenRow>, address: Seq<char>) -> int {
    choose|i: int| 0 <= i < rows.len() && (#[trigger] rows[i]).address@ == address
}

spec fn rows_total(rows: Seq<OpenRow>) -> nat
    decreases rows.len(),
{
    if rows.len() == 0 {
        0
    } else {
        rows_total(rows.drop_last()) + rows.last().count as nat
    }
}

impl View for Gate {
    type V = GateView;

    closed spec fn view(&self) -> GateView {
        GateView {
            limits: self.limits,
            all: self.all as nat,
            by_address: Map::new(
                |address: Seq<char>| has_row(self.by_address@, address),
                |address: Seq<char>|
                    self.by_address@[row_at(self.by_address@, address)].count as nat,
            ),
            said: self.said,
        }
    }
}

/// One connection's room, until it is handed back to [`Gate::release`].
#[derive(Debug)]
pub struct Admitted {
    address: String,
}

impl Admitted {
    /// The address it is counted under.
    pub closed spec fn from(self) -> Seq<char> {
        self.address@
    }
}

impl GateView {
    /// Connections open from one address.
    pub open spec fn from_there(self, address: Seq<char>) -> nat {
        if self.by_address.contains_key(address) {
            self.by_address[address]
        } else {
            0
        }
    }

    /// Whether the server has as many connections as it takes.
    pub open spec fn full(self) -> bool {
        self.all >= self.limits.max
    }

    /// Whether there is room for one more connection from an address.
    pub open spec fn has_room(self, address: Seq<char>) -> bool {
        !self.full() && (self.limits.per_address == 0 || self.from_there(address)
            < self.limits.per_address)
    }

    /// What is open with one more connection from an address.
    pub open spec fn admitting(self, address: Seq<char>) -> GateView {
        GateView {
            all: self.all + 1,
            by_address: self.by_address.insert(address, self.from_there(address) + 1),
            ..self
        }
    }

    /// What is open with one connection from an address less.
    pub open spec fn releasing(self, address: Seq<char>) -> GateView {
        GateView {
            all: if self.all > 0 {
                (self.all - 1) as nat
            } else {
                0
            },
            by_address: if self.from_there(address) > 1 {
                self.by_address.insert(address, (self.from_there(address) - 1) as nat)
            } else {
                self.by_address.remove(address)
            },
            ..self
        }
    }
}

/// What a connection that wants in is answered at a given moment.
pub open spec fn admit_done(
    before: GateView,
    after: GateView,
    address: Seq<char>,
    now: u64,
    admitted: Result<Admitted, Option<TurnedAway>>,
) -> bool {
    match admitted {
        Ok(admitted) => {
            &&& before.has_room(address)
            &&& admitted.from() == address
            &&& after == before.admitting(address)
        },
        Err(note) => {
            &&& !before.has_room(address)
            &&& note is Some <==> is_due(now, before.said, SAY_EVERY)
            &&& note matches Some(note) ==> note@ == if before.full() {
                TurnedAwayView::Full { open: before.all as usize }
            } else {
                TurnedAwayView::Address { address, open: before.from_there(address) as usize }
            }
            &&& after == (GateView {
                said: if note is Some {
                    Some(now)
                } else {
                    before.said
                },
                ..before
            })
        },
    }
}

proof fn lemma_row_within_total(rows: Seq<OpenRow>, at: int)
    requires
        0 <= at < rows.len(),
    ensures
        rows[at].count <= rows_total(rows),
    decreases rows.len(),
{
    if at < rows.len() - 1 {
        lemma_row_within_total(rows.drop_last(), at);
        assert(rows.drop_last()[at] == rows[at]);
    }
}

proof fn lemma_total_of_changed(before: Seq<OpenRow>, after: Seq<OpenRow>, at: int)
    requires
        0 <= at < before.len(),
        after.len() == before.len(),
        forall|i: int| 0 <= i < before.len() && i != at ==> (#[trigger] after[i]) == before[i],
    ensures
        rows_total(after) == rows_total(before) - before[at].count + after[at].count,
    decreases before.len(),
{
    if at == before.len() - 1 {
        assert(after.drop_last() =~= before.drop_last());
    } else {
        let (b, a) = (before.drop_last(), after.drop_last());
        assert forall|i: int| 0 <= i < b.len() && i != at implies (#[trigger] a[i]) == b[i] by {
            assert(after[i] == before[i]);
        }
        lemma_total_of_changed(b, a, at);
        assert(after[before.len() - 1] == before[before.len() - 1]);
    }
}

proof fn lemma_total_of_removed(rows: Seq<OpenRow>, at: int)
    requires
        0 <= at < rows.len(),
    ensures
        rows_total(rows.remove(at)) == rows_total(rows) - rows[at].count,
    decreases rows.len(),
{
    let after = rows.remove(at);
    if at == rows.len() - 1 {
        assert(after =~= rows.drop_last());
    } else {
        assert(after.drop_last() =~= rows.drop_last().remove(at));
        lemma_total_of_removed(rows.drop_last(), at);
    }
}

spec fn addresses_differ(rows: Seq<OpenRow>) -> bool {
    forall|i: int, j: int|
        0 <= i < j < rows.len() ==> (#[trigger] rows[i]).address@ != (#[trigger] rows[j]).address@
}

/// Rows of which one changed its count or was added.
proof fn lemma_rows_changed(before: Seq<OpenRow>, after: Seq<OpenRow>, at: int)
    requires
        0 <= at < after.len(),
        before.len() <= after.len() <= before.len() + 1,
        before.len() < after.len() ==> at == before.len(),
        at < before.len() ==> before[at].address@ == after[at].address@,
        forall|i: int| 0 <= i < before.len() && i != at ==> (#[trigger] after[i]) == before[i],
        addresses_differ(after),
    ensures
        ({
            let address = after[at].address@;
            &&& has_row(after, address)
            &&& row_at(after, address) == at
            &&& forall|other: Seq<char>|
                other != address ==> #[trigger] has_row(after, other) == has_row(before, other)
            &&& forall|other: Seq<char>|
                other != address && has_row(before, other) ==> after[#[trigger] row_at(
                    after,
                    other,
                )] == before[row_at(before, other)]
        }),
{
    let address = after[at].address@;
    assert forall|other: Seq<char>| other != address implies #[trigger] has_row(after, other)
        == has_row(before, other) by {
        if has_row(before, other) {
            let j = row_at(before, other);
            assert(after[j].address@ == other);
        }
        if has_row(after, other) {
            let j = row_at(after, other);
            assert(before[j].address@ == other);
        }
    }
    assert forall|other: Seq<char>| other != address && has_row(before, other) implies after[
    #[trigger] row_at(after, other)] == before[row_at(before, other)] by {
        let j = row_at(before, other);
        assert(after[j].address@ == other);
        assert(has_row(after, other));
        let k = row_at(after, other);
        assert(after[k].address@ == other);
    }
}

/// Rows from which one was taken.
proof fn lemma_rows_removed(before: Seq<OpenRow>, at: int)
    requires
        0 <= at < before.len(),
        addresses_differ(before),
    ensures
        ({
            let after = before.remove(at);
            let address = before[at].address@;
            &&& addresses_differ(after)
            &&& !has_row(after, address)
            &&& forall|other: Seq<char>|
                other != address ==> #[trigger] has_row(after, other) == has_row(before, other)
            &&& forall|other: Seq<char>|
                other != address && has_row(before, other) ==> after[#[trigger] row_at(
                    after,
                    other,
                )] == before[row_at(before, other)]
        }),
{
    let after = before.remove(at);
    let address = before[at].address@;
    assert forall|i: int| 0 <= i < after.len() implies (#[trigger] after[i]) == before[if i < at {
        i
    } else {
        i + 1
    }] by {}
    assert forall|i: int, j: int| 0 <= i < j < after.len() implies (#[trigger] after[i]).address@
        != (#[trigger] after[j]).address@ by {
        let k = if i < at {
            i
        } else {
            i + 1
        };
        let l = if j < at {
            j
        } else {
            j + 1
        };
        assert(before[k].address@ != before[l].address@);
    }
    if has_row(after, address) {
        let j = row_at(after, address);
        assert(after[j].address@ == address);
        let k = if j < at {
            j
        } else {
            j + 1
        };
        assert(before[k].address@ == address);
    }
    assert forall|other: Seq<char>| other != address implies #[trigger] has_row(after, other)
        == has_row(before, other) by {
        if has_row(before, other) {
            let j = row_at(before, other);
            let k = if j < at {
                j
            } else {
                j - 1
            };
            assert(after[k].address@ == other);
        }
        if has_row(after, other) {
            let j = row_at(after, other);
            let k = if j < at {
                j
            } else {
                j + 1
            };
            assert(before[k].address@ == other);
        }
    }
    assert forall|other: Seq<char>| other != address && has_row(before, other) implies after[
    #[trigger] row_at(after, other)] == before[row_at(before, other)] by {
        assert(has_row(after, other));
        let j = row_at(after, other);
        let k = if j < at {
            j
        } else {
            j + 1
        };
        let l = row_at(before, other);
        assert(before[k].address@ == other);
        assert(before[l].address@ == other);
    }
}

impl Gate {
    /// Each address once, with something open, and all of them together what
    /// is open.
    pub closed spec fn wf(self) -> bool {
        &&& addresses_differ(self.by_address@)
        &&& rows_total(self.by_address@) == self.all
        &&& forall|i: int|
            0 <= i < self.by_address@.len() ==> (#[trigger] self.by_address@[i]).count >= 1
    }

    pub fn new(limits: Limits) -> (gate: Gate)
        ensures
            gate.wf(),
            gate@ == (GateView { limits, all: 0, by_address: Map::empty(), said: None }),
    {
        let gate: Gate = Gate {
            limits,
            all: 0,
            by_address: Vec::new(),
            said: None,
            born: moment(),
        };
        assert(gate@.by_address =~= Map::empty());
        gate
    }

    fn find(&self, address: &str) -> (at: Option<usize>)
        requires
            self.wf(),
        ensures
            at is Some <==> has_row(self.by_address@, address@),
            at matches Some(at) ==> at < self.by_address@.len() && self.by_address@[at as int]
                .address@ == address@ && at == row_at(self.by_address@, address@),
    {
        for i in 0..self.by_address.len()
            invariant
                self.wf(),
                forall|j: int| 0 <= j < i ==> (#[trigger] self.by_address@[j]).address@ != address@,
        {
            if text::same(self.by_address[i].address.as_str(), address) {
                return Some(i);
            }
        }
        None
    }

    /// Room for one more connection from `peer`, or none, at a given moment.
    /// The room is taken until it is released. Where there is none, what the
    /// log is to hear comes back instead, if it is to hear anything.
    pub fn let_in_at(&mut self, peer: Address, now: u64) -> (admitted: Result<
        Admitted,
        Option<TurnedAway>,
    >)
        requires
            old(self).wf(),
        ensures
            final(self).wf(),
            admit_done(old(self)@, final(self)@, counted_text(peer), now, admitted),
    {
        // Counted the way the rate limiter counts: an IPv6 machine has a whole
        // /64 to pick addresses from.
        let address: String = counted(peer);
        let found: Option<usize> = self.find(address.as_str());
        let from_there: usize = match found {
            Some(at) => self.by_address[at].count,
            None => 0,
        };
        let full: bool = self.all >= self.limits.max;
        if full || (self.limits.per_address > 0 && from_there >= self.limits.per_address) {
            let due: bool = match self.said {
                Some(said) => now.saturating_sub(said) >= SAY_EVERY,
                None => true,
            };
            if !due {
                return Err(None);
            }
            self.said = Some(now);
            assert(self@.by_address =~= old(self)@.by_address);
            return Err(
                Some(
                    if full {
                        TurnedAway::Full { open: self.all }
                    } else {
                        TurnedAway::Address { address, open: from_there }
                    },
                ),
            );
        }
        let ghost before = self.by_address@;
        match found {
            Some(at) => {
                proof {
                    lemma_row_within_total(before, at as int);
                }
                self.by_address[at].count = from_there + 1;
                proof {
                    lemma_total_of_changed(before, self.by_address@, at as int);
                    lemma_rows_changed(before, self.by_address@, at as int);
                }
            },
            None => {
                self.by_address.push(OpenRow { address: address.clone(), count: 1 });
                proof {
                    assert(self.by_address@.drop_last() =~= before);
                    lemma_rows_changed(before, self.by_address@, before.len() as int);
                }
            },
        }
        self.all = self.all + 1;
        assert(self@.by_address =~= old(self)@.admitting(address@).by_address);
        Ok(Admitted { address })
    }

    /// Room for one more connection from `peer`, or none.
    pub fn let_in(&mut self, peer: Address) -> (admitted: Result<Admitted, Option<TurnedAway>>)
        requires
            old(self).wf(),
        ensures
            final(self).wf(),
            exists|now: u64| #[trigger]
                admit_done(old(self)@, final(self)@, counted_text(peer), now, admitted),
    {
        let now: u64 = since(&self.born);
        self.let_in_at(peer, now)
    }

    /// A connection closed.
    pub fn release(&mut self, admitted: Admitted)
        requires
            old(self).wf(),
        ensures
            final(self).wf(),
            final(self)@ == if old(self)@.by_address.contains_key(admitted.from()) {
                old(self)@.releasing(admitted.from())
            } else {
                old(self)@
            },
    {
        let ghost before = self.by_address@;
        match self.find(admitted.address.as_str()) {
            Some(at) => {
                proof {
                    lemma_row_within_total(before, at as int);
                }
                let count: usize = self.by_address[at].count;
                self.all = self.all.saturating_sub(1);
                if count > 1 {
                    self.by_address[at].count = count - 1;
                    proof {
                        lemma_total_of_changed(before, self.by_address@, at as int);
                        lemma_rows_changed(before, self.by_address@, at as int);
                    }
                } else {
                    proof {
                        lemma_total_of_removed(before, at as int);
                        lemma_rows_removed(before, at as int);
                    }
                    let _ = self.by_address.remove(at);
                }
            },
            None => {
                return ;
            },
        }
        assert(self@.by_address =~= old(self)@.releasing(admitted.from()).by_address);
    }

    /// How many connections are open.
    pub fn open(&self) -> (open: usize)
        ensures
            open == self@.all,
    {
        self.all
    }

    /// Whether nothing is left over of any connection.
    pub fn is_empty(&self) -> (empty: bool)
        requires
            self.wf(),
        ensures
            empty == (self@.by_address == Map::<Seq<char>, nat>::empty()),
            empty ==> self@.all == 0,
    {
        proof {
            if self.by_address@.len() > 0 {
                let address = self.by_address@[0].address@;
                assert(has_row(self.by_address@, address));
                assert(self@.by_address.contains_key(address));
            } else {
                assert(self@.by_address =~= Map::empty());
            }
        }
        self.by_address.is_empty()
    }
}

/// A closed connection makes room: giving its room back undoes taking it.
pub proof fn a_closed_connection_makes_room(gate: GateView, address: Seq<char>)
    requires
        gate.by_address.contains_key(address) ==> gate.by_address[address] >= 1,
    ensures
        gate.admitting(address).releasing(address) == gate,
{
    assert(gate.admitting(address).releasing(address).by_address =~= gate.by_address);
}

/// Everybody together gets the total and no more, and one address gets its
/// share and no more, whatever the others have.
pub proof fn nobody_gets_more_than_their_share(gate: GateView, address: Seq<char>, other: Seq<char>)
    requires
        gate.has_room(address),
        gate.all <= gate.limits.max,
        other != address,
    ensures
        gate.admitting(address).all <= gate.limits.max,
        gate.limits.per_address > 0 ==> gate.admitting(address).from_there(address)
            <= gate.limits.per_address,
        gate.admitting(address).from_there(other) == gate.from_there(other),
{
}

/// What one connection is doing: how many of its requests are being answered,
/// and since when none is.
#[derive(Debug, Clone, Copy, PartialEq, Eq, Structural)]
pub struct Activity {
    pub answering: usize,
    pub idle_since: u64,
}

impl Activity {
    /// A connection that has just opened.
    pub fn new(now: u64) -> (activity: Activity)
        ensures
            activity == (Activity { answering: 0, idle_since: now }),
    {
        Activity { answering: 0, idle_since: now }
    }

    /// A request arrived. Counted before the answer is even started, so there
    /// is no moment in which the connection looks idle while it is not.
    pub fn begin(&mut self)
        requires
            old(self).answering < usize::MAX,
        ensures
            *final(self) == (Activity { answering: (old(self).answering + 1) as usize, ..*old(self) }),
    {
        self.answering = self.answering + 1;
    }

    /// The answer to a request has been sent in full or given up on. Returns
    /// whether it was the last: the clock of the connection starts then.
    pub fn end(&mut self, now: u64) -> (last: bool)
        requires
            old(self).answering > 0,
        ensures
            final(self).answering == old(self).answering - 1,
            last == (final(self).answering == 0),
            final(self).idle_since == if last {
                now
            } else {
                old(self).idle_since
            },
    {
        self.answering = self.answering - 1;
        if self.answering == 0 {
            self.idle_since = now;
            true
        } else {
            false
        }
    }

    /// Until when the connection may stay as it is, if nothing happens; it may
    /// for as long as it likes while something is being answered.
    pub fn idle_until(&self, timeout: u64) -> (until: Option<u64>)
        ensures
            until == if self.answering > 0 {
                None
            } else if self.idle_since + timeout > u64::MAX {
                Some(u64::MAX)
            } else {
                Some((self.idle_since + timeout) as u64)
            },
    {
        if self.answering > 0 {
            None
        } else {
            Some(self.idle_since.saturating_add(timeout))
        }
    }

    /// Whether nothing has been answered here for too long. Pings and
    /// settings do not count: an HTTP/2 client sends those without anybody
    /// asking it anything.
    pub fn idle_too_long(&self, timeout: u64, now: u64) -> (too_long: bool)
        ensures
            too_long == (self.answering == 0 && (self.idle_since + timeout <= now || now
                == u64::MAX)),
    {
        match self.idle_until(timeout) {
            Some(until) => until <= now,
            None => false,
        }
    }
}

/// What came of reading a connection.
#[derive(Debug, Clone, Copy, PartialEq, Eq, Structural)]
pub enum Polled {
    /// That many bytes arrived.
    Read(usize),
    /// It failed.
    Failed,
    /// Nothing yet.
    Pending,
}

/// What a connection makes of it.
#[derive(Debug, Clone, Copy, PartialEq, Eq, Structural)]
pub enum ReadStep {
    /// It is passed on as it is.
    PassOn,
    /// The connection did not say what it wants in time.
    TimedOut,
    /// The connection ends, as if the client had closed it.
    End,
}

/// How a connection is read: it has to have said its first [`FIRST_BYTES`]
/// before its deadline, and ends once it has had nothing to answer for as long
/// again.
#[derive(Debug, Clone, Copy, PartialEq, Eq, Structural)]
pub struct Guard {
    /// How much has arrived, until there has been enough.
    pub first: Option<usize>,
}

impl Guard {
    pub fn new() -> (guard: Guard)
        ensures
            guard == (Guard { first: Some(0) }),
    {
        Guard { first: Some(0) }
    }

    /// What a connection makes of what came of reading it. `deadline_over`
    /// says whether the time for its first bytes is up, `idle` whether it has
    /// had nothing to answer for too long.
    pub fn step(&mut self, polled: Polled, deadline_over: bool, idle: bool) -> (step: ReadStep)
        ensures
            final(self).first == match (old(self).first, polled) {
                (Some(seen), Polled::Read(bytes)) => if seen + bytes >= FIRST_BYTES {
                    None
                } else {
                    Some((seen + bytes) as usize)
                },
                _ => old(self).first,
            },
            step == if !(polled is Pending) {
                ReadStep::PassOn
            } else if old(self).first is Some && deadline_over {
                ReadStep::TimedOut
            } else if idle {
                ReadStep::End
            } else {
                ReadStep::PassOn
            },
    {
        match polled {
            Polled::Read(bytes) => {
                if let Some(seen) = self.first {
                    if bytes >= FIRST_BYTES || seen >= FIRST_BYTES || seen + bytes >= FIRST_BYTES {
                        self.first = None;
                    } else {
                        self.first = Some(seen + bytes);
                    }
                }
                ReadStep::PassOn
            },
            Polled::Failed => ReadStep::PassOn,
            Polled::Pending => {
                if self.first.is_some() && deadline_over {
                    ReadStep::TimedOut
                } else if idle {
                    ReadStep::End
                } else {
                    ReadStep::PassOn
                }
            },
        }
    }
}

/// A response body that holds on to something until it has been sent in full
/// or dropped, not merely until the handler has returned it.
#[derive(Debug)]
pub struct Holding<B, T> {
    pub body: B,
    pub held: T,
}

impl<B, T> Holding<B, T> {
    pub fn new(body: B, held: T) -> (holding: Holding<B, T>)
        ensures
            holding.body == body,
            holding.held == held,
    {
        Holding { body, held }
    }
}

/// As many open files as the machine lets this process have: every connection
/// is one, and the default of 1024 that some container runtimes hand out is
/// less than the connections this server takes. Given the limit there is and
/// the most it can be, returns what it is to be raised to, if it is.
pub fn raise_open_files(soft: u64, hard: u64) -> (raised: Option<u64>)
    ensures
        raised == if soft < hard {
            Some(hard)
        } else {
            None
        },
{
    if soft < hard {
        Some(hard)
    } else {
        None
    }
}

/// Whether the process may open fewer files than the server takes connections,
/// with a few to spare for everything else.
pub fn too_few_files(files: Option<u64>, connections: usize) -> (too_few: bool)
    ensures
        too_few == (files is Some && files->Some_0 < connections + 64),
{
    match files {
        Some(files) => (files as u128) < connections as u128 + 64,
        None => false,
    }
}

} // verus!
