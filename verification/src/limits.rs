//! How often somebody may try.
//!
//! Two kinds of counting. **Per address**, where guessing would pay: creating
//! an account, joining with an enrolment token, the pairing relay, and,
//! loosely, signing in, which is counted per device at an address as well. And
//! **per account or device**, where one account holder could make the server
//! work for nobody else: pushing and pulling, making tokens, opening pairing
//! sessions, and proving the master password, which is a guess too when the one
//! proving it is not the owner. Pushes and pulls are also counted **at once**,
//! per account: how many a minute says nothing about how many are held in
//! memory at the same time.
//!
//! The counters live in memory. A restart forgets them, which is the right
//! trade for a homelab server: the alternative is a write to disk for every
//! request, to slow down an attacker who would have to survive the restart
//! anyway.

use crate::error::{ApiError, Refusal, Result};
use crate::ids::{uuid_text, Uuid};
use crate::text;
use std::collections::VecDeque;
use vstd::hash_map::StringHashMap;
use vstd::prelude::*;
use vstd::string::StringExecFns;

verus! {

/// Moments and spans are counted in nanoseconds.
pub const SECOND: u64 = 1_000_000_000;

pub const MILLISECOND: u64 = 1_000_000;

/// What each protected endpoint allows, per address or per account.
#[derive(Debug, Clone, Copy)]
pub struct Bucket {
    pub name: &'static str,
    pub max: usize,
    /// How long a try counts.
    pub window: u64,
    /// What happens to an address the limiter has no room left to remember.
    pub when_full: WhenFull,
}

/// What a bucket does with a newcomer once its table is full: once somebody
/// is making up addresses faster than they fall out of their windows.
#[derive(Debug, Clone, Copy, PartialEq, Eq, Structural)]
pub enum WhenFull {
    /// Let it through, uncounted: nothing here is worth guessing, and turning
    /// strangers away would turn away the devices among them too.
    Admit,
    /// Count it with its whole network (its /48, or its /24 for IPv4), so
    /// whoever is making up addresses shares one count with themselves, and
    /// everybody else keeps a count of their own.
    Coarsen,
}

#[verifier::allow_in_spec]
pub fn accounts() -> Bucket
    returns
        (Bucket {
            name: "accounts",
            max: 5,
            window: 3_600_000_000_000,
            when_full: WhenFull::Coarsen,
        }),
{
    Bucket {
        name: "accounts",
        max: 5,
        window: 3_600_000_000_000,
        when_full: WhenFull::Coarsen,
    }
}

/// Signing in as one device, from one address. Nobody forges an Ed25519
/// signature by trying again, so this is not about guessing; it keeps the
/// requests in bounds, and it is never what keeps a device from signing in
/// when the table is full.
#[verifier::allow_in_spec]
pub fn session() -> Bucket
    returns
        (Bucket {
            name: "session",
            max: 30,
            window: 60_000_000_000,
            when_full: WhenFull::Admit,
        }),
{
    Bucket {
        name: "session",
        max: 30,
        window: 60_000_000_000,
        when_full: WhenFull::Admit,
    }
}

/// Signing in from one address, whichever device: loose, because an address
/// can be a whole household, a carrier's NAT, or a Docker bridge that every
/// IPv6 client comes through. It only bounds how much one address can ask.
#[verifier::allow_in_spec]
pub fn sign_in() -> Bucket
    returns
        (Bucket {
            name: "sign-in",
            max: 300,
            window: 60_000_000_000,
            when_full: WhenFull::Admit,
        }),
{
    Bucket {
        name: "sign-in",
        max: 300,
        window: 60_000_000_000,
        when_full: WhenFull::Admit,
    }
}

#[verifier::allow_in_spec]
pub fn enrol() -> Bucket
    returns
        (Bucket {
            name: "enrol",
            max: 10,
            window: 600_000_000_000,
            when_full: WhenFull::Coarsen,
        }),
{
    Bucket {
        name: "enrol",
        max: 10,
        window: 600_000_000_000,
        when_full: WhenFull::Coarsen,
    }
}

/// Pairing is a handshake of a few messages, and the devices wait rather than
/// ask again; but they do wait in a loop, so this one is roomier.
#[verifier::allow_in_spec]
pub fn pair() -> Bucket
    returns
        (Bucket {
            name: "pair",
            max: 60,
            window: 600_000_000_000,
            when_full: WhenFull::Coarsen,
        }),
{
    Bucket {
        name: "pair",
        max: 60,
        window: 600_000_000_000,
        when_full: WhenFull::Coarsen,
    }
}

/// A device syncing hard pushes a few batches a pass; this is room for a
/// dozen devices doing that at once.
#[verifier::allow_in_spec]
pub fn push() -> Bucket
    returns
        (Bucket {
            name: "push",
            max: 120,
            window: 60_000_000_000,
            when_full: WhenFull::Admit,
        }),
{
    Bucket {
        name: "push",
        max: 120,
        window: 60_000_000_000,
        when_full: WhenFull::Admit,
    }
}

/// A first pull of a large vault is a few hundred pages.
#[verifier::allow_in_spec]
pub fn pull() -> Bucket
    returns
        (Bucket {
            name: "pull",
            max: 600,
            window: 60_000_000_000,
            when_full: WhenFull::Admit,
        }),
{
    Bucket {
        name: "pull",
        max: 600,
        window: 60_000_000_000,
        when_full: WhenFull::Admit,
    }
}

/// Enrolment tokens and pairing sessions: a person adds a device now and then.
#[verifier::allow_in_spec]
pub fn joins() -> Bucket
    returns
        (Bucket {
            name: "joins",
            max: 10,
            window: 600_000_000_000,
            when_full: WhenFull::Admit,
        }),
{
    Bucket {
        name: "joins",
        max: 10,
        window: 600_000_000_000,
        when_full: WhenFull::Admit,
    }
}

/// Proving the master password with a device token: a password change, or
/// revoking another device. Counted **per device**: many wrong proofs are
/// somebody with a stolen device guessing, and counting them for the whole
/// account would let that device use up the owner's tries too, and keep the
/// owner from revoking it.
#[verifier::allow_in_spec]
pub fn proofs() -> Bucket
    returns
        (Bucket {
            name: "proof",
            max: 10,
            window: 3_600_000_000_000,
            when_full: WhenFull::Admit,
        }),
{
    Bucket {
        name: "proof",
        max: 10,
        window: 3_600_000_000_000,
        when_full: WhenFull::Admit,
    }
}

/// Requests of one kind one account may have going at the same time. A
/// bucket says how many a minute; this says how many are held in memory at
/// once: a page of records is up to 11 MiB of JSON, and it stays in memory
/// until the client has read it, which a client that never reads decides.
#[derive(Debug, Clone, Copy)]
pub struct AtOnce {
    pub name: &'static str,
    pub max: usize,
}

/// A device pulls one page after the other; this is room for a few devices
/// of one account pulling at the same moment.
#[verifier::allow_in_spec]
pub fn pulls() -> AtOnce
    returns
        (AtOnce { name: "pulls", max: 4 }),
{
    AtOnce { name: "pulls", max: 4 }
}

/// The same for pushes, each of which may be 16 MiB while it is read.
#[verifier::allow_in_spec]
pub fn pushes() -> AtOnce
    returns
        (AtOnce { name: "pushes", max: 4 }),
{
    AtOnce { name: "pushes", max: 4 }
}

/// How many addresses the limiter remembers at most, for each bucket on its
/// own: a flood of one endpoint fills that endpoint's table and no other.
/// Beyond that, somebody is making up addresses faster than they fall out of
/// their windows, and a newcomer is not remembered on its own any more: see
/// [`WhenFull`]. Memory stays bounded. Accounts and devices are not
/// addresses: there are only as many as the server took in, and they are
/// never refused for want of room.
pub const MAX_ADDRESSES: usize = 20_000;

/// Room for the networks newcomers are counted with once a table is full.
/// Beyond that too, everybody new shares a single count.
pub const MAX_NETWORKS: usize = 5_000;

/// The count everybody new shares once there is not even room for their
/// network.
pub const EVERYBODY_ELSE: &'static str = "everybody else";

/// How often the limiter forgets whoever is done: once a minute, and when a
/// table is full, at most once a second before it counts anybody coarser.
pub const SWEEP_EVERY: u64 = 60 * SECOND;

pub const SWEEP_WHEN_FULL: u64 = SECOND;

/// Whether a piece of an IPv4 address is one: a number up to 255, without
/// zeros in front.
pub open spec fn is_octet(piece: Seq<char>) -> bool {
    &&& text::natural(piece) matches Some(n) && n <= 255
    &&& piece.len() == 1 || piece[0] != '0'
}

/// Whether a text is an IPv4 address, split at its dots.
pub open spec fn is_ipv4(pieces: Seq<Seq<char>>) -> bool {
    pieces.len() == 4 && forall|i: int| 0 <= i < 4 ==> is_octet(#[trigger] pieces[i])
}

/// The network an address is counted with once its bucket's table is full.
pub open spec fn network_of(who: Seq<char>) -> Seq<char> {
    let octets = text::split(who, '.');
    let segments = text::split(who.take(who.len() - "::/64"@.len()), ':');
    if is_ipv4(octets) {
        octets[0] + "."@ + octets[1] + "."@ + octets[2] + ".0/24"@
    } else if text::ends_with(who, "::/64"@) && segments.len() == 4 {
        segments[0] + ":"@ + segments[1] + ":"@ + segments[2] + "::/48"@
    } else {
        EVERYBODY_ELSE@
    }
}

fn octet(piece: &Vec<char>) -> (is_one: bool)
    ensures
        is_one == is_octet(piece@),
{
    match text::natural_up_to(piece.as_slice(), 255) {
        Some(_) => piece.len() == 1 || piece[0] != '0',
        None => false,
    }
}

/// The network an address is counted with once its bucket's table is full:
/// the /48 around an IPv6 /64, which is what one site is usually given, or the
/// /24 around an IPv4 address.
pub fn network(who: &str) -> (network: String)
    ensures
        network@ == network_of(who@),
{
    let chars: Vec<char> = text::chars_of(who);
    let octets: Vec<Vec<char>> = text::split_chars(chars.as_slice(), '.');
    let ghost pieces = text::split(who@, '.');
    assert(forall|i: int| 0 <= i < octets.len() ==> pieces[i] == #[trigger] octets[i]@);
    if octets.len() == 4 && octet(&octets[0]) && octet(&octets[1]) && octet(&octets[2]) && octet(
        &octets[3],
    ) {
        assert(is_ipv4(pieces));
        return text::string_of(octets[0].as_slice()).concat(".").concat(
            text::string_of(octets[1].as_slice()).as_str(),
        ).concat(".").concat(text::string_of(octets[2].as_slice()).as_str()).concat(".0/24");
    }
    assert(!is_ipv4(pieces)) by {
        if is_ipv4(pieces) {
            assert(is_octet(pieces[0]) && is_octet(pieces[1]) && is_octet(pieces[2]) && is_octet(
                pieces[3],
            ));
        }
    }
    match text::strip_suffix(chars.as_slice(), "::/64") {
        Some(prefix) => {
            let segments: Vec<Vec<char>> = text::split_chars(prefix.as_slice(), ':');
            let ghost parts = text::split(prefix@, ':');
            assert(forall|i: int| 0 <= i < segments.len() ==> parts[i] == #[trigger] segments[i]@);
            if segments.len() == 4 {
                return text::string_of(segments[0].as_slice()).concat(":").concat(
                    text::string_of(segments[1].as_slice()).as_str(),
                ).concat(":").concat(text::string_of(segments[2].as_slice()).as_str()).concat(
                    "::/48",
                );
            }
        },
        None => {},
    }
    EVERYBODY_ELSE.to_owned()
}

/// One address or account in one bucket.
#[derive(Debug)]
struct Tries {
    /// When it tried, oldest first: at most `bucket.max` of them.
    at: VecDeque<u64>,
    /// Its bucket's window: how long any of it is worth keeping.
    window: u64,
    /// Whether the log has already heard that it was refused. A refusal is
    /// logged once, not once per request: a flood of refused requests must
    /// not become a flood of log lines on a small disk.
    said: bool,
}

/// The tries of one address or account in one bucket.
pub struct TriesView {
    pub at: Seq<u64>,
    pub window: u64,
    pub said: bool,
}

impl View for Tries {
    type V = TriesView;

    closed spec fn view(&self) -> TriesView {
        TriesView { at: self.at@, window: self.window, said: self.said }
    }
}

/// How long ago a moment was.
pub open spec fn age(now: u64, moment: u64) -> int {
    if now >= moment {
        now - moment
    } else {
        0
    }
}

/// Tries without those that have left the window.
pub open spec fn within(at: Seq<u64>, now: u64, window: u64) -> Seq<u64>
    decreases at.len(),
{
    if at.len() > 0 && age(now, at[0]) >= window {
        within(at.skip(1), now, window)
    } else {
        at
    }
}

/// Nobody tried yet.
pub open spec fn no_tries(window: u64) -> TriesView {
    TriesView { at: Seq::empty(), window, said: false }
}

/// Whether one more try is too many.
pub open spec fn too_many(tries: TriesView, now: u64, bucket: Bucket) -> bool {
    within(tries.at, now, bucket.window).len() >= bucket.max
}

/// One more try: counted if it is not one too many.
pub open spec fn tried(tries: TriesView, now: u64, bucket: Bucket) -> TriesView {
    let at = within(tries.at, now, bucket.window);
    if too_many(tries, now, bucket) {
        TriesView { at, said: true, ..tries }
    } else {
        TriesView { at: at.push(now), said: false, ..tries }
    }
}

/// Whether the last try has not left its bucket's window.
pub open spec fn is_current(tries: TriesView, now: u64) -> bool {
    tries.at.len() > 0 && age(now, tries.at.last()) < tries.window
}

impl Tries {
    /// One more try. Returns whether it was one too many.
    fn attempt(&mut self, now: u64, bucket: &Bucket) -> (refused: bool)
        ensures
            refused == too_many(old(self)@, now, *bucket),
            final(self)@ == tried(old(self)@, now, *bucket),
    {
        while self.at.len() > 0 && now.saturating_sub(self.at[0]) >= bucket.window
            invariant
                self.window == old(self).window,
                self.said == old(self).said,
                within(self.at@, now, bucket.window) == within(old(self).at@, now, bucket.window),
            decreases self.at@.len(),
        {
            assert(self.at@.skip(1) =~= self.at@.subrange(1, self.at@.len() as int));
            let _ = self.at.pop_front();
        }
        if self.at.len() >= bucket.max {
            self.said = true;
            true
        } else {
            self.said = false;
            self.at.push_back(now);
            false
        }
    }

    /// Whether the last try has not left its bucket's window.
    fn current(&self, now: u64) -> (current: bool)
        ensures
            current == is_current(self@, now),
    {
        let tries: usize = self.at.len();
        tries > 0 && now.saturating_sub(self.at[tries - 1]) < self.window
    }
}

/// One row of a table.
#[derive(Debug)]
struct Entry {
    who: String,
    tries: Tries,
}

/// Everybody who tried, in one bucket.
struct Table {
    bucket: &'static str,
    entries: Vec<Entry>,
    /// Where each of them stands.
    index: StringHashMap<usize>,
    /// When it was last swept because it was full.
    swept_full: Option<u64>,
}

/// A table by its contents.
pub struct TableView {
    pub tries: Map<Seq<char>, TriesView>,
    pub swept_full: Option<u64>,
}

impl View for Table {
    type V = TableView;

    closed spec fn view(&self) -> TableView {
        TableView {
            tries: Map::new(
                |who: Seq<char>| self.index@.contains_key(who),
                |who: Seq<char>| self.entries@[self.index@[who] as int].tries@,
            ),
            swept_full: self.swept_full,
        }
    }
}

/// What is left of a table once whoever is done is forgotten.
pub open spec fn swept(tries: Map<Seq<char>, TriesView>, now: u64) -> Map<Seq<char>, TriesView> {
    Map::new(
        |who: Seq<char>| tries.contains_key(who) && is_current(tries[who], now),
        |who: Seq<char>| tries[who],
    )
}

/// A table with nobody in it.
pub open spec fn empty_table() -> TableView {
    TableView { tries: Map::empty(), swept_full: None }
}

/// The tries of somebody, none if there were none.
pub open spec fn tries_of(table: TableView, who: Seq<char>, window: u64) -> TriesView {
    if table.tries.contains_key(who) {
        table.tries[who]
    } else {
        no_tries(window)
    }
}

/// A table from which the row at a place was taken, with the last row put in
/// its place.
proof fn lemma_swept_one(before: Table, after: Table, at: int)
    requires
        before.wf(),
        0 <= at < before.entries@.len(),
        after.entries@ == before.entries@.update(at, before.entries@.last()).drop_last(),
        after.index@ == if at < before.entries@.len() - 1 {
            before.index@.remove(before.entries@[at].who@).insert(
                before.entries@.last().who@,
                at as usize,
            )
        } else {
            before.index@.remove(before.entries@[at].who@)
        },
    ensures
        after.wf(),
        after@.tries == before@.tries.remove(before.entries@[at].who@),
{
    assert(after.wf());
    assert(after@.tries =~= before@.tries.remove(before.entries@[at].who@));
}

impl Table {
    /// The index says where everybody stands, and nobody stands twice.
    spec fn wf(self) -> bool {
        &&& forall|i: int|
            0 <= i < self.entries@.len() ==> self.index@.contains_key(
                (#[trigger] self.entries@[i]).who@,
            ) && self.index@[self.entries@[i].who@] == i
        &&& forall|who: Seq<char>| #[trigger]
            self.index@.contains_key(who) ==> self.index@[who] < self.entries@.len()
                && self.entries@[self.index@[who] as int].who@ == who
    }

    fn new(bucket: &'static str) -> (table: Table)
        ensures
            table.wf(),
            table.bucket@ == bucket@,
            table@ == empty_table(),
    {
        let table: Table = Table {
            bucket,
            entries: Vec::new(),
            index: StringHashMap::new(),
            swept_full: None,
        };
        assert(table@.tries =~= Map::empty());
        table
    }

    fn len(&self) -> (len: usize)
        ensures
            len == self@.tries.len(),
    {
        assert(self@.tries.dom() =~= self.index@.dom());
        self.index.len()
    }

    fn contains(&self, who: &str) -> (there: bool)
        ensures
            there == self@.tries.contains_key(who@),
    {
        self.index.contains_key(who)
    }

    /// One more try of somebody. Returns whether it was one too many, and
    /// whether the log is to hear of it.
    fn attempt(&mut self, who: &str, now: u64, bucket: &Bucket) -> (verdict: (bool, bool))
        requires
            old(self).wf(),
        ensures
            final(self).wf(),
            final(self).bucket == old(self).bucket,
            ({
                let before = tries_of(old(self)@, who@, bucket.window);
                &&& verdict.0 == too_many(before, now, *bucket)
                &&& verdict.1 == (verdict.0 && !before.said)
                &&& final(self)@ == (TableView {
                    tries: old(self)@.tries.insert(who@, tried(before, now, *bucket)),
                    ..old(self)@
                })
            }),
    {
        let ghost before = self@;
        let at: usize = match self.index.get(who) {
            Some(at) => *at,
            None => {
                let at: usize = self.entries.len();
                self.entries.push(
                    Entry {
                        who: who.to_owned(),
                        tries: Tries { at: VecDeque::new(), window: bucket.window, said: false },
                    },
                );
                self.index.insert(who.to_owned(), at);
                at
            },
        };
        let ghost middle = *self;
        assert(middle.wf());
        assert(middle.entries@[at as int].tries@ =~= tries_of(before, who@, bucket.window));
        let said: bool = self.entries[at].tries.said;
        let refused: bool = self.entries[at].tries.attempt(now, bucket);
        proof {
            let after = before.tries.insert(
                who@,
                tried(tries_of(before, who@, bucket.window), now, *bucket),
            );
            assert forall|i: int| 0 <= i < self.entries@.len() implies (
            #[trigger] self.entries@[i]).who@ == middle.entries@[i].who@ by {}
            assert(self@.tries =~= after);
        }
        (refused, refused && !said)
    }

    /// Forget everyone whose last try has left its bucket's window.
    fn sweep(&mut self, now: u64)
        requires
            old(self).wf(),
        ensures
            final(self).wf(),
            final(self).bucket == old(self).bucket,
            final(self)@ == (TableView { tries: swept(old(self)@.tries, now), ..old(self)@ }),
    {
        let ghost before = self@.tries;
        let mut at: usize = 0;
        while at < self.entries.len()
            invariant
                self.wf(),
                self.bucket == old(self).bucket,
                self.swept_full == old(self).swept_full,
                before == old(self)@.tries,
                at <= self.entries@.len(),
                forall|who: Seq<char>| #[trigger]
                    self@.tries.contains_key(who) ==> before.contains_key(who) && before[who]
                        == self@.tries[who],
                forall|who: Seq<char>| #[trigger]
                    before.contains_key(who) && is_current(before[who], now)
                        ==> self@.tries.contains_key(who),
                forall|i: int|
                    0 <= i < at ==> is_current((#[trigger] self.entries@[i]).tries@, now),
            decreases self.entries@.len() - at,
        {
            let ghost middle = *self;
            if self.entries[at].tries.current(now) {
                at = at + 1;
            } else {
                let gone: Entry = self.entries.swap_remove(at);
                self.index.remove(gone.who.as_str());
                if at < self.entries.len() {
                    self.index.insert(self.entries[at].who.clone(), at);
                }
                proof {
                    lemma_swept_one(middle, *self, at as int);
                }
            }
        }
        proof {
            assert(self@.tries =~= swept(before, now)) by {
                assert forall|who: Seq<char>| #[trigger] self@.tries.contains_key(
                    who,
                ) implies is_current(before[who], now) by {
                    let i = self.index@[who] as int;
                    assert(is_current(self.entries@[i].tries@, now));
                }
            }
        }
    }
}

/// Tables, one for each bucket.
struct Tables {
    tables: Vec<Table>,
}

impl View for Tables {
    type V = Map<Seq<char>, TableView>;

    closed spec fn view(&self) -> Map<Seq<char>, TableView> {
        Map::new(|bucket: Seq<char>| self.has(bucket), |bucket: Seq<char>| self.of(bucket)@)
    }
}

impl Tables {
    spec fn has(self, bucket: Seq<char>) -> bool {
        exists|i: int|
            0 <= i < self.tables@.len() && (#[trigger] self.tables@[i]).bucket@ == bucket
    }

    spec fn of(self, bucket: Seq<char>) -> Table {
        self.tables@[choose|i: int|
            0 <= i < self.tables@.len() && (#[trigger] self.tables@[i]).bucket@ == bucket]
    }

    /// Each bucket has one table.
    spec fn wf(self) -> bool {
        &&& forall|i: int, j: int|
            0 <= i < j < self.tables@.len() ==> (#[trigger] self.tables@[i]).bucket@ != (
            #[trigger] self.tables@[j]).bucket@
        &&& forall|i: int| 0 <= i < self.tables@.len() ==> (#[trigger] self.tables@[i]).wf()
    }

    fn new() -> (tables: Tables)
        ensures
            tables.wf(),
            tables@ == Map::<Seq<char>, TableView>::empty(),
    {
        let tables: Tables = Tables { tables: Vec::new() };
        assert(tables@ =~= Map::empty());
        tables
    }

    /// Where the table of a bucket stands, if there is one.
    fn find(&self, bucket: &str) -> (at: Option<usize>)
        requires
            self.wf(),
        ensures
            at is Some <==> self@.contains_key(bucket@),
            at matches Some(at) ==> at < self.tables@.len() && self.tables@[at as int].bucket@
                == bucket@ && self@[bucket@] == self.tables@[at as int]@,
    {
        for i in 0..self.tables.len()
            invariant
                self.wf(),
                forall|j: int| 0 <= j < i ==> (#[trigger] self.tables@[j]).bucket@ != bucket@,
        {
            if text::same(self.tables[i].bucket, bucket) {
                assert(self.tables@[i as int].bucket@ == bucket@);
                return Some(i);
            }
        }
        None
    }

    /// Where the table of a bucket stands, which is made if there is none.
    fn open(&mut self, bucket: &'static str) -> (at: usize)
        requires
            old(self).wf(),
        ensures
            final(self).wf(),
            at < final(self).tables@.len(),
            final(self).tables@[at as int].bucket@ == bucket@,
            final(self)@ == old(self)@.insert(bucket@, table_of(old(self)@, bucket@)),
            final(self).tables@[at as int]@ == table_of(old(self)@, bucket@),
    {
        match self.find(bucket) {
            Some(at) => {
                assert(self@ =~= old(self)@.insert(bucket@, table_of(old(self)@, bucket@)));
                at
            },
            None => {
                let at: usize = self.tables.len();
                let table: Table = Table::new(bucket);
                self.tables.push(table);
                proof {
                    assert forall|i: int| 0 <= i < at implies (
                    #[trigger] old(self).tables@[i]).bucket@ != bucket@ by {
                        if old(self).tables@[i].bucket@ == bucket@ {
                            assert(old(self).has(bucket@));
                        }
                    }
                    assert(self.tables@[at as int].bucket@ == bucket@);
                    lemma_changed_table(*old(self), *self, at as int);
                    assert(self@ =~= old(self)@.insert(bucket@, empty_table()));
                }
                at
            },
        }
    }

    /// Forget everyone who is done, in every bucket.
    fn sweep(&mut self, now: u64)
        requires
            old(self).wf(),
        ensures
            final(self).wf(),
            final(self)@ == all_swept(old(self)@, now),
    {
        let ghost before = *self;
        let tables: usize = self.tables.len();
        for i in 0..tables
            invariant
                before == *old(self),
                before.wf(),
                self.wf(),
                tables == self.tables@.len(),
                tables == before.tables@.len(),
                forall|j: int|
                    0 <= j < tables ==> (#[trigger] self.tables@[j]).bucket
                        == before.tables@[j].bucket,
                forall|j: int|
                    0 <= j < i ==> (#[trigger] self.tables@[j])@ == (TableView {
                        tries: swept(before.tables@[j]@.tries, now),
                        ..before.tables@[j]@
                    }),
                forall|j: int| i <= j < tables ==> (#[trigger] self.tables@[j]) == before.tables@[j],
        {
            self.tables[i].sweep(now);
        }
        proof {
            assert forall|bucket: Seq<char>| self.has(bucket) == before.has(bucket) by {
                if self.has(bucket) {
                    let j = choose|j: int|
                        0 <= j < self.tables@.len() && (#[trigger] self.tables@[j]).bucket@
                            == bucket;
                    assert(before.tables@[j].bucket@ == bucket);
                }
                if before.has(bucket) {
                    let j = choose|j: int|
                        0 <= j < before.tables@.len() && (#[trigger] before.tables@[j]).bucket@
                            == bucket;
                    assert(self.tables@[j].bucket@ == bucket);
                }
            }
            assert(self@ =~= all_swept(before@, now)) by {
                assert forall|bucket: Seq<char>| before.has(bucket) implies self.of(bucket)@
                    == all_swept(before@, now)[bucket] by {
                    assert(self.has(bucket));
                    let j = choose|j: int|
                        0 <= j < self.tables@.len() && (#[trigger] self.tables@[j]).bucket@
                            == bucket;
                    assert(before.tables@[j].bucket@ == bucket);
                }
            }
        }
    }
}

/// Tables of which one changed or was added.
proof fn lemma_changed_table(before: Tables, after: Tables, at: int)
    requires
        before.wf(),
        after.wf(),
        0 <= at < after.tables@.len(),
        before.tables@.len() <= after.tables@.len() <= before.tables@.len() + 1,
        before.tables@.len() < after.tables@.len() ==> at == before.tables@.len(),
        at < before.tables@.len() ==> before.tables@[at].bucket@ == after.tables@[at].bucket@,
        forall|i: int|
            0 <= i < before.tables@.len() && i != at ==> (#[trigger] after.tables@[i])
                == before.tables@[i],
    ensures
        after@ == before@.insert(after.tables@[at].bucket@, after.tables@[at]@),
{
    let name = after.tables@[at].bucket@;
    assert forall|bucket: Seq<char>| bucket != name implies after.has(bucket) == before.has(bucket)
        && (before.has(bucket) ==> after.of(bucket) == before.of(bucket)) by {
        if before.has(bucket) {
            let j = choose|j: int|
                0 <= j < before.tables@.len() && (#[trigger] before.tables@[j]).bucket@ == bucket;
            assert(after.tables@[j].bucket@ == bucket);
        }
        if after.has(bucket) {
            let j = choose|j: int|
                0 <= j < after.tables@.len() && (#[trigger] after.tables@[j]).bucket@ == bucket;
            assert(before.tables@[j].bucket@ == bucket);
        }
    }
    assert(after.has(name));
    assert(after.of(name) == after.tables@[at]);
    assert(after@ =~= before@.insert(name, after.tables@[at]@));
}

/// The table of a bucket, an empty one if there is none.
pub open spec fn table_of(tables: Map<Seq<char>, TableView>, bucket: Seq<char>) -> TableView {
    if tables.contains_key(bucket) {
        tables[bucket]
    } else {
        empty_table()
    }
}

/// Tables once everyone who is done is forgotten.
pub open spec fn all_swept(tables: Map<Seq<char>, TableView>, now: u64) -> Map<
    Seq<char>,
    TableView,
> {
    tables.map_values(
        |table: TableView| TableView { tries: swept(table.tries, now), ..table },
    )
}

/// Something for the log.
#[derive(Debug)]
pub enum Note {
    /// The table of a bucket is full; newcomers are counted by their network.
    Full { bucket: &'static str },
    /// Somebody was refused.
    Refused { who: String, bucket: &'static str },
}

/// A [`Note`] with its texts as sequences of characters.
pub enum NoteView {
    Full { bucket: Seq<char> },
    Refused { who: Seq<char>, bucket: Seq<char> },
}

impl View for Note {
    type V = NoteView;

    open spec fn view(&self) -> NoteView {
        match self {
            Note::Full { bucket } => NoteView::Full { bucket: bucket@ },
            Note::Refused { who, bucket } => NoteView::Refused { who: who@, bucket: bucket@ },
        }
    }
}

/// Notes by their views.
pub open spec fn notes_view(notes: Seq<Note>) -> Seq<NoteView> {
    notes.map_values(|note: Note| note@)
}

/// Who tried what, and when.
struct Hits {
    /// Addresses, a table per bucket.
    addresses: Tables,
    /// Accounts and devices: bounded by what the server took in, so never
    /// refused for want of room.
    members: Tables,
    swept: u64,
    /// When the log last heard that a table was full.
    said_full: Option<u64>,
    /// What the log has not heard yet.
    notes: Vec<Note>,
}

/// What a limiter remembers of tries.
pub struct HitsView {
    pub addresses: Map<Seq<char>, TableView>,
    pub members: Map<Seq<char>, TableView>,
    pub swept: u64,
    pub said_full: Option<u64>,
    pub notes: Seq<NoteView>,
}

impl View for Hits {
    type V = HitsView;

    closed spec fn view(&self) -> HitsView {
        HitsView {
            addresses: self.addresses@,
            members: self.members@,
            swept: self.swept,
            said_full: self.said_full,
            notes: notes_view(self.notes@),
        }
    }
}

/// Whether that long has passed since a moment, if there was one.
pub open spec fn is_due(now: u64, last: Option<u64>, every: u64) -> bool {
    last matches Some(last) ==> age(now, last) >= every
}

/// The limiter once a minute: whoever is done is forgotten.
pub open spec fn kept_clean(hits: HitsView, now: u64) -> HitsView {
    if age(now, hits.swept) >= SWEEP_EVERY {
        HitsView {
            addresses: all_swept(hits.addresses, now),
            members: all_swept(hits.members, now),
            swept: now,
            ..hits
        }
    } else {
        hits
    }
}

/// Whether a newcomer finds no room in a table.
pub open spec fn no_room(table: TableView, who: Seq<char>) -> bool {
    !table.tries.contains_key(who) && table.tries.len() >= MAX_ADDRESSES
}

/// A table in which room was made for a newcomer who found none: before
/// anybody is counted coarser, whoever is done is forgotten.
pub open spec fn room_made(table: TableView, who: Seq<char>, now: u64) -> TableView {
    if no_room(table, who) && is_due(now, table.swept_full, SWEEP_WHEN_FULL) {
        TableView { tries: swept(table.tries, now), swept_full: Some(now) }
    } else {
        table
    }
}

/// Under which name an address is counted, if it is counted at all.
pub open spec fn counted_as(
    table: TableView,
    who: Seq<char>,
    when_full: WhenFull,
) -> Option<Seq<char>> {
    if !no_room(table, who) {
        Some(who)
    } else {
        match when_full {
            WhenFull::Admit => None,
            WhenFull::Coarsen => {
                let network = network_of(who);
                if !table.tries.contains_key(network) && table.tries.len() >= MAX_ADDRESSES
                    + MAX_NETWORKS {
                    Some(EVERYBODY_ELSE@)
                } else {
                    Some(network)
                }
            },
        }
    }
}

/// What the log hears of a try: a refusal, once.
pub open spec fn notes_after(
    notes: Seq<NoteView>,
    tries: TriesView,
    who: Seq<char>,
    now: u64,
    bucket: Bucket,
) -> Seq<NoteView> {
    if too_many(tries, now, bucket) && !tries.said {
        notes.push(NoteView::Refused { who, bucket: bucket.name@ })
    } else {
        notes
    }
}

/// What a try of an address is counted as, in which table, and whether the log
/// hears that the table is full.
pub struct Reception {
    pub table: TableView,
    pub key: Option<Seq<char>>,
    pub full: bool,
}

/// How an address is received.
pub open spec fn reception(
    hits: HitsView,
    who: Seq<char>,
    now: u64,
    bucket: Bucket,
) -> Reception {
    let table = room_made(table_of(hits.addresses, bucket.name@), who, now);
    Reception {
        table,
        key: counted_as(table, who, bucket.when_full),
        full: no_room(table, who),
    }
}

/// Whether a try of an address is refused.
pub open spec fn address_refused(
    hits: HitsView,
    who: Seq<char>,
    now: u64,
    bucket: Bucket,
) -> bool {
    let at = reception(kept_clean(hits, now), who, now, bucket);
    at.key matches Some(key) && too_many(tries_of(at.table, key, bucket.window), now, bucket)
}

/// The limiter after a try of an address.
pub open spec fn address_tried(
    hits: HitsView,
    who: Seq<char>,
    now: u64,
    bucket: Bucket,
) -> HitsView {
    let hits = kept_clean(hits, now);
    let at = reception(hits, who, now, bucket);
    let tell = at.full && is_due(now, hits.said_full, SWEEP_EVERY);
    let hits = HitsView {
        said_full: if tell {
            Some(now)
        } else {
            hits.said_full
        },
        notes: if tell {
            hits.notes.push(NoteView::Full { bucket: bucket.name@ })
        } else {
            hits.notes
        },
        ..hits
    };
    match at.key {
        None => HitsView { addresses: hits.addresses.insert(bucket.name@, at.table), ..hits },
        Some(key) => {
            let tries = tries_of(at.table, key, bucket.window);
            let table = TableView {
                tries: at.table.tries.insert(key, tried(tries, now, bucket)),
                ..at.table
            };
            HitsView {
                addresses: hits.addresses.insert(bucket.name@, table),
                notes: notes_after(hits.notes, tries, who, now, bucket),
                ..hits
            }
        },
    }
}

/// Whether a try of an account or a device is refused.
pub open spec fn member_refused(
    hits: HitsView,
    who: Seq<char>,
    now: u64,
    bucket: Bucket,
) -> bool {
    let table = table_of(kept_clean(hits, now).members, bucket.name@);
    too_many(tries_of(table, who, bucket.window), now, bucket)
}

/// The limiter after a try of an account or a device.
pub open spec fn member_tried(
    hits: HitsView,
    who: Seq<char>,
    now: u64,
    bucket: Bucket,
) -> HitsView {
    let hits = kept_clean(hits, now);
    let before = table_of(hits.members, bucket.name@);
    let tries = tries_of(before, who, bucket.window);
    let table = TableView { tries: before.tries.insert(who, tried(tries, now, bucket)), ..before };
    HitsView {
        members: hits.members.insert(bucket.name@, table),
        notes: notes_after(hits.notes, tries, who, now, bucket),
        ..hits
    }
}

impl Hits {
    spec fn wf(self) -> bool {
        self.addresses.wf() && self.members.wf()
    }

    fn new() -> (hits: Hits)
        ensures
            hits.wf(),
            hits@ == no_hits(),
    {
        let hits: Hits = Hits {
            addresses: Tables::new(),
            members: Tables::new(),
            swept: 0,
            said_full: None,
            notes: Vec::new(),
        };
        assert(hits@.notes =~= Seq::empty());
        hits
    }

    /// Count this try, and say whether it is one too many.
    fn count(
        &mut self,
        who: &str,
        bucket: &Bucket,
        address: bool,
        now: u64,
    ) -> (counted: Result<()>)
        requires
            old(self).wf(),
        ensures
            final(self).wf(),
            counted matches Err(error) ==> error@ == Refusal::RateLimited,
            address ==> {
                &&& counted is Err <==> address_refused(old(self)@, who@, now, *bucket)
                &&& final(self)@ == address_tried(old(self)@, who@, now, *bucket)
            },
            !address ==> {
                &&& counted is Err <==> member_refused(old(self)@, who@, now, *bucket)
                &&& final(self)@ == member_tried(old(self)@, who@, now, *bucket)
            },
    {
        if now.saturating_sub(self.swept) >= SWEEP_EVERY {
            self.addresses.sweep(now);
            self.members.sweep(now);
            self.swept = now;
        }
        let ghost clean = self@;
        assert(clean == kept_clean(old(self)@, now));

        let mut key: String = who.to_owned();
        let (refused, tell): (bool, bool) = if address {
            let at: usize = self.addresses.open(bucket.name);
            let ghost opened = self.addresses;
            if !self.addresses.tables[at].contains(who) && self.addresses.tables[at].len()
                >= MAX_ADDRESSES {
                // Before anybody is counted coarser, forget whoever is done.
                let due: bool = match self.addresses.tables[at].swept_full {
                    Some(swept) => now.saturating_sub(swept) >= SWEEP_WHEN_FULL,
                    None => true,
                };
                if due {
                    self.addresses.tables[at].sweep(now);
                    self.addresses.tables[at].swept_full = Some(now);
                }
                let ghost table = self.addresses.tables@[at as int]@;
                assert(table == reception(clean, who@, now, *bucket).table);
                if self.addresses.tables[at].len() >= MAX_ADDRESSES {
                    let due: bool = match self.said_full {
                        Some(said) => now.saturating_sub(said) >= SWEEP_EVERY,
                        None => true,
                    };
                    if due {
                        let ghost earlier = self@.notes;
                        self.notes.push(Note::Full { bucket: bucket.name });
                        self.said_full = Some(now);
                        assert(self@.notes =~= earlier.push(
                            NoteView::Full { bucket: bucket.name@ },
                        ));
                    }
                    match bucket.when_full {
                        WhenFull::Admit => {
                            proof {
                                lemma_changed_table(opened, self.addresses, at as int);
                                assert(self@.addresses =~= clean.addresses.insert(
                                    bucket.name@,
                                    table,
                                ));
                            }
                            return Ok(());
                        },
                        WhenFull::Coarsen => {
                            key = network(who);
                            if !self.addresses.tables[at].contains(key.as_str())
                                && self.addresses.tables[at].len() >= MAX_ADDRESSES
                                + MAX_NETWORKS {
                                key = EVERYBODY_ELSE.to_owned();
                            }
                        },
                    }
                }
            }
            let ghost table = self.addresses.tables@[at as int]@;
            assert(table == reception(clean, who@, now, *bucket).table);
            assert(reception(clean, who@, now, *bucket).key == Some(key@));
            let verdict: (bool, bool) = self.addresses.tables[at].attempt(
                key.as_str(),
                now,
                bucket,
            );
            proof {
                lemma_changed_table(opened, self.addresses, at as int);
                assert(self@.addresses =~= clean.addresses.insert(
                    bucket.name@,
                    self.addresses.tables@[at as int]@,
                ));
            }
            verdict
        } else {
            let at: usize = self.members.open(bucket.name);
            let ghost opened = self.members;
            let verdict: (bool, bool) = self.members.tables[at].attempt(
                key.as_str(),
                now,
                bucket,
            );
            proof {
                lemma_changed_table(opened, self.members, at as int);
                assert(self@.members =~= clean.members.insert(
                    bucket.name@,
                    self.members.tables@[at as int]@,
                ));
            }
            verdict
        };
        if tell {
            let ghost earlier = self@.notes;
            self.notes.push(Note::Refused { who: who.to_owned(), bucket: bucket.name });
            assert(self@.notes =~= earlier.push(
                NoteView::Refused { who: who@, bucket: bucket.name@ },
            ));
        }
        if refused {
            Err(ApiError::RateLimited)
        } else {
            Ok(())
        }
    }
}

/// A limiter that remembers nobody.
pub open spec fn no_hits() -> HitsView {
    HitsView {
        addresses: Map::empty(),
        members: Map::empty(),
        swept: 0,
        said_full: None,
        notes: Seq::empty(),
    }
}

impl Hits {
    /// Take the last try of somebody back.
    fn take_back(&mut self, who: &str, bucket: &Bucket, address: bool)
        requires
            old(self).wf(),
        ensures
            final(self).wf(),
            address ==> final(self)@ == (HitsView {
                addresses: taken_back(old(self)@.addresses, who@, bucket.name@),
                ..old(self)@
            }),
            !address ==> final(self)@ == (HitsView {
                members: taken_back(old(self)@.members, who@, bucket.name@),
                ..old(self)@
            }),
    {
        if address {
            self.addresses.take_back(who, bucket.name);
        } else {
            self.members.take_back(who, bucket.name);
        }
    }
}

/// Tries without the last one.
pub open spec fn forgiven(tries: TriesView) -> TriesView {
    TriesView {
        at: if tries.at.len() > 0 {
            tries.at.drop_last()
        } else {
            tries.at
        },
        ..tries
    }
}

/// Tables in which the last try of somebody in a bucket was taken back.
pub open spec fn taken_back(
    tables: Map<Seq<char>, TableView>,
    who: Seq<char>,
    bucket: Seq<char>,
) -> Map<Seq<char>, TableView> {
    if tables.contains_key(bucket) && tables[bucket].tries.contains_key(who) {
        let table = tables[bucket];
        tables.insert(
            bucket,
            TableView { tries: table.tries.insert(who, forgiven(table.tries[who])), ..table },
        )
    } else {
        tables
    }
}

impl Table {
    /// Take the last try of somebody back.
    fn take_back(&mut self, who: &str)
        requires
            old(self).wf(),
        ensures
            final(self).wf(),
            final(self).bucket == old(self).bucket,
            final(self)@ == if old(self)@.tries.contains_key(who@) {
                TableView {
                    tries: old(self)@.tries.insert(who@, forgiven(old(self)@.tries[who@])),
                    ..old(self)@
                }
            } else {
                old(self)@
            },
    {
        let found: Option<usize> = match self.index.get(who) {
            Some(at) => Some(*at),
            None => None,
        };
        match found {
            Some(at) => {
                let ghost before = *self;
                let _ = self.entries[at].tries.at.pop_back();
                proof {
                    let tries = before.entries@[at as int].tries@;
                    assert(self.entries@[at as int].tries@.at =~= forgiven(tries).at);
                    assert forall|i: int| 0 <= i < self.entries@.len() implies (
                    #[trigger] self.entries@[i]).who@ == before.entries@[i].who@ by {}
                    assert(self@.tries =~= before@.tries.insert(who@, forgiven(tries)));
                }
            },
            None => {},
        }
    }
}

impl Tables {
    /// Take the last try of somebody in a bucket back.
    fn take_back(&mut self, who: &str, bucket: &str)
        requires
            old(self).wf(),
        ensures
            final(self).wf(),
            final(self)@ == taken_back(old(self)@, who@, bucket@),
    {
        match self.find(bucket) {
            Some(at) => {
                let ghost before = *self;
                self.tables[at].take_back(who);
                proof {
                    lemma_changed_table(before, *self, at as int);
                    assert(self@ =~= taken_back(before@, who@, bucket@));
                }
            },
            None => {},
        }
    }
}

/// What an account has going of one kind.
#[derive(Debug)]
struct GoingRow {
    account: Uuid,
    kind: &'static str,
    count: usize,
}

/// A moment of a clock that only goes forward.
#[verifier::external_type_specification]
#[verifier::external_body]
pub struct ExInstant(std::time::Instant);

/// `Instant::now`. Nothing is claimed of it.
#[verifier::external_body]
pub(crate) fn moment() -> std::time::Instant {
    std::time::Instant::now()
}

/// `Instant::elapsed`, in nanoseconds. Nothing is claimed of it.
#[verifier::external_body]
pub(crate) fn since(moment: &std::time::Instant) -> u64 {
    moment.elapsed().as_nanos() as u64
}

/// Who tried what how often, and who has what going.
pub struct RateLimiter {
    hits: Hits,
    /// What each account has going right now, by kind.
    going: Vec<GoingRow>,
    /// The moment from which this limiter counts.
    born: std::time::Instant,
}

/// A [`RateLimiter`] by its contents.
pub struct LimiterView {
    pub hits: HitsView,
    pub going: Map<(Uuid, Seq<char>), nat>,
}

impl View for RateLimiter {
    type V = LimiterView;

    closed spec fn view(&self) -> LimiterView {
        LimiterView {
            hits: self.hits@,
            going: Map::new(
                |key: (Uuid, Seq<char>)| has_going(self.going@, key),
                |key: (Uuid, Seq<char>)| self.going@[going_at(self.going@, key)].count as nat,
            ),
        }
    }
}

spec fn has_going(rows: Seq<GoingRow>, key: (Uuid, Seq<char>)) -> bool {
    exists|i: int|
        0 <= i < rows.len() && (#[trigger] rows[i]).account == key.0 && rows[i].kind@ == key.1
}

spec fn going_at(rows: Seq<GoingRow>, key: (Uuid, Seq<char>)) -> int {
    choose|i: int|
        0 <= i < rows.len() && (#[trigger] rows[i]).account == key.0 && rows[i].kind@ == key.1
}

/// One request an account has going, until it is handed back to
/// [`RateLimiter::finish`].
#[derive(Debug)]
pub struct Going {
    account: Uuid,
    kind: &'static str,
}

impl Going {
    /// Whose request of what kind it is.
    pub closed spec fn key(self) -> (Uuid, Seq<char>) {
        (self.account, self.kind@)
    }
}

/// How many an account has going of one kind.
pub open spec fn going_count(limiter: LimiterView, key: (Uuid, Seq<char>)) -> nat {
    if limiter.going.contains_key(key) {
        limiter.going[key]
    } else {
        0
    }
}

/// The limiter with one request more going.
pub open spec fn started(limiter: LimiterView, key: (Uuid, Seq<char>)) -> LimiterView {
    LimiterView {
        going: limiter.going.insert(key, going_count(limiter, key) + 1),
        ..limiter
    }
}

/// The limiter with one request less going.
pub open spec fn finished(limiter: LimiterView, key: (Uuid, Seq<char>)) -> LimiterView {
    LimiterView {
        going: if going_count(limiter, key) > 1 {
            limiter.going.insert(key, (going_count(limiter, key) - 1) as nat)
        } else {
            limiter.going.remove(key)
        },
        ..limiter
    }
}

/// How an account is written in the limiter's tables.
pub open spec fn account_key(account: Uuid) -> Seq<char> {
    "account:"@ + uuid_text(account)
}

/// How a device is written in the limiter's tables.
pub open spec fn device_key(device: Uuid) -> Seq<char> {
    "device:"@ + uuid_text(device)
}

impl RateLimiter {
    /// Each account and kind once, with something going.
    pub closed spec fn wf(self) -> bool {
        &&& self.hits.wf()
        &&& forall|i: int, j: int|
            0 <= i < j < self.going@.len() ==> !((#[trigger] self.going@[i]).account == (
            #[trigger] self.going@[j]).account && self.going@[i].kind@ == self.going@[j].kind@)
        &&& forall|i: int| 0 <= i < self.going@.len() ==> (#[trigger] self.going@[i]).count >= 1
    }

    fn find_going(&self, account: Uuid, kind: &str) -> (at: Option<usize>)
        requires
            self.wf(),
        ensures
            at is Some <==> self@.going.contains_key((account, kind@)),
            at matches Some(at) ==> at < self.going@.len() && self.going@[at as int].account
                == account && self.going@[at as int].kind@ == kind@
                && self@.going[(account, kind@)] == self.going@[at as int].count,
    {
        for i in 0..self.going.len()
            invariant
                self.wf(),
                forall|j: int|
                    0 <= j < i ==> !((#[trigger] self.going@[j]).account == account
                        && self.going@[j].kind@ == kind@),
        {
            if self.going[i].account == account && text::same(self.going[i].kind, kind) {
                assert(has_going(self.going@, (account, kind@)));
                return Some(i);
            }
        }
        None
    }

    /// Room for one more request of this kind from `account`, or none. The
    /// room is taken until what comes back is finished.
    pub fn start(&mut self, account: Uuid, kind: &AtOnce) -> (going: Result<Going>)
        requires
            old(self).wf(),
        ensures
            final(self).wf(),
            going is Ok <==> going_count(old(self)@, (account, kind.name@)) < kind.max,
            going matches Ok(going) ==> {
                &&& going.key() == (account, kind.name@)
                &&& final(self)@ == started(old(self)@, (account, kind.name@))
            },
            going matches Err(error) ==> error@ == Refusal::RateLimited && final(self)@
                == old(self)@,
    {
        let ghost key = (account, kind.name@);
        match self.find_going(account, kind.name) {
            Some(at) => {
                let count: usize = self.going[at].count;
                if count >= kind.max {
                    return Err(ApiError::RateLimited);
                }
                let ghost before = self.going@;
                self.going[at].count = count + 1;
                proof {
                    lemma_going_changed(before, self.going@, at as int);
                    assert(self@.going =~= started(old(self)@, key).going);
                }
            },
            None => {
                if 0 >= kind.max {
                    return Err(ApiError::RateLimited);
                }
                let ghost before = self.going@;
                self.going.push(GoingRow { account, kind: kind.name, count: 1 });
                proof {
                    assert forall|i: int| 0 <= i < before.len() implies !((
                    #[trigger] before[i]).account == account && before[i].kind@ == kind.name@) by {
                        if before[i].account == account && before[i].kind@ == kind.name@ {
                            assert(has_going(before, key));
                        }
                    }
                    lemma_going_changed(before, self.going@, before.len() as int);
                    assert(self@.going =~= started(old(self)@, key).going);
                }
            },
        }
        Ok(Going { account, kind: kind.name })
    }

    /// A request that was going is done.
    pub fn finish(&mut self, going: Going)
        requires
            old(self).wf(),
        ensures
            final(self).wf(),
            final(self)@ == finished(old(self)@, going.key()),
    {
        let ghost key = going.key();
        match self.find_going(going.account, going.kind) {
            Some(at) => {
                let ghost before = self.going@;
                let count: usize = self.going[at].count;
                if count > 1 {
                    self.going[at].count = count - 1;
                    proof {
                        lemma_going_changed(before, self.going@, at as int);
                        assert(self@.going =~= finished(old(self)@, key).going);
                    }
                } else {
                    let _ = self.going.swap_remove(at);
                    proof {
                        lemma_going_removed(before, self.going@, at as int);
                        assert(self@.going =~= finished(old(self)@, key).going);
                    }
                }
            },
            None => {
                assert(self@.going =~= finished(old(self)@, key).going);
            },
        }
    }

    /// [`check`](Self::check) at a given moment.
    pub fn check_at(&mut self, who: &str, bucket: &Bucket, now: u64) -> (checked: Result<()>)
        requires
            old(self).wf(),
        ensures
            final(self).wf(),
            checked is Err <==> address_refused(old(self)@.hits, who@, now, *bucket),
            checked matches Err(error) ==> error@ == Refusal::RateLimited,
            final(self)@ == (LimiterView {
                hits: address_tried(old(self)@.hits, who@, now, *bucket),
                ..old(self)@
            }),
    {
        self.hits.count(who, bucket, true, now)
    }

    /// [`check_account`](Self::check_account) at a given moment.
    pub fn check_account_at(&mut self, account: Uuid, bucket: &Bucket, now: u64) -> (checked:
        Result<()>)
        requires
            old(self).wf(),
        ensures
            final(self).wf(),
            checked is Err <==> member_refused(
                old(self)@.hits,
                account_key(account),
                now,
                *bucket,
            ),
            checked matches Err(error) ==> error@ == Refusal::RateLimited,
            final(self)@ == (LimiterView {
                hits: member_tried(old(self)@.hits, account_key(account), now, *bucket),
                ..old(self)@
            }),
    {
        let who: String = "account:".to_owned().concat(account.hyphenated().as_str());
        self.hits.count(who.as_str(), bucket, false, now)
    }

    /// [`check_device`](Self::check_device) at a given moment.
    pub fn check_device_at(&mut self, device: Uuid, bucket: &Bucket, now: u64) -> (checked:
        Result<()>)
        requires
            old(self).wf(),
        ensures
            final(self).wf(),
            checked is Err <==> member_refused(old(self)@.hits, device_key(device), now, *bucket),
            checked matches Err(error) ==> error@ == Refusal::RateLimited,
            final(self)@ == (LimiterView {
                hits: member_tried(old(self)@.hits, device_key(device), now, *bucket),
                ..old(self)@
            }),
    {
        let who: String = "device:".to_owned().concat(device.hyphenated().as_str());
        self.hits.count(who.as_str(), bucket, false, now)
    }

    /// What the limiter's clock shows.
    pub fn now(&self) -> u64 {
        since(&self.born)
    }

    /// Count this attempt from an address, and say whether it is one too many.
    pub fn check(&mut self, who: &str, bucket: &Bucket) -> (checked: Result<()>)
        requires
            old(self).wf(),
        ensures
            final(self).wf(),
            checked matches Err(error) ==> error@ == Refusal::RateLimited,
            exists|now: u64|
                (checked is Err <==> address_refused(old(self)@.hits, who@, now, *bucket))
                    && final(self)@ == (LimiterView {
                    hits: #[trigger] address_tried(old(self)@.hits, who@, now, *bucket),
                    ..old(self)@
                }),
    {
        let now: u64 = self.now();
        self.check_at(who, bucket, now)
    }

    /// Count an attempt on behalf of an account rather than an address.
    pub fn check_account(&mut self, account: Uuid, bucket: &Bucket) -> (checked: Result<()>)
        requires
            old(self).wf(),
        ensures
            final(self).wf(),
            checked matches Err(error) ==> error@ == Refusal::RateLimited,
            exists|now: u64|
                (checked is Err <==> member_refused(
                    old(self)@.hits,
                    account_key(account),
                    now,
                    *bucket,
                )) && final(self)@ == (LimiterView {
                    hits: #[trigger] member_tried(
                        old(self)@.hits,
                        account_key(account),
                        now,
                        *bucket,
                    ),
                    ..old(self)@
                }),
    {
        let now: u64 = self.now();
        self.check_account_at(account, bucket, now)
    }

    /// Count an attempt on behalf of one device.
    pub fn check_device(&mut self, device: Uuid, bucket: &Bucket) -> (checked: Result<()>)
        requires
            old(self).wf(),
        ensures
            final(self).wf(),
            checked matches Err(error) ==> error@ == Refusal::RateLimited,
            exists|now: u64|
                (checked is Err <==> member_refused(
                    old(self)@.hits,
                    device_key(device),
                    now,
                    *bucket,
                )) && final(self)@ == (LimiterView {
                    hits: #[trigger] member_tried(
                        old(self)@.hits,
                        device_key(device),
                        now,
                        *bucket,
                    ),
                    ..old(self)@
                }),
    {
        let now: u64 = self.now();
        self.check_device_at(device, bucket, now)
    }

    /// A successful attempt need not count against the next one: the limit is
    /// there to slow down guessing, not to punish a device that syncs.
    pub fn forgive(&mut self, who: &str, bucket: &Bucket)
        requires
            old(self).wf(),
        ensures
            final(self).wf(),
            final(self)@ == (LimiterView {
                hits: HitsView {
                    addresses: taken_back(old(self)@.hits.addresses, who@, bucket.name@),
                    ..old(self)@.hits
                },
                ..old(self)@
            }),
    {
        self.hits.take_back(who, bucket, true)
    }

    /// [`forgive`](Self::forgive) for one device.
    pub fn forgive_device(&mut self, device: Uuid, bucket: &Bucket)
        requires
            old(self).wf(),
        ensures
            final(self).wf(),
            final(self)@ == (LimiterView {
                hits: HitsView {
                    members: taken_back(
                        old(self)@.hits.members,
                        device_key(device),
                        bucket.name@,
                    ),
                    ..old(self)@.hits
                },
                ..old(self)@
            }),
    {
        let who: String = "device:".to_owned().concat(device.hyphenated().as_str());
        self.hits.take_back(who.as_str(), bucket, false)
    }

    /// How many addresses are remembered in a bucket.
    pub fn addresses(&self, bucket: &str) -> (count: usize)
        requires
            self.wf(),
        ensures
            count == table_of(self@.hits.addresses, bucket@).tries.len(),
    {
        match self.hits.addresses.find(bucket) {
            Some(at) => self.hits.addresses.tables[at].len(),
            None => 0,
        }
    }

    /// Whether an address is remembered in a bucket.
    pub fn remembers(&self, who: &str, bucket: &str) -> (remembered: bool)
        requires
            self.wf(),
        ensures
            remembered == table_of(self@.hits.addresses, bucket@).tries.contains_key(who@),
    {
        match self.hits.addresses.find(bucket) {
            Some(at) => self.hits.addresses.tables[at].contains(who),
            None => false,
        }
    }

    /// Whether nobody has anything going.
    pub fn idle(&self) -> (idle: bool)
        requires
            self.wf(),
        ensures
            idle == (self@.going == Map::<(Uuid, Seq<char>), nat>::empty()),
    {
        proof {
            if self.going@.len() > 0 {
                let row = self.going@[0];
                assert(has_going(self.going@, (row.account, row.kind@)));
                assert(self@.going.contains_key((row.account, row.kind@)));
            } else {
                assert(self@.going =~= Map::empty());
            }
        }
        self.going.is_empty()
    }

    /// What the log has not heard yet, which it has heard then.
    pub fn take_notes(&mut self) -> (notes: Vec<Note>)
        requires
            old(self).wf(),
        ensures
            final(self).wf(),
            notes_view(notes@) == old(self)@.hits.notes,
            final(self)@ == (LimiterView {
                hits: HitsView { notes: Seq::empty(), ..old(self)@.hits },
                ..old(self)@
            }),
    {
        let mut notes: Vec<Note> = Vec::new();
        core::mem::swap(&mut self.hits.notes, &mut notes);
        assert(self@.hits.notes =~= Seq::empty());
        notes
    }
}

/// Rows of which one changed its count or was added.
proof fn lemma_going_changed(before: Seq<GoingRow>, after: Seq<GoingRow>, at: int)
    requires
        0 <= at < after.len(),
        before.len() <= after.len() <= before.len() + 1,
        before.len() < after.len() ==> at == before.len(),
        at < before.len() ==> before[at].account == after[at].account && before[at].kind@
            == after[at].kind@,
        forall|i: int| 0 <= i < before.len() && i != at ==> (#[trigger] after[i]) == before[i],
        forall|i: int, j: int|
            0 <= i < j < after.len() ==> !((#[trigger] after[i]).account == (
            #[trigger] after[j]).account && after[i].kind@ == after[j].kind@),
    ensures
        ({
            let key = (after[at].account, after[at].kind@);
            &&& has_going(after, key)
            &&& going_at(after, key) == at
            &&& forall|other: (Uuid, Seq<char>)|
                other != key ==> #[trigger] has_going(after, other) == has_going(before, other)
            &&& forall|other: (Uuid, Seq<char>)|
                other != key && has_going(before, other) ==> after[#[trigger] going_at(
                    after,
                    other,
                )] == before[going_at(before, other)]
        }),
{
    let key = (after[at].account, after[at].kind@);
    assert forall|other: (Uuid, Seq<char>)| other != key implies #[trigger] has_going(after, other)
        == has_going(before, other) by {
        if has_going(before, other) {
            let j = going_at(before, other);
            assert(after[j].account == other.0);
        }
        if has_going(after, other) {
            let j = going_at(after, other);
            assert(before[j].account == other.0);
        }
    }
    assert forall|other: (Uuid, Seq<char>)| other != key && has_going(before, other) implies after[
    #[trigger] going_at(after, other)] == before[going_at(before, other)] by {
        let j = going_at(before, other);
        assert(after[j].account == other.0 && after[j].kind@ == other.1);
        assert(has_going(after, other));
        let k = going_at(after, other);
        assert(after[k].account == other.0);
    }
}

/// Rows from which one was taken, with the last one put in its place.
proof fn lemma_going_removed(before: Seq<GoingRow>, after: Seq<GoingRow>, at: int)
    requires
        0 <= at < before.len(),
        after == before.update(at, before.last()).drop_last(),
        forall|i: int, j: int|
            0 <= i < j < before.len() ==> !((#[trigger] before[i]).account == (
            #[trigger] before[j]).account && before[i].kind@ == before[j].kind@),
    ensures
        ({
            let key = (before[at].account, before[at].kind@);
            &&& !has_going(after, key)
            &&& forall|other: (Uuid, Seq<char>)|
                other != key ==> #[trigger] has_going(after, other) == has_going(before, other)
            &&& forall|other: (Uuid, Seq<char>)|
                other != key && has_going(before, other) ==> after[#[trigger] going_at(
                    after,
                    other,
                )] == before[going_at(before, other)]
        }),
{
    let key = (before[at].account, before[at].kind@);
    let last = before.len() - 1;
    if has_going(after, key) {
        let j = going_at(after, key);
        assert(after[j].account == key.0 && after[j].kind@ == key.1);
        if j == at {
            assert(after[j] == before[last]);
        } else {
            assert(after[j] == before[j]);
        }
    }
    assert forall|other: (Uuid, Seq<char>)| other != key implies #[trigger] has_going(after, other)
        == has_going(before, other) by {
        if has_going(before, other) {
            let j = going_at(before, other);
            if j == last {
                assert(after[at].account == other.0 && after[at].kind@ == other.1);
            } else {
                assert(after[j].account == other.0 && after[j].kind@ == other.1);
            }
        }
        if has_going(after, other) {
            let j = going_at(after, other);
            if j == at {
                assert(before[last].account == other.0 && before[last].kind@ == other.1);
            } else {
                assert(before[j].account == other.0 && before[j].kind@ == other.1);
            }
        }
    }
    assert forall|other: (Uuid, Seq<char>)| other != key && has_going(before, other) implies after[
    #[trigger] going_at(after, other)] == before[going_at(before, other)] by {
        assert(has_going(after, other));
        let k = going_at(after, other);
        let j = going_at(before, other);
        let there = if k == at {
            last
        } else {
            k
        };
        assert(after[k] == before[there]);
        assert(before[there].account == other.0 && before[there].kind@ == other.1);
        assert(before[j].account == other.0 && before[j].kind@ == other.1);
    }
}

impl Default for RateLimiter {
    fn default() -> (limiter: Self)
        ensures
            limiter.wf(),
            limiter@ == (LimiterView { hits: no_hits(), going: Map::empty() }),
    {
        let limiter: RateLimiter = RateLimiter {
            hits: Hits::new(),
            going: Vec::new(),
            born: moment(),
        };
        assert(limiter@.going =~= Map::empty());
        limiter
    }
}

} // verus!
