//! What every request has to hand.

use crate::auth::{ChallengeView, Challenges, Sessions, TokenView};
use crate::config::{Config, ConfigView};
use crate::db::{Db, DbView};
use crate::ids::Uuid;
use crate::limits::{no_hits, LimiterView, RateLimiter};
use crate::pairing::{Pairings, SessionView};
use crate::text;
use std::collections::HashMap;
use vstd::prelude::*;
use vstd::string::StringExecFns;

verus! {

broadcast use vstd::std_specs::hash::group_hash_axioms;

/// Everything a request has to hand.
pub struct AppState {
    pub db: Db,
    pub config: Config,
    pub sessions: Sessions,
    pub challenges: Challenges,
    pub limits: RateLimiter,
    pub events: Events,
    pub pairings: Pairings,
}

/// An [`AppState`] by its contents.
pub struct StateView {
    pub db: DbView,
    pub config: ConfigView,
    pub sessions: Seq<TokenView>,
    pub challenges: Seq<ChallengeView>,
    pub limits: LimiterView,
    pub events: Map<u128, usize>,
    pub pairings: Seq<SessionView>,
}

impl View for AppState {
    type V = StateView;

    open spec fn view(&self) -> StateView {
        StateView {
            db: self.db@,
            config: self.config@,
            sessions: self.sessions@,
            challenges: self.challenges@,
            limits: self.limits@,
            events: self.events@,
            pairings: self.pairings@,
        }
    }
}

impl AppState {
    pub open spec fn wf(self) -> bool {
        &&& self.db@.wf()
        &&& self.sessions.wf()
        &&& self.limits.wf()
        &&& self.events.wf()
        &&& self.pairings.wf()
    }

    /// The state of a server that has just started.
    pub fn new(db: Db, config: Config) -> (state: AppState)
        requires
            db@.wf(),
        ensures
            state.wf(),
            state@ == (StateView {
                db: db@,
                config: config@,
                sessions: Seq::empty(),
                challenges: Seq::empty(),
                limits: LimiterView { hits: no_hits(), going: Map::empty() },
                events: Map::empty(),
                pairings: Seq::empty(),
            }),
    {
        AppState {
            db,
            config,
            sessions: Sessions::default(),
            challenges: Challenges::default(),
            limits: RateLimiter::default(),
            events: Events::default(),
            pairings: Pairings::default(),
        }
    }
}

/// Event streams one device may hold open. The app needs one; a few more
/// cover a restart that has not noticed the old one closing yet.
pub const MAX_STREAMS_PER_DEVICE: usize = 4;

/// "There is something new from sequence N", per account.
///
/// Only the number travels: a device that hears it pulls, and the pull is the
/// same one it would have made anyway. Nothing about a record is ever pushed
/// out, so this stays a hint rather than a second way in.
///
/// What is kept here is how many streams each device has open.
#[derive(Debug)]
pub struct Events {
    streams: HashMap<u128, usize>,
}

impl View for Events {
    type V = Map<u128, usize>;

    closed spec fn view(&self) -> Map<u128, usize> {
        self.streams@
    }
}

/// How many streams a device has open.
pub open spec fn streams_of(streams: Map<u128, usize>, device: Uuid) -> usize {
    if streams.contains_key(device.value) {
        streams[device.value]
    } else {
        0
    }
}

/// The streams with one of a device more.
pub open spec fn stream_opened(streams: Map<u128, usize>, device: Uuid) -> Map<u128, usize> {
    streams.insert(device.value, (streams_of(streams, device) + 1) as usize)
}

/// The streams with one of a device less.
pub open spec fn stream_closed(streams: Map<u128, usize>, device: Uuid) -> Map<u128, usize> {
    if streams_of(streams, device) > 1 {
        streams.insert(device.value, (streams_of(streams, device) - 1) as usize)
    } else {
        streams.remove(device.value)
    }
}

/// An open event stream, until it is handed back to [`Events::close_stream`].
#[derive(Debug)]
pub struct StreamGuard {
    device: Uuid,
}

impl StreamGuard {
    /// Whose stream it is.
    pub closed spec fn of(self) -> Uuid {
        self.device
    }
}

/// What to do with the channel of an account when there is news for it.
#[derive(Debug, Clone, Copy, PartialEq, Eq, Structural)]
pub enum Announcement {
    /// There is none: nobody ever listened.
    Nobody,
    /// Nobody listens any more; it is dropped instead of kept for an account
    /// that may never come back.
    Forget,
    /// Tell whoever is listening.
    Tell,
}

impl Events {
    /// Every device that is there has something open, and not too much.
    pub closed spec fn wf(self) -> bool {
        forall|device: u128| #[trigger]
            self.streams@.contains_key(device) ==> 1 <= self.streams@[device]
                <= MAX_STREAMS_PER_DEVICE
    }

    /// What to do with the news of an account, whose channel has that many
    /// listeners if it has one.
    pub fn announce(listeners: Option<usize>) -> (what: Announcement)
        ensures
            what == match listeners {
                None => Announcement::Nobody,
                Some(listeners) => if listeners == 0 {
                    Announcement::Forget
                } else {
                    Announcement::Tell
                },
            },
    {
        match listeners {
            None => Announcement::Nobody,
            Some(listeners) => if listeners == 0 {
                Announcement::Forget
            } else {
                Announcement::Tell
            },
        }
    }

    /// How many streams a device has open.
    pub fn streams(&self, device: Uuid) -> (open: usize)
        ensures
            open == streams_of(self@, device),
    {
        match self.streams.get(&device.value) {
            Some(open) => *open,
            None => 0,
        }
    }

    /// Room for one more stream for this device, or none.
    pub fn open_stream(&mut self, device: Uuid) -> (stream: Option<StreamGuard>)
        requires
            old(self).wf(),
        ensures
            final(self).wf(),
            stream is Some <==> streams_of(old(self)@, device) < MAX_STREAMS_PER_DEVICE,
            stream matches Some(stream) ==> stream.of() == device && final(self)@ == stream_opened(
                old(self)@,
                device,
            ),
            stream is None ==> final(self)@ == old(self)@,
    {
        let open: usize = self.streams(device);
        if open >= MAX_STREAMS_PER_DEVICE {
            return None;
        }
        let _ = self.streams.insert(device.value, open + 1);
        Some(StreamGuard { device })
    }

    /// A stream was closed.
    pub fn close_stream(&mut self, stream: StreamGuard)
        requires
            old(self).wf(),
        ensures
            final(self).wf(),
            final(self)@ == stream_closed(old(self)@, stream.of()),
    {
        let open: usize = self.streams(stream.device);
        if open > 1 {
            let _ = self.streams.insert(stream.device.value, open - 1);
        } else {
            let _ = self.streams.remove(&stream.device.value);
            assert(self@ =~= stream_closed(old(self)@, stream.of()));
        }
    }
}

impl Default for Events {
    fn default() -> (events: Self)
        ensures
            events.wf(),
            events@ == Map::<u128, usize>::empty(),
    {
        Events { streams: HashMap::new() }
    }
}

/// A device holds only a few streams open, and closing one makes room for
/// another.
pub proof fn a_closed_stream_makes_room(streams: Map<u128, usize>, device: Uuid, other: Uuid)
    requires
        streams_of(streams, device) < MAX_STREAMS_PER_DEVICE,
        streams.contains_key(device.value) ==> streams[device.value] >= 1,
        other != device,
    ensures
        stream_closed(stream_opened(streams, device), device) == streams,
        streams_of(stream_opened(streams, device), device) <= MAX_STREAMS_PER_DEVICE,
        streams_of(stream_opened(streams, device), other) == streams_of(streams, other),
{
    assert(stream_closed(stream_opened(streams, device), device) =~= streams);
}

/// An address that a request came from.
#[derive(Debug, Clone, Copy)]
pub enum Address {
    V4 { octets: [u8; 4] },
    V6 { segments: [u16; 8] },
}

/// An IPv4 address as it is written.
pub open spec fn ipv4_text(octets: Seq<u8>) -> Seq<char> {
    text::decimal_text(octets[0] as nat) + "."@ + text::decimal_text(octets[1] as nat) + "."@
        + text::decimal_text(octets[2] as nat) + "."@ + text::decimal_text(octets[3] as nat)
}

/// Whether an IPv6 address stands for an IPv4 one.
pub open spec fn is_mapped(segments: Seq<u16>) -> bool {
    segments[0] == 0 && segments[1] == 0 && segments[2] == 0 && segments[3] == 0 && segments[4] == 0
        && segments[5] == 0xffff
}

/// The octets of the IPv4 address that an IPv6 one stands for.
pub open spec fn mapped_octets(segments: Seq<u16>) -> Seq<u8> {
    seq![
        (segments[6] / 256) as u8,
        (segments[6] % 256) as u8,
        (segments[7] / 256) as u8,
        (segments[7] % 256) as u8,
    ]
}

/// An address as the rate limiter counts it.
pub open spec fn counted_text(address: Address) -> Seq<char> {
    match address {
        Address::V4 { octets } => ipv4_text(octets@),
        Address::V6 { segments } => if is_mapped(segments@) {
            ipv4_text(mapped_octets(segments@))
        } else {
            text::hexadecimal_text(segments@[0] as nat) + ":"@ + text::hexadecimal_text(
                segments@[1] as nat,
            ) + ":"@ + text::hexadecimal_text(segments@[2] as nat) + ":"@ + text::hexadecimal_text(
                segments@[3] as nat,
            ) + "::/64"@
        },
    }
}

fn ipv4(a: u8, b: u8, c: u8, d: u8) -> (written: String)
    ensures
        written@ == ipv4_text(seq![a, b, c, d]),
{
    text::decimal(a as u128).concat(".").concat(text::decimal(b as u128).as_str()).concat(
        ".",
    ).concat(text::decimal(c as u128).as_str()).concat(".").concat(
        text::decimal(d as u128).as_str(),
    )
}

/// An address as the rate limiter counts it: the way it can be had. IPv6 per
/// /64, because one machine commonly has a whole /64 to itself and can take a
/// fresh address from it for every request.
pub fn counted(address: Address) -> (key: String)
    ensures
        key@ == counted_text(address),
{
    match address {
        Address::V4 { octets } => {
            assert(octets@ =~= seq![octets@[0], octets@[1], octets@[2], octets@[3]]);
            ipv4(octets[0], octets[1], octets[2], octets[3])
        },
        Address::V6 { segments } => {
            if segments[0] == 0 && segments[1] == 0 && segments[2] == 0 && segments[3] == 0
                && segments[4] == 0 && segments[5] == 0xffff {
                ipv4(
                    (segments[6] / 256) as u8,
                    (segments[6] % 256) as u8,
                    (segments[7] / 256) as u8,
                    (segments[7] % 256) as u8,
                )
            } else {
                text::hexadecimal(segments[0]).concat(":").concat(
                    text::hexadecimal(segments[1]).as_str(),
                ).concat(":").concat(text::hexadecimal(segments[2]).as_str()).concat(":").concat(
                    text::hexadecimal(segments[3]).as_str(),
                ).concat("::/64")
            }
        },
    }
}

/// The last of these pieces that is not blank, without the white space around
/// it.
pub open spec fn last_of_pieces(pieces: Seq<Seq<char>>) -> Option<Seq<char>>
    decreases pieces.len(),
{
    if pieces.len() == 0 {
        None
    } else if text::trimmed(pieces.last()).len() > 0 {
        Some(text::trimmed(pieces.last()))
    } else {
        last_of_pieces(pieces.drop_last())
    }
}

/// The last entry of the lines of a forwarding header, if there is one.
pub open spec fn last_entry(lines: Seq<Seq<char>>) -> Option<Seq<char>>
    decreases lines.len(),
{
    if lines.len() == 0 {
        None
    } else if last_of_pieces(text::split(lines.last(), ',')) is Some {
        last_of_pieces(text::split(lines.last(), ','))
    } else {
        last_entry(lines.drop_last())
    }
}

fn last_piece(pieces: &Vec<Vec<char>>) -> (piece: Option<String>)
    ensures
        text::string_view(piece) == last_of_pieces(text::pieces_view(pieces@)),
{
    let ghost all = text::pieces_view(pieces@);
    let mut at: usize = pieces.len();
    assert(all.take(at as int) =~= all);
    while at > 0
        invariant
            at <= pieces.len(),
            all == text::pieces_view(pieces@),
            last_of_pieces(all) == last_of_pieces(all.take(at as int)),
        decreases at,
    {
        assert(all.take(at as int).drop_last() =~= all.take(at - 1));
        assert(all.take(at as int).last() == pieces@[at - 1]@);
        let inner: Vec<char> = text::trim_chars(&pieces[at - 1]);
        if inner.len() > 0 {
            return Some(text::string_of(inner.as_slice()));
        }
        at = at - 1;
    }
    None
}

/// The entry of a forwarding header that is believed: the **last** one, which
/// is the one the proxy added. A proxy that appends (nginx with
/// `$proxy_add_x_forwarded_for`, most of them) keeps whatever the client wrote
/// in front of it, so the first address is the client's to choose, and a rate
/// limit keyed on it is no limit at all.
///
/// Every line of the header counts, in order: a proxy may add its own line
/// instead of appending to the client's.
pub fn forwarded_for(lines: &Vec<String>) -> (entry: Option<String>)
    ensures
        text::string_view(entry) == last_entry(text::strings_view(lines@)),
{
    let ghost all = text::strings_view(lines@);
    let mut at: usize = lines.len();
    assert(all.take(at as int) =~= all);
    while at > 0
        invariant
            at <= lines.len(),
            all == text::strings_view(lines@),
            last_entry(all) == last_entry(all.take(at as int)),
        decreases at,
    {
        assert(all.take(at as int).drop_last() =~= all.take(at - 1));
        assert(all.take(at as int).last() == lines@[at - 1]@);
        let chars: Vec<char> = text::chars_of(lines[at - 1].as_str());
        let pieces: Vec<Vec<char>> = text::split_chars(chars.as_slice(), ',');
        match last_piece(&pieces) {
            Some(entry) => {
                return Some(entry);
            },
            None => {},
        }
        at = at - 1;
    }
    None
}

/// The address a request came from, as the rate limiter counts it.
///
/// Behind a reverse proxy every request comes from the proxy, so the real
/// address is in `X-Forwarded-For`, which anyone can set, so it is only
/// believed when the server was told there is a proxy in front. `forwarded` is
/// the address that the believed entry of that header is, if it is one;
/// anything that is not an address falls back to the socket's.
pub fn client_key(config: &Config, forwarded: Option<Address>, peer: Option<Address>) -> (key:
    String)
    ensures
        key@ == key_text(config@.trust_forwarded, forwarded, peer),
{
    if config.trust_forwarded {
        if let Some(address) = forwarded {
            return counted(address);
        }
    }
    match peer {
        Some(peer) => counted(peer),
        None => "unknown".to_owned(),
    }
}

/// What the rate limiter counts a request under.
pub open spec fn key_text(
    trust_forwarded: bool,
    forwarded: Option<Address>,
    peer: Option<Address>,
) -> Seq<char> {
    if trust_forwarded && forwarded is Some {
        counted_text(forwarded->Some_0)
    } else {
        match peer {
            Some(peer) => counted_text(peer),
            None => "unknown"@,
        }
    }
}

/// A forwarded address is not believed unless there is a proxy in front.
pub proof fn a_forwarded_address_is_ignored_without_a_proxy(
    one: Option<Address>,
    other: Option<Address>,
    peer: Option<Address>,
)
    ensures
        key_text(false, one, peer) == key_text(false, other, peer),
{
}

/// An IPv6 machine is counted once for its whole network: addresses that share
/// their first four segments share a count.
pub proof fn an_ipv6_network_shares_a_count(one: [u16; 8], other: [u16; 8])
    requires
        forall|i: int| 0 <= i < 4 ==> one@[i] == other@[i],
        !is_mapped(one@),
        !is_mapped(other@),
    ensures
        counted_text(Address::V6 { segments: one }) == counted_text(
            Address::V6 { segments: other },
        ),
{
}

proof fn lemma_hexadecimal(n: nat, m: nat)
    ensures
        !text::hexadecimal_text(n).contains(':'),
        text::hexadecimal_text(n) == text::hexadecimal_text(m) ==> n == m,
        text::hexadecimal_text(n).len() >= 1,
    decreases n,
{
    let (a, b) = (text::hexadecimal_text(n), text::hexadecimal_text(m));
    lemma_hexadecimal_len(m);
    if n >= 16 {
        lemma_hexadecimal(n / 16, m / 16);
        let start = text::hexadecimal_text(n / 16);
        assert forall|i: int| 0 <= i < a.len() implies (#[trigger] a[i]) != ':' by {
            if i < start.len() {
                assert(start.contains(start[i]));
            }
        }
        if a == b {
            assert(a.drop_last() =~= start);
            assert(a.last() == text::hex_digit((n % 16) as int));
            if m >= 16 {
                assert(b.drop_last() =~= text::hexadecimal_text(m / 16));
                assert(b.last() == text::hex_digit((m % 16) as int));
            }
        }
    } else {
        assert(a[0] == text::hex_digit(n as int));
        if a == b && m < 16 {
            assert(b[0] == text::hex_digit(m as int));
        }
    }
}

proof fn lemma_hexadecimal_len(n: nat)
    ensures
        n < 16 <==> text::hexadecimal_text(n).len() == 1,
        text::hexadecimal_text(n).len() >= 1,
    decreases n,
{
    if n >= 16 {
        lemma_hexadecimal_len(n / 16);
    }
}

/// What stands before a first colon, and what stands behind it.
proof fn lemma_first_colon(a: Seq<char>, b: Seq<char>, c: Seq<char>, d: Seq<char>)
    requires
        !a.contains(':'),
        !c.contains(':'),
        a + ":"@ + b == c + ":"@ + d,
    ensures
        a == c,
        b == d,
{
    reveal_strlit(":");
    let (one, other) = (a + ":"@ + b, c + ":"@ + d);
    if a.len() < c.len() {
        assert(one[a.len() as int] == ':');
        assert(other[a.len() as int] == c[a.len() as int]);
        assert(c.contains(c[a.len() as int]));
    }
    if c.len() < a.len() {
        assert(other[c.len() as int] == ':');
        assert(one[c.len() as int] == a[c.len() as int]);
        assert(a.contains(a[c.len() as int]));
    }
    assert(a =~= one.take(a.len() as int));
    assert(c =~= other.take(c.len() as int));
    assert(b =~= one.skip((a.len() + 1) as int));
    assert(d =~= other.skip((c.len() + 1) as int));
}

/// The network of an IPv6 address, as it is counted.
spec fn network_text(segments: Seq<u16>) -> Seq<char> {
    text::hexadecimal_text(segments[0] as nat) + ":"@ + (text::hexadecimal_text(segments[1] as nat)
        + ":"@ + (text::hexadecimal_text(segments[2] as nat) + ":"@ + (text::hexadecimal_text(
        segments[3] as nat,
    ) + ":"@ + ":/64"@)))
}

proof fn lemma_network_text(segments: [u16; 8])
    requires
        !is_mapped(segments@),
    ensures
        counted_text(Address::V6 { segments }) == network_text(segments@),
        counted_text(Address::V6 { segments }).contains(':'),
{
    reveal_strlit(":");
    reveal_strlit(":/64");
    reveal_strlit("::/64");
    assert("::/64"@ =~= ":"@ + ":/64"@);
    let whole = counted_text(Address::V6 { segments });
    assert(whole =~= network_text(segments@));
    let at = text::hexadecimal_text(segments@[0] as nat).len() as int;
    assert(network_text(segments@)[at] == ':');
}

proof fn lemma_decimal_is_digits(n: nat)
    ensures
        !text::decimal_text(n).contains(':'),
    decreases n,
{
    let whole = text::decimal_text(n);
    if n >= 10 {
        lemma_decimal_is_digits(n / 10);
        let start = text::decimal_text(n / 10);
        assert forall|i: int| 0 <= i < whole.len() implies (#[trigger] whole[i]) != ':' by {
            if i < start.len() {
                assert(start.contains(start[i]));
            }
        }
    }
}

proof fn lemma_ipv4_has_no_colon(octets: Seq<u8>)
    requires
        octets.len() == 4,
    ensures
        !ipv4_text(octets).contains(':'),
{
    reveal_strlit(".");
    let a = text::decimal_text(octets[0] as nat);
    let b = text::decimal_text(octets[1] as nat);
    let c = text::decimal_text(octets[2] as nat);
    let d = text::decimal_text(octets[3] as nat);
    lemma_decimal_is_digits(octets[0] as nat);
    lemma_decimal_is_digits(octets[1] as nat);
    lemma_decimal_is_digits(octets[2] as nat);
    lemma_decimal_is_digits(octets[3] as nat);
    lemma_no_colon(a, "."@);
    lemma_no_colon(a + "."@, b);
    lemma_no_colon(a + "."@ + b, "."@);
    lemma_no_colon(a + "."@ + b + "."@, c);
    lemma_no_colon(a + "."@ + b + "."@ + c, "."@);
    lemma_no_colon(a + "."@ + b + "."@ + c + "."@, d);
}

proof fn lemma_no_colon(a: Seq<char>, b: Seq<char>)
    requires
        !a.contains(':'),
        !b.contains(':'),
    ensures
        !(a + b).contains(':'),
{
    assert forall|i: int| 0 <= i < (a + b).len() implies (#[trigger] (a + b)[i]) != ':' by {
        if i < a.len() {
            assert(a.contains(a[i]));
        } else {
            assert(b.contains(b[i - a.len()]));
        }
    }
}

/// Two IPv6 addresses share a count only if they share a network: their first
/// four segments.
pub proof fn a_shared_count_is_a_shared_network(one: [u16; 8], other: [u16; 8])
    requires
        counted_text(Address::V6 { segments: one }) == counted_text(
            Address::V6 { segments: other },
        ),
    ensures
        forall|i: int| 0 <= i < 4 ==> one@[i] == other@[i],
{
    if is_mapped(one@) {
        lemma_ipv4_has_no_colon(mapped_octets(one@));
    } else {
        lemma_network_text(one);
    }
    if is_mapped(other@) {
        lemma_ipv4_has_no_colon(mapped_octets(other@));
    } else {
        lemma_network_text(other);
    }
    if !is_mapped(one@) && !is_mapped(other@) {
        let a = text::hexadecimal_text(one@[0] as nat);
        let b = text::hexadecimal_text(one@[1] as nat);
        let c = text::hexadecimal_text(one@[2] as nat);
        let d = text::hexadecimal_text(one@[3] as nat);
        let e = text::hexadecimal_text(other@[0] as nat);
        let f = text::hexadecimal_text(other@[1] as nat);
        let g = text::hexadecimal_text(other@[2] as nat);
        let h = text::hexadecimal_text(other@[3] as nat);
        assert forall|i: int| 0 <= i < 4 implies !(#[trigger] text::hexadecimal_text(
            one@[i] as nat,
        )).contains(':') && !text::hexadecimal_text(other@[i] as nat).contains(':') && (
        text::hexadecimal_text(one@[i] as nat) == text::hexadecimal_text(other@[i] as nat)
            ==> one@[i] == other@[i]) by {
            lemma_hexadecimal(one@[i] as nat, other@[i] as nat);
            lemma_hexadecimal(other@[i] as nat, one@[i] as nat);
        }
        let last = ":/64"@;
        lemma_first_colon(
            a,
            b + ":"@ + (c + ":"@ + (d + ":"@ + last)),
            e,
            f + ":"@ + (g + ":"@ + (h + ":"@ + last)),
        );
        lemma_first_colon(
            b,
            c + ":"@ + (d + ":"@ + last),
            f,
            g + ":"@ + (h + ":"@ + last),
        );
        lemma_first_colon(c, d + ":"@ + last, g, h + ":"@ + last);
        lemma_first_colon(d, last, h, last);
        assert(one@[0] == other@[0] && one@[1] == other@[1] && one@[2] == other@[2] && one@[3]
            == other@[3]);
    }
}

} // verus!
