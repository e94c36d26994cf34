//! `uwusync-server health`: the container's health check, asked from inside.
//!
//! The image has no shell and no curl, so the binary asks itself. It calls
//! the running server where it listens, the way a device would (over the
//! server's own TLS) and only calls it healthy when `/healthz` says so **and**
//! the other end proved it holds the key in `tls/key.pem`, the one every
//! device pinned. (A server with accounts never makes itself a new one: it
//! refuses to start instead, which this check sees as well.)

use crate::config::TlsMode;
use crate::state::Address;
use vstd::prelude::*;
use vstd::string::StringExecFns;

verus! {

/// How long the server has to answer.
pub const TIMEOUT_SECS: u64 = 5;

/// The key the other end has to prove it holds, in DER: the server's own,
/// which is there once the server has started. A server without TLS proves
/// nothing, and none is needed.
pub fn expected_key(tls: TlsMode, key: Result<Option<Vec<u8>>, String>) -> (expected: Result<
    Vec<u8>,
    String,
>)
    ensures
        match (tls, key) {
            (TlsMode::Off, _) => expected matches Ok(key) && key@.len() == 0,
            (TlsMode::Auto, Ok(Some(key))) => expected == Ok::<Vec<u8>, String>(key),
            (TlsMode::Auto, Ok(None)) => expected matches Err(what) && what@
                == "no certificate key yet — the server has not started"@,
            (TlsMode::Auto, Err(error)) => expected matches Err(what) && what@
                == "the certificate key: "@ + error@,
        },
{
    match (tls, key) {
        (TlsMode::Off, _) => Ok(Vec::new()),
        (TlsMode::Auto, Ok(Some(key))) => Ok(key),
        (TlsMode::Auto, Ok(None)) => Err(
            "no certificate key yet — the server has not started".to_owned(),
        ),
        (TlsMode::Auto, Err(error)) => Err(
            "the certificate key: ".to_owned().concat(error.as_str()),
        ),
    }
}

/// Whether an address stands for every address of the machine.
pub open spec fn is_unspecified(address: Address) -> bool {
    match address {
        Address::V4 { octets } => forall|i: int| 0 <= i < 4 ==> octets@[i] == 0,
        Address::V6 { segments } => forall|i: int| 0 <= i < 8 ==> segments@[i] == 0,
    }
}

/// The address a machine reaches itself at.
pub open spec fn is_loopback(address: Address, like: Address) -> bool {
    match (address, like) {
        (Address::V4 { octets }, Address::V4 { .. }) => octets@ == seq![127u8, 0, 0, 1],
        (Address::V6 { segments }, Address::V6 { .. }) => segments@ == seq![
            0u16,
            0,
            0,
            0,
            0,
            0,
            0,
            1,
        ],
        _ => false,
    }
}

/// Where to knock: a server listening on every address is asked on loopback.
pub fn local(listen: Address) -> (local: Address)
    ensures
        if is_unspecified(listen) {
            is_loopback(local, listen)
        } else {
            local == listen
        },
{
    match listen {
        Address::V4 { octets } => {
            if octets[0] == 0 && octets[1] == 0 && octets[2] == 0 && octets[3] == 0 {
                let octets: [u8; 4] = [127, 0, 0, 1];
                assert(octets@ =~= seq![127u8, 0, 0, 1]);
                Address::V4 { octets }
            } else {
                listen
            }
        },
        Address::V6 { segments } => {
            if segments[0] == 0 && segments[1] == 0 && segments[2] == 0 && segments[3] == 0
                && segments[4] == 0 && segments[5] == 0 && segments[6] == 0 && segments[7] == 0 {
                let segments: [u16; 8] = [0, 0, 0, 0, 0, 0, 0, 1];
                assert(segments@ =~= seq![0u16, 0, 0, 0, 0, 0, 0, 1]);
                Address::V6 { segments }
            } else {
                listen
            }
        },
    }
}

/// What is asked of a server at a place.
pub fn url(tls: TlsMode, place: &str) -> (url: String)
    ensures
        url@ == match tls {
            TlsMode::Auto => "https"@,
            TlsMode::Off => "http"@,
        } + "://"@ + place@ + "/healthz"@,
{
    let scheme: &str = match tls {
        TlsMode::Auto => "https",
        TlsMode::Off => "http",
    };
    scheme.to_owned().concat("://").concat(place).concat("/healthz")
}

/// What came of asking.
#[derive(Debug)]
pub enum Answer {
    /// Nobody answered, and why.
    Nobody(String),
    /// It answered with a status that is no success, written like this.
    Status(String),
    /// It answered something else, and what is wrong with that.
    Other(String),
    /// It said whether it is well.
    Health { ok: bool },
}

/// What is wrong with a server that answered like that, if anything is.
pub open spec fn complaint(url: Seq<char>, answer: Answer) -> Option<Seq<char>> {
    match answer {
        Answer::Nobody(error) => Some(url + ": "@ + error@),
        Answer::Status(status) => Some(url + " answered "@ + status@),
        Answer::Other(error) => Some(url + " answered something else: "@ + error@),
        Answer::Health { ok } => if ok {
            None
        } else {
            Some(url + " says it is not well"@)
        },
    }
}

/// Whether a server that answered like that is well, or what is wrong.
pub fn verdict(url: &str, answer: &Answer) -> (verdict: Result<(), String>)
    ensures
        verdict is Ok <==> complaint(url@, *answer) is None,
        verdict matches Err(what) ==> complaint(url@, *answer) == Some(what@),
{
    match answer {
        Answer::Nobody(error) => Err(url.to_owned().concat(": ").concat(error.as_str())),
        Answer::Status(status) => Err(url.to_owned().concat(" answered ").concat(status.as_str())),
        Answer::Other(error) => Err(
            url.to_owned().concat(" answered something else: ").concat(error.as_str()),
        ),
        Answer::Health { ok } => {
            if *ok {
                Ok(())
            } else {
                Err(url.to_owned().concat(" says it is not well"))
            }
        },
    }
}

} // verus!
