//! The server's own certificate, and the fingerprint a device pins.
//!
//! A homelab server has no domain and no certificate authority, and telling
//! people to get one before they can sync their hosts is how a feature stays
//! unused. So this server makes its own certificate and says what it is; the
//! client remembers that and refuses anything else, exactly the way it already
//! treats an SSH host key. No domain, no Let's Encrypt, works over a Tailscale
//! address.
//!
//! **What is pinned is the key, not the certificate.** The fingerprint is a
//! SHA-256 of the public key (the `SubjectPublicKeyInfo`), which is why the
//! certificate can be made fresh on every start (new dates, new names, same
//! fingerprint) and nothing a device pinned ever goes stale. Only the private
//! key is kept, in one file, readable by nobody else.
//!
//! Whoever already has a real certificate sets `UWUSYNC_TLS=off` and puts a
//! reverse proxy in front instead.

use crate::{b64, now_ms, sha256, sha256_of, text};
use rcgen::PublicKeyData;
use vstd::prelude::*;
use vstd::string::StringExecFns;

verus! {

/// How long a certificate is good for, in days. It is made fresh at every
/// start, so this only has to outlast a server that runs for a long time.
pub const VALID_DAYS: i64 = 397;

/// How far back a certificate begins, in days: a little in the past, so a
/// device whose clock runs slow still accepts it.
pub const VALID_SINCE_DAYS: i64 = 1;

/// The common name in a certificate.
pub const COMMON_NAME: &'static str = "UwUSSH sync server";

#[derive(Debug)]
pub struct Identity {
    pub cert_pem: String,
    pub key_pem: String,
    /// `SHA256:…`, the way `ssh-keygen -l` prints one. This is what goes into
    /// the setup code and what a device pins.
    pub fingerprint: String,
}

/// Where the key is kept.
pub fn key_path(data_dir: &str) -> (path: String)
    ensures
        path@ == text::joined(data_dir@, "tls/key.pem"@),
{
    text::join(data_dir, "tls/key.pem")
}

/// What reading the key found.
#[derive(Debug)]
pub enum KeyFile {
    /// A key, in PEM.
    Read(String),
    /// There is no such file.
    Missing,
    /// It could not be read, and why.
    Failed(String),
}

/// What to do about it.
#[derive(Debug)]
pub enum KeyStep {
    /// Use this key; and see to it that nobody else can read the file.
    Use(String),
    /// Make one, and keep it.
    Make,
    /// Neither; what to say.
    Refuse(String),
}

/// What is said when the key of a server with accounts is gone.
pub open spec fn gone_text(path: Seq<char>) -> Seq<char> {
    "the certificate key ("@ + path + GONE_HINT@
}

pub const GONE_HINT: &'static str =
    ") is gone, and this server has accounts. Every device pinned that key and would refuse a new one: put it back from a copy of the data volume. If it is lost for good, `uwusync-server new-key` makes a new one, and every device has to be set up again";

/// What to do about the key that was found at a path, or was not. One is only
/// made when `may_create` says so. A server with accounts whose key is gone
/// must not quietly make a new one: every device pinned the old key and would
/// refuse it, and the only honest thing to do is to say so.
pub fn load(path: &str, found: KeyFile, may_create: bool) -> (step: KeyStep)
    ensures
        match found {
            KeyFile::Read(pem) => step == KeyStep::Use(pem),
            KeyFile::Missing => if may_create {
                step is Make
            } else {
                step matches KeyStep::Refuse(what) && what@ == gone_text(path@)
            },
            KeyFile::Failed(error) => step == KeyStep::Refuse(error),
        },
{
    match found {
        KeyFile::Read(pem) => KeyStep::Use(pem),
        KeyFile::Missing => {
            if may_create {
                KeyStep::Make
            } else {
                KeyStep::Refuse(
                    "the certificate key (".to_owned().concat(path).concat(GONE_HINT),
                )
            }
        },
        KeyFile::Failed(error) => KeyStep::Refuse(error),
    }
}

/// The same for a server that may always make one: made once and kept.
pub fn load_or_create(path: &str, found: KeyFile) -> (step: KeyStep)
    ensures
        match found {
            KeyFile::Read(pem) => step == KeyStep::Use(pem),
            KeyFile::Missing => step is Make,
            KeyFile::Failed(error) => step == KeyStep::Refuse(error),
        },
{
    load(path, found, true)
}

/// A private key, and the public key that belongs to it.
#[derive(Debug)]
pub struct Key {
    pub pem: String,
    /// The `SubjectPublicKeyInfo`, in DER.
    pub public_key: Vec<u8>,
}

/// A [`Key`] by its contents.
pub struct KeyView {
    pub pem: Seq<char>,
    pub public_key: Seq<u8>,
}

impl View for Key {
    type V = KeyView;

    open spec fn view(&self) -> KeyView {
        KeyView { pem: self.pem@, public_key: self.public_key@ }
    }
}

/// The private key that a text in PEM holds, written as this server writes
/// one, and the public key that belongs to it.
pub uninterp spec fn key_in(pem: Seq<char>) -> KeyView;

/// `rcgen::KeyPair::from_pem`, and of the pair that it reads what
/// `serialize_pem` and `subject_public_key_info` write: claimed to be the same
/// for the same text, whenever there is a key to be read. When there is none
/// is left open, and so are the words of the error: for the usual kinds of key
/// reading one also takes a random number, which the machine may fail to give.
#[verifier::external_body]
fn read_key(pem: &str) -> (read: Result<Key, String>)
    ensures
        read matches Ok(key) ==> key@ == key_in(pem@),
{
    rcgen::KeyPair::from_pem(pem)
        .map(
            |pair|
                Key { pem: pair.serialize_pem(), public_key: pair.subject_public_key_info() },
        )
        .map_err(|error| error.to_string())
}

/// `rcgen::KeyPair::generate`, and of the pair that it makes what
/// `serialize_pem` and `subject_public_key_info` write. The key is random;
/// claimed is that reading what was written gives the same key back.
#[verifier::external_body]
fn generate_key() -> (made: Result<Key, String>)
    ensures
        made matches Ok(key) ==> key_in(key.pem@) == key@,
{
    rcgen::KeyPair::generate()
        .map(
            |pair|
                Key { pem: pair.serialize_pem(), public_key: pair.subject_public_key_info() },
        )
        .map_err(|error| error.to_string())
}

/// Whether a text in PEM is a certificate for the public key of a private key
/// and signed with it, with these subject alternative names and this common
/// name, good between these two moments, in seconds since the Unix epoch.
pub uninterp spec fn is_certificate(
    cert: Seq<char>,
    pem: Seq<char>,
    names: Seq<Seq<char>>,
    common_name: Seq<char>,
    since: int,
    until: int,
) -> bool;

/// `rcgen::CertificateParams::self_signed`. Claimed is what every certificate
/// that it makes is: one for the key, the names and the moments it was asked
/// for, which is named [`is_certificate`]. Which text that is, is left open, as
/// the signature may be random and so another one every time; and so is when it
/// fails, as signing takes random numbers, which the machine may fail to give.
/// No certificate can hold a moment after the year 9999.
#[verifier::external_body]
fn sign_certificate(
    pem: &str,
    names: &Vec<String>,
    common_name: &str,
    since: i64,
    until: i64,
) -> (made: Result<String, String>)
    requires
        -VALID_SINCE_DAYS * DAY_SECS <= since <= until <= LAST_SECOND,
    ensures
        made matches Ok(cert) ==> is_certificate(
            cert@,
            pem@,
            text::strings_view(names@),
            common_name@,
            since as int,
            until as int,
        ),
{
    let key = rcgen::KeyPair::from_pem(pem).map_err(|error| error.to_string())?;
    let mut params = rcgen::CertificateParams::new(names.clone()).map_err(
        |error| error.to_string(),
    )?;
    params.distinguished_name = rcgen::DistinguishedName::new();
    params.distinguished_name.push(rcgen::DnType::CommonName, common_name);
    params.not_before = time::OffsetDateTime::from_unix_timestamp(since).map_err(
        |error| error.to_string(),
    )?;
    params.not_after = time::OffsetDateTime::from_unix_timestamp(until).map_err(
        |error| error.to_string(),
    )?;
    params.self_signed(&key).map(|made| made.pem()).map_err(|error| error.to_string())
}

/// What is said of a file that holds no key.
pub fn unreadable_key(path: &str, error: &str) -> (what: String)
    ensures
        what@ == "the key in "@ + path@ + ": "@ + error@,
{
    "the key in ".to_owned().concat(path).concat(": ").concat(error)
}

/// What came of reading a key in a file, with the file named where there was
/// none: a key that cannot be read is an error rather than a new one.
pub fn key_found(path: &str, read: Result<Key, String>) -> (found: Result<Key, String>)
    ensures
        match read {
            Ok(key) => found == Ok::<Key, String>(key),
            Err(error) => found matches Err(what) && what@ == "the key in "@ + path@ + ": "@
                + error@,
        },
{
    match read {
        Ok(key) => Ok(key),
        Err(error) => Err(unreadable_key(path, error.as_str())),
    }
}

/// The public key this server serves, if it made one yet, without making one.
/// The health check holds the other end of a handshake to it.
pub fn public_key_of(path: &str, found: KeyFile) -> (key: Result<Option<Vec<u8>>, String>)
    ensures
        match found {
            KeyFile::Read(pem) => match key {
                Ok(key) => key matches Some(key) && key@ == key_in(pem@).public_key,
                Err(what) => exists|error: Seq<char>|
                    what@ == #[trigger] ("the key in "@ + path@ + ": "@ + error),
            },
            KeyFile::Missing => key == Ok::<Option<Vec<u8>>, String>(None),
            KeyFile::Failed(error) => key == Err::<Option<Vec<u8>>, String>(error),
        },
{
    match found {
        KeyFile::Read(pem) => match key_found(path, read_key(pem.as_str())) {
            Ok(key) => Ok(Some(key.public_key)),
            Err(what) => Err(what),
        },
        KeyFile::Missing => Ok(None),
        KeyFile::Failed(error) => Err(error),
    }
}

pub const DAY_SECS: i64 = 86_400;

/// The last second of the year 9999.
pub const LAST_SECOND: i64 = 253_402_300_799;

/// When a certificate made now is good, in seconds since the Unix epoch.
pub open spec fn validity_from(now: u64) -> (int, int) {
    (
        now / 1000 - VALID_SINCE_DAYS * DAY_SECS,
        now / 1000 + VALID_DAYS * DAY_SECS,
    )
}

/// When a certificate made now is good; nothing where no certificate could
/// say so.
pub fn validity(now: u64) -> (valid: Option<(i64, i64)>)
    ensures
        valid is Some <==> validity_from(now).1 <= LAST_SECOND,
        valid matches Some((since, until)) ==> (since as int, until as int) == validity_from(now),
{
    let secs: u64 = now / 1000;
    if secs > 253_402_300_799 {
        return None;
    }
    let secs: i64 = secs as i64;
    let until: i64 = secs + VALID_DAYS * DAY_SECS;
    if until > LAST_SECOND {
        None
    } else {
        Some((secs - VALID_SINCE_DAYS * DAY_SECS, until))
    }
}

/// What a server with a key and a certificate is known by; or what stopped the
/// certificate.
pub fn identity_of(key: Key, made: Result<String, String>) -> (identity: Result<Identity, String>)
    ensures
        match made {
            Ok(cert) => identity matches Ok(identity) && identity.cert_pem == cert
                && identity.key_pem == key.pem && identity.fingerprint@ == fingerprint_text(
                key.public_key@,
            ),
            Err(error) => identity == Err::<Identity, String>(error),
        },
{
    match made {
        Ok(cert_pem) => {
            let fingerprint: String = fingerprint(key.public_key.as_slice());
            Ok(Identity { cert_pem, key_pem: key.pem, fingerprint })
        },
        Err(error) => Err(error),
    }
}

/// What is said where no certificate could say when it is good.
pub const CLOCK_HINT: &'static str = "the clock is past what a certificate can say";

/// What asking for a certificate for a key at a given time is answered. One
/// that is made is for that key, to those names, from a day ago and for a year
/// and a month; and it is the key alone that decides the fingerprint.
pub open spec fn certify_done(
    key: KeyView,
    names: Seq<Seq<char>>,
    now: u64,
    identity: Result<Identity, String>,
) -> bool {
    let (since, until) = validity_from(now);
    match identity {
        Ok(identity) => {
            &&& until <= LAST_SECOND
            &&& is_certificate(identity.cert_pem@, key.pem, names, COMMON_NAME@, since, until)
            &&& identity.key_pem@ == key.pem
            &&& identity.fingerprint@ == fingerprint_text(key.public_key)
        },
        Err(what) => until > LAST_SECOND ==> what@ == CLOCK_HINT@,
    }
}

/// [`certify`] at a given time.
pub fn certify_at(key: Key, names: &Vec<String>, now: u64) -> (identity: Result<Identity, String>)
    ensures
        certify_done(key@, text::strings_view(names@), now, identity),
{
    let made: Result<String, String> = match validity(now) {
        Some((since, until)) => sign_certificate(
            key.pem.as_str(),
            names,
            COMMON_NAME,
            since,
            until,
        ),
        None => Err(CLOCK_HINT.to_owned()),
    };
    identity_of(key, made)
}

/// A certificate for a key, made now. `names` are what goes into it as subject
/// alternative names. They are cosmetic here, as a pinning client does not
/// look at them, but a browser or `curl -v` reads better with them.
///
/// Whatever the names and the time: it is the key that decides the
/// fingerprint.
pub fn certify(key: Key, names: &Vec<String>) -> (identity: Result<Identity, String>)
    ensures
        exists|now: u64| #[trigger]
            certify_done(key@, text::strings_view(names@), now, identity),
{
    let now: u64 = now_ms();
    certify_at(key, names, now)
}

/// What asking who the server is by the key in a file is answered: a certificate
/// for that key or what stopped it, or, where there is no key to be read, an
/// error that names the file.
pub open spec fn identity_done(
    path: Seq<char>,
    pem: Seq<char>,
    names: Seq<Seq<char>>,
    identity: Result<Identity, String>,
) -> bool {
    (exists|now: u64| #[trigger] certify_done(key_in(pem), names, now, identity)) || (
    identity matches Err(what) && exists|error: Seq<char>|
        what@ == #[trigger] ("the key in "@ + path + ": "@ + error))
}

/// Who the server is by the key that was kept for it, with a certificate made
/// now. The fingerprint comes from the kept key alone, so what a device pinned
/// holds from one start to the next. Where there is no key to be read, the file
/// is named.
pub fn identity_in(path: &str, pem: &str, names: &Vec<String>) -> (identity: Result<
    Identity,
    String,
>)
    ensures
        identity matches Ok(identity) ==> identity.key_pem@ == key_in(pem@).pem
            && identity.fingerprint@ == fingerprint_text(key_in(pem@).public_key),
        identity_done(path@, pem@, text::strings_view(names@), identity),
{
    match key_found(path, read_key(pem)) {
        Ok(key) => certify(key, names),
        Err(what) => Err(what),
    }
}

/// The fingerprint of a server that is known, or what stopped it.
pub fn fingerprint_in(identity: Result<Identity, String>) -> (fingerprint: Result<String, String>)
    ensures
        fingerprint == match identity {
            Ok(identity) => Ok::<String, String>(identity.fingerprint),
            Err(what) => Err::<String, String>(what),
        },
{
    match identity {
        Ok(identity) => Ok(identity.fingerprint),
        Err(what) => Err(what),
    }
}

/// What asking for the fingerprint of a kept key is answered: that of the
/// identity for `localhost`, in its own words where there is none.
pub open spec fn fingerprint_done(
    path: Seq<char>,
    pem: Seq<char>,
    identity: Result<Identity, String>,
    fingerprint: Result<String, String>,
) -> bool {
    &&& identity_done(path, pem, seq!["localhost"@], identity)
    &&& fingerprint == match identity {
        Ok(identity) => Ok::<String, String>(identity.fingerprint),
        Err(what) => Err::<String, String>(what),
    }
}

/// Just the fingerprint, for `uwusync-server fingerprint` and the setup code.
pub fn fingerprint_of(path: &str, pem: &str) -> (fingerprint: Result<String, String>)
    ensures
        fingerprint matches Ok(fingerprint) ==> fingerprint@ == fingerprint_text(
            key_in(pem@).public_key,
        ),
        exists|identity: Result<Identity, String>| #[trigger]
            fingerprint_done(path@, pem@, identity, fingerprint),
{
    let mut names: Vec<String> = Vec::new();
    names.push("localhost".to_owned());
    assert(text::strings_view(names@) =~= seq!["localhost"@]);
    let identity: Result<Identity, String> = identity_in(path, pem, &names);
    let ghost known = identity;
    let fingerprint: Result<String, String> = fingerprint_in(identity);
    assert(fingerprint_done(path@, pem@, known, fingerprint));
    fingerprint
}

/// A key for a server that has none. Kept as it is written, it is the key that
/// every later start finds: the fingerprint survives.
pub fn make_key() -> (made: Result<Key, String>)
    ensures
        made matches Ok(key) ==> fingerprint_text(key_in(key.pem@).public_key) == fingerprint_text(
            key.public_key@,
        ) && key_in(key.pem@) == key@,
{
    generate_key()
}

/// The fingerprint of a public key.
pub open spec fn fingerprint_text(public_key_der: Seq<u8>) -> Seq<char> {
    "SHA256:"@ + b64::standard_encoded(sha256_of(public_key_der))
}

/// `SHA256:…` over the public key, as SSH prints a host key's fingerprint:
/// the same shape, for the same reason, as it is meant to be compared by eye.
pub fn fingerprint(public_key_der: &[u8]) -> (fingerprint: String)
    ensures
        fingerprint@ == fingerprint_text(public_key_der@),
        fingerprint@.len() == "SHA256:"@.len() + 43,
{
    let digest: [u8; 32] = sha256(public_key_der);
    "SHA256:".to_owned().concat(b64::encode_standard(digest.as_slice()).as_str())
}

/// Whether a file is open to others than its owner, by its mode.
pub fn is_readable_by_others(mode: u32) -> (readable: bool)
    ensures
        readable == (mode % 64 != 0),
{
    mode % 64 != 0
}

/// The host an address names, however it is written: `https://nas.lan:8443`,
/// `nas.lan:8443` and `nas.lan` all mean the same machine.
pub open spec fn host_in(public: Seq<char>) -> Seq<char> {
    let place = text::before_first(text::after_last(public, "://"@), '/');
    let host = match text::last_of(place, ':') {
        Some(colon) => place.take(colon),
        None => place,
    };
    text::unbracketed(host)
}

/// Whether a host says more than that it is here.
pub open spec fn is_a_name(host: Seq<char>) -> bool {
    host.len() > 0 && host != "localhost"@ && host != "0.0.0.0"@
}

/// The names for a server that is said to be there.
pub open spec fn names_of(public: Option<Seq<char>>) -> Seq<Seq<char>> {
    match public {
        Some(public) if is_a_name(host_in(public)) => seq!["localhost"@, host_in(public)],
        _ => seq!["localhost"@],
    }
}

/// The names to put in the certificate: where the server says it is, and
/// localhost, which is where it is tried from first.
pub fn names_for(public: Option<&str>) -> (names: Vec<String>)
    ensures
        text::strings_view(names@) == names_of(text::str_view(public)),
{
    let mut names: Vec<String> = Vec::new();
    names.push("localhost".to_owned());
    assert(text::strings_view(names@) =~= seq!["localhost"@]);
    if let Some(public) = public {
        let all: Vec<char> = text::chars_of(public);
        let place: Vec<char> = text::start_before(&text::rest_after_last(&all, "://"), '/');
        let host: Vec<char> = match text::find_last(&place, ':') {
            Some(colon) => {
                let host: Vec<char> = text::chars_between(place.as_slice(), 0, colon);
                assert(host@ =~= place@.take(colon as int));
                host
            },
            None => place,
        };
        let host: String = text::string_of(text::strip_brackets(&host).as_slice());
        if !host.as_str().is_empty() && !text::same(host.as_str(), "localhost") && !text::same(
            host.as_str(),
            "0.0.0.0",
        ) {
            names.push(host);
            assert(text::strings_view(names@) =~= seq!["localhost"@, host_in(public@)]);
        }
    }
    names
}

proof fn lemma_before_first(text: Seq<char>, separator: char)
    ensures
        !text::before_first(text, separator).contains(separator),
        !text.contains(separator) ==> text::before_first(text, separator) == text,
    decreases text.len(),
{
    if text.len() > 0 && text[0] != separator {
        let rest = text.skip(1);
        lemma_before_first(rest, separator);
        let start = text::before_first(rest, separator);
        assert forall|i: int| 0 <= i < (seq![text[0]] + start).len() implies (#[trigger] (seq![
            text[0],
        ] + start)[i]) != separator by {
            if i > 0 {
                assert(start.contains(start[i - 1]));
            }
        }
        if !text.contains(separator) {
            assert forall|i: int| 0 <= i < rest.len() implies (#[trigger] rest[i])
                != separator by {
                assert(text.contains(text[i + 1]));
            }
            assert(seq![text[0]] + rest =~= text);
        }
    } else if text.len() > 0 {
        assert(text.contains(text[0]));
    } else {
        assert(text::before_first(text, separator) =~= text);
    }
}

/// What stands before the first separator, whatever follows it.
proof fn lemma_before_separator(text: Seq<char>, separator: char, rest: Seq<char>)
    requires
        !text.contains(separator),
    ensures
        text::before_first(text + seq![separator] + rest, separator) == text,
    decreases text.len(),
{
    let whole = text + seq![separator] + rest;
    if text.len() == 0 {
        assert(whole[0] == separator);
        assert(text::before_first(whole, separator) =~= text);
    } else {
        assert(text.contains(text[0]));
        assert(whole[0] == text[0]);
        assert(whole.skip(1) =~= text.skip(1) + seq![separator] + rest);
        assert forall|i: int| 0 <= i < text.skip(1).len() implies (#[trigger] text.skip(1)[i])
            != separator by {
            assert(text.contains(text[i + 1]));
        }
        lemma_before_separator(text.skip(1), separator, rest);
        assert(seq![text[0]] + text.skip(1) =~= text);
    }
}

proof fn lemma_no_last(text: Seq<char>, separator: char)
    requires
        !text.contains(separator),
    ensures
        text::last_of(text, separator) is None,
    decreases text.len(),
{
    if text.len() > 0 {
        assert(text.contains(text[text.len() - 1]));
        assert forall|i: int| 0 <= i < text.drop_last().len() implies (
        #[trigger] text.drop_last()[i]) != separator by {
            assert(text.contains(text[i]));
        }
        lemma_no_last(text.drop_last(), separator);
    }
}

/// The last separator is the one that none follows.
proof fn lemma_last(text: Seq<char>, separator: char, rest: Seq<char>)
    requires
        !rest.contains(separator),
    ensures
        text::last_of(text + seq![separator] + rest, separator) == Some(text.len() as int),
    decreases rest.len(),
{
    let whole = text + seq![separator] + rest;
    if rest.len() > 0 {
        assert(rest.contains(rest[rest.len() - 1]));
        assert(whole.last() == rest.last());
        assert(whole.drop_last() =~= text + seq![separator] + rest.drop_last());
        assert forall|i: int| 0 <= i < rest.drop_last().len() implies (
        #[trigger] rest.drop_last()[i]) != separator by {
            assert(rest.contains(rest[i]));
        }
        lemma_last(text, separator, rest.drop_last());
    } else {
        assert(whole.last() == separator);
    }
}

/// Whether a text says how to be reached, somewhere in it.
pub open spec fn has_scheme(text: Seq<char>) -> bool {
    exists|i: int| 0 <= i <= text.len() - 3 && #[trigger] text.subrange(i, i + 3) == "://"@
}

proof fn lemma_no_scheme(text: Seq<char>, at: int)
    requires
        !has_scheme(text),
        at <= text.len() - 3,
    ensures
        text::after_last_from(text, "://"@, at) == text,
    decreases at + 1,
{
    reveal_strlit("://");
    if at >= 0 {
        assert(text.subrange(at, at + 3) != "://"@);
        lemma_no_scheme(text, at - 1);
    }
}

proof fn lemma_scheme(scheme: Seq<char>, rest: Seq<char>, at: int)
    requires
        !has_scheme(rest),
        scheme.len() <= at <= scheme.len() + rest.len(),
    ensures
        text::after_last_from(scheme + "://"@ + rest, "://"@, at) == rest,
    decreases at,
{
    reveal_strlit("://");
    let whole = scheme + "://"@ + rest;
    let here = whole.subrange(at, at + 3);
    if at == scheme.len() {
        assert(here =~= "://"@);
        assert(whole.skip(at + 3) =~= rest);
    } else {
        assert(here != "://"@) by {
            if at < scheme.len() + 3 {
                assert(here[0] == "://"@[at - scheme.len()]);
            } else {
                let i = at - scheme.len() - 3;
                assert(here =~= rest.subrange(i, i + 3));
            }
        }
        lemma_scheme(scheme, rest, at - 1);
    }
}

/// A scheme in front of an address changes nothing.
pub proof fn a_scheme_changes_nothing(scheme: Seq<char>, address: Seq<char>)
    requires
        !has_scheme(address),
    ensures
        host_in(scheme + "://"@ + address) == host_in(address),
        names_of(Some(scheme + "://"@ + address)) == names_of(Some(address)),
{
    reveal_strlit("://");
    lemma_scheme(scheme, address, (scheme.len() + address.len()) as int);
    lemma_no_scheme(address, address.len() - 3);
}

/// Whether a text is a host and nothing else.
pub open spec fn is_plain_host(host: Seq<char>) -> bool {
    !host.contains(':') && !host.contains('/') && !host.contains('[') && !host.contains(']')
}

proof fn lemma_plain_host(host: Seq<char>)
    requires
        is_plain_host(host),
    ensures
        text::unbracketed(host) == host,
{
    if host.len() > 0 {
        assert(host.contains(host[0]));
        assert(host.contains(host[host.len() - 1]));
    }
}

/// The host in an address is what stands in front of its port and its path.
/// Such an address holds no `://` of its own, which would make what stands in
/// front of it a scheme.
pub proof fn a_port_and_a_path_change_nothing(host: Seq<char>, port: Seq<char>, path: Seq<char>)
    requires
        is_plain_host(host),
        !port.contains(':'),
        !port.contains('/'),
        !has_scheme(host + seq![':'] + port + seq!['/'] + path),
    ensures
        host_in(host) == host,
        host_in(host + seq![':'] + port) == host,
        host_in(host + seq!['/'] + path) == host,
        host_in(host + seq![':'] + port + seq!['/'] + path) == host,
        names_of(Some(host + seq![':'] + port)) == names_of(Some(host)),
        names_of(Some(host + seq!['/'] + path)) == names_of(Some(host)),
        names_of(Some(host + seq![':'] + port + seq!['/'] + path)) == names_of(Some(host)),
{
    reveal_strlit("://");
    lemma_plain_host(host);
    let place = host + seq![':'] + port;
    assert forall|i: int| 0 <= i < place.len() implies (#[trigger] place[i]) != '/' by {
        if i < host.len() {
            assert(host.contains(host[i]));
        } else if i > host.len() {
            assert(port.contains(port[i - host.len() - 1]));
        }
    }
    assert(!place.contains('/'));
    assert(!has_scheme(place)) by {
        assert forall|i: int| 0 <= i <= place.len() - 3 implies #[trigger] place.subrange(i, i + 3)
            != "://"@ by {
            assert(place.subrange(i, i + 3)[1] == place[i + 1]);
        }
    }
    assert(!has_scheme(host)) by {
        assert forall|i: int| 0 <= i <= host.len() - 3 implies #[trigger] host.subrange(i, i + 3)
            != "://"@ by {
            assert(host.subrange(i, i + 3)[0] == host[i]);
            assert(host.contains(host[i]));
        }
    }
    assert(!has_scheme(host + seq!['/'] + path)) by {
        let short = host + seq!['/'] + path;
        let whole = place + seq!['/'] + path;
        let gone = port.len() + 1;
        assert forall|i: int| 0 <= i <= short.len() - 3 implies #[trigger] short.subrange(i, i + 3)
            != "://"@ by {
            assert(short.subrange(i, i + 3)[0] == short[i]);
            if i < host.len() {
                assert(host.contains(host[i]));
            } else if i > host.len() {
                assert(short.subrange(i, i + 3) =~= whole.subrange(i + gone, i + gone + 3));
            }
        }
    }
    lemma_no_scheme(host, host.len() - 3);
    lemma_no_scheme(place, place.len() - 3);
    lemma_no_scheme(host + seq!['/'] + path, (host + seq!['/'] + path).len() - 3);
    lemma_no_scheme(place + seq!['/'] + path, (place + seq!['/'] + path).len() - 3);
    lemma_before_first(host, '/');
    lemma_before_first(place, '/');
    lemma_before_separator(host, '/', path);
    lemma_before_separator(place, '/', path);
    lemma_no_last(host, ':');
    lemma_last(host, ':', port);
    assert(place.take(host.len() as int) =~= host);
}

proof fn lemma_unbracketed_within(text: Seq<char>, c: char)
    requires
        !text.contains(c),
    ensures
        !text::unbracketed(text).contains(c),
    decreases text.len(),
{
    if text.len() > 0 && (text[0] == '[' || text[0] == ']') {
        assert forall|i: int| 0 <= i < text.skip(1).len() implies (#[trigger] text.skip(1)[i])
            != c by {
            assert(text.contains(text[i + 1]));
        }
        lemma_unbracketed_within(text.skip(1), c);
    } else if text.len() > 0 && (text.last() == '[' || text.last() == ']') {
        assert forall|i: int| 0 <= i < text.drop_last().len() implies (
        #[trigger] text.drop_last()[i]) != c by {
            assert(text.contains(text[i]));
        }
        lemma_unbracketed_within(text.drop_last(), c);
    }
}

/// A certificate has one name or two: `localhost`, and another one that says
/// more than that the server is here and holds no path.
pub proof fn names_are_few_and_apart(public: Option<Seq<char>>)
    ensures
        1 <= names_of(public).len() <= 2,
        names_of(public)[0] == "localhost"@,
        names_of(public).len() == 2 ==> {
            let name = names_of(public)[1];
            name.len() > 0 && name != "localhost"@ && name != "0.0.0.0"@ && !name.contains('/')
        },
{
    if let Some(public) = public {
        let place = text::before_first(text::after_last(public, "://"@), '/');
        lemma_before_first(text::after_last(public, "://"@), '/');
        let host = match text::last_of(place, ':') {
            Some(colon) => place.take(colon),
            None => place,
        };
        assert(!host.contains('/')) by {
            lemma_last_is_within(place, ':');
            assert forall|i: int| 0 <= i < host.len() implies (#[trigger] host[i]) != '/' by {
                assert(place.contains(place[i]));
            }
        }
        lemma_unbracketed_within(host, '/');
    }
}

proof fn lemma_last_is_within(text: Seq<char>, separator: char)
    ensures
        text::last_of(text, separator) matches Some(at) ==> 0 <= at < text.len(),
    decreases text.len(),
{
    if text.len() > 0 {
        lemma_last_is_within(text.drop_last(), separator);
    }
}

/// The fingerprint survives a new certificate: whatever the names and the time,
/// two identities by one kept key have the same key and the same fingerprint,
/// that of its public key.
pub proof fn the_fingerprint_survives_a_new_certificate(
    pem: Seq<char>,
    names: Seq<Seq<char>>,
    now: u64,
    one: Identity,
    other_names: Seq<Seq<char>>,
    another_time: u64,
    other: Identity,
)
    requires
        certify_done(key_in(pem), names, now, Ok(one)),
        certify_done(key_in(pem), other_names, another_time, Ok(other)),
    ensures
        one.fingerprint@ == other.fingerprint@,
        one.fingerprint@ == fingerprint_text(key_in(pem).public_key),
        one.key_pem@ == other.key_pem@,
        text::starts_with(one.fingerprint@, "SHA256:"@),
{
    let start = "SHA256:"@;
    assert(one.fingerprint@.take(start.len() as int) =~= start);
}

} // verus!
