//! Everything the server reads from its environment, and nothing else.
//!
//! No config file: a container gets its settings from environment variables,
//! and a setting that lives in two places is a setting that disagrees with
//! itself.

use crate::db::accounts::KdfFloor;
use crate::db::records::Quota;
use crate::text;
use vstd::prelude::*;
use vstd::string::StringExecFns;

verus! {

/// Whether the server brings its own certificate.
#[derive(Debug, Clone, Copy, PartialEq, Eq, Structural)]
pub enum TlsMode {
    /// Make one, keep the key, and say what its fingerprint is. The client
    /// pins that, the way it pins an SSH host key.
    Auto,
    /// Speak plain HTTP, because something in front does the TLS.
    Off,
}

impl TlsMode {
    /// The mode a word names, if it names one.
    pub open spec fn named(value: Seq<char>) -> Option<TlsMode> {
        let word = text::word(value);
        if word == "auto"@ || word == "on"@ || word == "1"@ || word == "true"@ {
            Some(TlsMode::Auto)
        } else if word == "off"@ || word == "0"@ || word == "false"@ || word == "proxy"@ {
            Some(TlsMode::Off)
        } else {
            None
        }
    }

    pub fn parse(value: &str) -> (mode: Option<TlsMode>)
        ensures
            mode == TlsMode::named(value@),
    {
        let word: String = text::word_of(value);
        let word: &str = word.as_str();
        if text::same(word, "auto") || text::same(word, "on") || text::same(word, "1")
            || text::same(word, "true") {
            Some(TlsMode::Auto)
        } else if text::same(word, "off") || text::same(word, "0") || text::same(word, "false")
            || text::same(word, "proxy") {
            Some(TlsMode::Off)
        } else {
            None
        }
    }
}

/// Who may create an account on this server.
#[derive(Debug, Clone, Copy, PartialEq, Eq, Structural)]
pub enum Registration {
    /// Anyone who can reach the server. For a server on a tailnet, say.
    Open,
    /// Only with a code from `uwusync-server invite`. The default, and what the
    /// first start prints one of.
    Invite,
    /// Nobody. For a server whose devices are all enrolled.
    Closed,
}

impl Registration {
    /// What a word says about registration, if it is one of the three.
    pub open spec fn named(value: Seq<char>) -> Option<Registration> {
        let word = text::word(value);
        if word == "open"@ {
            Some(Registration::Open)
        } else if word == "invite"@ {
            Some(Registration::Invite)
        } else if word == "closed"@ {
            Some(Registration::Closed)
        } else {
            None
        }
    }

    pub fn parse(value: &str) -> (registration: Option<Registration>)
        ensures
            registration == Registration::named(value@),
    {
        let word: String = text::word_of(value);
        let word: &str = word.as_str();
        if text::same(word, "open") {
            Some(Registration::Open)
        } else if text::same(word, "invite") {
            Some(Registration::Invite)
        } else if text::same(word, "closed") {
            Some(Registration::Closed)
        } else {
            None
        }
    }
}

#[derive(Debug)]
pub struct Config {
    /// Where the database and, later, the certificate live. One volume.
    pub data_dir: String,
    /// The address to listen on, as it is written.
    pub listen: String,
    /// How devices reach this server, `nas.lan:8443` say. The server cannot
    /// know it (it listens on every address), and it goes into the setup code,
    /// so a server behind a name or a proxy is told.
    pub public: Option<String>,
    pub registration: Registration,
    pub tls: TlsMode,
    /// Trust `X-Forwarded-For` for the address rate limits are counted per.
    /// Only ever true behind a proxy that sets it, or anyone can pretend to be
    /// someone else.
    pub trust_forwarded: bool,
    /// How long a device's session token lives before it signs again.
    pub session_secs: u64,
    /// Ask GitHub once a day whether there is a newer release, and say so in
    /// the log. The only connection the server opens on its own.
    pub update_check: bool,
    /// The image tag this machine follows (`latest`, `beta`, `edge` or a
    /// version), which decides what counts as an update.
    pub channel: Option<String>,
    /// How many accounts this server takes, whoever asks.
    pub max_accounts: u64,
    /// What one account may hold, and what all of them together may.
    pub quota: Quota,
    /// Connections open at once, from everybody.
    pub max_connections: usize,
    /// Connections open at once from one address (an IPv6 /64 counts as one).
    /// Zero for no limit. Not applied behind a proxy, where every connection
    /// comes from the proxy.
    pub max_connections_per_address: usize,
    /// The cheapest key derivation a vault header may ask for. Not read from
    /// the environment: a floor an operator can lower is one a mistake lowers
    /// too. Tests lower it, because they derive keys by the dozen.
    pub kdf_floor: KdfFloor,
}

/// A [`Config`] with its texts as sequences of characters.
pub struct ConfigView {
    pub data_dir: Seq<char>,
    pub listen: Seq<char>,
    pub public: Option<Seq<char>>,
    pub registration: Registration,
    pub tls: TlsMode,
    pub trust_forwarded: bool,
    pub session_secs: u64,
    pub update_check: bool,
    pub channel: Option<Seq<char>>,
    pub max_accounts: u64,
    pub quota: Quota,
    pub max_connections: usize,
    pub max_connections_per_address: usize,
    pub kdf_floor: KdfFloor,
}

impl View for Config {
    type V = ConfigView;

    open spec fn view(&self) -> ConfigView {
        ConfigView {
            data_dir: self.data_dir@,
            listen: self.listen@,
            public: text::string_view(self.public),
            registration: self.registration,
            tls: self.tls,
            trust_forwarded: self.trust_forwarded,
            session_secs: self.session_secs,
            update_check: self.update_check,
            channel: text::string_view(self.channel),
            max_accounts: self.max_accounts,
            quota: self.quota,
            max_connections: self.max_connections,
            max_connections_per_address: self.max_connections_per_address,
            kdf_floor: self.kdf_floor,
        }
    }
}

impl ConfigView {
    /// The settings of a server that was told nothing.
    pub open spec fn standard() -> ConfigView {
        ConfigView {
            data_dir: "./data"@,
            listen: "0.0.0.0:8443"@,
            public: None,
            registration: Registration::Invite,
            tls: TlsMode::Auto,
            trust_forwarded: false,
            session_secs: 3600,
            update_check: true,
            channel: None,
            max_accounts: 100,
            quota: Quota::standard(),
            max_connections: 512,
            max_connections_per_address: 32,
            kdf_floor: KdfFloor::standard(),
        }
    }

    /// How a device writes this server down.
    pub open spec fn base_url(self) -> Seq<char> {
        let scheme = match self.tls {
            TlsMode::Auto => "https"@,
            TlsMode::Off => "http"@,
        };
        match self.public {
            Some(public) => if text::contains(public, "://"@) {
                text::without_slashes(public)
            } else {
                scheme + "://"@ + public
            },
            None => scheme + "://"@ + self.listen,
        }
    }
}

impl Default for Config {
    fn default() -> (config: Self)
        ensures
            config@ == ConfigView::standard(),
    {
        Config {
            data_dir: "./data".to_owned(),
            listen: "0.0.0.0:8443".to_owned(),
            public: None,
            registration: Registration::Invite,
            tls: TlsMode::Auto,
            trust_forwarded: false,
            session_secs: 60 * 60,
            update_check: true,
            channel: None,
            max_accounts: 100,
            quota: Quota::default(),
            max_connections: 512,
            max_connections_per_address: 32,
            kdf_floor: KdfFloor::default(),
        }
    }
}

/// A variable of the environment.
#[derive(Debug)]
pub struct Variable {
    pub name: String,
    pub value: String,
}

/// What a variable is set to, if it is set to anything.
pub open spec fn value_of(vars: Seq<Variable>, name: Seq<char>) -> Option<Seq<char>>
    decreases vars.len(),
{
    if vars.len() == 0 {
        None
    } else if vars.last().name@ == name {
        if vars.last().value@.len() > 0 {
            Some(vars.last().value@)
        } else {
            None
        }
    } else {
        value_of(vars.drop_last(), name)
    }
}

/// The name a setting had while the server was UwUSSH Server, where it had one.
pub open spec fn old_name(name: Seq<char>) -> Option<Seq<char>> {
    if text::starts_with(name, "UWUSYNC_"@) {
        Some("UWUSSH_"@ + name.skip("UWUSYNC_"@.len() as int))
    } else {
        None
    }
}

/// A setting, under its name or under the one it had before. The new name wins
/// where both are set.
pub open spec fn setting(vars: Seq<Variable>, name: Seq<char>) -> Option<Seq<char>> {
    if value_of(vars, name) is Some {
        value_of(vars, name)
    } else {
        match old_name(name) {
            Some(before) => value_of(vars, before),
            None => None,
        }
    }
}

fn read(vars: &Vec<Variable>, name: &str) -> (value: Option<String>)
    ensures
        text::string_view(value) == value_of(vars@, name@),
{
    let mut at: usize = vars.len();
    assert(vars@.take(at as int) =~= vars@);
    while at > 0
        invariant
            at <= vars.len(),
            value_of(vars@, name@) == value_of(vars@.take(at as int), name@),
        decreases at,
    {
        assert(vars@.take(at as int).drop_last() =~= vars@.take(at - 1));
        assert(vars@.take(at as int).last() == vars@[at - 1]);
        let var: &Variable = &vars[at - 1];
        if text::same(var.name.as_str(), name) {
            return if var.value.as_str().is_empty() {
                None
            } else {
                Some(var.value.clone())
            };
        }
        at = at - 1;
    }
    None
}

/// A setting, under its name, or under the one it had while the server was
/// UwUSSH Server (`UWUSSH_` for `UWUSYNC_`), so an `.env` from then still
/// counts. The new name wins where both are set.
pub fn var(vars: &Vec<Variable>, name: &str) -> (value: Option<String>)
    ensures
        text::string_view(value) == setting(vars@, name@),
{
    match read(vars, name) {
        Some(value) => Some(value),
        None => match legacy_name(name) {
            Some(before) => read(vars, before.as_str()),
            None => None,
        },
    }
}

/// The name a setting had while the server was UwUSSH Server, where it had one.
pub fn legacy_name(name: &str) -> (before: Option<String>)
    ensures
        text::string_view(before) == old_name(name@),
{
    let chars: Vec<char> = text::chars_of(name);
    match text::strip_prefix(chars.as_slice(), "UWUSYNC_") {
        Some(rest) => Some("UWUSSH_".to_owned().concat(text::string_of(rest.as_slice()).as_str())),
        None => None,
    }
}

/// A number a setting gives, or what to say of it.
pub open spec fn number_in(name: Seq<char>, value: Seq<char>) -> Result<u64, Seq<char>> {
    match text::unsigned(text::trimmed(value)) {
        Some(n) if n <= u64::MAX => Ok(n as u64),
        _ => Err(name + " is not a number: "@ + value),
    }
}

/// A number a setting gives, or what to say of it.
pub fn number(name: &str, value: &str) -> (read: Result<u64, String>)
    ensures
        match number_in(name@, value@) {
            Ok(n) => read == Ok::<u64, String>(n),
            Err(what) => read matches Err(said) && said@ == what,
        },
{
    let chars: Vec<char> = text::chars_of(value);
    let inner: Vec<char> = text::trim_chars(&chars);
    match text::unsigned_up_to(inner.as_slice(), u64::MAX) {
        Some(n) => Ok(n),
        None => Err(name.to_owned().concat(" is not a number: ").concat(value)),
    }
}

/// What a switch is set to, if it is on or off.
pub open spec fn switched(value: Seq<char>) -> Option<bool> {
    let word = text::word(value);
    if word == "on"@ || word == "1"@ || word == "true"@ || word == "yes"@ {
        Some(true)
    } else if word == "off"@ || word == "0"@ || word == "false"@ || word == "no"@ {
        Some(false)
    } else {
        None
    }
}

/// What a switch is set to, if it is on or off.
pub fn switch(value: &str) -> (on: Option<bool>)
    ensures
        on == switched(value@),
{
    let word: String = text::word_of(value);
    let word: &str = word.as_str();
    if text::same(word, "on") || text::same(word, "1") || text::same(word, "true") || text::same(
        word,
        "yes",
    ) {
        Some(true)
    } else if text::same(word, "off") || text::same(word, "0") || text::same(word, "false")
        || text::same(word, "no") {
        Some(false)
    } else {
        None
    }
}

/// Settings so far, or what is wrong with one of them.
pub type Reading = Result<ConfigView, Seq<char>>;

/// Where the server keeps things and listens, as an environment says.
/// `listen` is the address that `UWUSYNC_LISTEN` is, if it is one.
pub open spec fn places_read(vars: Seq<Variable>, listen: Option<Seq<char>>) -> Reading {
    let config = ConfigView {
        data_dir: match setting(vars, "UWUSYNC_DATA"@) {
            Some(dir) => dir,
            None => ConfigView::standard().data_dir,
        },
        public: setting(vars, "UWUSYNC_PUBLIC"@),
        ..ConfigView::standard()
    };
    match setting(vars, "UWUSYNC_LISTEN"@) {
        Some(value) => match listen {
            Some(listen) => Ok(ConfigView { listen, ..config }),
            None => Err("UWUSYNC_LISTEN is not an address: "@ + value),
        },
        None => Ok(config),
    }
}

/// Who may make an account, as an environment says.
pub open spec fn registration_read(config: ConfigView, vars: Seq<Variable>) -> Reading {
    match setting(vars, "UWUSYNC_REGISTRATION"@) {
        Some(value) => match Registration::named(value) {
            Some(registration) => Ok(ConfigView { registration, ..config }),
            None => Err("UWUSYNC_REGISTRATION must be open, invite or closed: "@ + value),
        },
        None => Ok(config),
    }
}

/// How devices connect, as an environment says.
pub open spec fn tls_read(config: ConfigView, vars: Seq<Variable>) -> Reading {
    match setting(vars, "UWUSYNC_TLS"@) {
        Some(value) => match TlsMode::named(value) {
            Some(tls) => Ok(ConfigView { tls, ..config }),
            None => Err("UWUSYNC_TLS must be auto or off: "@ + value),
        },
        None => Ok(config),
    }
}

/// Whether a forwarded address is believed, as an environment says.
pub open spec fn trust_read(config: ConfigView, vars: Seq<Variable>) -> Reading {
    match setting(vars, "UWUSYNC_TRUST_FORWARDED"@) {
        Some(value) => match switched(value) {
            Some(trust_forwarded) => Ok(ConfigView { trust_forwarded, ..config }),
            None => Err("UWUSYNC_TRUST_FORWARDED must be on or off: "@ + value),
        },
        None => Ok(config),
    }
}

/// How long a token lives, as an environment says.
pub open spec fn session_read(config: ConfigView, vars: Seq<Variable>) -> Reading {
    match setting(vars, "UWUSYNC_SESSION_SECS"@) {
        Some(value) => match text::unsigned(value) {
            Some(secs) if secs <= u64::MAX => Ok(
                ConfigView { session_secs: secs as u64, ..config },
            ),
            _ => Err("UWUSYNC_SESSION_SECS is not a number: "@ + value),
        },
        None => Ok(config),
    }
}

/// Whether updates are looked for, and which, as an environment says.
pub open spec fn updates_read(config: ConfigView, vars: Seq<Variable>) -> Reading {
    match setting(vars, "UWUSYNC_UPDATE_CHECK"@) {
        Some(value) => match switched(value) {
            Some(update_check) => Ok(
                ConfigView {
                    update_check,
                    channel: setting(vars, "UWUSYNC_CHANNEL"@),
                    ..config
                },
            ),
            None => Err("UWUSYNC_UPDATE_CHECK must be on or off: "@ + value),
        },
        None => Ok(ConfigView { channel: setting(vars, "UWUSYNC_CHANNEL"@), ..config }),
    }
}

/// How many accounts there may be, as an environment says.
pub open spec fn accounts_read(config: ConfigView, vars: Seq<Variable>) -> Reading {
    match setting(vars, "UWUSYNC_MAX_ACCOUNTS"@) {
        Some(value) => match number_in("UWUSYNC_MAX_ACCOUNTS"@, value) {
            Ok(max_accounts) => Ok(ConfigView { max_accounts, ..config }),
            Err(what) => Err(what),
        },
        None => Ok(config),
    }
}

/// How many records an account may hold, as an environment says.
pub open spec fn records_read(config: ConfigView, vars: Seq<Variable>) -> Reading {
    match setting(vars, "UWUSYNC_ACCOUNT_MAX_RECORDS"@) {
        Some(value) => match number_in("UWUSYNC_ACCOUNT_MAX_RECORDS"@, value) {
            Ok(records) => Ok(ConfigView { quota: Quota { records, ..config.quota }, ..config }),
            Err(what) => Err(what),
        },
        None => Ok(config),
    }
}

/// Megabytes as bytes, where that many can be.
pub open spec fn megabytes_in(name: Seq<char>, value: Seq<char>) -> Result<u64, Seq<char>> {
    match number_in(name, value) {
        Ok(n) => if n * 0x10_0000 <= u64::MAX {
            Ok((n * 0x10_0000) as u64)
        } else {
            Err(name + " is more than any disk"@)
        },
        Err(what) => Err(what),
    }
}

fn megabytes(name: &str, value: &str) -> (read: Result<u64, String>)
    ensures
        match megabytes_in(name@, value@) {
            Ok(n) => read == Ok::<u64, String>(n),
            Err(what) => read matches Err(said) && said@ == what,
        },
{
    match number(name, value) {
        Ok(n) => match n.checked_mul(0x10_0000) {
            Some(bytes) => Ok(bytes),
            None => Err(name.to_owned().concat(" is more than any disk")),
        },
        Err(what) => Err(what),
    }
}

/// How much an account may hold, as an environment says.
pub open spec fn bytes_read(config: ConfigView, vars: Seq<Variable>) -> Reading {
    match setting(vars, "UWUSYNC_ACCOUNT_MAX_MB"@) {
        Some(value) => match megabytes_in("UWUSYNC_ACCOUNT_MAX_MB"@, value) {
            Ok(bytes) => Ok(ConfigView { quota: Quota { bytes, ..config.quota }, ..config }),
            Err(what) => Err(what),
        },
        None => Ok(config),
    }
}

/// How much all accounts may hold, as an environment says.
pub open spec fn server_bytes_read(config: ConfigView, vars: Seq<Variable>) -> Reading {
    match setting(vars, "UWUSYNC_SERVER_MAX_MB"@) {
        Some(value) => match megabytes_in("UWUSYNC_SERVER_MAX_MB"@, value) {
            Ok(server_bytes) => Ok(
                ConfigView { quota: Quota { server_bytes, ..config.quota }, ..config },
            ),
            Err(what) => Err(what),
        },
        None => Ok(config),
    }
}

/// How many connections there may be, as an environment says.
pub open spec fn connections_read(config: ConfigView, vars: Seq<Variable>) -> Reading {
    match setting(vars, "UWUSYNC_MAX_CONNECTIONS"@) {
        Some(value) => match number_in("UWUSYNC_MAX_CONNECTIONS"@, value) {
            Ok(max) => if max as usize == 0 {
                Err("UWUSYNC_MAX_CONNECTIONS of 0 would let nobody in"@)
            } else {
                Ok(ConfigView { max_connections: max as usize, ..config })
            },
            Err(what) => Err(what),
        },
        None => Ok(config),
    }
}

/// How many connections one address may have, as an environment says.
pub open spec fn per_address_read(config: ConfigView, vars: Seq<Variable>) -> Reading {
    match setting(vars, "UWUSYNC_MAX_CONNECTIONS_PER_IP"@) {
        Some(value) => match number_in("UWUSYNC_MAX_CONNECTIONS_PER_IP"@, value) {
            Ok(max) => Ok(ConfigView { max_connections_per_address: max as usize, ..config }),
            Err(what) => Err(what),
        },
        None => Ok(config),
    }
}

/// Who may come in and how, as an environment says.
pub open spec fn access_read(config: ConfigView, vars: Seq<Variable>) -> Reading {
    match registration_read(config, vars) {
        Err(what) => Err(what),
        Ok(config) => match tls_read(config, vars) {
            Err(what) => Err(what),
            Ok(config) => match trust_read(config, vars) {
                Err(what) => Err(what),
                Ok(config) => match session_read(config, vars) {
                    Err(what) => Err(what),
                    Ok(config) => updates_read(config, vars),
                },
            },
        },
    }
}

/// What may be held, as an environment says.
pub open spec fn quota_read(config: ConfigView, vars: Seq<Variable>) -> Reading {
    match accounts_read(config, vars) {
        Err(what) => Err(what),
        Ok(config) => match records_read(config, vars) {
            Err(what) => Err(what),
            Ok(config) => match bytes_read(config, vars) {
                Err(what) => Err(what),
                Ok(config) => server_bytes_read(config, vars),
            },
        },
    }
}

/// How many connections may be open, as an environment says.
pub open spec fn connection_limits_read(config: ConfigView, vars: Seq<Variable>) -> Reading {
    match connections_read(config, vars) {
        Err(what) => Err(what),
        Ok(config) => per_address_read(config, vars),
    }
}

/// The settings an environment gives, or what is wrong with the first one that
/// is unusable.
pub open spec fn reading(vars: Seq<Variable>, listen: Option<Seq<char>>) -> Reading {
    match places_read(vars, listen) {
        Err(what) => Err(what),
        Ok(config) => match access_read(config, vars) {
            Err(what) => Err(what),
            Ok(config) => match quota_read(config, vars) {
                Err(what) => Err(what),
                Ok(config) => connection_limits_read(config, vars),
            },
        },
    }
}

/// Whether settings were read as they are, or refused for what is wrong.
pub open spec fn is_read(reading: Reading, config: ConfigView, read: Result<(), String>) -> bool {
    match reading {
        Ok(settings) => read is Ok && config == settings,
        Err(what) => read matches Err(said) && said@ == what,
    }
}

impl Config {
    fn read_registration(&mut self, vars: &Vec<Variable>) -> (read: Result<(), String>)
        ensures
            is_read(registration_read(old(self)@, vars@), final(self)@, read),
    {
        if let Some(value) = var(vars, "UWUSYNC_REGISTRATION") {
            match Registration::parse(value.as_str()) {
                Some(registration) => {
                    self.registration = registration;
                },
                None => {
                    return Err(
                        "UWUSYNC_REGISTRATION must be open, invite or closed: ".to_owned().concat(
                            value.as_str(),
                        ),
                    );
                },
            }
        }
        Ok(())
    }

    fn read_tls(&mut self, vars: &Vec<Variable>) -> (read: Result<(), String>)
        ensures
            is_read(tls_read(old(self)@, vars@), final(self)@, read),
    {
        if let Some(value) = var(vars, "UWUSYNC_TLS") {
            match TlsMode::parse(value.as_str()) {
                Some(tls) => {
                    self.tls = tls;
                },
                None => {
                    return Err("UWUSYNC_TLS must be auto or off: ".to_owned().concat(value.as_str()));
                },
            }
        }
        Ok(())
    }

    fn read_trust(&mut self, vars: &Vec<Variable>) -> (read: Result<(), String>)
        ensures
            is_read(trust_read(old(self)@, vars@), final(self)@, read),
    {
        if let Some(value) = var(vars, "UWUSYNC_TRUST_FORWARDED") {
            match switch(value.as_str()) {
                Some(trust) => {
                    self.trust_forwarded = trust;
                },
                None => {
                    return Err(
                        "UWUSYNC_TRUST_FORWARDED must be on or off: ".to_owned().concat(
                            value.as_str(),
                        ),
                    );
                },
            }
        }
        Ok(())
    }

    fn read_session(&mut self, vars: &Vec<Variable>) -> (read: Result<(), String>)
        ensures
            is_read(session_read(old(self)@, vars@), final(self)@, read),
    {
        if let Some(value) = var(vars, "UWUSYNC_SESSION_SECS") {
            let chars: Vec<char> = text::chars_of(value.as_str());
            match text::unsigned_up_to(chars.as_slice(), u64::MAX) {
                Some(secs) => {
                    self.session_secs = secs;
                },
                None => {
                    return Err(
                        "UWUSYNC_SESSION_SECS is not a number: ".to_owned().concat(value.as_str()),
                    );
                },
            }
        }
        Ok(())
    }

    fn read_updates(&mut self, vars: &Vec<Variable>) -> (read: Result<(), String>)
        ensures
            is_read(updates_read(old(self)@, vars@), final(self)@, read),
    {
        if let Some(value) = var(vars, "UWUSYNC_UPDATE_CHECK") {
            match switch(value.as_str()) {
                Some(check) => {
                    self.update_check = check;
                },
                None => {
                    return Err(
                        "UWUSYNC_UPDATE_CHECK must be on or off: ".to_owned().concat(
                            value.as_str(),
                        ),
                    );
                },
            }
        }
        self.channel = var(vars, "UWUSYNC_CHANNEL");
        Ok(())
    }

    fn read_access(&mut self, vars: &Vec<Variable>) -> (read: Result<(), String>)
        ensures
            is_read(access_read(old(self)@, vars@), final(self)@, read),
    {
        self.read_registration(vars)?;
        self.read_tls(vars)?;
        self.read_trust(vars)?;
        self.read_session(vars)?;
        self.read_updates(vars)
    }

    fn read_accounts(&mut self, vars: &Vec<Variable>) -> (read: Result<(), String>)
        ensures
            is_read(accounts_read(old(self)@, vars@), final(self)@, read),
    {
        if let Some(value) = var(vars, "UWUSYNC_MAX_ACCOUNTS") {
            self.max_accounts = number("UWUSYNC_MAX_ACCOUNTS", value.as_str())?;
        }
        Ok(())
    }

    fn read_records(&mut self, vars: &Vec<Variable>) -> (read: Result<(), String>)
        ensures
            is_read(records_read(old(self)@, vars@), final(self)@, read),
    {
        if let Some(value) = var(vars, "UWUSYNC_ACCOUNT_MAX_RECORDS") {
            self.quota.records = number("UWUSYNC_ACCOUNT_MAX_RECORDS", value.as_str())?;
        }
        Ok(())
    }

    fn read_bytes(&mut self, vars: &Vec<Variable>) -> (read: Result<(), String>)
        ensures
            is_read(bytes_read(old(self)@, vars@), final(self)@, read),
    {
        if let Some(value) = var(vars, "UWUSYNC_ACCOUNT_MAX_MB") {
            self.quota.bytes = megabytes("UWUSYNC_ACCOUNT_MAX_MB", value.as_str())?;
        }
        Ok(())
    }

    fn read_server_bytes(&mut self, vars: &Vec<Variable>) -> (read: Result<(), String>)
        ensures
            is_read(server_bytes_read(old(self)@, vars@), final(self)@, read),
    {
        if let Some(value) = var(vars, "UWUSYNC_SERVER_MAX_MB") {
            self.quota.server_bytes = megabytes("UWUSYNC_SERVER_MAX_MB", value.as_str())?;
        }
        Ok(())
    }

    fn read_quota(&mut self, vars: &Vec<Variable>) -> (read: Result<(), String>)
        ensures
            is_read(quota_read(old(self)@, vars@), final(self)@, read),
    {
        self.read_accounts(vars)?;
        self.read_records(vars)?;
        self.read_bytes(vars)?;
        self.read_server_bytes(vars)
    }

    fn read_connections(&mut self, vars: &Vec<Variable>) -> (read: Result<(), String>)
        ensures
            is_read(connections_read(old(self)@, vars@), final(self)@, read),
    {
        if let Some(value) = var(vars, "UWUSYNC_MAX_CONNECTIONS") {
            self.max_connections = number("UWUSYNC_MAX_CONNECTIONS", value.as_str())? as usize;
            if self.max_connections == 0 {
                return Err("UWUSYNC_MAX_CONNECTIONS of 0 would let nobody in".to_owned());
            }
        }
        Ok(())
    }

    fn read_per_address(&mut self, vars: &Vec<Variable>) -> (read: Result<(), String>)
        ensures
            is_read(per_address_read(old(self)@, vars@), final(self)@, read),
    {
        if let Some(value) = var(vars, "UWUSYNC_MAX_CONNECTIONS_PER_IP") {
            self.max_connections_per_address =
            number("UWUSYNC_MAX_CONNECTIONS_PER_IP", value.as_str())? as usize;
        }
        Ok(())
    }

    /// Read the environment. A variable that is set but unusable is an error
    /// rather than a default quietly taking over: a server that listens
    /// somewhere else than asked is worse than one that refuses to start.
    ///
    /// `listen` is the address that `UWUSYNC_LISTEN` is, if it is one.
    pub fn from_env(vars: &Vec<Variable>, listen: Option<String>) -> (config: Result<
        Config,
        String,
    >)
        ensures
            match reading(vars@, text::string_view(listen)) {
                Ok(settings) => config matches Ok(config) && config@ == settings,
                Err(what) => config matches Err(said) && said@ == what,
            },
    {
        let mut config: Config = Config::default();
        if let Some(dir) = var(vars, "UWUSYNC_DATA") {
            config.data_dir = dir;
        }
        if let Some(value) = var(vars, "UWUSYNC_LISTEN") {
            match &listen {
                Some(address) => {
                    config.listen = address.as_str().to_owned();
                },
                None => {
                    return Err(
                        "UWUSYNC_LISTEN is not an address: ".to_owned().concat(value.as_str()),
                    );
                },
            }
        }
        config.public = var(vars, "UWUSYNC_PUBLIC");
        assert(places_read(vars@, text::string_view(listen)) == Ok::<ConfigView, Seq<char>>(
            config@,
        ));
        config.read_access(vars)?;
        config.read_quota(vars)?;
        config.read_connections(vars)?;
        config.read_per_address(vars)?;
        Ok(config)
    }

    /// `uwusync.db`, or `uwussh.db` from before the server was called UwUSync,
    /// when that is the one there is. It keeps that name rather than being
    /// renamed: a rollback to a version from before would not find it under
    /// the new one, and start again empty.
    pub fn database(current_exists: bool, legacy_exists: bool) -> (name: &'static str)
        ensures
            name@ == if !current_exists && legacy_exists {
                "uwussh.db"@
            } else {
                "uwusync.db"@
            },
    {
        if !current_exists && legacy_exists {
            "uwussh.db"
        } else {
            "uwusync.db"
        }
    }

    /// Where the backups go, under the data directory.
    pub fn backups() -> (name: &'static str)
        ensures
            name@ == "backups"@,
    {
        "backups"
    }

    /// How a device writes this server down: the scheme follows whether the
    /// server does its own TLS, unless the address already says.
    pub fn base_url(&self) -> (url: String)
        ensures
            url@ == self@.base_url(),
    {
        let scheme: &str = match self.tls {
            TlsMode::Auto => "https",
            TlsMode::Off => "http",
        };
        match &self.public {
            Some(public) => {
                let chars: Vec<char> = text::chars_of(public.as_str());
                if text::holds(chars.as_slice(), "://") {
                    text::string_of(text::trim_slashes(&chars).as_slice())
                } else {
                    scheme.to_owned().concat("://").concat(public.as_str())
                }
            },
            None => scheme.to_owned().concat("://").concat(self.listen.as_str()),
        }
    }
}

/// Whether a variable is only set under the name it had before, given the
/// names of all.
pub open spec fn only_before(names: Seq<Seq<char>>, name: Seq<char>) -> bool {
    text::starts_with(name, "UWUSSH_"@) && !names.contains(
        "UWUSYNC_"@ + name.skip("UWUSSH_"@.len() as int),
    )
}

/// A sorted list with one more name in its place.
pub open spec fn placed(list: Seq<Seq<char>>, name: Seq<char>) -> Seq<Seq<char>>
    decreases list.len(),
{
    if list.len() > 0 && text::precedes(name, list.last()) {
        placed(list.drop_last(), name).push(list.last())
    } else {
        list.push(name)
    }
}

/// The variables among the first `n` that are only set under the name they had
/// before, sorted.
pub open spec fn legacy_among(names: Seq<Seq<char>>, n: nat) -> Seq<Seq<char>>
    decreases n,
{
    if n == 0 {
        Seq::empty()
    } else {
        let before = legacy_among(names, (n - 1) as nat);
        if only_before(names, names[n - 1]) {
            placed(before, names[n - 1])
        } else {
            before
        }
    }
}

fn is_set(names: &Vec<String>, name: &str) -> (set: bool)
    ensures
        set == text::strings_view(names@).contains(name@),
{
    for i in 0..names.len()
        invariant
            forall|j: int| 0 <= j < i ==> (#[trigger] text::strings_view(names@)[j]) != name@,
    {
        assert(text::strings_view(names@)[i as int] == names@[i as int]@);
        if text::same(names[i].as_str(), name) {
            return true;
        }
    }
    false
}

fn insert_name(list: &mut Vec<String>, name: String)
    ensures
        text::strings_view(final(list)@) == placed(text::strings_view(old(list)@), name@),
{
    let ghost before = text::strings_view(list@);
    let mut at: usize = list.len();
    assert(before.take(at as int) =~= before);
    assert(placed(before, name@) =~= placed(before.take(at as int), name@) + before.skip(at as int));
    while at > 0 && text::comes_before(name.as_str(), list[at - 1].as_str())
        invariant
            at <= list.len(),
            list@ == old(list)@,
            before == text::strings_view(list@),
            placed(before, name@) == placed(before.take(at as int), name@) + before.skip(at as int),
        decreases at,
    {
        proof {
            assert(before[at - 1] == list@[at - 1]@);
            assert(before.take(at as int).drop_last() =~= before.take(at - 1));
            assert(before.take(at as int).last() == before[at - 1]);
            assert(placed(before.take(at - 1), name@).push(before[at - 1]) + before.skip(at as int)
                =~= placed(before.take(at - 1), name@) + before.skip(at - 1));
        }
        at = at - 1;
    }
    proof {
        if at > 0 {
            assert(before.take(at as int).last() == list@[at - 1]@);
        }
    }
    let ghost added = name@;
    list.insert(at, name);
    assert(text::strings_view(list@) =~= before.take(at as int).push(added) + before.skip(at as int));
}

/// The settings that are only set under their old `UWUSSH_` name, for a
/// word in the log that they have a new one. `names` are the names of all
/// variables that are set.
pub fn legacy_variables(names: &Vec<String>) -> (legacy: Vec<String>)
    ensures
        text::strings_view(legacy@) == legacy_among(text::strings_view(names@), names@.len()),
{
    let ghost all = text::strings_view(names@);
    let mut legacy: Vec<String> = Vec::new();
    assert(text::strings_view(legacy@) =~= Seq::empty());
    for i in 0..names.len()
        invariant
            all == text::strings_view(names@),
            text::strings_view(legacy@) == legacy_among(all, i as nat),
    {
        assert(all[i as int] == names@[i as int]@);
        let chars: Vec<char> = text::chars_of(names[i].as_str());
        match text::strip_prefix(chars.as_slice(), "UWUSSH_") {
            Some(rest) => {
                let now: String = "UWUSYNC_".to_owned().concat(
                    text::string_of(rest.as_slice()).as_str(),
                );
                if !is_set(names, now.as_str()) {
                    insert_name(&mut legacy, names[i].clone());
                }
            },
            None => {},
        }
    }
    legacy
}

/// Whether a list is in the order of a dictionary.
pub open spec fn sorted(list: Seq<Seq<char>>) -> bool {
    forall|i: int, j: int|
        0 <= i < j < list.len() ==> !text::precedes(#[trigger] list[j], #[trigger] list[i])
}

proof fn lemma_placed_sorted(list: Seq<Seq<char>>, name: Seq<char>)
    requires
        sorted(list),
    ensures
        sorted(placed(list, name)),
        forall|any: Seq<char>| #[trigger]
            placed(list, name).contains(any) <==> any == name || list.contains(any),
    decreases list.len(),
{
    let after = placed(list, name);
    if list.len() > 0 && text::precedes(name, list.last()) {
        let rest = list.drop_last();
        assert(sorted(rest));
        lemma_placed_sorted(rest, name);
        let inner = placed(rest, name);
        assert forall|i: int, j: int| 0 <= i < j < after.len() implies !text::precedes(
            #[trigger] after[j],
            #[trigger] after[i],
        ) by {
            assert(after[i] == inner[i]);
            if j < inner.len() {
                assert(after[j] == inner[j]);
            } else {
                assert(inner.contains(inner[i]));
                if inner[i] == name {
                    text::lemma_precedes_is_total(name, list.last());
                } else {
                    let k = choose|k: int| 0 <= k < rest.len() && rest[k] == inner[i];
                    assert(list[k] == inner[i]);
                    assert(list[list.len() - 1] == list.last());
                }
            }
        }
        assert forall|any: Seq<char>| #[trigger] after.contains(any) <==> any == name
            || list.contains(any) by {
            if after.contains(any) {
                let k = choose|k: int| 0 <= k < after.len() && after[k] == any;
                if k < inner.len() {
                    assert(inner[k] == any);
                    assert(inner.contains(any));
                    if any != name {
                        let l = choose|l: int| 0 <= l < rest.len() && rest[l] == any;
                        assert(list[l] == any);
                    }
                } else {
                    assert(list[list.len() - 1] == any);
                }
            }
            if any == name || list.contains(any) {
                if any != name {
                    let l = choose|l: int| 0 <= l < list.len() && list[l] == any;
                    if l < rest.len() {
                        assert(rest[l] == any);
                    }
                }
                if any == name || rest.contains(any) {
                    assert(inner.contains(any));
                    let k = choose|k: int| 0 <= k < inner.len() && inner[k] == any;
                    assert(after[k] == any);
                } else {
                    assert(after.last() == any);
                }
            }
        }
    } else {
        assert forall|i: int, j: int| 0 <= i < j < after.len() implies !text::precedes(
            #[trigger] after[j],
            #[trigger] after[i],
        ) by {
            if j == list.len() {
                assert(after[i] == list[i]);
                if text::precedes(name, list[i]) {
                    let last = list[list.len() - 1];
                    if i < list.len() - 1 {
                        assert(!text::precedes(last, list[i]));
                        text::lemma_precedes_is_total(last, list[i]);
                        if last != list[i] {
                            text::lemma_precedes_is_transitive(name, list[i], last);
                        }
                    }
                }
            } else {
                assert(after[i] == list[i] && after[j] == list[j]);
            }
        }
        assert forall|any: Seq<char>| #[trigger] after.contains(any) <==> any == name
            || list.contains(any) by {
            if after.contains(any) {
                let k = choose|k: int| 0 <= k < after.len() && after[k] == any;
                if k < list.len() {
                    assert(list[k] == any);
                }
            }
            if any == name {
                assert(after.last() == any);
            } else if list.contains(any) {
                let k = choose|k: int| 0 <= k < list.len() && list[k] == any;
                assert(after[k] == any);
            }
        }
    }
}

/// The old names are listed in order, each one that is only set as such and
/// nothing else.
pub proof fn old_names_are_listed_in_order(names: Seq<Seq<char>>, n: nat)
    requires
        n <= names.len(),
    ensures
        sorted(legacy_among(names, n)),
        forall|name: Seq<char>| #[trigger]
            legacy_among(names, n).contains(name) <==> names.take(n as int).contains(name)
                && only_before(names, name),
    decreases n,
{
    if n > 0 {
        let m = (n - 1) as nat;
        old_names_are_listed_in_order(names, m);
        lemma_placed_sorted(legacy_among(names, m), names[n - 1]);
        assert forall|name: Seq<char>| #[trigger] legacy_among(names, n).contains(name)
            <==> names.take(n as int).contains(name) && only_before(names, name) by {
            assert(legacy_among(names, m).contains(name) <==> names.take(m as int).contains(name)
                && only_before(names, name));
            assert(placed(legacy_among(names, m), names[n - 1]).contains(name) <==> name
                == names[n - 1] || legacy_among(names, m).contains(name));
            if names.take(n as int).contains(name) {
                let k = choose|k: int| 0 <= k < n && names.take(n as int)[k] == name;
                if k < m {
                    assert(names.take(m as int)[k] == name);
                }
            }
            if names.take(m as int).contains(name) {
                let k = choose|k: int| 0 <= k < m && names.take(m as int)[k] == name;
                assert(names.take(n as int)[k] == name);
            }
            assert(names.take(n as int)[n - 1] == names[n - 1]);
        }
    }
}

} // verus!
