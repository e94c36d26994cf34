//! How the server is told what to do.

use crate::config::{
    legacy_among, megabytes_in, number_in, old_name, only_before, placed, reading, setting,
    switched, value_of, Config, ConfigView, Registration, TlsMode, Variable,
};
use crate::db::records::Quota;
use crate::text;
use vstd::prelude::*;

verus! {

/// What is said of the settings is said of each of them.
pub proof fn nothing_is_left_out(config: Config)
    ensures
        config@.data_dir == config.data_dir@,
        config@.listen == config.listen@,
        config@.public == text::string_view(config.public),
        config@.registration == config.registration,
        config@.tls == config.tls,
        config@.trust_forwarded == config.trust_forwarded,
        config@.session_secs == config.session_secs,
        config@.update_check == config.update_check,
        config@.channel == text::string_view(config.channel),
        config@.max_accounts == config.max_accounts,
        config@.quota == config.quota,
        config@.max_connections == config.max_connections,
        config@.max_connections_per_address == config.max_connections_per_address,
        config@.kdf_floor == config.kdf_floor,
{
}

/// What holds unless something else is said.
pub proof fn what_holds_unless_it_is_said()
    ensures
        ({
            let config = ConfigView::standard();
            &&& config.data_dir == "./data"@
            &&& config.listen == "0.0.0.0:8443"@
            &&& config.public is None
            &&& config.registration == Registration::Invite
            &&& config.tls == TlsMode::Auto
            &&& !config.trust_forwarded
            &&& config.session_secs == 60 * 60
            &&& config.update_check
            &&& config.channel is None
            &&& config.max_accounts == 100
            &&& config.quota.records == 100_000
            &&& config.quota.bytes == 256 * 1024 * 1024
            &&& config.quota.server_bytes == 2048 * 1024 * 1024
            &&& config.max_connections == 512
            &&& config.max_connections_per_address == 32
            &&& config.kdf_floor.memory_kib == 19 * 1024
            &&& config.kdf_floor.time_cost == 2
        }),
{
}

/// The words for how a server is run, in whatever letters.
pub proof fn words_for_modes(value: Seq<char>)
    ensures
        ({
            let word = text::lower(text::trimmed(value));
            &&& word == "auto"@ || word == "on"@ || word == "1"@ || word == "true"@
                ==> TlsMode::named(value) == Some(TlsMode::Auto)
            &&& word == "off"@ || word == "0"@ || word == "false"@ || word == "proxy"@
                ==> TlsMode::named(value) == Some(TlsMode::Off)
            &&& TlsMode::named(value) is Some ==> word == "auto"@ || word == "on"@ || word == "1"@
                || word == "true"@ || word == "off"@ || word == "0"@ || word == "false"@ || word
                == "proxy"@
            &&& word == "open"@ ==> Registration::named(value) == Some(Registration::Open)
            &&& word == "invite"@ ==> Registration::named(value) == Some(Registration::Invite)
            &&& word == "closed"@ ==> Registration::named(value) == Some(Registration::Closed)
            &&& Registration::named(value) is Some ==> word == "open"@ || word == "invite"@ || word
                == "closed"@
        }),
{
    reveal_strlit("auto");
    reveal_strlit("on");
    reveal_strlit("1");
    reveal_strlit("true");
    reveal_strlit("off");
    reveal_strlit("0");
    reveal_strlit("false");
    reveal_strlit("proxy");
    reveal_strlit("open");
    reveal_strlit("invite");
    reveal_strlit("closed");
    assert("auto"@[0] == 'a');
    assert("on"@[0] == 'o');
    assert("1"@[0] == '1');
    assert("true"@[0] == 't');
    assert("off"@[0] == 'o');
    assert("0"@[0] == '0');
    assert("false"@[0] == 'f');
    assert("proxy"@[0] == 'p');
    assert("open"@[0] == 'o');
    assert("invite"@[0] == 'i');
    assert("closed"@[0] == 'c');
    assert("on"@[1] == 'n' && "off"@[1] == 'f' && "open"@[1] == 'p');
}

/// The words for on and off, in whatever letters.
pub proof fn words_for_switches(value: Seq<char>)
    ensures
        ({
            let word = text::lower(text::trimmed(value));
            &&& word == "on"@ || word == "1"@ || word == "true"@ || word == "yes"@ ==> switched(
                value,
            ) == Some(true)
            &&& word == "off"@ || word == "0"@ || word == "false"@ || word == "no"@ ==> switched(
                value,
            ) == Some(false)
            &&& switched(value) is Some ==> word == "on"@ || word == "1"@ || word == "true"@ || word
                == "yes"@ || word == "off"@ || word == "0"@ || word == "false"@ || word == "no"@
        }),
{
    reveal_strlit("on");
    reveal_strlit("1");
    reveal_strlit("true");
    reveal_strlit("yes");
    reveal_strlit("off");
    reveal_strlit("0");
    reveal_strlit("false");
    reveal_strlit("no");
    assert("on"@[0] == 'o');
    assert("1"@[0] == '1');
    assert("true"@[0] == 't');
    assert("yes"@[0] == 'y');
    assert("off"@[0] == 'o');
    assert("0"@[0] == '0');
    assert("false"@[0] == 'f');
    assert("no"@[0] == 'n');
    assert("on"@[1] == 'n' && "off"@[1] == 'f');
}

/// The last word on a variable counts, and an empty one is none.
pub proof fn the_last_word_counts(vars: Seq<Variable>, var: Variable, name: Seq<char>)
    ensures
        value_of(Seq::empty(), name) is None,
        var.name@ == name && var.value@.len() > 0 ==> value_of(vars.push(var), name) == Some(
            var.value@,
        ),
        var.name@ == name && var.value@.len() == 0 ==> value_of(vars.push(var), name) is None,
        var.name@ != name ==> value_of(vars.push(var), name) == value_of(vars, name),
{
    assert(vars.push(var).drop_last() =~= vars);
}

/// A setting may be told under the name it had before, but the new one counts
/// first.
pub proof fn the_new_name_counts_first(vars: Seq<Variable>, name: Seq<char>, rest: Seq<char>)
    ensures
        old_name("UWUSYNC_"@ + rest) == Some("UWUSSH_"@ + rest),
        !text::starts_with(name, "UWUSYNC_"@) ==> old_name(name) is None,
        value_of(vars, name) is Some ==> setting(vars, name) == value_of(vars, name),
        value_of(vars, "UWUSYNC_"@ + rest) is None ==> setting(vars, "UWUSYNC_"@ + rest)
            == value_of(vars, "UWUSSH_"@ + rest),
{
    reveal_strlit("UWUSYNC_");
    let whole = "UWUSYNC_"@ + rest;
    assert(whole.take("UWUSYNC_"@.len() as int) =~= "UWUSYNC_"@);
    assert(whole.skip("UWUSYNC_"@.len() as int) =~= rest);
}

/// A number is digits, white space around it aside, no larger than fits; a size
/// in megabytes is so many times 1048576 bytes.
pub proof fn numbers_are_digits(name: Seq<char>, value: Seq<char>)
    ensures
        ({
            let n = text::unsigned(text::trimmed(value));
            &&& n is Some && n->Some_0 <= u64::MAX ==> number_in(name, value) == Ok::<
                u64,
                Seq<char>,
            >(n->Some_0 as u64)
            &&& n is None || n->Some_0 > u64::MAX ==> number_in(name, value) == Err::<
                u64,
                Seq<char>,
            >(name + " is not a number: "@ + value)
            &&& n is Some && n->Some_0 * 1_048_576 <= u64::MAX ==> megabytes_in(name, value)
                is Ok && megabytes_in(name, value)->Ok_0 == n->Some_0 * 1_048_576
            &&& n is Some && n->Some_0 <= u64::MAX && n->Some_0 * 1_048_576 > u64::MAX
                ==> megabytes_in(name, value) == Err::<u64, Seq<char>>(
                name + " is more than any disk"@,
            )
            &&& n is None ==> megabytes_in(name, value) is Err
        }),
{
}

/// The settings that are read are those that are told, each of them, and what
/// holds anyway where nothing is.
pub proof fn the_settings_are_what_is_told(vars: Seq<Variable>, listen: Option<Seq<char>>)
    requires
        reading(vars, listen) is Ok,
    ensures
        ({
            let config = reading(vars, listen)->Ok_0;
            &&& config.data_dir == match setting(vars, "UWUSYNC_DATA"@) {
                Some(dir) => dir,
                None => "./data"@,
            }
            &&& config.public == setting(vars, "UWUSYNC_PUBLIC"@)
            &&& config.channel == setting(vars, "UWUSYNC_CHANNEL"@)
            &&& match setting(vars, "UWUSYNC_LISTEN"@) {
                Some(_) => listen == Some(config.listen),
                None => config.listen == "0.0.0.0:8443"@,
            }
            &&& match setting(vars, "UWUSYNC_REGISTRATION"@) {
                Some(value) => Registration::named(value) == Some(config.registration),
                None => config.registration == Registration::Invite,
            }
            &&& match setting(vars, "UWUSYNC_TLS"@) {
                Some(value) => TlsMode::named(value) == Some(config.tls),
                None => config.tls == TlsMode::Auto,
            }
            &&& match setting(vars, "UWUSYNC_TRUST_FORWARDED"@) {
                Some(value) => switched(value) == Some(config.trust_forwarded),
                None => !config.trust_forwarded,
            }
            &&& match setting(vars, "UWUSYNC_SESSION_SECS"@) {
                Some(value) => text::unsigned(value) == Some(config.session_secs as nat),
                None => config.session_secs == 3600,
            }
            &&& match setting(vars, "UWUSYNC_UPDATE_CHECK"@) {
                Some(value) => switched(value) == Some(config.update_check),
                None => config.update_check,
            }
            &&& match setting(vars, "UWUSYNC_MAX_ACCOUNTS"@) {
                Some(value) => text::unsigned(text::trimmed(value)) == Some(
                    config.max_accounts as nat,
                ),
                None => config.max_accounts == 100,
            }
            &&& match setting(vars, "UWUSYNC_ACCOUNT_MAX_RECORDS"@) {
                Some(value) => text::unsigned(text::trimmed(value)) == Some(
                    config.quota.records as nat,
                ),
                None => config.quota.records == 100_000,
            }
            &&& match setting(vars, "UWUSYNC_ACCOUNT_MAX_MB"@) {
                Some(value) => text::unsigned(text::trimmed(value)) is Some && config.quota.bytes
                    == text::unsigned(text::trimmed(value))->Some_0 * 1_048_576,
                None => config.quota.bytes == 268_435_456,
            }
            &&& match setting(vars, "UWUSYNC_SERVER_MAX_MB"@) {
                Some(value) => text::unsigned(text::trimmed(value)) is Some
                    && config.quota.server_bytes == text::unsigned(text::trimmed(value))->Some_0
                    * 1_048_576,
                None => config.quota.server_bytes == 2_147_483_648,
            }
            &&& match setting(vars, "UWUSYNC_MAX_CONNECTIONS"@) {
                Some(value) => text::unsigned(text::trimmed(value)) is Some
                    && config.max_connections == (text::unsigned(
                    text::trimmed(value),
                )->Some_0 as u64) as usize && config.max_connections != 0,
                None => config.max_connections == 512,
            }
            &&& match setting(vars, "UWUSYNC_MAX_CONNECTIONS_PER_IP"@) {
                Some(value) => text::unsigned(text::trimmed(value)) is Some
                    && config.max_connections_per_address == (text::unsigned(
                    text::trimmed(value),
                )->Some_0 as u64) as usize,
                None => config.max_connections_per_address == 32,
            }
            &&& config.kdf_floor.memory_kib == 19_456
            &&& config.kdf_floor.time_cost == 2
        }),
{
}

/// The settings are only refused where one of them says what cannot be.
pub proof fn what_can_be_is_read(vars: Seq<Variable>, listen: Option<Seq<char>>)
    ensures
        reading(vars, listen) is Ok <==> ({
            let number = |name: Seq<char>|
                setting(vars, name) is Some ==> text::unsigned(
                    text::trimmed(setting(vars, name)->Some_0),
                ) is Some && text::unsigned(text::trimmed(setting(vars, name)->Some_0))->Some_0
                    <= u64::MAX;
            let size = |name: Seq<char>|
                setting(vars, name) is Some ==> text::unsigned(
                    text::trimmed(setting(vars, name)->Some_0),
                ) is Some && text::unsigned(text::trimmed(setting(vars, name)->Some_0))->Some_0
                    * 1_048_576 <= u64::MAX;
            let switch = |name: Seq<char>|
                setting(vars, name) is Some ==> switched(setting(vars, name)->Some_0) is Some;
            let secs = setting(vars, "UWUSYNC_SESSION_SECS"@);
            &&& setting(vars, "UWUSYNC_LISTEN"@) is Some ==> listen is Some
            &&& setting(vars, "UWUSYNC_REGISTRATION"@) is Some ==> Registration::named(
                setting(vars, "UWUSYNC_REGISTRATION"@)->Some_0,
            ) is Some
            &&& setting(vars, "UWUSYNC_TLS"@) is Some ==> TlsMode::named(
                setting(vars, "UWUSYNC_TLS"@)->Some_0,
            ) is Some
            &&& switch("UWUSYNC_TRUST_FORWARDED"@)
            &&& secs is Some ==> text::unsigned(secs->Some_0) is Some && text::unsigned(
                secs->Some_0,
            )->Some_0 <= u64::MAX
            &&& switch("UWUSYNC_UPDATE_CHECK"@)
            &&& number("UWUSYNC_MAX_ACCOUNTS"@)
            &&& number("UWUSYNC_ACCOUNT_MAX_RECORDS"@)
            &&& size("UWUSYNC_ACCOUNT_MAX_MB"@)
            &&& size("UWUSYNC_SERVER_MAX_MB"@)
            &&& number("UWUSYNC_MAX_CONNECTIONS"@)
            &&& setting(vars, "UWUSYNC_MAX_CONNECTIONS"@) is Some ==> (text::unsigned(
                text::trimmed(setting(vars, "UWUSYNC_MAX_CONNECTIONS"@)->Some_0),
            )->Some_0 as u64) as usize != 0
            &&& number("UWUSYNC_MAX_CONNECTIONS_PER_IP"@)
        }),
{
}

/// Where the server says it is found: under the address it is told, and else
/// where it listens, with the scheme that goes with its certificate.
pub proof fn where_the_server_is_found(config: ConfigView)
    ensures
        config.public is None && config.tls == TlsMode::Auto ==> config.base_url() == "https"@
            + "://"@ + config.listen,
        config.public is None && config.tls == TlsMode::Off ==> config.base_url() == "http"@
            + "://"@ + config.listen,
        config.public matches Some(public) ==> {
            &&& text::contains(public, "://"@) ==> config.base_url() == text::without_slashes(
                public,
            )
            &&& !text::contains(public, "://"@) && config.tls == TlsMode::Auto
                ==> config.base_url() == "https"@ + "://"@ + public
            &&& !text::contains(public, "://"@) && config.tls == TlsMode::Off ==> config.base_url()
                == "http"@ + "://"@ + public
        },
{
}

/// Every old name is listed that stands without its new one, as often as it is
/// there.
pub proof fn old_names_are_listed(names: Seq<Seq<char>>, n: nat, rest: Seq<char>, name: Seq<char>)
    requires
        n <= names.len(),
    ensures
        only_before(names, "UWUSSH_"@ + rest) <==> !names.contains("UWUSYNC_"@ + rest),
        !text::starts_with(name, "UWUSSH_"@) ==> !only_before(names, name),
        legacy_among(names, n).to_multiset() == names.take(n as int).filter(
            |name: Seq<char>| only_before(names, name),
        ).to_multiset(),
    decreases n,
{
    reveal_strlit("UWUSSH_");
    let whole = "UWUSSH_"@ + rest;
    assert(whole.take("UWUSSH_"@.len() as int) =~= "UWUSSH_"@);
    assert(whole.skip("UWUSSH_"@.len() as int) =~= rest);
    reveal(Seq::filter);
    broadcast use vstd::seq_lib::group_to_multiset_ensures;

    if n > 0 {
        let m = (n - 1) as nat;
        old_names_are_listed(names, m, rest, name);
        assert(names.take(n as int).drop_last() =~= names.take(m as int));
        assert(names.take(n as int).last() == names[m as int]);
        lemma_placed_adds(legacy_among(names, m), names[m as int]);
    } else {
        assert(names.take(0) =~= Seq::empty());
    }
}

proof fn lemma_placed_adds(list: Seq<Seq<char>>, name: Seq<char>)
    ensures
        placed(list, name).to_multiset() == list.to_multiset().insert(name),
    decreases list.len(),
{
    broadcast use vstd::seq_lib::group_to_multiset_ensures;

    if list.len() > 0 && text::precedes(name, list.last()) {
        lemma_placed_adds(list.drop_last(), name);
        assert(list.drop_last().push(list.last()) =~= list);
        assert(placed(list, name).to_multiset() =~= list.to_multiset().insert(name));
    }
}

/// What an account may hold unless the server is told otherwise.
pub proof fn what_an_account_may_hold()
    ensures
        Quota::standard().records == 100_000,
        Quota::standard().bytes == 268_435_456,
        Quota::standard().server_bytes == 2_147_483_648,
{
}

} // verus!
