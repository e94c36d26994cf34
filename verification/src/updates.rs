//! Knowing when there is something newer.
//!
//! Once a day the server asks GitHub which releases there are and, when one on
//! its channel is newer than itself, says so in its log along with the one
//! command that updates it. A build of `main` (the `edge` tag) asks how many
//! commits came since instead. That is the only connection this server ever
//! opens on its own, and `UWUSYNC_UPDATE_CHECK=off` stops it.
//!
//! Updating is not something the server does to itself: `update.sh` does it on
//! the machine, with a backup first and the old version back if the new one
//! does not come up. A sync server that can replace itself from the network is
//! one more way in, and the script does the job better anyway: it can bring a
//! new compose file too.

use crate::text;
use std::cmp::Ordering;
use vstd::prelude::*;
use vstd::string::StringExecFns;

verus! {

/// How often GitHub is asked.
pub const CHECK_EVERY_SECS: u64 = 24 * 60 * 60;

/// How many bytes of an answer are read at most, whatever the other end says
/// the length is.
pub const MAX_RESPONSE: usize = 2 * 1024 * 1024;

/// Where this server comes from.
pub const PACKAGE_REPOSITORY: &'static str = "https://github.com/MinifyX/UwUSync-Server";

/// What this binary is: its version, and for a CI build its commit and
/// whether it was built from a release tag.
#[derive(Debug, Clone, Copy)]
pub struct Build {
    pub version: &'static str,
    pub commit: Option<&'static str>,
    /// Built from a `v…` tag. Otherwise it is an `edge` build of `main`, or
    /// one made by hand.
    pub release: bool,
}

/// What this binary is, given its version and what its build was told: the
/// commit and the release tag, either of which may be missing or empty.
pub fn build(
    version: &'static str,
    commit: Option<&'static str>,
    release: Option<&'static str>,
) -> (build: Build)
    ensures
        build.version == version,
        build.commit == match commit {
            Some(sha) if sha@.len() > 0 => Some(sha),
            _ => None,
        },
        build.release == (release is Some && release->Some_0@.len() > 0),
{
    Build {
        version,
        commit: match commit {
            Some(sha) => if sha.is_empty() {
                None
            } else {
                Some(sha)
            },
            None => None,
        },
        release: match release {
            Some(tag) => !tag.is_empty(),
            None => false,
        },
    }
}

/// A text without a start that it has, however often it has it.
pub open spec fn without_start(text: Seq<char>, start: Seq<char>) -> Seq<char>
    decreases text.len(),
{
    if start.len() > 0 && text::starts_with(text, start) {
        without_start(text.skip(start.len() as int), start)
    } else {
        text
    }
}

fn strip_start(chars: Vec<char>, start: &str) -> (rest: Vec<char>)
    requires
        start@.len() > 0,
    ensures
        rest@ == without_start(chars@, start@),
{
    let mut rest: Vec<char> = chars;
    loop
        invariant
            start@.len() > 0,
            without_start(rest@, start@) == without_start(chars@, start@),
        ensures
            rest@ == without_start(chars@, start@),
        decreases rest@.len(),
    {
        match text::strip_prefix(rest.as_slice(), start) {
            Some(shorter) => {
                rest = shorter;
            },
            None => {
                break;
            },
        }
    }
    rest
}

/// `owner/name` of a repository at GitHub.
pub fn repository_of(url: &str) -> (name: String)
    ensures
        name@ == text::without_slashes(without_start(url@, "https://github.com/"@)),
{
    proof {
        reveal_strlit("https://github.com/");
    }
    let rest: Vec<char> = strip_start(text::chars_of(url), "https://github.com/");
    text::string_of(text::trim_slashes(&rest).as_slice())
}

/// `owner/name` of the repository this server comes from.
pub fn repository() -> (name: String)
    ensures
        name@ == text::without_slashes(
            without_start(PACKAGE_REPOSITORY@, "https://github.com/"@),
        ),
{
    repository_of(PACKAGE_REPOSITORY)
}

/// Which releases count as newer.
#[derive(Debug, Clone, Copy, PartialEq, Eq, Structural)]
pub enum Channel {
    /// Stable releases only, what the `latest` tag follows.
    Stable,
    /// Every release, betas included: the `beta` tag.
    Beta,
}

impl Channel {
    /// The channel of a machine that follows a tag and runs a version.
    pub open spec fn for_tag(followed: Option<Seq<char>>, running: Seq<char>) -> Channel {
        if (followed is Some && text::word(followed->Some_0) == "beta"@) || running.contains('-') {
            Channel::Beta
        } else {
            Channel::Stable
        }
    }

    /// From the tag the machine follows (`UWUSYNC_VERSION` in `.env`, handed in
    /// as `UWUSYNC_CHANNEL`), and from what is running: a beta that is told
    /// about stable releases only would hear nothing until the next one.
    pub fn of(followed: Option<&str>, running: &str) -> (channel: Channel)
        ensures
            channel == Channel::for_tag(text::str_view(followed), running@),
    {
        let beta: bool = match followed {
            Some(tag) => {
                let word: String = text::word_of(tag);
                text::same(word.as_str(), "beta")
            },
            None => false,
        };
        let chars: Vec<char> = text::chars_of(running);
        if beta || has_char(&chars, '-') {
            Channel::Beta
        } else {
            Channel::Stable
        }
    }
}

fn has_char(chars: &Vec<char>, c: char) -> (there: bool)
    ensures
        there == chars@.contains(c),
{
    for i in 0..chars.len()
        invariant
            forall|j: int| 0 <= j < i ==> (#[trigger] chars@[j]) != c,
    {
        if chars[i] == c {
            return true;
        }
    }
    false
}

/// How two things are ordered.
#[derive(Debug, Clone, Copy, PartialEq, Eq, Structural)]
pub enum Order {
    Less,
    Equal,
    Greater,
}

/// The order of two numbers.
pub open spec fn number_order(a: int, b: int) -> Order {
    if a < b {
        Order::Less
    } else if a > b {
        Order::Greater
    } else {
        Order::Equal
    }
}

/// The order of two texts.
pub open spec fn text_order(a: Seq<char>, b: Seq<char>) -> Order {
    if text::precedes(a, b) {
        Order::Less
    } else if text::precedes(b, a) {
        Order::Greater
    } else {
        Order::Equal
    }
}

/// The order of two lists of numbers: the first difference decides, then the
/// length.
pub open spec fn numbers_order(a: Seq<u64>, b: Seq<u64>) -> Order
    decreases a.len(),
{
    if a.len() == 0 || b.len() == 0 {
        number_order(a.len() as int, b.len() as int)
    } else if a[0] != b[0] {
        number_order(a[0] as int, b[0] as int)
    } else {
        numbers_order(a.skip(1), b.skip(1))
    }
}

/// The number a part of a pre-release is, where it is one.
pub open spec fn part_number(part: Seq<char>) -> Option<nat> {
    match text::unsigned(part) {
        Some(n) if n <= u64::MAX => Some(n),
        _ => None,
    }
}

/// The order of two parts of a pre-release: as numbers where both are, as
/// texts otherwise.
pub open spec fn part_order(a: Seq<char>, b: Seq<char>) -> Order {
    match (part_number(a), part_number(b)) {
        (Some(a), Some(b)) => number_order(a as int, b as int),
        _ => text_order(a, b),
    }
}

/// The order of two pre-releases of one version: the first difference
/// decides, then the length.
pub open spec fn parts_order(a: Seq<Seq<char>>, b: Seq<Seq<char>>) -> Order
    decreases a.len(),
{
    if a.len() == 0 || b.len() == 0 {
        number_order(a.len() as int, b.len() as int)
    } else if part_order(a[0], b[0]) != Order::Equal {
        part_order(a[0], b[0])
    } else {
        parts_order(a.skip(1), b.skip(1))
    }
}

/// A version as comparable parts: the numbers, and what a pre-release adds.
pub struct Key {
    pub numbers: Seq<u64>,
    pub pre: Option<Seq<Seq<char>>>,
}

/// Where the first dash of a text is, its length if there is none.
pub open spec fn first_dash(text: Seq<char>) -> int
    decreases text.len(),
{
    if text.len() == 0 || text[0] == '-' {
        0
    } else {
        1 + first_dash(text.skip(1))
    }
}

/// The numbers of a version, where each part is one.
pub open spec fn numbers_in(parts: Seq<Seq<char>>) -> Option<Seq<u64>>
    decreases parts.len(),
{
    if parts.len() == 0 {
        Some(Seq::empty())
    } else {
        match (numbers_in(parts.drop_last()), part_number(parts.last())) {
            (Some(rest), Some(n)) => Some(rest.push(n as u64)),
            _ => None,
        }
    }
}

/// A version as it is compared: without white space around it and a `v` in
/// front of it.
pub open spec fn plain_version(version: Seq<char>) -> Seq<char> {
    without_start(text::trimmed(version), "v"@)
}

/// `1.2.3-beta.4` as comparable parts.
pub open spec fn key_of(version: Seq<char>) -> Option<Key> {
    let plain = plain_version(version);
    let dash = first_dash(plain);
    match numbers_in(text::split(plain.take(dash), '.')) {
        None => None,
        Some(numbers) => Some(
            Key {
                numbers,
                pre: if dash < plain.len() {
                    Some(text::split(plain.skip(dash + 1), '.'))
                } else {
                    None
                },
            },
        ),
    }
}

/// The order of two versions; a pre-release sorts before its release.
pub open spec fn keys_order(a: Key, b: Key) -> Order {
    if numbers_order(a.numbers, b.numbers) != Order::Equal {
        numbers_order(a.numbers, b.numbers)
    } else {
        match (a.pre, b.pre) {
            (None, None) => Order::Equal,
            (None, Some(_)) => Order::Greater,
            (Some(_), None) => Order::Less,
            (Some(a), Some(b)) => parts_order(a, b),
        }
    }
}

/// The order of two versions; what is no version is neither newer nor older
/// than anything.
pub open spec fn versions_order(a: Seq<char>, b: Seq<char>) -> Order {
    match (key_of(a), key_of(b)) {
        (Some(a), Some(b)) => keys_order(a, b),
        _ => Order::Equal,
    }
}

struct VersionKey {
    numbers: Vec<u64>,
    pre: Option<Vec<Vec<char>>>,
}

impl View for VersionKey {
    type V = Key;

    closed spec fn view(&self) -> Key {
        Key {
            numbers: self.numbers@,
            pre: match self.pre {
                Some(parts) => Some(text::pieces_view(parts@)),
                None => None,
            },
        }
    }
}

proof fn lemma_first_dash(chars: Seq<char>, n: int)
    requires
        0 <= n <= chars.len(),
        forall|i: int| 0 <= i < n ==> (#[trigger] chars[i]) != '-',
        n < chars.len() ==> chars[n] == '-',
    ensures
        first_dash(chars) == n,
    decreases n,
{
    if n > 0 {
        assert(chars[0] != '-');
        let rest = chars.skip(1);
        assert forall|i: int| 0 <= i < n - 1 implies (#[trigger] rest[i]) != '-' by {
            assert(rest[i] == chars[i + 1]);
        }
        if n < chars.len() {
            assert(rest[n - 1] == chars[n]);
        }
        lemma_first_dash(rest, n - 1);
    }
}

fn part_value(part: &Vec<char>) -> (number: Option<u64>)
    ensures
        match part_number(part@) {
            Some(n) => number == Some(n as u64),
            None => number is None,
        },
{
    text::unsigned_up_to(part.as_slice(), u64::MAX)
}

fn read_numbers(parts: &Vec<Vec<char>>) -> (numbers: Option<Vec<u64>>)
    ensures
        match numbers_in(text::pieces_view(parts@)) {
            Some(all) => numbers matches Some(numbers) && numbers@ == all,
            None => numbers is None,
        },
{
    let ghost all = text::pieces_view(parts@);
    let mut numbers: Vec<u64> = Vec::new();
    assert(numbers@ =~= Seq::empty());
    for i in 0..parts.len()
        invariant
            all == text::pieces_view(parts@),
            numbers_in(all.take(i as int)) == Some(numbers@),
    {
        assert(all.take(i + 1).drop_last() =~= all.take(i as int));
        assert(all.take(i + 1).last() == parts@[i as int]@);
        match part_value(&parts[i]) {
            Some(number) => {
                numbers.push(number);
            },
            None => {
                proof {
                    lemma_no_numbers(all, i + 1);
                }
                return None;
            },
        }
    }
    assert(all.take(all.len() as int) =~= all);
    Some(numbers)
}

proof fn lemma_no_numbers(parts: Seq<Seq<char>>, n: int)
    requires
        0 <= n <= parts.len(),
        numbers_in(parts.take(n)) is None,
    ensures
        numbers_in(parts) is None,
    decreases parts.len() - n,
{
    if n < parts.len() {
        assert(parts.take(n + 1).drop_last() =~= parts.take(n));
        lemma_no_numbers(parts, n + 1);
    } else {
        assert(parts.take(n) =~= parts);
    }
}

/// `1.2.3-beta.4` as comparable parts; nothing where it is no version.
fn version_key(version: &str) -> (key: Option<VersionKey>)
    ensures
        match key_of(version@) {
            Some(k) => key matches Some(key) && key@ == k,
            None => key is None,
        },
{
    proof {
        reveal_strlit("v");
    }
    let all: Vec<char> = text::chars_of(version);
    let plain: Vec<char> = strip_start(text::trim_chars(&all), "v");
    let mut dash: usize = 0;
    while dash < plain.len() && plain[dash] != '-'
        invariant
            dash <= plain.len(),
            forall|i: int| 0 <= i < dash ==> (#[trigger] plain@[i]) != '-',
        decreases plain.len() - dash,
    {
        dash = dash + 1;
    }
    proof {
        lemma_first_dash(plain@, dash as int);
    }
    let core: Vec<char> = text::chars_between(plain.as_slice(), 0, dash);
    assert(core@ =~= plain@.take(dash as int));
    let parts: Vec<Vec<char>> = text::split_chars(core.as_slice(), '.');
    match read_numbers(&parts) {
        None => None,
        Some(numbers) => {
            let pre: Option<Vec<Vec<char>>> = if dash < plain.len() {
                let rest: Vec<char> = text::chars_between(plain.as_slice(), dash + 1, plain.len());
                assert(rest@ =~= plain@.skip(dash + 1));
                Some(text::split_chars(rest.as_slice(), '.'))
            } else {
                None
            };
            Some(VersionKey { numbers, pre })
        },
    }
}

fn order_numbers(a: &Vec<u64>, b: &Vec<u64>) -> (order: Order)
    ensures
        order == numbers_order(a@, b@),
{
    let mut at: usize = 0;
    assert(a@.skip(0) =~= a@);
    assert(b@.skip(0) =~= b@);
    while at < a.len() && at < b.len()
        invariant
            at <= a.len(),
            at <= b.len(),
            numbers_order(a@, b@) == numbers_order(a@.skip(at as int), b@.skip(at as int)),
        decreases a.len() - at,
    {
        assert(a@.skip(at as int)[0] == a@[at as int]);
        assert(b@.skip(at as int)[0] == b@[at as int]);
        if a[at] < b[at] {
            return Order::Less;
        }
        if a[at] > b[at] {
            return Order::Greater;
        }
        assert(a@.skip(at as int).skip(1) =~= a@.skip(at + 1));
        assert(b@.skip(at as int).skip(1) =~= b@.skip(at + 1));
        at = at + 1;
    }
    if a.len() < b.len() {
        Order::Less
    } else if a.len() > b.len() {
        Order::Greater
    } else {
        Order::Equal
    }
}

fn order_part(a: &Vec<char>, b: &Vec<char>) -> (order: Order)
    ensures
        order == part_order(a@, b@),
{
    match (part_value(a), part_value(b)) {
        (Some(a), Some(b)) => {
            if a < b {
                Order::Less
            } else if a > b {
                Order::Greater
            } else {
                Order::Equal
            }
        },
        _ => {
            let one: String = text::string_of(a.as_slice());
            let other: String = text::string_of(b.as_slice());
            if text::comes_before(one.as_str(), other.as_str()) {
                Order::Less
            } else if text::comes_before(other.as_str(), one.as_str()) {
                Order::Greater
            } else {
                Order::Equal
            }
        },
    }
}

fn order_parts(a: &Vec<Vec<char>>, b: &Vec<Vec<char>>) -> (order: Order)
    ensures
        order == parts_order(text::pieces_view(a@), text::pieces_view(b@)),
{
    let ghost one = text::pieces_view(a@);
    let ghost other = text::pieces_view(b@);
    let mut at: usize = 0;
    assert(one.skip(0) =~= one);
    assert(other.skip(0) =~= other);
    while at < a.len() && at < b.len()
        invariant
            one == text::pieces_view(a@),
            other == text::pieces_view(b@),
            at <= a.len(),
            at <= b.len(),
            parts_order(one, other) == parts_order(one.skip(at as int), other.skip(at as int)),
        decreases a.len() - at,
    {
        assert(one.skip(at as int)[0] == a@[at as int]@);
        assert(other.skip(at as int)[0] == b@[at as int]@);
        let order: Order = order_part(&a[at], &b[at]);
        if order != Order::Equal {
            return order;
        }
        assert(one.skip(at as int).skip(1) =~= one.skip(at + 1));
        assert(other.skip(at as int).skip(1) =~= other.skip(at + 1));
        at = at + 1;
    }
    if a.len() < b.len() {
        Order::Less
    } else if a.len() > b.len() {
        Order::Greater
    } else {
        Order::Equal
    }
}

/// The order of two versions.
pub fn order_versions(a: &str, b: &str) -> (order: Order)
    ensures
        order == versions_order(a@, b@),
{
    let (a, b): (VersionKey, VersionKey) = match (version_key(a), version_key(b)) {
        (Some(a), Some(b)) => (a, b),
        _ => {
            return Order::Equal;
        },
    };
    let order: Order = order_numbers(&a.numbers, &b.numbers);
    if order != Order::Equal {
        return order;
    }
    match (&a.pre, &b.pre) {
        (None, None) => Order::Equal,
        (None, Some(_)) => Order::Greater,
        (Some(_), None) => Order::Less,
        (Some(a), Some(b)) => order_parts(a, b),
    }
}

/// How one version compares to another, the way semantic versions do.
pub fn compare_versions(a: &str, b: &str) -> (order: Ordering)
    ensures
        order == match versions_order(a@, b@) {
            Order::Less => Ordering::Less,
            Order::Equal => Ordering::Equal,
            Order::Greater => Ordering::Greater,
        },
{
    match order_versions(a, b) {
        Order::Less => Ordering::Less,
        Order::Equal => Ordering::Equal,
        Order::Greater => Ordering::Greater,
    }
}

#[derive(Debug)]
pub struct GitHubRelease {
    pub tag_name: String,
    pub draft: bool,
    pub prerelease: bool,
    pub html_url: String,
}

/// Whether a release is one that a channel hears about and newer than what
/// runs.
pub open spec fn is_update(release: GitHubRelease, current: Seq<char>, channel: Channel) -> bool {
    &&& !release.draft
    &&& channel == Channel::Beta || !release.prerelease
    &&& versions_order(release.tag_name@, current) == Order::Greater
}

/// Which of the first `n` releases is the newest update: of two that are
/// alike, the later one in the list.
pub open spec fn newest_of(
    list: Seq<GitHubRelease>,
    n: nat,
    current: Seq<char>,
    channel: Channel,
) -> Option<int>
    decreases n,
{
    if n == 0 {
        None
    } else {
        let before = newest_of(list, (n - 1) as nat, current, channel);
        let candidate = list[n - 1];
        if !is_update(candidate, current, channel) {
            before
        } else {
            match before {
                Some(best) if versions_order(list[best].tag_name@, candidate.tag_name@)
                    == Order::Greater => Some(best),
                _ => Some(n - 1),
            }
        }
    }
}

/// The newest release on the channel that is newer than `current`, if any.
pub fn newest_release<'a>(
    list: &'a [GitHubRelease],
    current: &str,
    channel: Channel,
) -> (newest: Option<&'a GitHubRelease>)
    ensures
        match newest_of(list@, list@.len(), current@, channel) {
            Some(i) => 0 <= i < list@.len() && newest == Some(&list@[i]),
            None => newest is None,
        },
{
    let mut best: Option<usize> = None;
    for i in 0..list.len()
        invariant
            match newest_of(list@, i as nat, current@, channel) {
                Some(k) => best matches Some(best) && best == k && best < i,
                None => best is None,
            },
    {
        let release: &GitHubRelease = &list[i];
        let update: bool = !release.draft && (channel == Channel::Beta || !release.prerelease)
            && order_versions(release.tag_name.as_str(), current) == Order::Greater;
        if update {
            match best {
                Some(k) => {
                    if order_versions(list[k].tag_name.as_str(), release.tag_name.as_str())
                        != Order::Greater {
                        best = Some(i);
                    }
                },
                None => {
                    best = Some(i);
                },
            }
        }
    }
    match best {
        Some(k) => Some(&list[k]),
        None => None,
    }
}

/// What a check found out, as one line for the log.
#[derive(Debug)]
pub enum Finding {
    UpToDate,
    Release { version: String, url: String },
    Commits(u32),
}

/// What is asked of GitHub.
#[derive(Debug)]
pub enum Question {
    /// How far `main` has moved on since a commit: the address that says so.
    Commits { url: String },
    /// Which releases there are: the address that lists them.
    Releases { url: String },
}

/// What a build asks: one of `main` how far `main` has moved on since, every
/// other which releases there are.
pub fn question(build: &Build, repository: &str) -> (question: Question)
    ensures
        match (build.release, build.commit) {
            (false, Some(commit)) => question matches Question::Commits { url } && url@
                == "https://api.github.com/repos/"@ + repository@ + "/compare/"@ + commit@
                + "...main"@,
            _ => question matches Question::Releases { url } && url@
                == "https://api.github.com/repos/"@ + repository@ + "/releases?per_page=30"@,
        },
{
    match (build.release, build.commit) {
        (false, Some(commit)) => Question::Commits {
            url: "https://api.github.com/repos/".to_owned().concat(repository).concat(
                "/compare/",
            ).concat(commit).concat("...main"),
        },
        _ => Question::Releases {
            url: "https://api.github.com/repos/".to_owned().concat(repository).concat(
                "/releases?per_page=30",
            ),
        },
    }
}

/// What the number of commits since says.
pub fn commits_found(ahead_by: u32) -> (finding: Finding)
    ensures
        finding == if ahead_by == 0 {
            Finding::UpToDate
        } else {
            Finding::Commits(ahead_by)
        },
{
    if ahead_by == 0 {
        Finding::UpToDate
    } else {
        Finding::Commits(ahead_by)
    }
}

/// What a list of releases says to a build of a version on a machine that
/// follows a tag.
pub fn releases_found(list: &[GitHubRelease], version: &str, followed: Option<&str>) -> (finding:
    Finding)
    ensures
        ({
            let channel = Channel::for_tag(text::str_view(followed), version@);
            match newest_of(list@, list@.len(), version@, channel) {
                Some(i) => finding matches Finding::Release { version, url } && version@
                    == without_start(list@[i].tag_name@, "v"@) && url@ == list@[i].html_url@,
                None => finding is UpToDate,
            }
        }),
{
    proof {
        reveal_strlit("v");
    }
    let channel: Channel = Channel::of(followed, version);
    match newest_release(list, version, channel) {
        Some(release) => {
            let tag: Vec<char> = text::chars_of(release.tag_name.as_str());
            Finding::Release {
                version: text::string_of(strip_start(tag, "v").as_slice()),
                url: release.html_url.clone(),
            }
        },
        None => Finding::UpToDate,
    }
}

/// Whether another chunk of an answer is still within what is read of one.
pub fn within_response(read: usize, chunk: usize) -> (within: bool)
    ensures
        within == (read + chunk <= MAX_RESPONSE),
{
    read <= MAX_RESPONSE && chunk <= MAX_RESPONSE - read
}

proof fn lemma_numbers_order_turns(a: Seq<u64>, b: Seq<u64>)
    ensures
        numbers_order(b, a) == turned(numbers_order(a, b)),
    decreases a.len(),
{
    if a.len() > 0 && b.len() > 0 && a[0] == b[0] {
        lemma_numbers_order_turns(a.skip(1), b.skip(1));
    }
}

proof fn lemma_text_order_turns(a: Seq<char>, b: Seq<char>)
    ensures
        text_order(b, a) == turned(text_order(a, b)),
{
    text::lemma_precedes_is_total(a, b);
    text::lemma_precedes_is_total(b, a);
}

proof fn lemma_parts_order_turns(a: Seq<Seq<char>>, b: Seq<Seq<char>>)
    ensures
        parts_order(b, a) == turned(parts_order(a, b)),
    decreases a.len(),
{
    if a.len() > 0 && b.len() > 0 {
        lemma_text_order_turns(a[0], b[0]);
        if part_order(a[0], b[0]) == Order::Equal {
            lemma_parts_order_turns(a.skip(1), b.skip(1));
        }
    }
}

/// The other way round.
pub open spec fn turned(order: Order) -> Order {
    match order {
        Order::Less => Order::Greater,
        Order::Equal => Order::Equal,
        Order::Greater => Order::Less,
    }
}

/// If one version is newer than another, the other is older.
pub proof fn newer_one_way_is_older_the_other(a: Seq<char>, b: Seq<char>)
    ensures
        versions_order(b, a) == turned(versions_order(a, b)),
{
    if let (Some(one), Some(other)) = (key_of(a), key_of(b)) {
        lemma_numbers_order_turns(one.numbers, other.numbers);
        if let (Some(x), Some(y)) = (one.pre, other.pre) {
            lemma_parts_order_turns(x, y);
        }
    }
}

proof fn lemma_numbers_order_same(a: Seq<u64>)
    ensures
        numbers_order(a, a) == Order::Equal,
    decreases a.len(),
{
    if a.len() > 0 {
        lemma_numbers_order_same(a.skip(1));
    }
}

/// A pre-release comes before the release it leads to.
pub proof fn a_pre_release_sorts_before_its_release(a: Seq<char>, b: Seq<char>)
    requires
        key_of(a) is Some,
        key_of(b) is Some,
        key_of(a)->Some_0.numbers == key_of(b)->Some_0.numbers,
        key_of(a)->Some_0.pre is Some,
        key_of(b)->Some_0.pre is None,
    ensures
        versions_order(a, b) == Order::Less,
{
    lemma_numbers_order_same(key_of(a)->Some_0.numbers);
}

proof fn lemma_text_order_same(a: Seq<char>)
    ensures
        text_order(a, a) == Order::Equal,
{
    text::lemma_precedes_is_total(a, a);
}

proof fn lemma_parts_order_same(a: Seq<Seq<char>>)
    ensures
        parts_order(a, a) == Order::Equal,
    decreases a.len(),
{
    if a.len() > 0 {
        lemma_text_order_same(a[0]);
        lemma_parts_order_same(a.skip(1));
    }
}

/// A version is as new as itself.
pub proof fn a_version_is_as_new_as_itself(a: Seq<char>)
    ensures
        versions_order(a, a) == Order::Equal,
{
    if let Some(key) = key_of(a) {
        lemma_numbers_order_same(key.numbers);
        if let Some(pre) = key.pre {
            lemma_parts_order_same(pre);
        }
    }
}

proof fn lemma_each_is_a_number(parts: Seq<Seq<char>>, i: int)
    requires
        numbers_in(parts) is Some,
        0 <= i < parts.len(),
    ensures
        part_number(parts[i]) is Some,
    decreases parts.len(),
{
    if i < parts.len() - 1 {
        lemma_each_is_a_number(parts.drop_last(), i);
        assert(parts.drop_last()[i] == parts[i]);
    }
}

/// What is no version compares equal to anything: one of which a part in front
/// of the first dash is no number.
pub proof fn what_is_no_version_is_neither_newer_nor_older(a: Seq<char>, b: Seq<char>, i: int)
    requires
        ({
            let plain = plain_version(a);
            let parts = text::split(plain.take(first_dash(plain)), '.');
            0 <= i < parts.len() && part_number(parts[i]) is None
        }),
    ensures
        versions_order(a, b) == Order::Equal,
        versions_order(b, a) == Order::Equal,
{
    let plain = plain_version(a);
    let parts = text::split(plain.take(first_dash(plain)), '.');
    if numbers_in(parts) is Some {
        lemma_each_is_a_number(parts, i);
    }
}

/// What stands in front of a character that is no white space is not trimmed.
proof fn lemma_trim_end_of_two(a: Seq<char>, b: Seq<char>)
    requires
        a.len() > 0,
        !text::is_white(a.last()),
    ensures
        text::trim_end(a + b) == a + text::trim_end(b),
    decreases b.len(),
{
    if b.len() == 0 {
        assert(a + b =~= a);
        assert(a + text::trim_end(b) =~= a);
    } else {
        assert((a + b).last() == b.last());
        assert((a + b).drop_last() =~= a + b.drop_last());
        lemma_trim_end_of_two(a, b.drop_last());
    }
}

/// A `v` in front of a version changes nothing.
pub proof fn a_v_in_front_changes_nothing(a: Seq<char>, b: Seq<char>)
    requires
        a.len() > 0 ==> !text::is_white(a[0]),
    ensures
        versions_order("v"@ + a, b) == versions_order(a, b),
        versions_order(b, "v"@ + a) == versions_order(b, a),
{
    reveal_strlit("v");
    let v = "v"@;
    assert(v =~= seq!['v']);
    assert((v + a).first() == 'v');
    assert(text::trim_start(v + a) == v + a);
    assert(text::trim_start(a) == a);
    lemma_trim_end_of_two(v, a);
    let rest = text::trim_end(a);
    assert((v + rest).take(1) =~= v);
    assert((v + rest).skip(1) =~= rest);
    assert(plain_version(v + a) == plain_version(a));
}

/// Every character of a text is a separator or stands in one of its pieces.
proof fn lemma_in_some_piece(text: Seq<char>, separator: char, i: int)
    requires
        0 <= i < text.len(),
        text[i] != separator,
    ensures
        exists|j: int, k: int|
            0 <= j < text::split(text, separator).len() && 0 <= k < text::split(
                text,
                separator,
            )[j].len() && #[trigger] text::split(text, separator)[j][k] == text[i],
    decreases text.len(),
{
    text::lemma_split_len(text.drop_last(), separator);
    let rest = text::split(text.drop_last(), separator);
    let all = text::split(text, separator);
    if i < text.len() - 1 {
        lemma_in_some_piece(text.drop_last(), separator, i);
        let (j, k) = choose|j: int, k: int|
            0 <= j < rest.len() && 0 <= k < rest[j].len() && #[trigger] rest[j][k]
                == text.drop_last()[i];
        assert(all[j][k] == text[i]);
    } else {
        let j = all.len() - 1;
        assert(all[j][all[j].len() - 1] == text[i]);
    }
}

/// Numbers with dots between them hold digits, plus signs and dots.
proof fn lemma_numbers_are_plain(numbers: Seq<char>, i: int)
    requires
        numbers_in(text::split(numbers, '.')) is Some,
        0 <= i < numbers.len(),
    ensures
        text::is_digit(numbers[i]) || numbers[i] == '+' || numbers[i] == '.',
{
    if numbers[i] != '.' {
        lemma_in_some_piece(numbers, '.', i);
        let all = text::split(numbers, '.');
        let (j, k) = choose|j: int, k: int|
            0 <= j < all.len() && 0 <= k < all[j].len() && #[trigger] all[j][k] == numbers[i];
        lemma_each_is_a_number(all, j);
        let part = all[j];
        if part[0] == '+' && k > 0 {
            assert(part.skip(1)[k - 1] == part[k]);
        }
    }
}

/// A pre-release comes before the release it leads to, as they are written:
/// numbers with a dash and anything behind them come before the numbers alone.
pub proof fn numbers_with_a_dash_come_before_the_numbers(numbers: Seq<char>, pre: Seq<char>)
    requires
        numbers_in(text::split(numbers, '.')) is Some,
    ensures
        versions_order(numbers + "-"@ + pre, numbers) == Order::Less,
{
    reveal_strlit("v");
    reveal_strlit("-");
    assert(numbers.len() > 0) by {
        if numbers.len() == 0 {
            let parts = text::split(numbers, '.');
            lemma_each_is_a_number(parts, 0);
        }
    }
    assert forall|i: int| 0 <= i < numbers.len() implies !text::is_white(#[trigger] numbers[i])
        && numbers[i] != 'v' && numbers[i] != '-' by {
        lemma_numbers_are_plain(numbers, i);
    }
    text::lemma_trimmed_is_unchanged(numbers);
    assert(numbers.take(1)[0] == numbers[0] && "v"@[0] == 'v');
    assert(plain_version(numbers) == numbers);
    lemma_first_dash(numbers, numbers.len() as int);
    assert(numbers.take(numbers.len() as int) =~= numbers);

    let start = numbers + "-"@;
    let whole = start + pre;
    assert(whole.first() == numbers[0]);
    assert(text::trim_start(whole) == whole);
    lemma_trim_end_of_two(start, pre);
    let plain = start + text::trim_end(pre);
    assert(plain.take(1)[0] == numbers[0]);
    assert(plain_version(whole) == plain);
    assert forall|i: int| 0 <= i < numbers.len() implies (#[trigger] plain[i]) != '-' by {
        assert(plain[i] == numbers[i]);
    }
    assert(plain[numbers.len() as int] == '-');
    lemma_first_dash(plain, numbers.len() as int);
    assert(plain.take(numbers.len() as int) =~= numbers);
    a_pre_release_sorts_before_its_release(whole, numbers);
}

proof fn lemma_newest_is_an_update(
    list: Seq<GitHubRelease>,
    n: nat,
    current: Seq<char>,
    channel: Channel,
)
    requires
        n <= list.len(),
    ensures
        match newest_of(list, n, current, channel) {
            Some(i) => 0 <= i < n && is_update(list[i], current, channel),
            None => forall|i: int| 0 <= i < n ==> !is_update(#[trigger] list[i], current, channel),
        },
    decreases n,
{
    if n > 0 {
        lemma_newest_is_an_update(list, (n - 1) as nat, current, channel);
    }
}

/// Whatever is reported as an update is no draft, is on the channel and is
/// newer than what runs; and nothing is reported only where there is no such
/// release.
pub proof fn what_is_reported_is_an_update(
    list: Seq<GitHubRelease>,
    current: Seq<char>,
    channel: Channel,
)
    ensures
        match newest_of(list, list.len(), current, channel) {
            Some(i) => 0 <= i < list.len() && is_update(list[i], current, channel),
            None => forall|i: int|
                0 <= i < list.len() ==> !is_update(#[trigger] list[i], current, channel),
        },
{
    lemma_newest_is_an_update(list, list.len(), current, channel);
}

/// Whether one of these releases is no newer than another.
pub open spec fn no_newer(list: Seq<GitHubRelease>, one: int, other: int) -> bool {
    versions_order(list[one].tag_name@, list[other].tag_name@) != Order::Greater
}

/// Whether the order of the tags of these releases is transitive. That of
/// versions is not always: of pre-releases named `10`, `9` and `1a` each is
/// newer than the next, and the last newer than the first.
pub open spec fn tags_are_in_order(list: Seq<GitHubRelease>) -> bool {
    forall|i: int, j: int, k: int|
        0 <= i < list.len() && 0 <= j < list.len() && 0 <= k < list.len() && #[trigger] no_newer(
            list,
            i,
            j,
        ) && #[trigger] no_newer(list, j, k) ==> no_newer(list, i, k)
}

proof fn lemma_newest_of_some(
    list: Seq<GitHubRelease>,
    n: nat,
    current: Seq<char>,
    channel: Channel,
)
    requires
        n <= list.len(),
        tags_are_in_order(list),
    ensures
        newest_of(list, n, current, channel) matches Some(best) ==> 0 <= best < n && forall|i: int|
            0 <= i < n && is_update(#[trigger] list[i], current, channel) ==> no_newer(
                list,
                i,
                best,
            ),
    decreases n,
{
    lemma_newest_is_an_update(list, n, current, channel);
    if n > 0 {
        let m = (n - 1) as nat;
        lemma_newest_is_an_update(list, m, current, channel);
        lemma_newest_of_some(list, m, current, channel);
        a_version_is_as_new_as_itself(list[n - 1].tag_name@);
        if let Some(before) = newest_of(list, m, current, channel) {
            newer_one_way_is_older_the_other(list[before].tag_name@, list[n - 1].tag_name@);
            if is_update(list[n - 1], current, channel) && no_newer(list, before, n - 1) {
                assert forall|i: int|
                    0 <= i < n && is_update(#[trigger] list[i], current, channel) implies no_newer(
                    list,
                    i,
                    n - 1,
                ) by {
                    if i < m {
                        assert(no_newer(list, i, before));
                    }
                }
            }
        }
    }
}

/// No release that a channel hears about is newer than the one that is
/// reported, where the order of the tags is transitive.
pub proof fn nothing_newer_is_passed_over(
    list: Seq<GitHubRelease>,
    current: Seq<char>,
    channel: Channel,
    i: int,
)
    requires
        tags_are_in_order(list),
        0 <= i < list.len(),
        is_update(list[i], current, channel),
    ensures
        newest_of(list, list.len(), current, channel) matches Some(best) && 0 <= best < list.len()
            && versions_order(list[i].tag_name@, list[best].tag_name@) != Order::Greater,
{
    lemma_newest_is_an_update(list, list.len(), current, channel);
    lemma_newest_of_some(list, list.len(), current, channel);
    if let Some(best) = newest_of(list, list.len(), current, channel) {
        assert(no_newer(list, i, best));
    }
}

} // verus!
