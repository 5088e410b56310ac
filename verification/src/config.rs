//! Configuration: global settings and the Docker hosts to monitor.
//!
//! Settings come from command-line flags and, optionally, from a file that also
//! lists hosts. What the file sets wins; what it omits falls back to the flags.
//! Without listed hosts, one host named `local` is assumed.

use vstd::prelude::*;
use vstd::string::*;

use crate::{num, text};

verus! {

/// How a metric value maps onto the radius of the overview discs.
#[derive(Debug, Clone, Copy, PartialEq, Eq, Structural)]
pub enum ScaleMode {
    /// Proportional.
    Linear,
    /// Square root: spreads the low end.
    Sqrt,
    /// Logarithmic: equal relative change moves equally far.
    Log,
}

impl ScaleMode {
    /// The lower-case name.
    pub fn as_str(self) -> (r: &'static str)
        ensures
            r@ == (match self {
                ScaleMode::Linear => "linear"@,
                ScaleMode::Sqrt => "sqrt"@,
                ScaleMode::Log => "log"@,
            }),
    {
        match self {
            ScaleMode::Linear => "linear",
            ScaleMode::Sqrt => "sqrt",
            ScaleMode::Log => "log",
        }
    }
}

/// Parameters of the overview discs.
#[derive(Debug, Clone, Copy)]
pub struct OverviewConfig {
    pub cpu_scale: ScaleMode,
    pub mem_scale: ScaleMode,
    /// Memory value at the disc rim, in bytes.
    pub mem_cap: u64,
}

/// The lower bound of the logarithmic memory scale: sixteen mebibytes. The cap
/// must be at least twice as much.
pub const OVERVIEW_MEM_FLOOR: u64 = 16_777_216;

// ---------------------------------------------------------------------------
// Sizes
// ---------------------------------------------------------------------------

/// The predicate "not a decimal digit".
pub open spec fn non_digit() -> spec_fn(char) -> bool {
    |c: char| !num::is_digit(c)
}

/// The number of bytes that a unit stands for, in any case.
pub open spec fn unit_factor(unit: Seq<char>) -> Option<int> {
    if text::same_ignoring_case(unit, ""@) || text::same_ignoring_case(unit, "b"@) {
        Some(1)
    } else if text::same_ignoring_case(unit, "k"@) || text::same_ignoring_case(unit, "kb"@)
        || text::same_ignoring_case(unit, "kib"@) {
        Some(0x400)
    } else if text::same_ignoring_case(unit, "m"@) || text::same_ignoring_case(unit, "mb"@)
        || text::same_ignoring_case(unit, "mib"@) {
        Some(0x10_0000)
    } else if text::same_ignoring_case(unit, "g"@) || text::same_ignoring_case(unit, "gb"@)
        || text::same_ignoring_case(unit, "gib"@) {
        Some(0x4000_0000)
    } else if text::same_ignoring_case(unit, "t"@) || text::same_ignoring_case(unit, "tb"@)
        || text::same_ignoring_case(unit, "tib"@) {
        Some(0x100_0000_0000)
    } else {
        None
    }
}

/// The numeral of a size: what comes before its unit.
pub open spec fn size_digits(s: Seq<char>) -> Seq<char> {
    s.take(s.len() - text::trail(s, non_digit()))
}

/// What is wrong with a size string.
#[derive(Debug, Clone, Copy, PartialEq, Eq, Structural)]
pub enum SizeError {
    /// It has no number, or one that is too large.
    NoNumber,
    /// Its unit is unknown.
    UnknownUnit,
    /// It denotes too many bytes.
    Overflow,
}

/// The unit of a size string.
pub open spec fn size_unit(raw: Seq<char>) -> Seq<char> {
    let s = text::trimmed(raw);
    text::trimmed(s.skip(size_digits(s).len() as int))
}

/// What a size string denotes, in bytes, or what is wrong with it.
pub open spec fn size_read(raw: Seq<char>) -> Result<int, SizeError> {
    match num::parsed(size_digits(text::trimmed(raw)), u64::MAX as int) {
        None => Err(SizeError::NoNumber),
        Some(value) => match unit_factor(size_unit(raw)) {
            None => Err(SizeError::UnknownUnit),
            Some(factor) => if value * factor > u64::MAX {
                Err(SizeError::Overflow)
            } else {
                Ok(value * factor)
            },
        },
    }
}

/// The part of a size string that a message about it quotes.
pub open spec fn size_subject(raw: Seq<char>, e: SizeError) -> Seq<char> {
    match e {
        SizeError::UnknownUnit => size_unit(raw),
        _ => text::trimmed(raw),
    }
}

/// The message about what is wrong with a size string, given the quoted part.
pub open spec fn size_message(e: SizeError, quoted: Seq<char>) -> Seq<char> {
    match e {
        SizeError::NoNumber => "invalid size "@ + quoted
            + ": expected digits with an optional K/M/G/T suffix"@,
        SizeError::UnknownUnit => "invalid size suffix "@ + quoted + ": use K, M, G or T"@,
        SizeError::Overflow => "size "@ + quoted + " overflows"@,
    }
}

/// What a size string denotes, in bytes, or the message about what is wrong.
pub open spec fn size_value(raw: Seq<char>) -> Result<int, Seq<char>> {
    match size_read(raw) {
        Ok(n) => Ok(n),
        Err(e) => Err(size_message(e, text::debug_text(size_subject(raw, e)))),
    }
}

fn is_one_of(unit: &str, a: &str, b: &str, c: &str) -> (r: bool)
    ensures
        r == (text::same_ignoring_case(unit@, a@) || text::same_ignoring_case(unit@, b@)
            || text::same_ignoring_case(unit@, c@)),
{
    text::eq_ignore_case(unit, a) || text::eq_ignore_case(unit, b) || text::eq_ignore_case(unit, c)
}

fn factor_of(unit: &str) -> (r: Option<u64>)
    ensures
        match r {
            Some(f) => unit_factor(unit@) == Some(f as int),
            None => unit_factor(unit@) is None,
        },
{
    if is_one_of(unit, "", "b", "b") {
        Some(1)
    } else if is_one_of(unit, "k", "kb", "kib") {
        Some(0x400)
    } else if is_one_of(unit, "m", "mb", "mib") {
        Some(0x10_0000)
    } else if is_one_of(unit, "g", "gb", "gib") {
        Some(0x4000_0000)
    } else if is_one_of(unit, "t", "tb", "tib") {
        Some(0x100_0000_0000)
    } else {
        None
    }
}

fn split_size<'a>(s: &'a str) -> (r: (&'a str, &'a str))
    ensures
        r.0@ == size_digits(text::trimmed(s@)),
        r.1@ == size_unit(s@),
{
    let t = text::trim(s);
    let v = text::chars_of(t);
    let mut k: usize = v.len();
    while k > 0 && !num::digit_test(v[k - 1])
        invariant
            k <= v.len(),
            v@ == t@,
            forall|j: int| k <= j < t@.len() ==> non_digit()(#[trigger] t@[j]),
        decreases k,
    {
        k -= 1;
    }
    proof {
        text::lemma_trail_is(t@, non_digit(), v.len() - k);
        assert(t@.subrange(0, k as int) =~= size_digits(t@));
        assert(t@.subrange(k as int, t@.len() as int) =~= t@.skip(k as int));
    }
    (t.substring_char(0, k), text::trim(t.substring_char(k, v.len())))
}

/// The number of bytes that a size string denotes.
pub fn read_size(s: &str) -> (r: Result<u64, SizeError>)
    ensures
        match r {
            Ok(n) => size_read(s@) == Ok::<int, SizeError>(n as int),
            Err(e) => size_read(s@) == Err::<int, SizeError>(e),
        },
{
    let (digits, unit) = split_size(s);
    let value: u64 = match num::parse_u64(digits) {
        Some(n) => n,
        None => {
            return Err(SizeError::NoNumber);
        },
    };
    let factor: u64 = match factor_of(unit) {
        Some(f) => f,
        None => {
            return Err(SizeError::UnknownUnit);
        },
    };
    match value.checked_mul(factor) {
        Some(n) => Ok(n),
        None => Err(SizeError::Overflow),
    }
}

/// The message about what is wrong with a size string, given the quoted part.
pub fn size_error_text(e: SizeError, quoted: &str) -> (r: String)
    ensures
        r@ == size_message(e, quoted@),
{
    match e {
        SizeError::NoNumber => {
            let mut m = "invalid size ".to_owned();
            m.append(quoted);
            m.append(": expected digits with an optional K/M/G/T suffix");
            m
        },
        SizeError::UnknownUnit => {
            let mut m = "invalid size suffix ".to_owned();
            m.append(quoted);
            m.append(": use K, M, G or T");
            m
        },
        SizeError::Overflow => {
            let mut m = "size ".to_owned();
            m.append(quoted);
            m.append(" overflows");
            m
        },
    }
}

/// Parse a byte size like `64G`, `512M` or `68719476736`. Suffixes are binary,
/// in any case, with an optional trailing `B` or `iB`.
pub fn parse_size(s: &str) -> (r: Result<u64, String>)
    ensures
        match r {
            Ok(n) => size_value(s@) == Ok::<int, Seq<char>>(n as int),
            Err(e) => size_value(s@) == Err::<int, Seq<char>>(e@),
        },
{
    match read_size(s) {
        Ok(n) => Ok(n),
        Err(e) => {
            let subject = match e {
                SizeError::UnknownUnit => split_size(s).1,
                _ => text::trim(s),
            };
            Err(size_error_text(e, text::quoted(subject).as_str()))
        },
    }
}

/// Parse a sampling interval in seconds, which must be at least one: with zero
/// the collection loop could not run.
pub fn parse_interval_secs(s: &str) -> (r: Result<u64, String>)
    ensures
        match num::parsed(s@, u64::MAX as int) {
            Some(n) => if n >= 1 {
                r matches Ok(x) && x == n
            } else {
                r matches Err(e) && e@ == "0 is not in 1..18446744073709551615"@
            },
            None => r matches Err(e) && e@ == "expected a whole number of seconds"@,
        },
{
    match num::parse_u64(s) {
        Some(n) => if n >= 1 {
            Ok(n)
        } else {
            Err("0 is not in 1..18446744073709551615".to_owned())
        },
        None => Err("expected a whole number of seconds".to_owned()),
    }
}

// ---------------------------------------------------------------------------
// Hosts
// ---------------------------------------------------------------------------

/// A Docker host to monitor.
#[derive(Debug, Clone)]
pub struct HostConfig {
    /// Display name and URL slug.
    pub name: String,
    /// Docker endpoint URL.
    pub docker: String,
    /// Host where published container ports are reachable; `off` for no links.
    pub public_host: Option<String>,
    /// Seconds between samples of this host alone.
    pub interval_secs: Option<u64>,
    /// Path to a private CA certificate to trust for an `https` endpoint.
    pub tls_ca: Option<String>,
    /// Skip verification of the server certificate of an `https` endpoint.
    pub tls_insecure: bool,
}

/// Sampling interval of a remote host that does not set its own: polling a
/// proxy over the network costs more than reading the local socket.
pub const REMOTE_DEFAULT_INTERVAL_SECS: u64 = 10;

/// The scheme of an endpoint: what comes before `://`, or all of it.
pub open spec fn scheme_of(endpoint: Seq<char>) -> Seq<char> {
    match text::cut_on(endpoint, "://"@) {
        Some((scheme, _)) => scheme,
        None => endpoint,
    }
}

/// Whether an endpoint is a local socket or named pipe.
pub open spec fn is_local(docker: Seq<char>) -> bool {
    let scheme = scheme_of(text::trimmed(docker));
    text::same_ignoring_case(scheme, "unix"@) || text::same_ignoring_case(scheme, "npipe"@)
}

impl HostConfig {
    /// The sampling interval of this host: its own if set; else the global one
    /// for a local endpoint, and the slower remote default for others.
    pub fn effective_interval_secs(&self, global_default: u64) -> (r: u64)
        ensures
            r == (match self.interval_secs {
                Some(own) => own,
                None => if is_local(self.docker@) {
                    global_default
                } else {
                    REMOTE_DEFAULT_INTERVAL_SECS
                },
            }),
            self.interval_secs is None && !is_local(self.docker@) ==> r == 10,
    {
        match self.interval_secs {
            Some(own) => own,
            None => if self.is_local_endpoint() {
                global_default
            } else {
                REMOTE_DEFAULT_INTERVAL_SECS
            },
        }
    }

    /// Whether the endpoint is a local socket or named pipe.
    pub fn is_local_endpoint(&self) -> (r: bool)
        ensures
            r == is_local(self.docker@),
    {
        let endpoint = text::trim(self.docker.as_str());
        let scheme = match text::split_on(endpoint, "://") {
            Some((s, _)) => s,
            None => endpoint,
        };
        text::eq_ignore_case(scheme, "unix") || text::eq_ignore_case(scheme, "npipe")
    }
}

/// Whether a character may occur in a slug.
pub open spec fn slug_char(c: char) -> bool {
    ||| 'a' <= c <= 'z'
    ||| 'A' <= c <= 'Z'
    ||| '0' <= c <= '9'
    ||| c == '.'
    ||| c == '_'
    ||| c == '-'
}

/// Whether a name can stand in a URL as it is.
pub open spec fn is_slug(s: Seq<char>) -> bool {
    s.len() > 0 && forall|i: int| 0 <= i < s.len() ==> slug_char(#[trigger] s[i])
}

/// Whether a name can stand in a URL as it is.
pub fn is_valid_slug(s: &str) -> (r: bool)
    ensures
        r == is_slug(s@),
{
    let v = text::chars_of(s);
    if v.len() == 0 {
        return false;
    }
    let mut i: usize = 0;
    while i < v.len()
        invariant
            i <= v.len(),
            v@ == s@,
            forall|j: int| 0 <= j < i ==> slug_char(#[trigger] s@[j]),
        decreases v.len() - i,
    {
        let c = v[i];
        let ok: bool = ('a' <= c && c <= 'z') || ('A' <= c && c <= 'Z') || ('0' <= c && c <= '9')
            || c == '.' || c == '_' || c == '-';
        if !ok {
            proof {
                assert(!slug_char(s@[i as int]));
            }
            return false;
        }
        i += 1;
    }
    true
}

/// What is wrong with a configuration.
#[derive(Debug)]
pub enum ConfigError {
    /// No host is configured.
    NoHosts,
    /// A host's name cannot stand in a URL.
    InvalidName(String),
    /// Two hosts have this name.
    DuplicateName(String),
    /// The host of this name has an empty endpoint.
    EmptyEndpoint(String),
    /// The host of this name has an interval of zero.
    ZeroInterval(String),
    /// The memory cap of the overview is no size; the reason.
    MemCap(String),
    /// The memory cap of the overview is below twice the floor.
    MemCapTooSmall,
}

/// The name that the message for a configuration error quotes.
pub open spec fn error_subject(e: ConfigError) -> Seq<char> {
    match e {
        ConfigError::InvalidName(n) => n@,
        ConfigError::DuplicateName(n) => n@,
        ConfigError::EmptyEndpoint(n) => n@,
        ConfigError::ZeroInterval(n) => n@,
        _ => ""@,
    }
}

/// The message for a configuration error, given the quoted name.
pub open spec fn error_words(e: ConfigError, quoted: Seq<char>) -> Seq<char> {
    match e {
        ConfigError::NoHosts => "no hosts configured"@,
        ConfigError::InvalidName(_) => "invalid host name "@ + quoted
            + ": use only letters, digits, '.', '_' and '-'"@,
        ConfigError::DuplicateName(_) => "duplicate host name "@ + quoted,
        ConfigError::EmptyEndpoint(_) => "host "@ + quoted + " has an empty docker endpoint"@,
        ConfigError::ZeroInterval(_) => "host "@ + quoted
            + " has interval_secs = 0; it must be at least 1"@,
        ConfigError::MemCap(why) => "parsing overview_mem_cap: "@ + why@,
        ConfigError::MemCapTooSmall => "overview mem cap must be at least 32M"@,
    }
}

/// The message for a configuration error.
pub open spec fn error_text(e: ConfigError) -> Seq<char> {
    error_words(e, text::debug_text(error_subject(e)))
}

impl ConfigError {
    /// The message for this error, given the quoted name of the host.
    pub fn words(&self, quoted: &str) -> (r: String)
        ensures
            r@ == error_words(*self, quoted@),
    {
        match self {
            ConfigError::NoHosts => "no hosts configured".to_owned(),
            ConfigError::InvalidName(_) => {
                let mut m = "invalid host name ".to_owned();
                m.append(quoted);
                m.append(": use only letters, digits, '.', '_' and '-'");
                m
            },
            ConfigError::DuplicateName(_) => {
                let mut m = "duplicate host name ".to_owned();
                m.append(quoted);
                m
            },
            ConfigError::EmptyEndpoint(_) => {
                let mut m = "host ".to_owned();
                m.append(quoted);
                m.append(" has an empty docker endpoint");
                m
            },
            ConfigError::ZeroInterval(_) => {
                let mut m = "host ".to_owned();
                m.append(quoted);
                m.append(" has interval_secs = 0; it must be at least 1");
                m
            },
            ConfigError::MemCap(why) => {
                let mut m = "parsing overview_mem_cap: ".to_owned();
                m.append(why.as_str());
                m
            },
            ConfigError::MemCapTooSmall => "overview mem cap must be at least 32M".to_owned(),
        }
    }

    /// The message for this error.
    pub fn message(&self) -> (r: String)
        ensures
            r@ == error_text(*self),
    {
        let subject = match self {
            ConfigError::InvalidName(n) => n.as_str(),
            ConfigError::DuplicateName(n) => n.as_str(),
            ConfigError::EmptyEndpoint(n) => n.as_str(),
            ConfigError::ZeroInterval(n) => n.as_str(),
            _ => "",
        };
        self.words(text::quoted(subject).as_str())
    }
}

/// Whether an earlier host has the name of host `i`.
pub open spec fn name_taken(hosts: Seq<HostConfig>, i: int) -> bool {
    exists|j: int| 0 <= j < i && (#[trigger] hosts[j]).name@ == hosts[i].name@
}

/// What is wrong with host `i`, given the hosts before it.
pub open spec fn host_problem(hosts: Seq<HostConfig>, i: int) -> Option<ConfigError> {
    let h = hosts[i];
    if !is_slug(h.name@) {
        Some(ConfigError::InvalidName(h.name))
    } else if name_taken(hosts, i) {
        Some(ConfigError::DuplicateName(h.name))
    } else if text::trimmed(h.docker@).len() == 0 {
        Some(ConfigError::EmptyEndpoint(h.name))
    } else if h.interval_secs == Some(0u64) {
        Some(ConfigError::ZeroInterval(h.name))
    } else {
        None
    }
}

/// The first problem among the hosts from `i` on.
pub open spec fn first_problem(hosts: Seq<HostConfig>, i: int) -> Option<ConfigError>
    decreases hosts.len() - i,
{
    if 0 <= i < hosts.len() {
        match host_problem(hosts, i) {
            Some(e) => Some(e),
            None => first_problem(hosts, i + 1),
        }
    } else {
        None
    }
}

/// What is wrong with a list of hosts.
pub open spec fn hosts_problem(hosts: Seq<HostConfig>) -> Option<ConfigError> {
    if hosts.len() == 0 {
        Some(ConfigError::NoHosts)
    } else {
        first_problem(hosts, 0)
    }
}

/// Reject an empty list, names that are no slugs, duplicates, empty endpoints
/// and zero intervals; the first problem in the order of the list is reported.
pub fn validate_hosts(hosts: &[HostConfig]) -> (r: Result<(), ConfigError>)
    ensures
        match r {
            Ok(_) => hosts_problem(hosts@) is None,
            Err(e) => hosts_problem(hosts@) == Some(e),
        },
{
    if hosts.len() == 0 {
        return Err(ConfigError::NoHosts);
    }
    let mut i: usize = 0;
    while i < hosts.len()
        invariant
            i <= hosts.len(),
            hosts.len() > 0,
            hosts_problem(hosts@) == first_problem(hosts@, i as int),
        decreases hosts.len() - i,
    {
        let h = &hosts[i];
        if !is_valid_slug(h.name.as_str()) {
            return Err(ConfigError::InvalidName(h.name.clone()));
        }
        let mut j: usize = 0;
        while j < i
            invariant
                j <= i < hosts.len(),
                hosts_problem(hosts@) == first_problem(hosts@, i as int),
                *h == hosts[i as int],
                is_slug(h.name@),
                forall|k: int| 0 <= k < j ==> (#[trigger] hosts[k]).name@ != h.name@,
            decreases i - j,
        {
            if text::same(hosts[j].name.as_str(), h.name.as_str()) {
                proof {
                    assert(hosts@[j as int].name@ == hosts@[i as int].name@);
                }
                return Err(ConfigError::DuplicateName(h.name.clone()));
            }
            j += 1;
        }
        if text::trim(h.docker.as_str()).is_empty() {
            return Err(ConfigError::EmptyEndpoint(h.name.clone()));
        }
        if let Some(secs) = h.interval_secs {
            if secs == 0 {
                return Err(ConfigError::ZeroInterval(h.name.clone()));
            }
        }
        i += 1;
    }
    Ok(())
}

/// In an accepted list every host has a slug of its own, an endpoint, and an
/// interval that is not zero.
pub proof fn law_accepted_hosts_are_sound(hosts: Seq<HostConfig>)
    requires
        hosts_problem(hosts) is None,
    ensures
        hosts.len() > 0,
        forall|i: int|
            0 <= i < hosts.len() ==> {
                &&& is_slug((#[trigger] hosts[i]).name@)
                &&& text::trimmed(hosts[i].docker@).len() > 0
                &&& hosts[i].interval_secs != Some(0u64)
            },
        forall|i: int, j: int|
            0 <= i < j < hosts.len() ==> (#[trigger] hosts[i]).name@ != (#[trigger] hosts[j]).name@,
{
    lemma_no_problem(hosts, 0);
    assert forall|i: int, j: int| 0 <= i < j < hosts.len() implies (#[trigger] hosts[i]).name@ != (
    #[trigger] hosts[j]).name@ by {
        assert(host_problem(hosts, j) is None);
        assert(!name_taken(hosts, j));
    }
    assert forall|i: int| 0 <= i < hosts.len() implies {
        &&& is_slug((#[trigger] hosts[i]).name@)
        &&& text::trimmed(hosts[i].docker@).len() > 0
        &&& hosts[i].interval_secs != Some(0u64)
    } by {
        assert(host_problem(hosts, i) is None);
    }
}

proof fn lemma_no_problem(hosts: Seq<HostConfig>, k: int)
    requires
        first_problem(hosts, k) is None,
        0 <= k <= hosts.len(),
    ensures
        forall|i: int| k <= i < hosts.len() ==> #[trigger] host_problem(hosts, i) is None,
    decreases hosts.len() - k,
{
    if k < hosts.len() {
        lemma_no_problem(hosts, k + 1);
    }
}

// ---------------------------------------------------------------------------
// Resolution
// ---------------------------------------------------------------------------

/// Web interface address without a flag.
pub const DEFAULT_BIND: &'static str = "127.0.0.1:8080";

/// Database file without a flag.
pub const DEFAULT_DB_PATH: &'static str = "dockdoe.sqlite";

/// Seconds between samples without a flag.
pub const DEFAULT_INTERVAL_SECS: u64 = 3;

/// Retention of raw samples without a flag, in seconds: an hour.
pub const DEFAULT_RAW_RETENTION_SECS: u64 = 3600;

/// Width of a trend bucket without a flag, in seconds.
pub const DEFAULT_TREND_BUCKET_SECS: u64 = 60;

/// Retention of trends without a flag, in seconds: thirty days.
pub const DEFAULT_TREND_RETENTION_SECS: u64 = 2_592_000;

/// Time between prunes without a flag, in seconds: an hour.
pub const DEFAULT_PRUNE_INTERVAL_SECS: u64 = 3600;

/// Notification delay without a flag, in seconds.
pub const DEFAULT_NOTIFY_DELAY_SECS: u64 = 30;

/// Log filter without a flag.
pub const DEFAULT_LOG: &'static str = "info";

/// Memory cap of the overview without a flag, in bytes: 64 gibibytes.
pub const DEFAULT_OVERVIEW_MEM_CAP: u64 = 68_719_476_736;

/// Endpoint of the assumed local host when the environment names none.
pub const DEFAULT_DOCKER_ENDPOINT: &'static str = "unix:///var/run/docker.sock";

/// The values of the command-line flags and their environment variables.
#[derive(Debug, Clone)]
pub struct Flags {
    pub bind: String,
    pub db_path: String,
    pub interval_secs: u64,
    pub raw_retention_secs: u64,
    pub trend_bucket_secs: u64,
    pub trend_retention_secs: u64,
    pub prune_interval_secs: u64,
    pub allowed_hosts: Vec<String>,
    pub apprise_url: Option<String>,
    pub notify_delay_secs: u64,
    pub auth_user: Option<String>,
    pub auth_password: Option<String>,
    pub cookie_secure: bool,
    pub port_host: Option<String>,
    pub log: String,
    pub overview_cpu_scale: ScaleMode,
    pub overview_mem_scale: ScaleMode,
    pub overview_mem_cap: u64,
}

impl Flags {
    /// The flags when none is given.
    pub fn defaults() -> (r: Flags)
        ensures
            r.bind@ == DEFAULT_BIND@,
            r.db_path@ == DEFAULT_DB_PATH@,
            r.interval_secs == DEFAULT_INTERVAL_SECS,
            r.raw_retention_secs == DEFAULT_RAW_RETENTION_SECS,
            r.trend_bucket_secs == DEFAULT_TREND_BUCKET_SECS,
            r.trend_retention_secs == DEFAULT_TREND_RETENTION_SECS,
            r.prune_interval_secs == DEFAULT_PRUNE_INTERVAL_SECS,
            r.allowed_hosts@.len() == 0,
            r.apprise_url is None,
            r.notify_delay_secs == DEFAULT_NOTIFY_DELAY_SECS,
            r.auth_user is None,
            r.auth_password is None,
            !r.cookie_secure,
            r.port_host is None,
            r.log@ == DEFAULT_LOG@,
            r.overview_cpu_scale == ScaleMode::Log,
            r.overview_mem_scale == ScaleMode::Log,
            r.overview_mem_cap == DEFAULT_OVERVIEW_MEM_CAP,
            r.bind@ == "127.0.0.1:8080"@,
            r.db_path@ == "dockdoe.sqlite"@,
            r.interval_secs == 3,
            r.raw_retention_secs == 3600,
            r.trend_bucket_secs == 60,
            r.trend_retention_secs == 30 * 24 * 3600,
            r.prune_interval_secs == 3600,
            r.notify_delay_secs == 30,
            r.log@ == "info"@,
            r.overview_mem_cap == 64 * 1024 * 1024 * 1024,
    {
        Flags {
            bind: DEFAULT_BIND.to_owned(),
            db_path: DEFAULT_DB_PATH.to_owned(),
            interval_secs: DEFAULT_INTERVAL_SECS,
            raw_retention_secs: DEFAULT_RAW_RETENTION_SECS,
            trend_bucket_secs: DEFAULT_TREND_BUCKET_SECS,
            trend_retention_secs: DEFAULT_TREND_RETENTION_SECS,
            prune_interval_secs: DEFAULT_PRUNE_INTERVAL_SECS,
            allowed_hosts: Vec::new(),
            apprise_url: None,
            notify_delay_secs: DEFAULT_NOTIFY_DELAY_SECS,
            auth_user: None,
            auth_password: None,
            cookie_secure: false,
            port_host: None,
            log: DEFAULT_LOG.to_owned(),
            overview_cpu_scale: ScaleMode::Log,
            overview_mem_scale: ScaleMode::Log,
            overview_mem_cap: DEFAULT_OVERVIEW_MEM_CAP,
        }
    }
}

/// The contents of a configuration file; an omitted key defers to the flags.
#[derive(Debug)]
pub struct FileConfig {
    pub bind: Option<String>,
    pub db_path: Option<String>,
    pub interval_secs: Option<u64>,
    pub raw_retention_secs: Option<u64>,
    pub trend_bucket_secs: Option<u64>,
    pub trend_retention_secs: Option<u64>,
    pub prune_interval_secs: Option<u64>,
    pub allowed_hosts: Option<Vec<String>>,
    pub apprise_url: Option<String>,
    pub notify_delay_secs: Option<u64>,
    pub auth_user: Option<String>,
    pub auth_password: Option<String>,
    pub cookie_secure: Option<bool>,
    pub log: Option<String>,
    pub overview_cpu_scale: Option<ScaleMode>,
    pub overview_mem_scale: Option<ScaleMode>,
    /// A size string.
    pub overview_mem_cap: Option<String>,
    pub host: Vec<HostConfig>,
}

impl FileConfig {
    /// A file that sets nothing, which is also what no file amounts to.
    pub fn empty() -> (r: FileConfig)
        ensures
            r.bind is None,
            r.db_path is None,
            r.interval_secs is None,
            r.raw_retention_secs is None,
            r.trend_bucket_secs is None,
            r.trend_retention_secs is None,
            r.prune_interval_secs is None,
            r.allowed_hosts is None,
            r.apprise_url is None,
            r.notify_delay_secs is None,
            r.auth_user is None,
            r.auth_password is None,
            r.cookie_secure is None,
            r.log is None,
            r.overview_cpu_scale is None,
            r.overview_mem_scale is None,
            r.overview_mem_cap is None,
            r.host@.len() == 0,
    {
        FileConfig {
            bind: None,
            db_path: None,
            interval_secs: None,
            raw_retention_secs: None,
            trend_bucket_secs: None,
            trend_retention_secs: None,
            prune_interval_secs: None,
            allowed_hosts: None,
            apprise_url: None,
            notify_delay_secs: None,
            auth_user: None,
            auth_password: None,
            cookie_secure: None,
            log: None,
            overview_cpu_scale: None,
            overview_mem_scale: None,
            overview_mem_cap: None,
            host: Vec::new(),
        }
    }
}

/// The resolved configuration.
#[derive(Debug, Clone)]
pub struct AppConfig {
    pub bind: String,
    pub db_path: String,
    pub interval_secs: u64,
    pub raw_retention_secs: u64,
    pub trend_bucket_secs: u64,
    pub trend_retention_secs: u64,
    pub prune_interval_secs: u64,
    pub allowed_hosts: Vec<String>,
    pub apprise_url: Option<String>,
    pub notify_delay_secs: u64,
    pub auth_user: Option<String>,
    pub auth_password: Option<String>,
    pub cookie_secure: bool,
    pub log: String,
    pub overview: OverviewConfig,
    pub hosts: Vec<HostConfig>,
}

/// What the file sets, or else the fallback.
pub open spec fn set_or<T>(file: Option<T>, fallback: T) -> T {
    match file {
        Some(v) => v,
        None => fallback,
    }
}

/// What the file sets, or else what the flags set.
pub open spec fn set_or_else<T>(file: Option<T>, fallback: Option<T>) -> Option<T> {
    match file {
        Some(v) => Some(v),
        None => fallback,
    }
}

/// Whether the host is the one that is assumed without listed hosts.
pub open spec fn is_assumed_host(
    h: HostConfig,
    docker_host: Option<String>,
    port_host: Option<String>,
) -> bool {
    &&& h.name@ == "local"@
    &&& h.docker@ == (match docker_host {
        Some(d) => d@,
        None => DEFAULT_DOCKER_ENDPOINT@,
    })
    &&& h.public_host == port_host
    &&& h.interval_secs is None
    &&& h.tls_ca is None
    &&& !h.tls_insecure
}

/// Whether these are the hosts to monitor.
pub open spec fn are_hosts(
    hosts: Seq<HostConfig>,
    listed: Seq<HostConfig>,
    docker_host: Option<String>,
    port_host: Option<String>,
) -> bool {
    if listed.len() == 0 {
        hosts.len() == 1 && is_assumed_host(hosts[0], docker_host, port_host)
    } else {
        hosts == listed
    }
}

/// The memory cap of the overview, or what is wrong with it.
pub open spec fn mem_cap(file: Option<String>, flag: u64) -> Result<int, Seq<char>> {
    match file {
        Some(s) => size_value(s@),
        None => Ok(flag as int),
    }
}

/// Whether `c` is the file's settings over the flags.
pub open spec fn is_merged(c: AppConfig, file: FileConfig, flags: Flags) -> bool {
    &&& c.bind == set_or(file.bind, flags.bind)
    &&& c.db_path == set_or(file.db_path, flags.db_path)
    &&& c.interval_secs == set_or(file.interval_secs, flags.interval_secs)
    &&& c.raw_retention_secs == set_or(file.raw_retention_secs, flags.raw_retention_secs)
    &&& c.trend_bucket_secs == set_or(file.trend_bucket_secs, flags.trend_bucket_secs)
    &&& c.trend_retention_secs == set_or(file.trend_retention_secs, flags.trend_retention_secs)
    &&& c.prune_interval_secs == set_or(file.prune_interval_secs, flags.prune_interval_secs)
    &&& text::string_views(c.allowed_hosts@) == text::string_views(
        set_or(file.allowed_hosts, flags.allowed_hosts)@,
    )
    &&& c.apprise_url == set_or_else(file.apprise_url, flags.apprise_url)
    &&& c.notify_delay_secs == set_or(file.notify_delay_secs, flags.notify_delay_secs)
    &&& c.auth_user == set_or_else(file.auth_user, flags.auth_user)
    &&& c.auth_password == set_or_else(file.auth_password, flags.auth_password)
    &&& c.cookie_secure == set_or(file.cookie_secure, flags.cookie_secure)
    &&& c.log == set_or(file.log, flags.log)
    &&& c.overview.cpu_scale == set_or(file.overview_cpu_scale, flags.overview_cpu_scale)
    &&& c.overview.mem_scale == set_or(file.overview_mem_scale, flags.overview_mem_scale)
    &&& mem_cap(file.overview_mem_cap, flags.overview_mem_cap) == Ok::<int, Seq<char>>(
        c.overview.mem_cap as int,
    )
}

/// Why a configuration is refused: the first problem of its hosts, else a
/// memory cap that is no size, else one that is below twice the floor.
pub open spec fn is_refusal(
    e: ConfigError,
    hosts: Seq<HostConfig>,
    cap: Result<int, Seq<char>>,
) -> bool {
    match hosts_problem(hosts) {
        Some(p) => e == p,
        None => match cap {
            Err(why) => e matches ConfigError::MemCap(w) && w@ == why,
            Ok(n) => n < 2 * OVERVIEW_MEM_FLOOR && e is MemCapTooSmall,
        },
    }
}

fn string_or(file: Option<String>, fallback: &String) -> (r: String)
    ensures
        r == set_or(file, *fallback),
{
    match file {
        Some(v) => v,
        None => fallback.clone(),
    }
}

fn string_or_else(file: Option<String>, fallback: &Option<String>) -> (r: Option<String>)
    ensures
        r == set_or_else(file, *fallback),
{
    match file {
        Some(v) => Some(v),
        None => text::copy_opt(fallback),
    }
}

fn copied_or<T: Copy>(file: Option<T>, fallback: T) -> (r: T)
    ensures
        r == set_or(file, fallback),
{
    match file {
        Some(v) => v,
        None => fallback,
    }
}

/// The endpoint of the assumed local host: what the environment names, or the
/// default socket.
pub fn default_docker_endpoint(docker_host: Option<String>) -> (r: String)
    ensures
        r@ == (match docker_host {
            Some(d) => d@,
            None => DEFAULT_DOCKER_ENDPOINT@,
        }),
{
    match docker_host {
        Some(d) => d,
        None => DEFAULT_DOCKER_ENDPOINT.to_owned(),
    }
}

/// Resolve the configuration from a file's contents, the flags, and the
/// endpoint that the environment names, if any.
pub fn resolve(file: FileConfig, flags: &Flags, docker_host: Option<String>) -> (r: Result<
    AppConfig,
    ConfigError,
>)
    ensures
        match r {
            Ok(c) => {
                &&& are_hosts(c.hosts@, file.host@, docker_host, flags.port_host)
                &&& hosts_problem(c.hosts@) is None
                &&& is_merged(c, file, *flags)
                &&& c.overview.mem_cap >= 2 * OVERVIEW_MEM_FLOOR
                &&& c.overview.mem_cap >= 32 * 1024 * 1024
            },
            Err(e) => exists|hosts: Seq<HostConfig>| #[trigger]
                are_hosts(hosts, file.host@, docker_host, flags.port_host) && is_refusal(
                    e,
                    hosts,
                    mem_cap(file.overview_mem_cap, flags.overview_mem_cap),
                ),
        },
{
    let ghost whole = file;
    let listed = file.host;
    let hosts: Vec<HostConfig> = if listed.len() == 0 {
        let mut assumed: Vec<HostConfig> = Vec::new();
        assumed.push(
            HostConfig {
                name: "local".to_owned(),
                docker: default_docker_endpoint(docker_host),
                public_host: text::copy_opt(&flags.port_host),
                interval_secs: None,
                tls_ca: None,
                tls_insecure: false,
            },
        );
        assumed
    } else {
        listed
    };
    proof {
        assert(are_hosts(hosts@, whole.host@, docker_host, flags.port_host));
    }
    if let Err(e) = validate_hosts(hosts.as_slice()) {
        return Err(e);
    }
    let cap: u64 = match &file.overview_mem_cap {
        Some(s) => match parse_size(s.as_str()) {
            Ok(n) => n,
            Err(why) => {
                return Err(ConfigError::MemCap(why));
            },
        },
        None => flags.overview_mem_cap,
    };
    if cap < 2 * OVERVIEW_MEM_FLOOR {
        return Err(ConfigError::MemCapTooSmall);
    }
    let allowed_hosts = match file.allowed_hosts {
        Some(v) => v,
        None => text::copy_list(&flags.allowed_hosts),
    };
    Ok(
        AppConfig {
            bind: string_or(file.bind, &flags.bind),
            db_path: string_or(file.db_path, &flags.db_path),
            interval_secs: copied_or(file.interval_secs, flags.interval_secs),
            raw_retention_secs: copied_or(file.raw_retention_secs, flags.raw_retention_secs),
            trend_bucket_secs: copied_or(file.trend_bucket_secs, flags.trend_bucket_secs),
            trend_retention_secs: copied_or(file.trend_retention_secs, flags.trend_retention_secs),
            prune_interval_secs: copied_or(file.prune_interval_secs, flags.prune_interval_secs),
            allowed_hosts,
            apprise_url: string_or_else(file.apprise_url, &flags.apprise_url),
            notify_delay_secs: copied_or(file.notify_delay_secs, flags.notify_delay_secs),
            auth_user: string_or_else(file.auth_user, &flags.auth_user),
            auth_password: string_or_else(file.auth_password, &flags.auth_password),
            cookie_secure: copied_or(file.cookie_secure, flags.cookie_secure),
            log: string_or(file.log, &flags.log),
            overview: OverviewConfig {
                cpu_scale: copied_or(file.overview_cpu_scale, flags.overview_cpu_scale),
                mem_scale: copied_or(file.overview_mem_scale, flags.overview_mem_scale),
                mem_cap: cap,
            },
            hosts,
        },
    )
}

// ---------------------------------------------------------------------------
// Login
// ---------------------------------------------------------------------------

/// Exactly one of user name and password is configured.
#[derive(Debug, Clone, Copy, PartialEq, Eq, Structural)]
pub struct HalfCredentials;

/// The message for a half-configured login.
pub const HALF_CREDENTIALS_TEXT: &'static str =
    "set both DOCKDOE_AUTH_USER and DOCKDOE_AUTH_PASSWORD to enable authentication, or neither";

/// The credentials to require: both or none. One alone is refused, so that a
/// slip does not leave the interface open.
pub fn login_credentials(user: Option<String>, password: Option<String>) -> (r: Result<
    Option<(String, String)>,
    HalfCredentials,
>)
    ensures
        match (user, password) {
            (Some(u), Some(p)) => r == Ok::<Option<(String, String)>, HalfCredentials>(
                Some((u, p)),
            ),
            (None, None) => r == Ok::<Option<(String, String)>, HalfCredentials>(None),
            _ => r is Err,
        },
{
    match (user, password) {
        (Some(u), Some(p)) => Ok(Some((u, p))),
        (None, None) => Ok(None),
        _ => Err(HalfCredentials),
    }
}

// ---------------------------------------------------------------------------
// Laws
// ---------------------------------------------------------------------------

/// Whether text is one of three, in any case.
pub open spec fn is_any_of(s: Seq<char>, a: Seq<char>, b: Seq<char>, c: Seq<char>) -> bool {
    text::lowered(s) == text::lowered(a) || text::lowered(s) == text::lowered(b) || text::lowered(s)
        == text::lowered(c)
}

/// A number of units in bytes, if there is such a number.
pub open spec fn in_units(value: int, factor: nat) -> Result<int, SizeError> {
    if value * factor > 0xffff_ffff_ffff_ffff {
        Err(SizeError::Overflow)
    } else {
        Ok(value * factor)
    }
}

/// A size is a number of bytes, or of a unit that is 1024 of the one below it; no
/// other unit is known, and without digits there is no number.
pub proof fn law_sizes_are_numbers_of_units(digits: Seq<char>, unit: Seq<char>)
    requires
        num::all_digits(digits),
        num::value(digits) <= u64::MAX,
        forall|i: int| 0 <= i < unit.len() ==> !num::is_digit(#[trigger] unit[i]),
        unit.len() > 0 ==> !text::is_space(unit[0]) && !text::is_space(unit.last()),
    ensures
        digits.len() == 0 ==> size_read(digits + unit) == Err::<int, SizeError>(
            SizeError::NoNumber,
        ),
        digits.len() > 0 ==> sizes_by_unit(digits, unit),
{
    let s = digits + unit;
    if digits.len() > 0 {
        assert(s[0] == digits[0]);
        assert(num::is_digit(digits[0]));
        if unit.len() > 0 {
            assert(s.last() == unit.last());
        } else {
            assert(num::is_digit(digits[digits.len() - 1]));
            assert(s.last() == digits.last());
        }
    } else if unit.len() > 0 {
        assert(s[0] == unit[0]);
        assert(s.last() == unit.last());
    }
    text::lemma_trimmed_id(s);
    text::lemma_trimmed_id(unit);
    assert forall|j: int| s.len() - unit.len() <= j < s.len() implies non_digit()(
        #[trigger] s[j],
    ) by {
        assert(s[j] == unit[j - digits.len()]);
    }
    if digits.len() > 0 {
        assert(s[digits.len() - 1] == digits[digits.len() - 1]);
        assert(num::is_digit(digits[digits.len() - 1]));
    }
    text::lemma_trail_is(s, non_digit(), unit.len() as int);
    assert(s.take(digits.len() as int) =~= digits);
    assert(s.skip(digits.len() as int) =~= unit);
    if digits.len() > 0 {
        assert(num::is_digit(digits[0]));
        lemma_units(unit);
    }
}

/// What a number before a unit denotes.
pub open spec fn sizes_by_unit(digits: Seq<char>, unit: Seq<char>) -> bool {
    let value = num::value(digits);
    let r = size_read(digits + unit);
    &&& is_any_of(unit, ""@, "b"@, "B"@) ==> r == Ok::<int, SizeError>(value)
    &&& is_any_of(unit, "k"@, "kb"@, "kib"@) ==> r == in_units(value, 1024)
    &&& is_any_of(unit, "m"@, "mb"@, "mib"@) ==> r == in_units(value, 1024 * 1024)
    &&& is_any_of(unit, "g"@, "gb"@, "gib"@) ==> r == in_units(value, 1024 * 1024 * 1024)
    &&& is_any_of(unit, "t"@, "tb"@, "tib"@) ==> r == in_units(value, 1024 * 1024 * 1024 * 1024)
    &&& (!is_any_of(unit, ""@, "b"@, "B"@) && !is_any_of(unit, "k"@, "kb"@, "kib"@) && !is_any_of(
        unit,
        "m"@,
        "mb"@,
        "mib"@,
    ) && !is_any_of(unit, "g"@, "gb"@, "gib"@) && !is_any_of(unit, "t"@, "tb"@, "tib"@)) ==> r
        == Err::<int, SizeError>(SizeError::UnknownUnit)
}

proof fn lemma_units(unit: Seq<char>)
    ensures
        is_any_of(unit, ""@, "b"@, "B"@) ==> unit_factor(unit) == Some(1int),
        is_any_of(unit, "k"@, "kb"@, "kib"@) ==> unit_factor(unit) == Some(0x400int),
        is_any_of(unit, "m"@, "mb"@, "mib"@) ==> unit_factor(unit) == Some(0x10_0000int),
        is_any_of(unit, "g"@, "gb"@, "gib"@) ==> unit_factor(unit) == Some(0x4000_0000int),
        is_any_of(unit, "t"@, "tb"@, "tib"@) ==> unit_factor(unit) == Some(0x100_0000_0000int),
        (!is_any_of(unit, ""@, "b"@, "B"@) && !is_any_of(unit, "k"@, "kb"@, "kib"@) && !is_any_of(
            unit,
            "m"@,
            "mb"@,
            "mib"@,
        ) && !is_any_of(unit, "g"@, "gb"@, "gib"@) && !is_any_of(unit, "t"@, "tb"@, "tib"@))
            ==> unit_factor(unit) is None,
{
    reveal_strlit("");
    reveal_strlit("b");
    reveal_strlit("k");
    reveal_strlit("kb");
    reveal_strlit("kib");
    reveal_strlit("m");
    reveal_strlit("mb");
    reveal_strlit("mib");
    reveal_strlit("g");
    reveal_strlit("gb");
    reveal_strlit("gib");
    reveal_strlit("t");
    reveal_strlit("tb");
    reveal_strlit("tib");
    reveal_strlit("B");
    assert(text::lowered(""@) =~= Seq::<char>::empty());
    assert(text::lowered("b"@) =~= seq!['b']);
    assert(text::lowered("k"@) =~= seq!['k']);
    assert(text::lowered("kb"@) =~= seq!['k', 'b']);
    assert(text::lowered("kib"@) =~= seq!['k', 'i', 'b']);
    assert(text::lowered("m"@) =~= seq!['m']);
    assert(text::lowered("mb"@) =~= seq!['m', 'b']);
    assert(text::lowered("mib"@) =~= seq!['m', 'i', 'b']);
    assert(text::lowered("g"@) =~= seq!['g']);
    assert(text::lowered("gb"@) =~= seq!['g', 'b']);
    assert(text::lowered("gib"@) =~= seq!['g', 'i', 'b']);
    assert(text::lowered("t"@) =~= seq!['t']);
    assert(text::lowered("tb"@) =~= seq!['t', 'b']);
    assert(text::lowered("tib"@) =~= seq!['t', 'i', 'b']);
    assert(text::lowered("B"@) =~= seq!['b']);
    assert(text::lowered("b"@)[0] == 'b' && text::lowered("b"@).len() == 1);
    assert(text::lowered("k"@)[0] == 'k' && text::lowered("k"@).len() == 1);
    assert(text::lowered("kb"@)[0] == 'k' && text::lowered("kb"@).len() == 2);
    assert(text::lowered("kib"@)[0] == 'k' && text::lowered("kib"@).len() == 3);
    assert(text::lowered("m"@)[0] == 'm' && text::lowered("m"@).len() == 1);
    assert(text::lowered("mb"@)[0] == 'm' && text::lowered("mb"@).len() == 2);
    assert(text::lowered("mib"@)[0] == 'm' && text::lowered("mib"@).len() == 3);
    assert(text::lowered("g"@)[0] == 'g' && text::lowered("g"@).len() == 1);
    assert(text::lowered("gb"@)[0] == 'g' && text::lowered("gb"@).len() == 2);
    assert(text::lowered("gib"@)[0] == 'g' && text::lowered("gib"@).len() == 3);
    assert(text::lowered("t"@)[0] == 't' && text::lowered("t"@).len() == 1);
    assert(text::lowered("tb"@)[0] == 't' && text::lowered("tb"@).len() == 2);
    assert(text::lowered("tib"@)[0] == 't' && text::lowered("tib"@).len() == 3);
}

/// The scheme of an endpoint is what stands before `://`, and one of a local
/// endpoint is `unix` or `npipe`, in any case.
pub proof fn law_local_endpoints_have_a_local_scheme(scheme: Seq<char>, rest: Seq<char>)
    requires
        !scheme.contains(':'),
        scheme.len() > 0,
        !text::is_space(scheme[0]),
        rest.len() > 0,
        !text::is_space(rest.last()),
    ensures
        is_local(scheme + "://"@ + rest) == (text::lowered(scheme) == text::lowered("unix"@)
            || text::lowered(scheme) == text::lowered("npipe"@)),
{
    reveal_strlit("://");
    let sep = "://"@;
    let url = scheme + sep + rest;
    assert(url[0] == scheme[0]);
    assert(url.last() == rest.last());
    text::lemma_trimmed_id(url);
    let p = scheme.len() as int;
    assert(url.subrange(p, p + sep.len()) =~= sep);
    assert forall|j: int| 0 <= j < p implies !text::stands_at(url, sep, j) by {
        if text::stands_at(url, sep, j) {
            assert(url.subrange(j, j + sep.len())[0] == url[j]);
            assert(url[j] == scheme[j]);
            assert(scheme.contains(scheme[j]));
        }
    }
    text::lemma_find_at_is(url, sep, p);
    assert(url.take(p) =~= scheme);
}

/// A name can stand in a URL exactly if it has characters, and all of them are
/// letters or digits of ASCII, dots, underscores or dashes.
pub proof fn law_slugs_are_url_safe(s: Seq<char>)
    ensures
        is_slug(s) == (s.len() > 0 && !s.any(
            |c: char|
                !(('a' <= c && c <= 'z') || ('A' <= c && c <= 'Z') || ('0' <= c && c <= '9') || c
                    == '.' || c == '_' || c == '-'),
        )),
{
    let bad = |c: char|
        !(('a' <= c && c <= 'z') || ('A' <= c && c <= 'Z') || ('0' <= c && c <= '9') || c == '.' || c
            == '_' || c == '-');
    if s.len() > 0 && !s.any(bad) {
        assert forall|i: int| 0 <= i < s.len() implies slug_char(#[trigger] s[i]) by {
            assert(!bad(s[i]));
        }
    }
    if is_slug(s) {
        assert forall|i: int| 0 <= i < s.len() implies !bad(#[trigger] s[i]) by {
            assert(slug_char(s[i]));
        }
    }
}

/// Whether host `i` has a slug of its own, an endpoint, and an interval that is
/// not zero.
pub open spec fn is_sound(hosts: Seq<HostConfig>, i: int) -> bool {
    &&& is_slug(hosts[i].name@)
    &&& forall|j: int| 0 <= j < i ==> (#[trigger] hosts[j]).name@ != hosts[i].name@
    &&& text::trimmed(hosts[i].docker@).len() > 0
    &&& hosts[i].interval_secs != Some(0u64)
}

/// A list of hosts is accepted exactly if there is a host and every one is sound;
/// otherwise the first unsound host is reported, by the first thing that is wrong
/// with it.
pub proof fn law_first_unsound_host_is_reported(hosts: Seq<HostConfig>, i: int)
    requires
        0 <= i <= hosts.len(),
        forall|j: int| 0 <= j < i ==> #[trigger] is_sound(hosts, j),
        i < hosts.len() ==> !is_sound(hosts, i),
    ensures
        hosts.len() == 0 ==> hosts_problem(hosts) == Some(ConfigError::NoHosts),
        hosts.len() > 0 && i == hosts.len() ==> hosts_problem(hosts) is None,
        i < hosts.len() ==> ({
            let h = hosts[i];
            let taken = exists|j: int| 0 <= j < i && (#[trigger] hosts[j]).name@ == h.name@;
            &&& !is_slug(h.name@) ==> hosts_problem(hosts) == Some(
                ConfigError::InvalidName(h.name),
            )
            &&& is_slug(h.name@) && taken ==> hosts_problem(hosts) == Some(
                ConfigError::DuplicateName(h.name),
            )
            &&& is_slug(h.name@) && !taken && text::trimmed(h.docker@).len() == 0
                ==> hosts_problem(hosts) == Some(ConfigError::EmptyEndpoint(h.name))
            &&& is_slug(h.name@) && !taken && text::trimmed(h.docker@).len() > 0
                ==> hosts_problem(hosts) == Some(ConfigError::ZeroInterval(h.name))
        }),
{
    lemma_sound_hosts_pass(hosts, 0, i);
}

proof fn lemma_sound_hosts_pass(hosts: Seq<HostConfig>, k: int, i: int)
    requires
        0 <= k <= i <= hosts.len(),
        forall|j: int| 0 <= j < i ==> #[trigger] is_sound(hosts, j),
    ensures
        first_problem(hosts, k) == first_problem(hosts, i),
    decreases i - k,
{
    if k < i {
        assert(is_sound(hosts, k));
        lemma_sound_hosts_pass(hosts, k + 1, i);
    }
}

/// What the file sets wins, setting by setting; what it omits is what the flags
/// say.
pub proof fn law_the_file_wins_over_the_flags(c: AppConfig, file: FileConfig, flags: Flags)
    requires
        is_merged(c, file, flags),
    ensures
        file.bind matches Some(v) ==> c.bind == v,
        file.bind is None ==> c.bind == flags.bind,
        file.db_path matches Some(v) ==> c.db_path == v,
        file.db_path is None ==> c.db_path == flags.db_path,
        file.interval_secs matches Some(v) ==> c.interval_secs == v,
        file.interval_secs is None ==> c.interval_secs == flags.interval_secs,
        file.raw_retention_secs matches Some(v) ==> c.raw_retention_secs == v,
        file.raw_retention_secs is None ==> c.raw_retention_secs == flags.raw_retention_secs,
        file.trend_bucket_secs matches Some(v) ==> c.trend_bucket_secs == v,
        file.trend_bucket_secs is None ==> c.trend_bucket_secs == flags.trend_bucket_secs,
        file.trend_retention_secs matches Some(v) ==> c.trend_retention_secs == v,
        file.trend_retention_secs is None ==> c.trend_retention_secs == flags.trend_retention_secs,
        file.prune_interval_secs matches Some(v) ==> c.prune_interval_secs == v,
        file.prune_interval_secs is None ==> c.prune_interval_secs == flags.prune_interval_secs,
        file.notify_delay_secs matches Some(v) ==> c.notify_delay_secs == v,
        file.notify_delay_secs is None ==> c.notify_delay_secs == flags.notify_delay_secs,
        file.cookie_secure matches Some(v) ==> c.cookie_secure == v,
        file.cookie_secure is None ==> c.cookie_secure == flags.cookie_secure,
        file.log matches Some(v) ==> c.log == v,
        file.log is None ==> c.log == flags.log,
        file.apprise_url is Some ==> c.apprise_url == file.apprise_url,
        file.apprise_url is None ==> c.apprise_url == flags.apprise_url,
        file.auth_user is Some ==> c.auth_user == file.auth_user,
        file.auth_user is None ==> c.auth_user == flags.auth_user,
        file.auth_password is Some ==> c.auth_password == file.auth_password,
        file.auth_password is None ==> c.auth_password == flags.auth_password,
        file.allowed_hosts matches Some(v) ==> text::string_views(c.allowed_hosts@)
            == text::string_views(v@),
        file.allowed_hosts is None ==> text::string_views(c.allowed_hosts@) == text::string_views(
            flags.allowed_hosts@,
        ),
        file.overview_cpu_scale matches Some(v) ==> c.overview.cpu_scale == v,
        file.overview_cpu_scale is None ==> c.overview.cpu_scale == flags.overview_cpu_scale,
        file.overview_mem_scale matches Some(v) ==> c.overview.mem_scale == v,
        file.overview_mem_scale is None ==> c.overview.mem_scale == flags.overview_mem_scale,
        file.overview_mem_cap matches Some(v) ==> size_value(v@) == Ok::<int, Seq<char>>(
            c.overview.mem_cap as int,
        ),
        file.overview_mem_cap is None ==> c.overview.mem_cap == flags.overview_mem_cap,
{
}

/// Without listed hosts one host is assumed, on the endpoint of the environment or
/// else the local socket; otherwise the listed ones are monitored.
pub proof fn law_one_host_is_assumed(
    hosts: Seq<HostConfig>,
    listed: Seq<HostConfig>,
    docker_host: Option<String>,
    port_host: Option<String>,
)
    requires
        are_hosts(hosts, listed, docker_host, port_host),
    ensures
        listed.len() > 0 ==> hosts == listed,
        listed.len() == 0 ==> hosts.len() == 1 && hosts[0].name@ == "local"@
            && hosts[0].public_host == port_host && hosts[0].interval_secs is None
            && hosts[0].tls_ca is None && !hosts[0].tls_insecure,
        listed.len() == 0 && docker_host is None ==> hosts[0].docker@
            == "unix:///var/run/docker.sock"@,
        listed.len() == 0 ==> (docker_host matches Some(d) ==> hosts[0].docker@ == d@),
{
}

/// A configuration of sound hosts is refused exactly for its memory cap: one that
/// is no size, or one below 32 mebibytes.
pub proof fn law_caps_below_the_floor_are_refused(
    e: ConfigError,
    hosts: Seq<HostConfig>,
    cap: Result<int, Seq<char>>,
)
    requires
        hosts_problem(hosts) is None,
    ensures
        is_refusal(e, hosts, cap) ==> match cap {
            Ok(n) => n < 32 * 1024 * 1024 && e is MemCapTooSmall,
            Err(why) => e matches ConfigError::MemCap(w) && w@ == why,
        },
{
}

/// The message for an error about a host quotes its name, and that for a memory
/// cap gives the reason.
pub proof fn law_messages_name_their_subject(e: ConfigError, quoted: Seq<char>)
    ensures
        (e is InvalidName || e is DuplicateName || e is EmptyEndpoint || e is ZeroInterval)
            ==> text::has_part(error_words(e, quoted), quoted),
        e matches ConfigError::MemCap(why) ==> text::has_part(error_words(e, quoted), why@),
        e matches ConfigError::InvalidName(n) ==> error_subject(e) == n@,
        e matches ConfigError::DuplicateName(n) ==> error_subject(e) == n@,
        e matches ConfigError::EmptyEndpoint(n) ==> error_subject(e) == n@,
        e matches ConfigError::ZeroInterval(n) ==> error_subject(e) == n@,
{
    let words = error_words(e, quoted);
    match e {
        ConfigError::InvalidName(_) => {
            text::law_parts_stand_between(
                "invalid host name "@,
                quoted,
                ": use only letters, digits, '.', '_' and '-'"@,
            );
        },
        ConfigError::DuplicateName(_) => {
            text::law_parts_stand_between("duplicate host name "@, quoted, Seq::empty());
            assert("duplicate host name "@ + quoted + Seq::<char>::empty() =~= words);
        },
        ConfigError::EmptyEndpoint(_) => {
            text::law_parts_stand_between("host "@, quoted, " has an empty docker endpoint"@);
        },
        ConfigError::ZeroInterval(_) => {
            text::law_parts_stand_between(
                "host "@,
                quoted,
                " has interval_secs = 0; it must be at least 1"@,
            );
        },
        ConfigError::MemCap(why) => {
            text::law_parts_stand_between("parsing overview_mem_cap: "@, why@, Seq::empty());
            assert("parsing overview_mem_cap: "@ + why@ + Seq::<char>::empty() =~= words);
        },
        _ => {},
    }
}

/// What is wrong with the hosts is reported before anything else.
pub proof fn law_host_problems_come_first(
    e: ConfigError,
    hosts: Seq<HostConfig>,
    cap: Result<int, Seq<char>>,
    p: ConfigError,
)
    requires
        hosts_problem(hosts) == Some(p),
    ensures
        is_refusal(e, hosts, cap) == (e == p),
{
}

} // verus!
