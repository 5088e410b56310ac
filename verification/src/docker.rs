//! What the Docker engine reports, and the metrics made of it.
//!
//! The engine reports cumulative counters. A share of CPU time and a rate of
//! bytes come from the difference of two samples of the same container, so the
//! last sample of each is remembered. Shares and rates leave here as pairs of
//! integers; dividing them is the caller's part.

use vstd::prelude::*;
use vstd::string::*;

use crate::{model, order, stack, table, text};

verus! {

// ---------------------------------------------------------------------------
// What the engine reports
// ---------------------------------------------------------------------------

/// Lifecycle state in a container listing.
#[derive(Debug, Clone, Copy, PartialEq, Eq, Structural)]
pub enum SummaryState {
    Created,
    Running,
    Paused,
    Restarting,
    Exited,
    Removing,
    Dead,
    Stopping,
    /// An empty state field.
    Empty,
}

/// Protocol of a port in a container listing.
#[derive(Debug, Clone, Copy, PartialEq, Eq, Structural)]
pub enum PortKind {
    Tcp,
    Udp,
    Sctp,
    /// An empty protocol field.
    Empty,
}

/// A port in a container listing.
#[derive(Debug, Clone, Copy)]
pub struct PortSummary {
    pub private_port: u16,
    pub public_port: Option<u16>,
    pub kind: Option<PortKind>,
}

/// One container of a listing. Labels are pairs with distinct keys.
#[derive(Debug)]
pub struct ContainerSummary {
    pub id: Option<String>,
    pub names: Option<Vec<String>>,
    pub image: Option<String>,
    pub state: Option<SummaryState>,
    pub status: Option<String>,
    pub labels: Option<Vec<(String, String)>>,
    pub ports: Option<Vec<PortSummary>>,
}

/// CPU usage counters.
#[derive(Debug, Clone, Copy)]
pub struct CpuUsage {
    pub total_usage: Option<u64>,
    /// Length of the list of per-core counters.
    pub percpu_count: Option<u64>,
}

/// CPU section of a sample.
#[derive(Debug, Clone, Copy)]
pub struct CpuStats {
    pub cpu_usage: Option<CpuUsage>,
    pub system_cpu_usage: Option<u64>,
    pub online_cpus: Option<u32>,
}

/// Memory section of a sample. The details are pairs with distinct keys.
#[derive(Debug)]
pub struct MemoryStats {
    pub usage: Option<u64>,
    pub limit: Option<u64>,
    pub stats: Option<Vec<(String, u64)>>,
}

/// Counters of one network interface.
#[derive(Debug, Clone, Copy)]
pub struct NetworkStats {
    pub rx_bytes: Option<u64>,
    pub tx_bytes: Option<u64>,
}

/// One block-device counter.
#[derive(Debug)]
pub struct BlkioEntry {
    pub op: Option<String>,
    pub value: Option<u64>,
}

/// A sample of one container's counters.
#[derive(Debug)]
pub struct ContainerStats {
    pub cpu_stats: Option<CpuStats>,
    pub memory_stats: Option<MemoryStats>,
    /// The interfaces, in any order.
    pub networks: Option<Vec<NetworkStats>>,
    /// The recursive byte counters of block devices.
    pub io_service_bytes: Option<Vec<BlkioEntry>>,
}

// ---------------------------------------------------------------------------
// Identity
// ---------------------------------------------------------------------------

/// Label with the compose project of a container.
pub const PROJECT_LABEL: &'static str = "com.docker.compose.project";

/// Label with the compose service of a container.
pub const SERVICE_LABEL: &'static str = "com.docker.compose.service";

/// Label with the dependencies of a container's service.
pub const DEPENDS_ON_LABEL: &'static str = "com.docker.compose.depends_on";

/// Label with the configuration files of a container's project.
pub const CONFIG_FILES_LABEL: &'static str = "com.docker.compose.project.config_files";

/// The value of the first pair with this key.
pub open spec fn label_value(labels: Seq<(String, String)>, key: Seq<char>) -> Option<Seq<char>>
    decreases labels.len(),
{
    if labels.len() == 0 {
        None
    } else if labels[0].0@ == key {
        Some(labels[0].1@)
    } else {
        label_value(labels.skip(1), key)
    }
}

/// The value of a label, if there are labels at all.
pub open spec fn label_of(
    labels: Option<Vec<(String, String)>>,
    key: Seq<char>,
) -> Option<Seq<char>> {
    match labels {
        Some(l) => label_value(l@, key),
        None => None,
    }
}

fn find_label<'a>(labels: &'a Vec<(String, String)>, key: &str) -> (r: Option<&'a str>)
    ensures
        text::opt_slice_view(r) == label_value(labels@, key@),
{
    let mut i: usize = 0;
    proof {
        assert(labels@.skip(0) =~= labels@);
    }
    while i < labels.len()
        invariant
            i <= labels.len(),
            label_value(labels@, key@) == label_value(labels@.skip(i as int), key@),
        decreases labels.len() - i,
    {
        proof {
            assert(labels@.skip(i as int)[0] == labels@[i as int]);
            assert(labels@.skip(i as int).skip(1) =~= labels@.skip(i + 1));
        }
        if text::same(labels[i].0.as_str(), key) {
            return Some(labels[i].1.as_str());
        }
        i += 1;
    }
    None
}

fn label<'a>(labels: &'a Option<Vec<(String, String)>>, key: &str) -> (r: Option<&'a str>)
    ensures
        text::opt_slice_view(r) == label_of(*labels, key@),
{
    match labels {
        Some(l) => find_label(l, key),
        None => None,
    }
}

fn owned(s: Option<&str>) -> (r: Option<String>)
    ensures
        text::opt_view(r) == text::opt_slice_view(s),
{
    match s {
        Some(x) => Some(x.to_owned()),
        None => None,
    }
}

/// Text that may be missing; missing text is empty.
pub open spec fn or_empty(s: Option<String>) -> Seq<char> {
    match s {
        Some(x) => x@,
        None => Seq::empty(),
    }
}

fn text_or_empty(s: &Option<String>) -> (r: String)
    ensures
        r@ == or_empty(*s),
{
    match s {
        Some(x) => x.clone(),
        None => {
            let none = String::new();
            proof {
                assert(none@ =~= Seq::<char>::empty());
            }
            none
        },
    }
}

/// The id of a container, empty if the listing has none.
pub fn id_of(summary: &ContainerSummary) -> (r: String)
    ensures
        r@ == or_empty(summary.id),
{
    text_or_empty(&summary.id)
}

/// Whether a container runs.
pub fn is_running(summary: &ContainerSummary) -> (r: bool)
    ensures
        r == (summary.state == Some(SummaryState::Running)),
{
    match summary.state {
        Some(SummaryState::Running) => true,
        _ => false,
    }
}

/// The ids of the running containers: those to take samples of.
pub open spec fn running_ids(summaries: Seq<ContainerSummary>) -> Seq<Seq<char>>
    decreases summaries.len(),
{
    if summaries.len() == 0 {
        Seq::empty()
    } else {
        let before = running_ids(summaries.drop_last());
        if summaries.last().state == Some(SummaryState::Running) {
            before.push(or_empty(summaries.last().id))
        } else {
            before
        }
    }
}

/// The ids of the running containers: those to take samples of.
pub fn ids_to_sample(summaries: &[ContainerSummary]) -> (r: Vec<String>)
    ensures
        text::string_views(r@) == running_ids(summaries@),
{
    let mut out: Vec<String> = Vec::new();
    let mut i: usize = 0;
    proof {
        assert(summaries@.take(0) =~= Seq::empty());
        assert(text::string_views(out@) =~= Seq::empty());
    }
    while i < summaries.len()
        invariant
            i <= summaries.len(),
            text::string_views(out@) == running_ids(summaries@.take(i as int)),
        decreases summaries.len() - i,
    {
        let ghost before = text::string_views(out@);
        proof {
            assert(summaries@.take(i + 1).drop_last() =~= summaries@.take(i as int));
            assert(summaries@.take(i + 1).last() == summaries@[i as int]);
        }
        if is_running(&summaries[i]) {
            out.push(id_of(&summaries[i]));
            proof {
                assert(text::string_views(out@) =~= before.push(
                    or_empty(summaries@[i as int].id),
                ));
            }
        }
        i += 1;
    }
    proof {
        assert(summaries@.take(summaries.len() as int) =~= summaries@);
    }
    out
}

/// How many characters of an id serve as a name.
pub const SHORT_ID_LEN: usize = 12;

/// The name to show: the first name without leading slashes, or a short id.
pub open spec fn shown_name(summary: ContainerSummary) -> Seq<char> {
    match summary.names {
        Some(names) => if names@.len() > 0 {
            names@[0]@.skip(text::lead(names@[0]@, text::is_char('/')))
        } else {
            short_id(or_empty(summary.id))
        },
        None => short_id(or_empty(summary.id)),
    }
}

/// The first characters of an id.
pub open spec fn short_id(id: Seq<char>) -> Seq<char> {
    if id.len() > SHORT_ID_LEN {
        id.take(SHORT_ID_LEN as int)
    } else {
        id
    }
}

/// The first characters of an id.
pub fn shorten_id(id: &str) -> (r: String)
    ensures
        r@ == short_id(id@),
{
    if id.unicode_len() > SHORT_ID_LEN {
        proof {
            assert(id@.subrange(0, SHORT_ID_LEN as int) =~= id@.take(SHORT_ID_LEN as int));
        }
        id.substring_char(0, SHORT_ID_LEN).to_owned()
    } else {
        id.to_owned()
    }
}

/// The name to show: the first name without leading slashes, or a short id.
pub fn display_name(summary: &ContainerSummary) -> (r: String)
    ensures
        r@ == shown_name(*summary),
{
    match &summary.names {
        Some(names) => if names.len() > 0 {
            text::trim_start_char(names[0].as_str(), '/').to_owned()
        } else {
            shorten_id(id_of(summary).as_str())
        },
        None => shorten_id(id_of(summary).as_str()),
    }
}

/// The compose project of a container.
pub fn compose_project(summary: &ContainerSummary) -> (r: Option<String>)
    ensures
        text::opt_view(r) == label_of(summary.labels, PROJECT_LABEL@),
{
    owned(label(&summary.labels, PROJECT_LABEL))
}

/// The state of a container; one that is missing or empty is unknown.
pub fn map_state(state: Option<SummaryState>) -> (r: model::ContainerState)
    ensures
        r == state_of(state),
{
    match state {
        Some(SummaryState::Created) => model::ContainerState::Created,
        Some(SummaryState::Running) => model::ContainerState::Running,
        Some(SummaryState::Paused) => model::ContainerState::Paused,
        Some(SummaryState::Restarting) => model::ContainerState::Restarting,
        Some(SummaryState::Exited) => model::ContainerState::Exited,
        Some(SummaryState::Removing) => model::ContainerState::Removing,
        Some(SummaryState::Dead) => model::ContainerState::Dead,
        Some(SummaryState::Stopping) => model::ContainerState::Stopping,
        Some(SummaryState::Empty) => model::ContainerState::Unknown,
        None => model::ContainerState::Unknown,
    }
}

/// The state of a container.
pub open spec fn state_of(state: Option<SummaryState>) -> model::ContainerState {
    match state {
        Some(SummaryState::Created) => model::ContainerState::Created,
        Some(SummaryState::Running) => model::ContainerState::Running,
        Some(SummaryState::Paused) => model::ContainerState::Paused,
        Some(SummaryState::Restarting) => model::ContainerState::Restarting,
        Some(SummaryState::Exited) => model::ContainerState::Exited,
        Some(SummaryState::Removing) => model::ContainerState::Removing,
        Some(SummaryState::Dead) => model::ContainerState::Dead,
        Some(SummaryState::Stopping) => model::ContainerState::Stopping,
        _ => model::ContainerState::Unknown,
    }
}

/// The health that a status line mentions.
pub open spec fn health_of(status: Seq<char>) -> model::HealthState {
    if text::has_part(status, "(healthy)"@) {
        model::HealthState::Healthy
    } else if text::has_part(status, "(unhealthy)"@) {
        model::HealthState::Unhealthy
    } else if text::has_part(status, "(health: starting)"@) {
        model::HealthState::Starting
    } else {
        model::HealthState::NoCheck
    }
}

/// Derive health from the status line, to which the engine appends it, as in
/// `Up 2 hours (healthy)`.
pub fn parse_health(status: &str) -> (r: model::HealthState)
    ensures
        r == health_of(status@),
{
    if text::contains(status, "(healthy)") {
        model::HealthState::Healthy
    } else if text::contains(status, "(unhealthy)") {
        model::HealthState::Unhealthy
    } else if text::contains(status, "(health: starting)") {
        model::HealthState::Starting
    } else {
        model::HealthState::NoCheck
    }
}

// ---------------------------------------------------------------------------
// Ports
// ---------------------------------------------------------------------------

/// The name of a protocol; one that is missing or empty is TCP.
pub open spec fn proto_name(kind: Option<PortKind>) -> Seq<char> {
    match kind {
        Some(PortKind::Udp) => "udp"@,
        Some(PortKind::Sctp) => "sctp"@,
        _ => "tcp"@,
    }
}

/// A port as plain values: host port, container port, protocol.
pub open spec fn port_view(p: model::Port) -> (Option<u16>, u16, Seq<char>) {
    (p.public, p.private, p.proto@)
}

/// Ports as plain values.
pub open spec fn port_views(ports: Seq<model::Port>) -> Seq<(Option<u16>, u16, Seq<char>)> {
    ports.map_values(|p: model::Port| port_view(p))
}

/// A listed port as plain values.
pub open spec fn summary_view(p: PortSummary) -> (Option<u16>, u16, Seq<char>) {
    (p.public_port, p.private_port, proto_name(p.kind))
}

/// The listed ports without repetitions, each at its first place.
pub open spec fn distinct_ports(ports: Seq<PortSummary>) -> Seq<(Option<u16>, u16, Seq<char>)>
    decreases ports.len(),
{
    if ports.len() == 0 {
        Seq::empty()
    } else {
        let before = distinct_ports(ports.drop_last());
        let p = summary_view(ports.last());
        if before.contains(p) {
            before
        } else {
            before.push(p)
        }
    }
}

impl order::Ranked for model::Port {
    /// Published ports first, by host port; then internal ones, by their own.
    open spec fn le(&self, other: &Self) -> bool {
        match (self.public, other.public) {
            (Some(x), Some(y)) => x <= y,
            (Some(_), None) => true,
            (None, Some(_)) => false,
            (None, None) => self.private <= other.private,
        }
    }

    proof fn le_total(a: &Self, b: &Self) {
    }

    proof fn le_trans(a: &Self, b: &Self, c: &Self) {
    }

    fn may_precede(&self, other: &Self) -> (r: bool) {
        match (self.public, other.public) {
            (Some(x), Some(y)) => x <= y,
            (Some(_), None) => true,
            (None, Some(_)) => false,
            (None, None) => self.private <= other.private,
        }
    }
}

fn same_public(a: Option<u16>, b: Option<u16>) -> (r: bool)
    ensures
        r == (a == b),
{
    match (a, b) {
        (Some(x), Some(y)) => x == y,
        (None, None) => true,
        _ => false,
    }
}

fn lists_port(ports: &Vec<model::Port>, p: &model::Port) -> (r: bool)
    ensures
        r == port_views(ports@).contains(port_view(*p)),
{
    let ghost views = port_views(ports@);
    let mut i: usize = 0;
    while i < ports.len()
        invariant
            i <= ports.len(),
            views == port_views(ports@),
            forall|j: int| 0 <= j < i ==> #[trigger] views[j] != port_view(*p),
        decreases ports.len() - i,
    {
        if ports[i].private == p.private && same_public(ports[i].public, p.public) && text::same(
            ports[i].proto.as_str(),
            p.proto.as_str(),
        ) {
            proof {
                assert(views[i as int] == port_view(*p));
            }
            return true;
        }
        i += 1;
    }
    false
}

/// The ports of a container. A published mapping is listed once per family of
/// host addresses, so repetitions are dropped. Published ports come first, by
/// host port; then internal ones, by container port.
pub fn ports(summary: &ContainerSummary) -> (r: Vec<model::Port>)
    ensures
        orders_ports(r@, *summary),
{
    let mut out: Vec<model::Port> = Vec::new();
    if let Some(listed) = &summary.ports {
        let ghost all = listed@;
        let mut i: usize = 0;
        proof {
            assert(all.take(0) =~= Seq::empty());
            assert(port_views(out@) =~= Seq::empty());
        }
        while i < listed.len()
            invariant
                i <= listed.len(),
                all == listed@,
                port_views(out@) == distinct_ports(all.take(i as int)),
            decreases listed.len() - i,
        {
            let ghost before = port_views(out@);
            proof {
                assert(all.take(i + 1).drop_last() =~= all.take(i as int));
                assert(all.take(i + 1).last() == listed[i as int]);
            }
            let proto: &str = match listed[i].kind {
                Some(PortKind::Udp) => "udp",
                Some(PortKind::Sctp) => "sctp",
                _ => "tcp",
            };
            let p = model::Port {
                private: listed[i].private_port,
                public: listed[i].public_port,
                proto: proto.to_owned(),
            };
            if !lists_port(&out, &p) {
                out.push(p);
                proof {
                    assert(port_views(out@) =~= before.push(port_view(p)));
                }
            }
            i += 1;
        }
        proof {
            assert(all.take(listed.len() as int) =~= all);
        }
    } else {
        proof {
            assert(port_views(out@) =~= Seq::empty());
        }
    }
    proof {
        assert(port_views(out@) == listed_ports(*summary));
    }
    order::stable_sort(out)
}

/// The ports of a listing without repetitions.
pub open spec fn listed_ports(summary: ContainerSummary) -> Seq<(Option<u16>, u16, Seq<char>)> {
    match summary.ports {
        Some(p) => distinct_ports(p@),
        None => Seq::empty(),
    }
}

/// Whether `r` is the stable sort of the ports of a listing without repetitions.
pub open spec fn orders_ports(r: Seq<model::Port>, summary: ContainerSummary) -> bool {
    exists|d: Seq<model::Port>| #[trigger]
        port_views(d) == listed_ports(summary) && order::is_stable_sort(d, r) && r
            == order::sorted(d)
}

/// No port is listed twice, and every listed one is there.
pub proof fn law_ports_are_distinct(ports: Seq<PortSummary>)
    ensures
        distinct_ports(ports).no_duplicates(),
        forall|i: int|
            0 <= i < ports.len() ==> distinct_ports(ports).contains(
                summary_view(#[trigger] ports[i]),
            ),
    decreases ports.len(),
{
    if ports.len() > 0 {
        let head = ports.drop_last();
        law_ports_are_distinct(head);
        let before = distinct_ports(head);
        let all = distinct_ports(ports);
        assert forall|i: int| 0 <= i < ports.len() implies all.contains(
            summary_view(#[trigger] ports[i]),
        ) by {
            let v = summary_view(ports[i]);
            if i < head.len() {
                assert(head[i] == ports[i]);
                assert(before.contains(v));
                let k = choose|k: int| 0 <= k < before.len() && before[k] == v;
                assert(all[k] == v);
            } else if !before.contains(v) {
                assert(all[all.len() - 1] == v);
            }
        }
    }
}

// ---------------------------------------------------------------------------
// Counters
// ---------------------------------------------------------------------------

/// The larger of two counters' difference and zero: a counter that went back,
/// as after a restart of the engine, counts as unchanged.
pub open spec fn gain(now: u64, before: u64) -> int {
    if now < before {
        0
    } else {
        now - before
    }
}

/// CPU counters of a container's last sample.
#[derive(Debug, Clone, Copy)]
pub struct PrevCpu {
    pub total_usage: u64,
    pub system_usage: u64,
}

/// A container's part in the host's CPU time: `busy` of `total`, over `cpus`
/// cores. The percentage is `busy / total * cpus * 100`.
#[derive(Debug, Clone, Copy, PartialEq, Eq, Structural)]
pub struct CpuShare {
    pub busy: u64,
    /// Never zero.
    pub total: u64,
    pub cpus: u64,
}

/// The share between two samples; nothing when either counter stood still.
pub open spec fn share(prev: PrevCpu, total: u64, system: u64, cpus: u64) -> CpuShare {
    let busy = gain(total, prev.total_usage);
    let span = gain(system, prev.system_usage);
    if busy == 0 || span == 0 {
        CpuShare { busy: 0, total: 1, cpus }
    } else {
        CpuShare { busy: busy as u64, total: span as u64, cpus }
    }
}

/// The share of CPU time between the previous sample and the given counters.
pub fn cpu_percent_from_deltas(
    prev: PrevCpu,
    total_usage: u64,
    system_usage: u64,
    online_cpus: u64,
) -> (r: CpuShare)
    ensures
        r == share(prev, total_usage, system_usage, online_cpus),
        r.total > 0,
        r.cpus == online_cpus,
        (total_usage > prev.total_usage && system_usage > prev.system_usage) ==> r.busy
            + prev.total_usage == total_usage && r.total + prev.system_usage == system_usage,
        (total_usage <= prev.total_usage || system_usage <= prev.system_usage) ==> r.busy == 0,
{
    let busy: u64 = total_usage.saturating_sub(prev.total_usage);
    let span: u64 = system_usage.saturating_sub(prev.system_usage);
    if busy == 0 || span == 0 {
        CpuShare { busy: 0, total: 1, cpus: online_cpus }
    } else {
        CpuShare { busy, total: span, cpus: online_cpus }
    }
}

/// The number of cores a container may use.
pub open spec fn cpu_count(stats: CpuStats) -> int {
    let reported = match stats.online_cpus {
        Some(n) => Some(n as int),
        None => match stats.cpu_usage {
            Some(u) => match u.percpu_count {
                Some(n) => Some(n as int),
                None => None,
            },
            None => None,
        },
    };
    match reported {
        Some(n) => if n > 0 {
            n
        } else {
            1
        },
        None => 1,
    }
}

/// The number of cores a container may use: the reported number, else the
/// number of per-core counters, and never zero.
pub fn online_cpus(stats: &CpuStats) -> (r: u64)
    ensures
        r == cpu_count(*stats),
        r >= 1,
{
    let reported: Option<u64> = match stats.online_cpus {
        Some(n) => Some(n as u64),
        None => match stats.cpu_usage {
            Some(u) => u.percpu_count,
            None => None,
        },
    };
    match reported {
        Some(n) => if n > 0 {
            n
        } else {
            1
        },
        None => 1,
    }
}

/// The number of cores of a host: what the engine reports, else what this
/// machine has, else one.
pub fn host_cpus(reported: Option<i64>, local: Option<usize>) -> (r: usize)
    ensures
        r == (match reported {
            Some(n) if 0 < n <= usize::MAX => n as int,
            _ => match local {
                Some(n) => n as int,
                None => 1,
            },
        }),
{
    if let Some(n) = reported {
        if n > 0 {
            let wide: u64 = n as u64;
            if wide <= usize::MAX as u64 {
                return wide as usize;
            }
        }
    }
    match local {
        Some(n) => n,
        None => 1,
    }
}

/// The value of the first pair with this key.
pub open spec fn detail_value(stats: Seq<(String, u64)>, key: Seq<char>) -> Option<u64>
    decreases stats.len(),
{
    if stats.len() == 0 {
        None
    } else if stats[0].0@ == key {
        Some(stats[0].1)
    } else {
        detail_value(stats.skip(1), key)
    }
}

fn find_detail(stats: &Vec<(String, u64)>, key: &str) -> (r: Option<u64>)
    ensures
        r == detail_value(stats@, key@),
{
    let mut i: usize = 0;
    proof {
        assert(stats@.skip(0) =~= stats@);
    }
    while i < stats.len()
        invariant
            i <= stats.len(),
            detail_value(stats@, key@) == detail_value(stats@.skip(i as int), key@),
        decreases stats.len() - i,
    {
        proof {
            assert(stats@.skip(i as int)[0] == stats@[i as int]);
            assert(stats@.skip(i as int).skip(1) =~= stats@.skip(i + 1));
        }
        if text::same(stats[i].0.as_str(), key) {
            return Some(stats[i].1);
        }
        i += 1;
    }
    None
}

/// The reclaimable page cache that a sample reports, under either version of
/// control groups.
pub open spec fn page_cache(mem: MemoryStats) -> u64 {
    match mem.stats {
        Some(s) => match detail_value(s@, "inactive_file"@) {
            Some(n) => n,
            None => match detail_value(s@, "total_inactive_file"@) {
                Some(n) => n,
                None => 0,
            },
        },
        None => 0,
    }
}

/// Memory in use, cache excluded, and the limit.
pub open spec fn memory_of(stats: ContainerStats) -> (Option<int>, Option<u64>) {
    match stats.memory_stats {
        Some(mem) => (
            match mem.usage {
                Some(usage) => Some(gain(usage, page_cache(mem))),
                None => None,
            },
            mem.limit,
        ),
        None => (None, None),
    }
}

/// An optional machine integer as a number.
pub open spec fn opt_int(n: Option<u64>) -> Option<int> {
    match n {
        Some(v) => Some(v as int),
        None => None,
    }
}

/// Memory in use, cache excluded, and the limit, both in bytes.
pub fn memory(stats: &ContainerStats) -> (r: (Option<u64>, Option<u64>))
    ensures
        (opt_int(r.0), r.1) == memory_of(*stats),
{
    match &stats.memory_stats {
        Some(mem) => {
            let used: Option<u64> = match mem.usage {
                Some(usage) => {
                    let cache: u64 = match &mem.stats {
                        Some(s) => match find_detail(s, "inactive_file") {
                            Some(n) => n,
                            None => match find_detail(s, "total_inactive_file") {
                                Some(n) => n,
                                None => 0,
                            },
                        },
                        None => 0,
                    };
                    Some(usage.saturating_sub(cache))
                },
                None => None,
            };
            (used, mem.limit)
        },
        None => (None, None),
    }
}

/// A sum that is capped at the largest counter value.
pub open spec fn capped(n: int) -> int {
    if n > u64::MAX {
        u64::MAX as int
    } else {
        n
    }
}

/// A missing counter counts as zero.
pub open spec fn or_zero(n: Option<u64>) -> int {
    match n {
        Some(v) => v as int,
        None => 0,
    }
}

fn value_or_zero(n: Option<u64>) -> (r: u64)
    ensures
        r == or_zero(n),
{
    match n {
        Some(v) => v,
        None => 0,
    }
}

/// The bytes received over all interfaces.
pub open spec fn rx_sum(nets: Seq<NetworkStats>) -> int
    decreases nets.len(),
{
    if nets.len() == 0 {
        0
    } else {
        rx_sum(nets.drop_last()) + or_zero(nets.last().rx_bytes)
    }
}

/// The bytes sent over all interfaces.
pub open spec fn tx_sum(nets: Seq<NetworkStats>) -> int
    decreases nets.len(),
{
    if nets.len() == 0 {
        0
    } else {
        tx_sum(nets.drop_last()) + or_zero(nets.last().tx_bytes)
    }
}

/// The network totals of a sample; none when it has no network section.
pub open spec fn network_of(stats: ContainerStats) -> (Option<int>, Option<int>) {
    match stats.networks {
        Some(nets) => (Some(capped(rx_sum(nets@))), Some(capped(tx_sum(nets@)))),
        None => (None, None),
    }
}

/// The bytes received and sent over all interfaces, or `None` when the sample
/// has no network section, as when a container shares another's network.
pub fn network_totals(stats: &ContainerStats) -> (r: (Option<u64>, Option<u64>))
    ensures
        (opt_int(r.0), opt_int(r.1)) == network_of(*stats),
{
    match &stats.networks {
        Some(nets) => {
            let mut rx: u64 = 0;
            let mut tx: u64 = 0;
            let mut i: usize = 0;
            proof {
                assert(nets@.take(0) =~= Seq::empty());
            }
            while i < nets.len()
                invariant
                    i <= nets.len(),
                    rx == capped(rx_sum(nets@.take(i as int))),
                    tx == capped(tx_sum(nets@.take(i as int))),
                decreases nets.len() - i,
            {
                proof {
                    assert(nets@.take(i + 1).drop_last() =~= nets@.take(i as int));
                    assert(nets@.take(i + 1).last() == nets[i as int]);
                }
                rx = rx.saturating_add(value_or_zero(nets[i].rx_bytes));
                tx = tx.saturating_add(value_or_zero(nets[i].tx_bytes));
                i += 1;
            }
            proof {
                assert(nets@.take(nets.len() as int) =~= nets@);
            }
            (Some(rx), Some(tx))
        },
        None => (None, None),
    }
}

/// Whether an entry counts an operation, in any case.
pub open spec fn counts_op(e: BlkioEntry, op: Seq<char>) -> bool {
    match e.op {
        Some(o) => text::same_ignoring_case(o@, op),
        None => false,
    }
}

/// The bytes of all entries that count an operation.
pub open spec fn op_sum(entries: Seq<BlkioEntry>, op: Seq<char>) -> int
    decreases entries.len(),
{
    if entries.len() == 0 {
        0
    } else {
        op_sum(entries.drop_last(), op) + (if counts_op(entries.last(), op) {
            or_zero(entries.last().value)
        } else {
            0
        })
    }
}

/// The block-device totals of a sample; none when it has no such section.
pub open spec fn blkio_of(stats: ContainerStats) -> (Option<int>, Option<int>) {
    match stats.io_service_bytes {
        Some(entries) => (
            Some(capped(op_sum(entries@, "read"@))),
            Some(capped(op_sum(entries@, "write"@))),
        ),
        None => (None, None),
    }
}

/// The bytes read from and written to block devices, or `None` when the sample
/// has no such section. The engine has named the operations in both cases.
pub fn blkio_totals(stats: &ContainerStats) -> (r: (Option<u64>, Option<u64>))
    ensures
        (opt_int(r.0), opt_int(r.1)) == blkio_of(*stats),
{
    match &stats.io_service_bytes {
        Some(entries) => {
            let mut read: u64 = 0;
            let mut write: u64 = 0;
            let mut i: usize = 0;
            proof {
                assert(entries@.take(0) =~= Seq::empty());
                lemma_read_is_not_write();
            }
            while i < entries.len()
                invariant
                    i <= entries.len(),
                    read == capped(op_sum(entries@.take(i as int), "read"@)),
                    write == capped(op_sum(entries@.take(i as int), "write"@)),
                    !text::same_ignoring_case("read"@, "write"@),
                decreases entries.len() - i,
            {
                proof {
                    assert(entries@.take(i + 1).drop_last() =~= entries@.take(i as int));
                    assert(entries@.take(i + 1).last() == entries[i as int]);
                }
                if let Some(op) = &entries[i].op {
                    let value: u64 = value_or_zero(entries[i].value);
                    if text::eq_ignore_case(op.as_str(), "read") {
                        read = read.saturating_add(value);
                    } else if text::eq_ignore_case(op.as_str(), "write") {
                        write = write.saturating_add(value);
                    }
                }
                i += 1;
            }
            proof {
                assert(entries@.take(entries.len() as int) =~= entries@);
            }
            (Some(read), Some(write))
        },
        None => (None, None),
    }
}

proof fn lemma_read_is_not_write()
    ensures
        !text::same_ignoring_case("read"@, "write"@),
{
    reveal_strlit("read");
    reveal_strlit("write");
    assert(text::lowered("read"@).len() == 4);
    assert(text::lowered("write"@).len() == 5);
}

/// Bytes over a span of time; the rate is `bytes` per `nanos` nanoseconds.
#[derive(Debug, Clone, Copy, PartialEq, Eq, Structural)]
pub struct ByteRate {
    pub bytes: u64,
    pub nanos: u64,
}

/// The rate between two readings of a counter.
pub open spec fn rate_of(now: Option<u64>, prev: Option<u64>, nanos: u64) -> Option<ByteRate> {
    match (now, prev) {
        (Some(a), Some(b)) => Some(ByteRate { bytes: gain(a, b) as u64, nanos }),
        _ => None,
    }
}

/// The rate between two readings of a counter that lie `nanos` apart, or `None`
/// if either is missing.
pub fn rate(now: Option<u64>, prev: Option<u64>, nanos: u64) -> (r: Option<ByteRate>)
    ensures
        r == rate_of(now, prev, nanos),
        (now is Some && prev is Some) == r is Some,
        r matches Some(x) ==> x.nanos == nanos && (if now->0 >= prev->0 {
            x.bytes + prev->0 == now->0
        } else {
            x.bytes == 0
        }),
{
    match (now, prev) {
        (Some(a), Some(b)) => Some(ByteRate { bytes: a.saturating_sub(b), nanos }),
        _ => None,
    }
}

/// The rates of one container.
#[derive(Debug, Clone, Copy, PartialEq, Eq, Structural)]
pub struct IoRates {
    pub net_rx: Option<ByteRate>,
    pub net_tx: Option<ByteRate>,
    pub disk_read: Option<ByteRate>,
    pub disk_write: Option<ByteRate>,
}

/// No rates.
pub open spec fn no_rates() -> IoRates {
    IoRates { net_rx: None, net_tx: None, disk_read: None, disk_write: None }
}

/// I/O counters of a container's last sample, and when it was taken, in
/// nanoseconds of a clock that does not go back.
#[derive(Debug, Clone, Copy)]
pub struct PrevIo {
    pub net_rx: Option<u64>,
    pub net_tx: Option<u64>,
    pub disk_read: Option<u64>,
    pub disk_write: Option<u64>,
    pub at: u64,
}

/// An optional number as a machine integer.
pub open spec fn opt_u64(n: Option<int>) -> Option<u64> {
    match n {
        Some(v) => Some(v as u64),
        None => None,
    }
}

/// The counters of a sample taken at `now`.
pub open spec fn io_of(stats: ContainerStats, now: u64) -> PrevIo {
    PrevIo {
        net_rx: opt_u64(network_of(stats).0),
        net_tx: opt_u64(network_of(stats).1),
        disk_read: opt_u64(blkio_of(stats).0),
        disk_write: opt_u64(blkio_of(stats).1),
        at: now,
    }
}

/// The rates between two samples: none without an earlier one, nor when no time
/// has passed. Each is independent of the others.
pub open spec fn rates_of(prev: Option<PrevIo>, cur: PrevIo) -> IoRates {
    match prev {
        None => no_rates(),
        Some(p) => if cur.at <= p.at {
            no_rates()
        } else {
            let nanos = (cur.at - p.at) as u64;
            IoRates {
                net_rx: rate_of(cur.net_rx, p.net_rx, nanos),
                net_tx: rate_of(cur.net_tx, p.net_tx, nanos),
                disk_read: rate_of(cur.disk_read, p.disk_read, nanos),
                disk_write: rate_of(cur.disk_write, p.disk_write, nanos),
            }
        },
    }
}

// ---------------------------------------------------------------------------
// The sampler
// ---------------------------------------------------------------------------

/// One container's metrics, with the readings still to be computed.
#[derive(Debug)]
pub struct Sampled {
    /// The metrics without CPU share and rates.
    pub metrics: model::ContainerMetrics,
    pub cpu: Option<CpuShare>,
    pub io: IoRates,
}

/// The entry of a key, if there is one.
pub open spec fn entry<V>(m: Map<Seq<char>, V>, key: Seq<char>) -> Option<V> {
    if m.contains_key(key) {
        Some(m[key])
    } else {
        None
    }
}

/// The CPU counters of a sample, if it has both.
pub open spec fn cpu_counters(stats: ContainerStats) -> Option<PrevCpu> {
    match stats.cpu_stats {
        Some(cpu) => match (cpu.cpu_usage, cpu.system_cpu_usage) {
            (Some(usage), Some(system)) => match usage.total_usage {
                Some(total) => Some(PrevCpu { total_usage: total, system_usage: system }),
                None => None,
            },
            _ => None,
        },
        None => None,
    }
}

/// The remembered CPU counters after a sample.
pub open spec fn cpu_after(
    m: Map<Seq<char>, PrevCpu>,
    id: Seq<char>,
    sample: Option<ContainerStats>,
) -> Map<Seq<char>, PrevCpu> {
    match sample {
        Some(stats) => match cpu_counters(stats) {
            Some(c) => m.insert(id, c),
            None => m,
        },
        None => m,
    }
}

/// The CPU share of a container: none without counters or an earlier sample.
pub open spec fn cpu_share(
    m: Map<Seq<char>, PrevCpu>,
    id: Seq<char>,
    sample: Option<ContainerStats>,
) -> Option<CpuShare> {
    match sample {
        Some(stats) => match (cpu_counters(stats), entry(m, id)) {
            (Some(c), Some(prev)) => Some(
                share(
                    prev,
                    c.total_usage,
                    c.system_usage,
                    cpu_count(stats.cpu_stats->0) as u64,
                ),
            ),
            _ => None,
        },
        None => None,
    }
}

/// The remembered I/O counters after a sample.
pub open spec fn io_after(
    m: Map<Seq<char>, PrevIo>,
    id: Seq<char>,
    sample: Option<ContainerStats>,
    now: u64,
) -> Map<Seq<char>, PrevIo> {
    match sample {
        Some(stats) => m.insert(id, io_of(stats, now)),
        None => m,
    }
}

/// The rates of a container.
pub open spec fn io_share(
    m: Map<Seq<char>, PrevIo>,
    id: Seq<char>,
    sample: Option<ContainerStats>,
    now: u64,
) -> IoRates {
    match sample {
        Some(stats) => rates_of(entry(m, id), io_of(stats, now)),
        None => no_rates(),
    }
}

/// Whether metrics are those of a listed container and its sample, apart from
/// CPU share and rates, which they lack.
pub open spec fn describes(
    c: model::ContainerMetrics,
    summary: ContainerSummary,
    sample: Option<ContainerStats>,
) -> bool {
    &&& c.id@ == or_empty(summary.id)
    &&& c.name@ == shown_name(summary)
    &&& c.image@ == or_empty(summary.image)
    &&& c.state == state_of(summary.state)
    &&& c.status@ == or_empty(summary.status)
    &&& c.health == health_of(or_empty(summary.status))
    &&& text::opt_view(c.stack) == label_of(summary.labels, PROJECT_LABEL@)
    &&& match sample {
        Some(stats) => (opt_int(c.mem_used), c.mem_limit) == memory_of(stats),
        None => c.mem_used is None && c.mem_limit is None,
    }
    &&& orders_ports(c.ports@, summary)
    &&& c.cpu_percent is None
    &&& c.net_rx_bps is None
    &&& c.net_tx_bps is None
    &&& c.disk_read_bps is None
    &&& c.disk_write_bps is None
}

/// The sample of a container: the last one under its id.
pub open spec fn sample_of(samples: Seq<(String, ContainerStats)>, id: Seq<char>) -> Option<
    ContainerStats,
>
    decreases samples.len(),
{
    if samples.len() == 0 {
        None
    } else if samples.last().0@ == id {
        Some(samples.last().1)
    } else {
        sample_of(samples.drop_last(), id)
    }
}

/// The sample of a listed container.
pub open spec fn sample_for(
    samples: Seq<(String, ContainerStats)>,
    summary: ContainerSummary,
) -> Option<ContainerStats> {
    sample_of(samples, or_empty(summary.id))
}

/// Whether a container with this id is listed.
pub open spec fn is_listed(summaries: Seq<ContainerSummary>, id: Seq<char>) -> bool {
    exists|i: int|
        0 <= i < summaries.len() && text::opt_view((#[trigger] summaries[i]).id) == Some(id)
}

/// The ids of the listed containers.
pub open spec fn listed_ids(summaries: Seq<ContainerSummary>) -> Set<Seq<char>> {
    Set::new(|id: Seq<char>| is_listed(summaries, id))
}

/// The remembered CPU counters after the listed containers.
pub open spec fn cpu_after_all(
    m: Map<Seq<char>, PrevCpu>,
    summaries: Seq<ContainerSummary>,
    samples: Seq<(String, ContainerStats)>,
) -> Map<Seq<char>, PrevCpu>
    decreases summaries.len(),
{
    if summaries.len() == 0 {
        m
    } else {
        cpu_after(
            cpu_after_all(m, summaries.drop_last(), samples),
            or_empty(summaries.last().id),
            sample_for(samples, summaries.last()),
        )
    }
}

/// The remembered I/O counters after the listed containers.
pub open spec fn io_after_all(
    m: Map<Seq<char>, PrevIo>,
    summaries: Seq<ContainerSummary>,
    samples: Seq<(String, ContainerStats)>,
    now: u64,
) -> Map<Seq<char>, PrevIo>
    decreases summaries.len(),
{
    if summaries.len() == 0 {
        m
    } else {
        io_after(
            io_after_all(m, summaries.drop_last(), samples, now),
            or_empty(summaries.last().id),
            sample_for(samples, summaries.last()),
            now,
        )
    }
}

/// Whether `s` is what container `i` of a listing amounts to.
pub open spec fn samples_to(
    s: Sampled,
    cpu: Map<Seq<char>, PrevCpu>,
    io: Map<Seq<char>, PrevIo>,
    summaries: Seq<ContainerSummary>,
    samples: Seq<(String, ContainerStats)>,
    now: u64,
    i: int,
) -> bool {
    let summary = summaries[i];
    let id = or_empty(summary.id);
    let sample = sample_for(samples, summary);
    let head = summaries.take(i);
    &&& describes(s.metrics, summary, sample)
    &&& s.cpu == cpu_share(cpu_after_all(cpu, head, samples), id, sample)
    &&& s.io == io_share(io_after_all(io, head, samples, now), id, sample, now)
}

/// Turns listings and samples into metrics, remembering each container's last
/// sample.
pub struct Sampler {
    prev_cpu: table::Table<PrevCpu>,
    prev_io: table::Table<PrevIo>,
}

impl Sampler {
    /// The remembered CPU counters, by container id.
    pub closed spec fn cpu(&self) -> Map<Seq<char>, PrevCpu> {
        self.prev_cpu@
    }

    /// The remembered I/O counters, by container id.
    pub closed spec fn io(&self) -> Map<Seq<char>, PrevIo> {
        self.prev_io@
    }

    /// A sampler that remembers nothing.
    pub fn new() -> (r: Self)
        ensures
            r.cpu() == Map::<Seq<char>, PrevCpu>::empty(),
            r.io() == Map::<Seq<char>, PrevIo>::empty(),
    {
        Sampler { prev_cpu: table::Table::new(), prev_io: table::Table::new() }
    }

    /// The metrics of all listed containers, given the samples of those that
    /// run and the time in nanoseconds of a clock that does not go back.
    ///
    /// Counters of containers that are gone are forgotten first. A container
    /// without a sample has identity and state only.
    pub fn collect(
        &mut self,
        summaries: &[ContainerSummary],
        samples: &[(String, ContainerStats)],
        now: u64,
    ) -> (r: Vec<Sampled>)
        ensures
            ({
                let cpu = old(self).cpu().restrict(listed_ids(summaries@));
                let io = old(self).io().restrict(listed_ids(summaries@));
                &&& r.len() == summaries.len()
                &&& forall|i: int|
                    0 <= i < summaries.len() ==> samples_to(
                        #[trigger] r[i],
                        cpu,
                        io,
                        summaries@,
                        samples@,
                        now,
                        i,
                    )
                &&& final(self).cpu() == cpu_after_all(cpu, summaries@, samples@)
                &&& final(self).io() == io_after_all(io, summaries@, samples@, now)
            }),
    {
        let live = live_ids(summaries);
        proof {
            assert(Set::new(|k: Seq<char>| table::is_live(live@, k)) =~= listed_ids(summaries@));
        }
        self.prev_cpu.retain(&live);
        self.prev_io.retain(&live);
        let ghost cpu = self.cpu();
        let ghost io = self.io();
        let mut out: Vec<Sampled> = Vec::new();
        let mut i: usize = 0;
        proof {
            assert(summaries@.take(0) =~= Seq::empty());
        }
        while i < summaries.len()
            invariant
                i <= summaries.len(),
                out.len() == i,
                self.cpu() == cpu_after_all(cpu, summaries@.take(i as int), samples@),
                self.io() == io_after_all(io, summaries@.take(i as int), samples@, now),
                forall|j: int|
                    0 <= j < i ==> samples_to(
                        #[trigger] out[j],
                        cpu,
                        io,
                        summaries@,
                        samples@,
                        now,
                        j,
                    ),
            decreases summaries.len() - i,
        {
            proof {
                assert(summaries@.take(i + 1).drop_last() =~= summaries@.take(i as int));
                assert(summaries@.take(i + 1).last() == summaries@[i as int]);
            }
            let summary = &summaries[i];
            let id = id_of(summary);
            let sample = find_sample(samples, id.as_str());
            let s = self.build_metrics(summary, sample, now);
            out.push(s);
            i += 1;
        }
        proof {
            assert(summaries@.take(summaries.len() as int) =~= summaries@);
        }
        out
    }

    /// The metrics of one container.
    fn build_metrics(
        &mut self,
        summary: &ContainerSummary,
        sample: Option<&ContainerStats>,
        now: u64,
    ) -> (r: Sampled)
        ensures
            ({
                let id = or_empty(summary.id);
                let given = deref_sample(sample);
                &&& describes(r.metrics, *summary, given)
                &&& r.cpu == cpu_share(old(self).cpu(), id, given)
                &&& r.io == io_share(old(self).io(), id, given, now)
                &&& final(self).cpu() == cpu_after(old(self).cpu(), id, given)
                &&& final(self).io() == io_after(old(self).io(), id, given, now)
            }),
    {
        let id = id_of(summary);
        let status = text_or_empty(&summary.status);
        let (cpu, mem_used, mem_limit) = match sample {
            Some(stats) => {
                let cpu = self.cpu_percent(id.as_str(), stats);
                let (used, limit) = memory(stats);
                (cpu, used, limit)
            },
            None => (None, None, None),
        };
        let io = match sample {
            Some(stats) => self.io_rates(id.as_str(), stats, now),
            None => IoRates { net_rx: None, net_tx: None, disk_read: None, disk_write: None },
        };
        let health = parse_health(status.as_str());
        let listed = ports(summary);
        Sampled {
            metrics: model::ContainerMetrics {
                id,
                name: display_name(summary),
                image: text_or_empty(&summary.image),
                state: map_state(summary.state),
                status,
                health,
                stack: compose_project(summary),
                cpu_percent: None,
                mem_used,
                mem_limit,
                net_rx_bps: None,
                net_tx_bps: None,
                disk_read_bps: None,
                disk_write_bps: None,
                ports: listed,
            },
            cpu,
            io,
        }
    }

    /// The rates of one container; remembers its counters.
    fn io_rates(&mut self, id: &str, stats: &ContainerStats, now: u64) -> (r: IoRates)
        ensures
            r == io_share(old(self).io(), id@, Some(*stats), now),
            final(self).io() == io_after(old(self).io(), id@, Some(*stats), now),
            final(self).cpu() == old(self).cpu(),
    {
        let (net_rx, net_tx) = network_totals(stats);
        let (disk_read, disk_write) = blkio_totals(stats);
        let cur = PrevIo { net_rx, net_tx, disk_read, disk_write, at: now };
        proof {
            assert(cur == io_of(*stats, now));
        }
        let prev = self.prev_io.get(id);
        self.prev_io.set(id.to_owned(), cur);
        match prev {
            None => IoRates { net_rx: None, net_tx: None, disk_read: None, disk_write: None },
            Some(p) => if now <= p.at {
                IoRates { net_rx: None, net_tx: None, disk_read: None, disk_write: None }
            } else {
                let nanos: u64 = now - p.at;
                IoRates {
                    net_rx: rate(net_rx, p.net_rx, nanos),
                    net_tx: rate(net_tx, p.net_tx, nanos),
                    disk_read: rate(disk_read, p.disk_read, nanos),
                    disk_write: rate(disk_write, p.disk_write, nanos),
                }
            },
        }
    }

    /// The CPU share of one container; remembers its counters.
    fn cpu_percent(&mut self, id: &str, stats: &ContainerStats) -> (r: Option<CpuShare>)
        ensures
            r == cpu_share(old(self).cpu(), id@, Some(*stats)),
            final(self).cpu() == cpu_after(old(self).cpu(), id@, Some(*stats)),
            final(self).io() == old(self).io(),
    {
        let cpu = match stats.cpu_stats {
            Some(cpu) => cpu,
            None => {
                return None;
            },
        };
        let total: u64 = match cpu.cpu_usage {
            Some(usage) => match usage.total_usage {
                Some(total) => total,
                None => {
                    return None;
                },
            },
            None => {
                return None;
            },
        };
        let system: u64 = match cpu.system_cpu_usage {
            Some(system) => system,
            None => {
                return None;
            },
        };
        let prev = self.prev_cpu.get(id);
        self.prev_cpu.set(id.to_owned(), PrevCpu { total_usage: total, system_usage: system });
        match prev {
            Some(p) => Some(cpu_percent_from_deltas(p, total, system, online_cpus(&cpu))),
            None => None,
        }
    }
}

/// A sample behind a reference.
pub open spec fn deref_sample(sample: Option<&ContainerStats>) -> Option<ContainerStats> {
    match sample {
        Some(s) => Some(*s),
        None => None,
    }
}

fn live_ids<'a>(summaries: &'a [ContainerSummary]) -> (r: Vec<&'a str>)
    ensures
        forall|id: Seq<char>| #[trigger] table::is_live(r@, id) == is_listed(summaries@, id),
{
    let mut out: Vec<&'a str> = Vec::new();
    let mut i: usize = 0;
    while i < summaries.len()
        invariant
            i <= summaries.len(),
            forall|k: int| 0 <= k < out.len() ==> is_listed(summaries@, (#[trigger] out[k])@),
            forall|j: int|
                0 <= j < i ==> ((#[trigger] summaries[j]).id matches Some(id) ==> table::is_live(
                    out@,
                    id@,
                )),
        decreases summaries.len() - i,
    {
        let ghost before = out@;
        if let Some(id) = &summaries[i].id {
            proof {
                assert(text::opt_view(summaries@[i as int].id) == Some(id@));
                assert(is_listed(summaries@, id@));
            }
            out.push(id.as_str());
            proof {
                assert(out@[before.len() as int]@ == id@);
                assert(table::is_live(out@, id@));
                assert forall|j: int| 0 <= j < i implies ((#[trigger] summaries[j]).id matches Some(
                    x,
                ) ==> table::is_live(out@, x@)) by {
                    if let Some(x) = summaries[j].id {
                        assert(table::is_live(before, x@));
                        let k = choose|k: int|
                            0 <= k < before.len() && (#[trigger] before[k])@ == x@;
                        assert(out@[k]@ == x@);
                    }
                }
            }
        }
        i += 1;
    }
    proof {
        assert forall|id: Seq<char>| #[trigger]
            table::is_live(out@, id) == is_listed(summaries@, id) by {
            if table::is_live(out@, id) {
                let k = choose|k: int| 0 <= k < out@.len() && (#[trigger] out@[k])@ == id;
                assert(is_listed(summaries@, out[k]@));
            }
            if is_listed(summaries@, id) {
                let j = choose|j: int|
                    0 <= j < summaries@.len() && text::opt_view((#[trigger] summaries@[j]).id)
                        == Some(id);
                assert(summaries[j].id is Some);
            }
        }
    }
    out
}

fn find_sample<'a>(samples: &'a [(String, ContainerStats)], id: &str) -> (r: Option<
    &'a ContainerStats,
>)
    ensures
        deref_sample(r) == sample_of(samples@, id@),
{
    let mut n: usize = samples.len();
    proof {
        assert(samples@.take(samples.len() as int) =~= samples@);
    }
    while n > 0
        invariant
            n <= samples.len(),
            sample_of(samples@, id@) == sample_of(samples@.take(n as int), id@),
        decreases n,
    {
        proof {
            assert(samples@.take(n as int).drop_last() =~= samples@.take(n - 1));
            assert(samples@.take(n as int).last() == samples@[n - 1]);
        }
        if text::same(samples[n - 1].0.as_str(), id) {
            return Some(&samples[n - 1].1);
        }
        n -= 1;
    }
    None
}

// ---------------------------------------------------------------------------
// Compose
// ---------------------------------------------------------------------------

/// The trimmed items of a list, without empty ones.
pub open spec fn tidy_items(items: Seq<Seq<char>>) -> Seq<Seq<char>>
    decreases items.len(),
{
    if items.len() == 0 {
        Seq::empty()
    } else {
        let before = tidy_items(items.drop_last());
        let item = text::trimmed(items.last());
        if item.len() == 0 {
            before
        } else {
            before.push(item)
        }
    }
}

fn tidy_list(list: &str) -> (r: Vec<String>)
    ensures
        text::string_views(r@) == tidy_items(text::pieces(list@, ',')),
{
    let items = text::split(list, ',');
    let ghost all = text::slice_views(items@);
    let mut out: Vec<String> = Vec::new();
    let mut i: usize = 0;
    proof {
        assert(all.take(0) =~= Seq::empty());
        assert(text::string_views(out@) =~= Seq::empty());
    }
    while i < items.len()
        invariant
            i <= items.len(),
            all == text::slice_views(items@),
            text::string_views(out@) == tidy_items(all.take(i as int)),
        decreases items.len() - i,
    {
        let ghost before = text::string_views(out@);
        proof {
            assert(all.take(i + 1).drop_last() =~= all.take(i as int));
            assert(all.take(i + 1).last() == items[i as int]@);
        }
        let item = text::trim(items[i]);
        if !item.is_empty() {
            out.push(item.to_owned());
            proof {
                assert(text::string_views(out@) =~= before.push(item@));
            }
        }
        i += 1;
    }
    proof {
        assert(all.take(items.len() as int) =~= all);
    }
    out
}

/// The first container of a project, or the length of the list.
pub open spec fn first_of_project(summaries: Seq<ContainerSummary>, project: Seq<char>) -> int
    decreases summaries.len(),
{
    if summaries.len() == 0 {
        0
    } else if label_of(summaries[0].labels, PROJECT_LABEL@) == Some(project) {
        0
    } else {
        1 + first_of_project(summaries.skip(1), project)
    }
}

/// The configuration files of a stack: those that its first container lists.
pub open spec fn config_files_of(summaries: Seq<ContainerSummary>, project: Seq<char>) -> Seq<
    Seq<char>,
> {
    let i = first_of_project(summaries, project);
    if 0 <= i < summaries.len() {
        match label_of(summaries[i].labels, CONFIG_FILES_LABEL@) {
            Some(v) => tidy_items(text::pieces(v, ',')),
            None => Seq::empty(),
        }
    } else {
        Seq::empty()
    }
}

/// The configuration files of a stack, as the label of its first container
/// lists them; empty without such a container or label.
pub fn compose_config_files(summaries: &[ContainerSummary], stack: &str) -> (r: Vec<String>)
    ensures
        text::string_views(r@) == config_files_of(summaries@, stack@),
{
    let mut i: usize = 0;
    proof {
        assert(summaries@.skip(0) =~= summaries@);
    }
    while i < summaries.len()
        invariant
            i <= summaries.len(),
            first_of_project(summaries@, stack@) == i + first_of_project(
                summaries@.skip(i as int),
                stack@,
            ),
        decreases summaries.len() - i,
    {
        let c = &summaries[i];
        proof {
            assert(summaries@.skip(i as int)[0] == *c);
            assert(summaries@.skip(i as int).skip(1) =~= summaries@.skip(i + 1));
        }
        let ours: bool = match label(&c.labels, PROJECT_LABEL) {
            Some(p) => text::same(p, stack),
            None => false,
        };
        if ours {
            return match label(&c.labels, CONFIG_FILES_LABEL) {
                Some(v) => tidy_list(v),
                None => {
                    let none: Vec<String> = Vec::new();
                    proof {
                        assert(text::string_views(none@) =~= Seq::empty());
                    }
                    none
                },
            };
        }
        i += 1;
    }
    let none: Vec<String> = Vec::new();
    proof {
        assert(text::string_views(none@) =~= Seq::empty());
    }
    none
}

/// Whether a listed container belongs to a project and has an id.
pub open spec fn is_member(summary: ContainerSummary, project: Seq<char>) -> bool {
    summary.id is Some && label_of(summary.labels, PROJECT_LABEL@) == Some(project)
}

/// Whether `m` is the member that a listed container stands for.
pub open spec fn stands_for(m: stack::Member, summary: ContainerSummary) -> bool {
    &&& text::opt_view(summary.id) == Some(m.id@)
    &&& m.service@ == (match label_of(summary.labels, SERVICE_LABEL@) {
        Some(s) => s,
        None => Seq::empty(),
    })
    &&& stack::dep_views(m.deps@) == (match label_of(summary.labels, DEPENDS_ON_LABEL@) {
        Some(s) => stack::deps_of_entries(text::pieces(s, ',')),
        None => Seq::empty(),
    })
}

/// The listed containers that are members of a project.
pub open spec fn members_of(summaries: Seq<ContainerSummary>, project: Seq<char>) -> Seq<
    ContainerSummary,
>
    decreases summaries.len(),
{
    if summaries.len() == 0 {
        Seq::empty()
    } else {
        let before = members_of(summaries.drop_last(), project);
        if is_member(summaries.last(), project) {
            before.push(summaries.last())
        } else {
            before
        }
    }
}

/// The members of a compose project, with their services and the dependencies
/// that their labels declare.
pub fn stack_members(summaries: &[ContainerSummary], project: &str) -> (r: Vec<stack::Member>)
    ensures
        r.len() == members_of(summaries@, project@).len(),
        forall|i: int|
            0 <= i < r.len() ==> stands_for(
                #[trigger] r[i],
                members_of(summaries@, project@)[i],
            ),
{
    let mut out: Vec<stack::Member> = Vec::new();
    let mut i: usize = 0;
    proof {
        assert(summaries@.take(0) =~= Seq::empty());
    }
    while i < summaries.len()
        invariant
            i <= summaries.len(),
            out.len() == members_of(summaries@.take(i as int), project@).len(),
            forall|j: int|
                0 <= j < out.len() ==> stands_for(
                    #[trigger] out[j],
                    members_of(summaries@.take(i as int), project@)[j],
                ),
        decreases summaries.len() - i,
    {
        let c = &summaries[i];
        proof {
            assert(summaries@.take(i + 1).drop_last() =~= summaries@.take(i as int));
            assert(summaries@.take(i + 1).last() == *c);
        }
        let ours: bool = match label(&c.labels, PROJECT_LABEL) {
            Some(p) => text::same(p, project),
            None => false,
        };
        if ours {
            if let Some(id) = &c.id {
                let service = match label(&c.labels, SERVICE_LABEL) {
                    Some(s) => s.to_owned(),
                    None => String::new(),
                };
                let deps = match label(&c.labels, DEPENDS_ON_LABEL) {
                    Some(s) => stack::parse_depends_on(s),
                    None => Vec::new(),
                };
                proof {
                    assert(label_of(c.labels, SERVICE_LABEL@) is None ==> service@
                        =~= Seq::<char>::empty());
                    assert(label_of(c.labels, DEPENDS_ON_LABEL@) is None ==> stack::dep_views(
                        deps@,
                    ) =~= Seq::empty());
                }
                out.push(stack::Member { id: id.clone(), service, deps });
            }
        }
        i += 1;
    }
    proof {
        assert(summaries@.take(summaries.len() as int) =~= summaries@);
    }
    out
}

/// The shell that a terminal runs when no command is given.
pub const DEFAULT_SHELL: &'static str = "/bin/sh";

/// The words of a command line, or the default shell.
pub open spec fn argv_of(cmd: Seq<char>) -> Seq<Seq<char>> {
    let words = text::word_seq(cmd);
    if words.len() == 0 {
        seq![DEFAULT_SHELL@]
    } else {
        words
    }
}

/// The command of an interactive session: the words of `cmd`, or the default
/// shell when there are none.
pub fn exec_argv(cmd: &str) -> (r: Vec<String>)
    ensures
        text::string_views(r@) == argv_of(cmd@),
        r.len() > 0,
{
    let words = text::words(cmd);
    let ghost all = text::slice_views(words@);
    let mut out: Vec<String> = Vec::new();
    if words.len() == 0 {
        out.push(DEFAULT_SHELL.to_owned());
        proof {
            assert(text::string_views(out@) =~= seq![DEFAULT_SHELL@]);
        }
        return out;
    }
    let mut i: usize = 0;
    proof {
        assert(text::string_views(out@) =~= all.take(0));
    }
    while i < words.len()
        invariant
            i <= words.len(),
            all == text::slice_views(words@),
            out.len() == i,
            text::string_views(out@) == all.take(i as int),
        decreases words.len() - i,
    {
        let ghost before = text::string_views(out@);
        out.push(words[i].to_owned());
        proof {
            assert(text::string_views(out@) =~= before.push(words[i as int]@));
            assert(all.take(i + 1) =~= all.take(i as int).push(all[i as int]));
        }
        i += 1;
    }
    proof {
        assert(all.take(words.len() as int) =~= all);
    }
    out
}

// ---------------------------------------------------------------------------
// Laws
// ---------------------------------------------------------------------------

/// The first sample of a container gives neither a share nor a rate.
pub proof fn law_first_sample_has_no_readings(
    cpu: Map<Seq<char>, PrevCpu>,
    io: Map<Seq<char>, PrevIo>,
    id: Seq<char>,
    sample: Option<ContainerStats>,
    now: u64,
)
    requires
        !cpu.contains_key(id),
        !io.contains_key(id),
    ensures
        cpu_share(cpu, id, sample) is None,
        io_share(io, id, sample, now) == no_rates(),
{
}

/// A counter that went back gives a share or a rate of zero, never a huge one.
pub proof fn law_regressions_read_as_zero(prev: PrevCpu, total: u64, system: u64, cpus: u64)
    requires
        total <= prev.total_usage || system <= prev.system_usage,
    ensures
        share(prev, total, system, cpus).busy == 0,
        forall|now: u64, before: u64, nanos: u64|
            now <= before ==> #[trigger] rate_of(Some(now), Some(before), nanos) == Some(
                ByteRate { bytes: 0, nanos },
            ),
{
}

/// Only containers of the last listing are remembered, so memory does not grow.
pub proof fn law_only_listed_containers_are_remembered(
    cpu: Map<Seq<char>, PrevCpu>,
    io: Map<Seq<char>, PrevIo>,
    summaries: Seq<ContainerSummary>,
    samples: Seq<(String, ContainerStats)>,
    now: u64,
    id: Seq<char>,
)
    requires
        id.len() > 0,
        !is_listed(summaries, id),
    ensures
        !cpu_after_all(cpu.restrict(listed_ids(summaries)), summaries, samples).contains_key(id),
        !io_after_all(io.restrict(listed_ids(summaries)), summaries, samples, now).contains_key(id),
{
    assert forall|j: int| 0 <= j < summaries.len() implies or_empty((#[trigger] summaries[j]).id)
        != id by {
        assert(text::opt_view(summaries[j].id) != Some(id));
    }
    lemma_unlisted(
        cpu.restrict(listed_ids(summaries)),
        io.restrict(listed_ids(summaries)),
        summaries,
        samples,
        now,
        id,
    );
}

proof fn lemma_unlisted(
    cpu: Map<Seq<char>, PrevCpu>,
    io: Map<Seq<char>, PrevIo>,
    summaries: Seq<ContainerSummary>,
    samples: Seq<(String, ContainerStats)>,
    now: u64,
    id: Seq<char>,
)
    requires
        !cpu.contains_key(id),
        !io.contains_key(id),
        forall|j: int| 0 <= j < summaries.len() ==> or_empty((#[trigger] summaries[j]).id) != id,
    ensures
        !cpu_after_all(cpu, summaries, samples).contains_key(id),
        !io_after_all(io, summaries, samples, now).contains_key(id),
    decreases summaries.len(),
{
    if summaries.len() > 0 {
        let head = summaries.drop_last();
        assert forall|j: int| 0 <= j < head.len() implies or_empty((#[trigger] head[j]).id)
            != id by {
            assert(head[j] == summaries[j]);
        }
        lemma_unlisted(cpu, io, head, samples, now, id);
        assert(or_empty(summaries[summaries.len() - 1].id) != id);
    }
}

/// The bytes of an operation add up over the entries of two lists. An entry counts
/// for an operation exactly if it names it, in any case, and then with its bytes.
pub proof fn law_operations_add_up(
    a: Seq<BlkioEntry>,
    b: Seq<BlkioEntry>,
    e: BlkioEntry,
    op: Seq<char>,
)
    ensures
        op_sum(a + b, op) == op_sum(a, op) + op_sum(b, op),
        op_sum(Seq::empty(), op) == 0,
        op_sum(seq![e], op) == (match (e.op, e.value) {
            (Some(o), Some(n)) => if text::lowered(o@) == text::lowered(op) {
                n as int
            } else {
                0
            },
            _ => 0,
        }),
    decreases b.len(),
{
    assert(seq![e].drop_last() =~= Seq::<BlkioEntry>::empty());
    if b.len() == 0 {
        assert(a + b =~= a);
    } else {
        law_operations_add_up(a, b.drop_last(), e, op);
        assert((a + b).drop_last() =~= a + b.drop_last());
        assert((a + b).last() == b.last());
    }
}

/// The bytes received and those sent add up over the interfaces of two lists; an
/// interface counts with what it reports of either.
pub proof fn law_interfaces_add_up(a: Seq<NetworkStats>, b: Seq<NetworkStats>, e: NetworkStats)
    ensures
        rx_sum(a + b) == rx_sum(a) + rx_sum(b),
        tx_sum(a + b) == tx_sum(a) + tx_sum(b),
        rx_sum(Seq::empty()) == 0,
        tx_sum(Seq::empty()) == 0,
        rx_sum(seq![e]) == (match e.rx_bytes {
            Some(n) => n as int,
            None => 0,
        }),
        tx_sum(seq![e]) == (match e.tx_bytes {
            Some(n) => n as int,
            None => 0,
        }),
    decreases b.len(),
{
    assert(seq![e].drop_last() =~= Seq::<NetworkStats>::empty());
    if b.len() == 0 {
        assert(a + b =~= a);
    } else {
        law_interfaces_add_up(a, b.drop_last(), e);
        assert((a + b).drop_last() =~= a + b.drop_last());
        assert((a + b).last() == b.last());
    }
}

/// Whether a rate is that of a counter that went from one total to another, each
/// capped at the largest counter value, in `nanos` nanoseconds. A total that fell
/// gives a rate of zero.
pub open spec fn is_rate(r: Option<ByteRate>, from: int, to: int, nanos: int) -> bool {
    let old_total = if from > u64::MAX {
        u64::MAX as int
    } else {
        from
    };
    let new_total = if to > u64::MAX {
        u64::MAX as int
    } else {
        to
    };
    r matches Some(x) && x.nanos == nanos && (if new_total >= old_total {
        x.bytes + old_total == new_total
    } else {
        x.bytes == 0
    })
}

proof fn lemma_op_sum_nonneg(entries: Seq<BlkioEntry>, op: Seq<char>)
    ensures
        op_sum(entries, op) >= 0,
    decreases entries.len(),
{
    if entries.len() > 0 {
        lemma_op_sum_nonneg(entries.drop_last(), op);
    }
}

proof fn lemma_net_sums_nonneg(nets: Seq<NetworkStats>)
    ensures
        rx_sum(nets) >= 0,
        tx_sum(nets) >= 0,
    decreases nets.len(),
{
    if nets.len() > 0 {
        lemma_net_sums_nonneg(nets.drop_last());
    }
}

/// Between two samples of a container that both report block I/O, with time
/// passed, the read rate is what the entries of reads gained and the write rate
/// what those of writes gained, each over the time between the samples; the same
/// holds of received and sent bytes. What a sample does not report has no rate.
pub proof fn law_rates_are_gains_over_time(
    io: Map<Seq<char>, PrevIo>,
    id: Seq<char>,
    a: ContainerStats,
    then: u64,
    b: ContainerStats,
    now: u64,
)
    requires
        then < now,
    ensures
        ({
            let r = io_share(io_after(io, id, Some(a), then), id, Some(b), now);
            &&& match (a.io_service_bytes, b.io_service_bytes) {
                (Some(x), Some(y)) => is_rate(
                    r.disk_read,
                    op_sum(x@, "read"@),
                    op_sum(y@, "read"@),
                    now - then,
                ) && is_rate(
                    r.disk_write,
                    op_sum(x@, "write"@),
                    op_sum(y@, "write"@),
                    now - then,
                ),
                _ => r.disk_read is None && r.disk_write is None,
            }
            &&& match (a.networks, b.networks) {
                (Some(x), Some(y)) => is_rate(r.net_rx, rx_sum(x@), rx_sum(y@), now - then)
                    && is_rate(r.net_tx, tx_sum(x@), tx_sum(y@), now - then),
                _ => r.net_rx is None && r.net_tx is None,
            }
        }),
{
    if let Some(x) = a.io_service_bytes {
        lemma_op_sum_nonneg(x@, "read"@);
        lemma_op_sum_nonneg(x@, "write"@);
    }
    if let Some(y) = b.io_service_bytes {
        lemma_op_sum_nonneg(y@, "read"@);
        lemma_op_sum_nonneg(y@, "write"@);
    }
    if let Some(x) = a.networks {
        lemma_net_sums_nonneg(x@);
    }
    if let Some(y) = b.networks {
        lemma_net_sums_nonneg(y@);
    }
}

/// A counter that stands still has a rate of zero, whatever the others do: with
/// the same bytes written in both samples the write rate is zero, and so for
/// reads and for either direction of the network.
pub proof fn law_still_counters_have_no_rate(
    io: Map<Seq<char>, PrevIo>,
    id: Seq<char>,
    a: ContainerStats,
    then: u64,
    b: ContainerStats,
    now: u64,
)
    requires
        then < now,
    ensures
        ({
            let r = io_share(io_after(io, id, Some(a), then), id, Some(b), now);
            &&& (a.io_service_bytes is Some && b.io_service_bytes is Some) ==> {
                let x = a.io_service_bytes->0@;
                let y = b.io_service_bytes->0@;
                &&& op_sum(x, "read"@) == op_sum(y, "read"@) ==> (r.disk_read matches Some(z)
                    && z.bytes == 0)
                &&& op_sum(x, "write"@) == op_sum(y, "write"@) ==> (r.disk_write matches Some(z)
                    && z.bytes == 0)
            }
            &&& (a.networks is Some && b.networks is Some) ==> {
                let x = a.networks->0@;
                let y = b.networks->0@;
                &&& rx_sum(x) == rx_sum(y) ==> (r.net_rx matches Some(z) && z.bytes == 0)
                &&& tx_sum(x) == tx_sum(y) ==> (r.net_tx matches Some(z) && z.bytes == 0)
            }
        }),
{
    law_rates_are_gains_over_time(io, id, a, then, b, now);
}

/// Samples at the same time, or out of order, give no rates.
pub proof fn law_no_time_no_rates(
    io: Map<Seq<char>, PrevIo>,
    id: Seq<char>,
    a: ContainerStats,
    then: u64,
    b: ContainerStats,
    now: u64,
)
    requires
        now <= then,
    ensures
        ({
            let r = io_share(io_after(io, id, Some(a), then), id, Some(b), now);
            r.net_rx is None && r.net_tx is None && r.disk_read is None && r.disk_write is None
        }),
{
}

/// The CPU counters that a sample reports, if it reports both: those of the
/// container and those of the whole system.
pub open spec fn reports_cpu(stats: ContainerStats, total: u64, system: u64) -> bool {
    &&& stats.cpu_stats matches Some(cpu)
    &&& cpu.system_cpu_usage == Some(system)
    &&& cpu.cpu_usage matches Some(usage)
    &&& usage.total_usage == Some(total)
}

/// Between two samples of a container, the busy part of its share is what its own
/// counter gained and the whole what the system's counter gained, over the number
/// of cores that the second sample names; it is nothing if either stood still or
/// went back.
pub proof fn law_shares_are_gains(
    cpu: Map<Seq<char>, PrevCpu>,
    id: Seq<char>,
    a: ContainerStats,
    b: ContainerStats,
    total0: u64,
    system0: u64,
    total1: u64,
    system1: u64,
)
    requires
        reports_cpu(a, total0, system0),
        reports_cpu(b, total1, system1),
    ensures
        cpu_share(cpu_after(cpu, id, Some(a)), id, Some(b)) matches Some(s) && {
            &&& s.total > 0
            &&& (total1 > total0 && system1 > system0) ==> s.busy + total0 == total1 && s.total
                + system0 == system1
            &&& (total1 <= total0 || system1 <= system0) ==> s.busy == 0
            &&& s.cpus == cpu_count(b.cpu_stats->0)
            &&& s.cpus >= 1
        },
{
}

/// The number of cores is the reported one, else the number of per-core counters,
/// and one if neither is a positive number.
pub proof fn law_core_count(stats: CpuStats)
    ensures
        stats.online_cpus matches Some(n) ==> (n > 0 ==> cpu_count(stats) == n),
        stats.online_cpus == Some(0u32) ==> cpu_count(stats) == 1,
        stats.online_cpus is None && stats.cpu_usage is None ==> cpu_count(stats) == 1,
        (stats.online_cpus is None && stats.cpu_usage is Some) ==> (
        match stats.cpu_usage->0.percpu_count {
            Some(n) => cpu_count(stats) == (if n > 0 {
                n as int
            } else {
                1
            }),
            None => cpu_count(stats) == 1,
        }),
{
}

/// Whether `k` is the first place of a key.
pub open spec fn first_detail(stats: Seq<(String, u64)>, key: Seq<char>, k: int) -> bool {
    &&& 0 <= k < stats.len()
    &&& stats[k].0@ == key
    &&& forall|j: int| 0 <= j < k ==> (#[trigger] stats[j]).0@ != key
}

/// Whether a key has no place.
pub open spec fn lacks_detail(stats: Seq<(String, u64)>, key: Seq<char>) -> bool {
    forall|j: int| 0 <= j < stats.len() ==> (#[trigger] stats[j]).0@ != key
}

proof fn lemma_detail(stats: Seq<(String, u64)>, key: Seq<char>)
    ensures
        match detail_value(stats, key) {
            Some(n) => exists|k: int| #[trigger] first_detail(stats, key, k) && stats[k].1 == n,
            None => forall|j: int| 0 <= j < stats.len() ==> (#[trigger] stats[j]).0@ != key,
        },
    decreases stats.len(),
{
    if stats.len() > 0 {
        if stats[0].0@ == key {
            assert(first_detail(stats, key, 0));
        } else {
            let t = stats.skip(1);
            lemma_detail(t, key);
            match detail_value(t, key) {
                Some(n) => {
                    let k = choose|k: int| #[trigger] first_detail(t, key, k) && t[k].1 == n;
                    assert(stats[k + 1] == t[k]);
                    assert forall|j: int| 0 <= j < k + 1 implies (#[trigger] stats[j]).0@
                        != key by {
                        if j > 0 {
                            assert(t[j - 1] == stats[j]);
                        }
                    }
                    assert(first_detail(stats, key, k + 1));
                },
                None => {
                    assert forall|j: int| 0 <= j < stats.len() implies (#[trigger] stats[j]).0@
                        != key by {
                        if j > 0 {
                            assert(t[j - 1] == stats[j]);
                        }
                    }
                },
            }
        }
    }
}

/// The memory in use is the usage less the page cache that can be reclaimed: the
/// `inactive_file` detail, else `total_inactive_file`, else nothing; never less
/// than zero. The limit is handed on.
pub proof fn law_memory_excludes_the_cache(
    stats: ContainerStats,
    mem: MemoryStats,
    usage: u64,
    k: int,
)
    requires
        stats.memory_stats == Some(mem),
        mem.usage == Some(usage),
    ensures
        memory_of(stats).1 == mem.limit,
        memory_of(stats).0 matches Some(used) && {
            &&& mem.stats is None ==> used == usage
            &&& mem.stats matches Some(s) ==> (first_detail(s@, "inactive_file"@, k) ==> (
            if usage >= s@[k].1 {
                used + s@[k].1 == usage
            } else {
                used == 0
            }))
            &&& mem.stats matches Some(s) ==> (first_detail(s@, "total_inactive_file"@, k)
                && lacks_detail(s@, "inactive_file"@) ==> (if usage >= s@[k].1 {
                used + s@[k].1 == usage
            } else {
                used == 0
            }))
            &&& mem.stats matches Some(s) ==> (lacks_detail(s@, "inactive_file"@) && lacks_detail(
                s@,
                "total_inactive_file"@,
            ) ==> used == usage)
        },
{
    if let Some(s) = mem.stats {
        lemma_detail(s@, "inactive_file"@);
        lemma_detail(s@, "total_inactive_file"@);
        if first_detail(s@, "inactive_file"@, k) {
            assert(s@[k].0@ == "inactive_file"@);
        }
        if first_detail(s@, "total_inactive_file"@, k) {
            assert(s@[k].0@ == "total_inactive_file"@);
        }
    }
}

/// Without a usage there is no memory figure.
pub proof fn law_no_usage_no_memory(stats: ContainerStats)
    ensures
        stats.memory_stats is None ==> memory_of(stats).0 is None && memory_of(stats).1 is None,
        stats.memory_stats matches Some(mem) ==> (mem.usage is None ==> memory_of(stats).0 is None),
{
}

/// Whether no other container of a listing has the id of container `i`.
pub open spec fn sole_id(summaries: Seq<ContainerSummary>, i: int) -> bool {
    forall|j: int|
        0 <= j < summaries.len() && j != i ==> or_empty((#[trigger] summaries[j]).id) != or_empty(
            summaries[i].id,
        )
}

proof fn lemma_others_keep_counters(
    cpu: Map<Seq<char>, PrevCpu>,
    io: Map<Seq<char>, PrevIo>,
    summaries: Seq<ContainerSummary>,
    samples: Seq<(String, ContainerStats)>,
    now: u64,
    id: Seq<char>,
)
    requires
        forall|j: int| 0 <= j < summaries.len() ==> or_empty((#[trigger] summaries[j]).id) != id,
    ensures
        entry(cpu_after_all(cpu, summaries, samples), id) == entry(cpu, id),
        entry(io_after_all(io, summaries, samples, now), id) == entry(io, id),
    decreases summaries.len(),
{
    if summaries.len() > 0 {
        let head = summaries.drop_last();
        assert forall|j: int| 0 <= j < head.len() implies or_empty((#[trigger] head[j]).id)
            != id by {
            assert(head[j] == summaries[j]);
        }
        lemma_others_keep_counters(cpu, io, head, samples, now, id);
        assert(or_empty(summaries[summaries.len() - 1].id) != id);
    }
}

/// The share and the rates of a container follow from its own sample and its own
/// remembered counters, and what is remembered of it afterwards is that sample;
/// without one, what was remembered stays.
pub proof fn law_containers_are_sampled_apart(
    s: Sampled,
    cpu: Map<Seq<char>, PrevCpu>,
    io: Map<Seq<char>, PrevIo>,
    summaries: Seq<ContainerSummary>,
    samples: Seq<(String, ContainerStats)>,
    now: u64,
    i: int,
)
    requires
        0 <= i < summaries.len(),
        sole_id(summaries, i),
        samples_to(s, cpu, io, summaries, samples, now, i),
    ensures
        ({
            let id = or_empty(summaries[i].id);
            let sample = sample_for(samples, summaries[i]);
            &&& s.cpu == cpu_share(cpu, id, sample)
            &&& s.io == io_share(io, id, sample, now)
            &&& entry(cpu_after_all(cpu, summaries, samples), id) == entry(
                cpu_after(cpu, id, sample),
                id,
            )
            &&& entry(io_after_all(io, summaries, samples, now), id) == entry(
                io_after(io, id, sample, now),
                id,
            )
        }),
{
    let id = or_empty(summaries[i].id);
    let head = summaries.take(i);
    assert forall|j: int| 0 <= j < head.len() implies or_empty((#[trigger] head[j]).id) != id by {
        assert(head[j] == summaries[j]);
    }
    lemma_others_keep_counters(cpu, io, head, samples, now, id);
    lemma_remembered(cpu, io, summaries, samples, now, i, summaries.len() as int);
    assert(summaries.take(summaries.len() as int) =~= summaries);
}

proof fn lemma_remembered(
    cpu: Map<Seq<char>, PrevCpu>,
    io: Map<Seq<char>, PrevIo>,
    summaries: Seq<ContainerSummary>,
    samples: Seq<(String, ContainerStats)>,
    now: u64,
    i: int,
    n: int,
)
    requires
        0 <= i < n <= summaries.len(),
        sole_id(summaries, i),
    ensures
        ({
            let id = or_empty(summaries[i].id);
            let sample = sample_for(samples, summaries[i]);
            &&& entry(cpu_after_all(cpu, summaries.take(n), samples), id) == entry(
                cpu_after(cpu, id, sample),
                id,
            )
            &&& entry(io_after_all(io, summaries.take(n), samples, now), id) == entry(
                io_after(io, id, sample, now),
                id,
            )
        }),
    decreases n,
{
    let id = or_empty(summaries[i].id);
    assert(summaries.take(n).drop_last() =~= summaries.take(n - 1));
    assert(summaries.take(n).last() == summaries[n - 1]);
    if i < n - 1 {
        lemma_remembered(cpu, io, summaries, samples, now, i, n - 1);
        assert(or_empty(summaries[n - 1].id) != id);
    } else {
        let head = summaries.take(i);
        assert forall|j: int| 0 <= j < head.len() implies or_empty((#[trigger] head[j]).id)
            != id by {
            assert(head[j] == summaries[j]);
        }
        lemma_others_keep_counters(cpu, io, head, samples, now, id);
    }
}

/// The sample of a container is one that was taken under its id, the last of
/// them; without one it has none.
pub proof fn law_samples_are_found_by_id(samples: Seq<(String, ContainerStats)>, id: Seq<char>)
    ensures
        match sample_of(samples, id) {
            Some(s) => exists|k: int|
                0 <= k < samples.len() && (#[trigger] samples[k]).0@ == id && samples[k].1 == s && (
                forall|j: int| k < j < samples.len() ==> (#[trigger] samples[j]).0@ != id),
            None => forall|k: int| 0 <= k < samples.len() ==> (#[trigger] samples[k]).0@ != id,
        },
    decreases samples.len(),
{
    if samples.len() > 0 {
        let last = samples.len() - 1;
        let head = samples.drop_last();
        law_samples_are_found_by_id(head, id);
        if samples[last].0@ != id {
            match sample_of(head, id) {
                Some(s) => {
                    let k = choose|k: int|
                        0 <= k < head.len() && (#[trigger] head[k]).0@ == id && head[k].1 == s && (
                        forall|j: int| k < j < head.len() ==> (#[trigger] head[j]).0@ != id);
                    assert(samples[k] == head[k]);
                    assert forall|j: int| k < j < samples.len() implies (#[trigger] samples[j]).0@
                        != id by {
                        if j < last {
                            assert(head[j] == samples[j]);
                        }
                    }
                },
                None => {
                    assert forall|k: int| 0 <= k < samples.len() implies (
                    #[trigger] samples[k]).0@ != id by {
                        if k < last {
                            assert(head[k] == samples[k]);
                        }
                    }
                },
            }
        } else {
            assert(samples[last].1 == samples.last().1);
        }
    }
}

/// Two rounds of collecting, with time between them, give a container that is
/// sampled in both the gains of its own counters over that time.
pub proof fn law_two_rounds_give_rates(
    s: Sampled,
    io: Map<Seq<char>, PrevIo>,
    cpu: Map<Seq<char>, PrevCpu>,
    first: Seq<ContainerSummary>,
    first_samples: Seq<(String, ContainerStats)>,
    then: u64,
    i: int,
    second: Seq<ContainerSummary>,
    second_samples: Seq<(String, ContainerStats)>,
    now: u64,
    k: int,
    a: ContainerStats,
    b: ContainerStats,
)
    requires
        then < now,
        0 <= i < first.len(),
        0 <= k < second.len(),
        sole_id(first, i),
        sole_id(second, k),
        first[i].id is Some,
        text::opt_view(first[i].id) == text::opt_view(second[k].id),
        sample_for(first_samples, first[i]) == Some(a),
        sample_for(second_samples, second[k]) == Some(b),
        samples_to(
            s,
            cpu_after_all(cpu, first, first_samples).restrict(listed_ids(second)),
            io_after_all(io, first, first_samples, then).restrict(listed_ids(second)),
            second,
            second_samples,
            now,
            k,
        ),
    ensures
        match (a.io_service_bytes, b.io_service_bytes) {
            (Some(x), Some(y)) => is_rate(
                s.io.disk_read,
                op_sum(x@, "read"@),
                op_sum(y@, "read"@),
                now - then,
            ) && is_rate(
                s.io.disk_write,
                op_sum(x@, "write"@),
                op_sum(y@, "write"@),
                now - then,
            ),
            _ => s.io.disk_read is None && s.io.disk_write is None,
        },
        match (a.networks, b.networks) {
            (Some(x), Some(y)) => is_rate(s.io.net_rx, rx_sum(x@), rx_sum(y@), now - then)
                && is_rate(s.io.net_tx, tx_sum(x@), tx_sum(y@), now - then),
            _ => s.io.net_rx is None && s.io.net_tx is None,
        },
        forall|total0: u64, system0: u64, total1: u64, system1: u64|
            #[trigger] reports_cpu(a, total0, system0) && #[trigger] reports_cpu(
                b,
                total1,
                system1,
            ) && total1 > total0 && system1 > system0 ==> (s.cpu matches Some(x) && x.busy + total0
                == total1 && x.total + system0 == system1),
{
    let id = or_empty(first[i].id);
    assert(or_empty(second[k].id) == id);
    let cpu1 = cpu_after_all(cpu, first, first_samples).restrict(listed_ids(second));
    let io1 = io_after_all(io, first, first_samples, then).restrict(listed_ids(second));
    lemma_remembered(cpu, io, first, first_samples, then, i, first.len() as int);
    assert(first.take(first.len() as int) =~= first);
    assert(is_listed(second, id));
    assert(listed_ids(second).contains(id));
    law_containers_are_sampled_apart(s, cpu1, io1, second, second_samples, now, k);
    law_rates_are_gains_over_time(io, id, a, then, b, now);
    assert(entry(io1, id) == entry(io_after(io, id, Some(a), then), id));
    assert forall|total0: u64, system0: u64, total1: u64, system1: u64|
        #[trigger] reports_cpu(a, total0, system0) && #[trigger] reports_cpu(b, total1, system1)
            && total1 > total0 && system1 > system0 implies (s.cpu matches Some(x) && x.busy
        + total0 == total1 && x.total + system0 == system1) by {
        assert(entry(cpu1, id) == entry(cpu_after(cpu, id, Some(a)), id));
        law_shares_are_gains(cpu, id, a, b, total0, system0, total1, system1);
    }
}

/// The ids to take samples of are those of the running containers, in order.
pub proof fn law_running_containers_are_sampled(
    a: Seq<ContainerSummary>,
    b: Seq<ContainerSummary>,
    c: ContainerSummary,
)
    ensures
        running_ids(a + b) == running_ids(a) + running_ids(b),
        running_ids(seq![c]) == (if c.state == Some(SummaryState::Running) {
            seq![match c.id {
                Some(id) => id@,
                None => Seq::empty(),
            }]
        } else {
            Seq::empty()
        }),
        running_ids(Seq::empty()) == Seq::<Seq<char>>::empty(),
    decreases b.len(),
{
    reveal_with_fuel(running_ids, 2);
    assert(seq![c].drop_last() =~= Seq::<ContainerSummary>::empty());
    assert(running_ids(seq![c]) =~= (if c.state == Some(SummaryState::Running) {
        seq![or_empty(c.id)]
    } else {
        Seq::empty()
    }));
    if b.len() == 0 {
        assert(a + b =~= a);
        assert(running_ids(a) + running_ids(b) =~= running_ids(a));
    } else {
        law_running_containers_are_sampled(a, b.drop_last(), c);
        assert((a + b).drop_last() =~= a + b.drop_last());
        assert((a + b).last() == b.last());
        assert(running_ids(a + b) =~= running_ids(a) + running_ids(b));
    }
}

/// A container is shown under its first name, without the slashes that it starts
/// with; without a name, under the first twelve characters of its id.
pub proof fn law_names_are_shown_without_slashes(
    summary: ContainerSummary,
    slashes: Seq<char>,
    name: Seq<char>,
)
    requires
        forall|i: int| 0 <= i < slashes.len() ==> #[trigger] slashes[i] == '/',
        name.len() > 0 ==> name[0] != '/',
    ensures
        summary.names matches Some(names) ==> (names@.len() > 0 && names@[0]@ == slashes + name
            ==> shown_name(summary) == name),
        (match summary.names {
            Some(names) => names@.len() == 0,
            None => true,
        }) ==> {
            let id = match summary.id {
                Some(id) => id@,
                None => Seq::empty(),
            };
            &&& shown_name(summary).is_prefix_of(id)
            &&& shown_name(summary).len() == (if id.len() < 12 {
                id.len()
            } else {
                12
            })
        },
{
    let s = slashes + name;
    assert forall|j: int| 0 <= j < slashes.len() implies text::is_char('/')(#[trigger] s[j]) by {
        assert(s[j] == slashes[j]);
    }
    if name.len() > 0 {
        assert(s[slashes.len() as int] == name[0]);
    }
    text::lemma_lead_is(s, text::is_char('/'), slashes.len() as int);
    assert(s.skip(slashes.len() as int) =~= name);
}

/// The value of a label is that of the first pair with its key; there is none
/// exactly if no pair has it.
pub proof fn law_labels_are_found_by_key(labels: Seq<(String, String)>, key: Seq<char>)
    ensures
        match label_value(labels, key) {
            Some(v) => exists|k: int|
                0 <= k < labels.len() && (#[trigger] labels[k]).0@ == key && labels[k].1@ == v && (
                forall|j: int| 0 <= j < k ==> (#[trigger] labels[j]).0@ != key),
            None => forall|k: int| 0 <= k < labels.len() ==> (#[trigger] labels[k]).0@ != key,
        },
    decreases labels.len(),
{
    if labels.len() > 0 && labels[0].0@ != key {
        let t = labels.skip(1);
        law_labels_are_found_by_key(t, key);
        assert forall|j: int| 0 < j < labels.len() implies #[trigger] labels[j] == t[j - 1] by {}
        match label_value(t, key) {
            Some(v) => {
                let k = choose|k: int|
                    0 <= k < t.len() && (#[trigger] t[k]).0@ == key && t[k].1@ == v && (
                    forall|j: int| 0 <= j < k ==> (#[trigger] t[j]).0@ != key);
                assert(labels[k + 1] == t[k]);
                assert forall|j: int| 0 <= j < k + 1 implies (#[trigger] labels[j]).0@ != key by {
                    if j > 0 {
                        assert(t[j - 1].0@ != key);
                    }
                }
            },
            None => {
                assert forall|k: int| 0 <= k < labels.len() implies (#[trigger] labels[k]).0@
                    != key by {
                    if k > 0 {
                        assert(t[k - 1].0@ != key);
                    }
                }
            },
        }
    } else if labels.len() > 0 {
        assert(labels[0].0@ == key);
    }
}

/// States keep apart: two listed states amount to the same one only if they are
/// the same, or neither says anything.
pub proof fn law_states_keep_apart(a: SummaryState, b: SummaryState)
    ensures
        state_of(Some(a)) == state_of(Some(b)) ==> a == b,
        state_of(None) == state_of(Some(a)) ==> a == SummaryState::Empty,
        (state_of(Some(a)) == model::ContainerState::Running) == (a == SummaryState::Running),
        (state_of(Some(a)) == model::ContainerState::Exited) == (a == SummaryState::Exited),
        (state_of(Some(a)) == model::ContainerState::Paused) == (a == SummaryState::Paused),
        (state_of(Some(a)) == model::ContainerState::Restarting) == (a
            == SummaryState::Restarting),
        (state_of(Some(a)) == model::ContainerState::Created) == (a == SummaryState::Created),
        (state_of(Some(a)) == model::ContainerState::Removing) == (a == SummaryState::Removing),
        (state_of(Some(a)) == model::ContainerState::Dead) == (a == SummaryState::Dead),
        (state_of(Some(a)) == model::ContainerState::Stopping) == (a == SummaryState::Stopping),
{
}

/// The health of a container is the one that its status line names in brackets;
/// a line that names none of them has none.
pub proof fn law_health_is_named_in_the_status(before: Seq<char>, after: Seq<char>)
    ensures
        health_of(before + "(healthy)"@ + after) == model::HealthState::Healthy,
        !text::has_part(before + "(unhealthy)"@ + after, "(healthy)"@) ==> health_of(
            before + "(unhealthy)"@ + after,
        ) == model::HealthState::Unhealthy,
        !text::has_part(before + "(health: starting)"@ + after, "(healthy)"@) && !text::has_part(
            before + "(health: starting)"@ + after,
            "(unhealthy)"@,
        ) ==> health_of(before + "(health: starting)"@ + after) == model::HealthState::Starting,
        !text::has_part(before, "(healthy)"@) && !text::has_part(before, "(unhealthy)"@)
            && !text::has_part(before, "(health: starting)"@) ==> health_of(before)
            == model::HealthState::NoCheck,
{
    text::law_parts_stand_between(before, "(healthy)"@, after);
    text::law_parts_stand_between(before, "(unhealthy)"@, after);
    text::law_parts_stand_between(before, "(health: starting)"@, after);
}

proof fn lemma_distinct_come_from(ports: Seq<PortSummary>, v: (Option<u16>, u16, Seq<char>))
    requires
        distinct_ports(ports).contains(v),
    ensures
        exists|i: int| 0 <= i < ports.len() && summary_view(#[trigger] ports[i]) == v,
    decreases ports.len(),
{
    let all = distinct_ports(ports);
    let k = choose|k: int| 0 <= k < all.len() && all[k] == v;
    if ports.len() > 0 {
        let head = ports.drop_last();
        let before = distinct_ports(head);
        if k < before.len() {
            assert(before[k] == v);
            lemma_distinct_come_from(head, v);
            let i = choose|i: int| 0 <= i < head.len() && summary_view(#[trigger] head[i]) == v;
            assert(ports[i] == head[i]);
        } else {
            assert(summary_view(ports[ports.len() - 1]) == v);
        }
    }
}

/// Whether a port is one that a listing holds: the same numbers, and the protocol
/// `udp` or `sctp` where the listing says so and `tcp` everywhere else.
pub open spec fn is_listed_port(p: model::Port, l: PortSummary) -> bool {
    p.private == l.private_port && p.public == l.public_port && p.proto@ == (match l.kind {
        Some(PortKind::Udp) => "udp"@,
        Some(PortKind::Sctp) => "sctp"@,
        Some(PortKind::Tcp) => "tcp"@,
        Some(PortKind::Empty) => "tcp"@,
        None => "tcp"@,
    })
}

/// The ports of a container are the listed ones, each once. Published ones come
/// before the others, by host port; the others by container port.
pub proof fn law_ports_are_those_listed(
    r: Seq<model::Port>,
    summary: ContainerSummary,
    listed: Seq<PortSummary>,
    i: int,
    j: int,
)
    requires
        orders_ports(r, summary),
        summary.ports matches Some(p) && p@ == listed,
    ensures
        0 <= i < listed.len() ==> exists|k: int|
            0 <= k < r.len() && is_listed_port(#[trigger] r[k], listed[i]),
        0 <= i < r.len() ==> exists|k: int|
            0 <= k < listed.len() && is_listed_port(r[i], #[trigger] listed[k]),
        0 <= i < j < r.len() ==> !(r[i].private == r[j].private && r[i].public == r[j].public
            && r[i].proto@ == r[j].proto@),
        0 <= i < j < r.len() ==> (match (r[i].public, r[j].public) {
            (Some(x), Some(y)) => x <= y,
            (Some(_), None) => true,
            (None, Some(_)) => false,
            (None, None) => r[i].private <= r[j].private,
        }),
{
    let d = choose|d: Seq<model::Port>| #[trigger]
        port_views(d) == listed_ports(summary) && order::is_stable_sort(d, r) && r
            == order::sorted(d);
    let views = port_views(d);
    law_ports_are_distinct(listed);
    order::law_stable_sort_is_a_permutation(d, r);
    d.to_multiset_ensures();
    r.to_multiset_ensures();
    if 0 <= i < listed.len() {
        let v = summary_view(listed[i]);
        assert(views.contains(v));
        let m = choose|m: int| 0 <= m < views.len() && views[m] == v;
        assert(port_view(d[m]) == v);
        assert(d.contains(d[m]));
        assert(r.to_multiset().contains(d[m]));
        assert(r.contains(d[m]));
        let k = choose|k: int| 0 <= k < r.len() && r[k] == d[m];
        assert(is_listed_port(r[k], listed[i]));
    }
    if 0 <= i < r.len() {
        assert(r.contains(r[i]));
        assert(d.to_multiset().contains(r[i]));
        assert(d.contains(r[i]));
        let m = choose|m: int| 0 <= m < d.len() && d[m] == r[i];
        assert(views[m] == port_view(r[i]));
        assert(views.contains(port_view(r[i])));
        lemma_distinct_come_from(listed, port_view(r[i]));
        let k = choose|k: int|
            0 <= k < listed.len() && summary_view(#[trigger] listed[k]) == port_view(r[i]);
        assert(is_listed_port(r[i], listed[k]));
    }
    if 0 <= i < j < r.len() {
        assert(order::Ranked::le(&r[i], &r[j]));
        if port_view(r[i]) == port_view(r[j]) {
            let v = port_view(r[i]);
            let same = |p: model::Port| port_view(p) == v;
            order::lemma_same_values_same_count(d, r, same);
            lemma_two_alike(r, i, j, same);
            lemma_at_most_one(d, same, v);
        }
    }
}

proof fn lemma_two_alike(r: Seq<model::Port>, i: int, j: int, p: spec_fn(model::Port) -> bool)
    requires
        0 <= i < j < r.len(),
        p(r[i]),
        p(r[j]),
    ensures
        r.filter(p).len() >= 2,
{
    let low = r.take(j);
    let high = r.skip(j);
    assert(r =~= low + high);
    Seq::filter_distributes_over_add(low, high, p);
    assert(low[i] == r[i]);
    assert(high[0] == r[j]);
    order::lemma_filter_keeps_a_stretch(low, i, i + 1, p);
    order::lemma_filter_keeps_a_stretch(high, 0, 1, p);
}

proof fn lemma_at_most_one(
    d: Seq<model::Port>,
    p: spec_fn(model::Port) -> bool,
    v: (Option<u16>, u16, Seq<char>),
)
    requires
        port_views(d).no_duplicates(),
        p == (|x: model::Port| port_view(x) == v),
    ensures
        d.filter(p).len() <= 1,
{
    let views = port_views(d);
    if exists|m: int| 0 <= m < d.len() && p(#[trigger] d[m]) {
        let m = choose|m: int| 0 <= m < d.len() && p(#[trigger] d[m]);
        assert forall|k: int| 0 <= k < m || m + 1 <= k < d.len() implies !p(#[trigger] d[k]) by {
            assert(views[k] == port_view(d[k]));
            assert(views[m] == port_view(d[m]));
        }
        order::lemma_filter_keeps_only_a_stretch(d, m, m + 1, p);
    } else {
        assert forall|k: int| 0 <= k < 0 || 0 <= k < d.len() implies !p(#[trigger] d[k]) by {}
        order::lemma_filter_keeps_only_a_stretch(d, 0, 0, p);
    }
}

/// The members of a stack are the listed containers with an id whose project
/// label names it, in order.
pub proof fn law_members_carry_the_project_label(
    summaries: Seq<ContainerSummary>,
    project: Seq<char>,
)
    ensures
        members_of(summaries, project) == summaries.filter(
            |c: ContainerSummary|
                c.id is Some && label_of(c.labels, "com.docker.compose.project"@) == Some(project),
        ),
    decreases summaries.len(),
{
    reveal(Seq::filter);
    if summaries.len() > 0 {
        law_members_carry_the_project_label(summaries.drop_last(), project);
    }
}

/// A member carries what the labels of its container say: its service, and the
/// dependencies of the entries that commas separate.
pub proof fn law_members_carry_their_labels(
    m: stack::Member,
    summary: ContainerSummary,
    service: Seq<char>,
    depends_on: Seq<char>,
)
    requires
        stands_for(m, summary),
        label_of(summary.labels, "com.docker.compose.service"@) == Some(service),
        label_of(summary.labels, "com.docker.compose.depends_on"@) == Some(depends_on),
    ensures
        summary.id matches Some(id) && m.id@ == id@,
        m.service@ == service,
        stack::dep_views(m.deps@) == stack::deps_of_entries(text::pieces(depends_on, ',')),
{
}

/// The items of two lists are those of the first followed by those of the second;
/// an item is trimmed, and dropped if nothing is left of it.
pub proof fn law_items_are_trimmed(a: Seq<Seq<char>>, b: Seq<Seq<char>>, item: Seq<char>)
    ensures
        tidy_items(a + b) == tidy_items(a) + tidy_items(b),
        tidy_items(seq![item]) == (if text::trimmed(item).len() > 0 {
            seq![text::trimmed(item)]
        } else {
            Seq::empty()
        }),
        tidy_items(Seq::empty()) == Seq::<Seq<char>>::empty(),
    decreases b.len(),
{
    reveal_with_fuel(tidy_items, 2);
    assert(seq![item].drop_last() =~= Seq::<Seq<char>>::empty());
    assert(tidy_items(seq![item]) =~= (if text::trimmed(item).len() > 0 {
        seq![text::trimmed(item)]
    } else {
        Seq::empty()
    }));
    if b.len() == 0 {
        assert(a + b =~= a);
        assert(tidy_items(a) + tidy_items(b) =~= tidy_items(a));
    } else {
        law_items_are_trimmed(a, b.drop_last(), item);
        assert((a + b).drop_last() =~= a + b.drop_last());
        assert((a + b).last() == b.last());
        assert(tidy_items(a + b) =~= tidy_items(a) + tidy_items(b));
    }
}

/// The configuration files of a stack are those that the first listed container
/// of its project names, separated by commas.
pub proof fn law_config_files_are_those_of_the_first_member(
    summaries: Seq<ContainerSummary>,
    project: Seq<char>,
    k: int,
    files: Seq<char>,
)
    requires
        0 <= k < summaries.len(),
        label_of(summaries[k].labels, "com.docker.compose.project"@) == Some(project),
        forall|j: int|
            0 <= j < k ==> label_of(
                (#[trigger] summaries[j]).labels,
                "com.docker.compose.project"@,
            ) != Some(project),
        label_of(summaries[k].labels, "com.docker.compose.project.config_files"@) == Some(files),
    ensures
        config_files_of(summaries, project) == tidy_items(text::pieces(files, ',')),
{
    lemma_first_of_project(summaries, project, k);
}

proof fn lemma_first_of_project(
    summaries: Seq<ContainerSummary>,
    project: Seq<char>,
    k: int,
)
    requires
        0 <= k < summaries.len(),
        label_of(summaries[k].labels, PROJECT_LABEL@) == Some(project),
        forall|j: int|
            0 <= j < k ==> label_of((#[trigger] summaries[j]).labels, PROJECT_LABEL@) != Some(
                project,
            ),
    ensures
        first_of_project(summaries, project) == k,
    decreases summaries.len(),
{
    if k > 0 {
        let t = summaries.skip(1);
        assert(label_of(summaries[0].labels, PROJECT_LABEL@) != Some(project));
        assert forall|j: int| 0 <= j < k - 1 implies label_of(
            (#[trigger] t[j]).labels,
            PROJECT_LABEL@,
        ) != Some(project) by {
            assert(t[j] == summaries[j + 1]);
        }
        lemma_first_of_project(t, project, k - 1);
    }
}

/// A command line without words starts the default shell; any other is its words.
pub proof fn law_commands_are_their_words(cmd: Seq<char>)
    ensures
        text::word_seq(cmd).len() > 0 ==> argv_of(cmd) == text::word_seq(cmd),
        text::word_seq(cmd).len() == 0 ==> argv_of(cmd) == seq!["/bin/sh"@],
{
}

/// A round without a sample of a container, or with one that lacks its CPU
/// counters, gives no reading and leaves what was remembered as it was.
pub proof fn law_missing_counters_change_nothing(
    cpu: Map<Seq<char>, PrevCpu>,
    io: Map<Seq<char>, PrevIo>,
    id: Seq<char>,
    stats: ContainerStats,
    now: u64,
)
    ensures
        cpu_share(cpu, id, None) is None,
        cpu_after(cpu, id, None) == cpu,
        io_share(io, id, None, now).net_rx is None && io_share(io, id, None, now).net_tx is None
            && io_share(io, id, None, now).disk_read is None && io_share(
            io,
            id,
            None,
            now,
        ).disk_write is None,
        io_after(io, id, None, now) == io,
        (forall|total: u64, system: u64| !#[trigger] reports_cpu(stats, total, system)) ==> {
            &&& cpu_share(cpu, id, Some(stats)) is None
            &&& cpu_after(cpu, id, Some(stats)) == cpu
        },
{
    if let Some(c) = cpu_counters(stats) {
        assert(reports_cpu(stats, c.total_usage, c.system_usage));
    }
}

/// The metrics of a container say what its listing and its sample say: each field
/// comes from the one of that name, and what is missing is empty. Share and rates
/// are still to be filled in.
pub proof fn law_metrics_describe_the_listing(
    c: model::ContainerMetrics,
    summary: ContainerSummary,
    sample: Option<ContainerStats>,
)
    requires
        describes(c, summary, sample),
    ensures
        c.id@ == (match summary.id {
            Some(x) => x@,
            None => Seq::empty(),
        }),
        c.image@ == (match summary.image {
            Some(x) => x@,
            None => Seq::empty(),
        }),
        c.status@ == (match summary.status {
            Some(x) => x@,
            None => Seq::empty(),
        }),
        c.name@ == shown_name(summary),
        c.state == state_of(summary.state),
        summary.status matches Some(x) ==> c.health == health_of(x@),
        text::opt_view(c.stack) == label_of(summary.labels, "com.docker.compose.project"@),
        sample is None ==> c.mem_used is None && c.mem_limit is None,
        sample matches Some(s) ==> opt_int(c.mem_used) == memory_of(s).0 && c.mem_limit
            == memory_of(s).1,
        orders_ports(c.ports@, summary),
        c.cpu_percent is None && c.net_rx_bps is None && c.net_tx_bps is None
            && c.disk_read_bps is None && c.disk_write_bps is None,
{
}

/// What is remembered of a container that a round does not list is forgotten.
pub proof fn law_gone_containers_are_forgotten(
    cpu: Map<Seq<char>, PrevCpu>,
    io: Map<Seq<char>, PrevIo>,
    summaries: Seq<ContainerSummary>,
    samples: Seq<(String, ContainerStats)>,
    now: u64,
    id: Seq<char>,
)
    requires
        id.len() > 0,
        forall|i: int|
            0 <= i < summaries.len() ==> match (#[trigger] summaries[i]).id {
                Some(x) => x@ != id,
                None => true,
            },
    ensures
        !cpu_after_all(cpu.restrict(listed_ids(summaries)), summaries, samples).contains_key(id),
        !io_after_all(io.restrict(listed_ids(summaries)), summaries, samples, now).contains_key(id),
{
    assert(!is_listed(summaries, id)) by {
        if is_listed(summaries, id) {
            let i = choose|i: int|
                0 <= i < summaries.len() && text::opt_view((#[trigger] summaries[i]).id) == Some(
                    id,
                );
            assert(summaries[i].id is Some);
        }
    }
    law_only_listed_containers_are_remembered(cpu, io, summaries, samples, now, id);
}

/// A member whose container has no service label has an empty service, and one
/// whose container has no dependency label depends on nothing.
pub proof fn law_members_without_labels_are_bare(m: stack::Member, summary: ContainerSummary)
    requires
        stands_for(m, summary),
    ensures
        label_of(summary.labels, "com.docker.compose.service"@) is None ==> m.service@.len() == 0,
        label_of(summary.labels, "com.docker.compose.depends_on"@) is None ==> m.deps@.len() == 0,
{
    assert(stack::dep_views(m.deps@).len() == m.deps@.len());
}

/// A stack without a listed container has no configuration files.
pub proof fn law_unlisted_stacks_have_no_config_files(
    summaries: Seq<ContainerSummary>,
    project: Seq<char>,
)
    requires
        forall|j: int|
            0 <= j < summaries.len() ==> label_of(
                (#[trigger] summaries[j]).labels,
                "com.docker.compose.project"@,
            ) != Some(project),
    ensures
        config_files_of(summaries, project).len() == 0,
{
    lemma_none_of_project(summaries, project);
}

proof fn lemma_none_of_project(summaries: Seq<ContainerSummary>, project: Seq<char>)
    requires
        forall|j: int|
            0 <= j < summaries.len() ==> label_of(
                (#[trigger] summaries[j]).labels,
                PROJECT_LABEL@,
            ) != Some(project),
    ensures
        first_of_project(summaries, project) == summaries.len(),
    decreases summaries.len(),
{
    if summaries.len() > 0 {
        let t = summaries.skip(1);
        assert(label_of(summaries[0].labels, PROJECT_LABEL@) != Some(project));
        assert forall|j: int| 0 <= j < t.len() implies label_of(
            (#[trigger] t[j]).labels,
            PROJECT_LABEL@,
        ) != Some(project) by {
            assert(t[j] == summaries[j + 1]);
        }
        lemma_none_of_project(t, project);
    }
}

} // verus!
