//! The decisions of the network throughput tool: whether a test may start,
//! which test a configuration names, when a running test stops, and when a
//! transfer rate is reported. The sockets and the clock are the caller's.

use crate::text::{chars_of, same_chars};
use vstd::prelude::*;

verus! {

/// Whether a test is running.
#[derive(Debug)]
pub struct NetToolState {
    running: bool,
}

/// The configuration of a test.
#[derive(Debug)]
pub struct NetToolConfig {
    pub mode: String,
    pub role: String,
    pub address: String,
    pub port: u16,
    /// Seconds between two reports of the rate.
    pub interval: u64,
    /// Seconds after which the test ends by itself.
    pub duration: Option<u64>,
}

/// The four tests.
#[derive(Clone, Copy, Debug, PartialEq, Eq, Structural)]
pub enum TestKind {
    TcpClient,
    TcpServer,
    UdpClient,
    UdpServer,
}

/// A report of the rate of transfer.
#[derive(Clone, Copy, Debug, PartialEq, Eq, Structural)]
pub struct RateInfo {
    /// The bytes moved since the last report.
    pub delta_bytes: u64,
    /// Kibibytes per second over the interval.
    pub rate: u64,
}

/// The state of the tool before any test: none is running.
pub fn nettool_init() -> (r: NetToolState)
    ensures
        !r.is_running(),
{
    NetToolState { running: false }
}

/// The mode of the TCP tests.
pub open spec fn tcp_text() -> Seq<char> {
    seq!['t', 'c', 'p']
}

/// The mode of the UDP tests.
pub open spec fn udp_text() -> Seq<char> {
    seq!['u', 'd', 'p']
}

/// The role of the sending side.
pub open spec fn client_text() -> Seq<char> {
    seq!['c', 'l', 'i', 'e', 'n', 't']
}

/// The role of the receiving side.
pub open spec fn server_text() -> Seq<char> {
    seq!['s', 'e', 'r', 'v', 'e', 'r']
}

/// The test that a mode and a role name, if they name one.
pub open spec fn kind_of(mode: Seq<char>, role: Seq<char>) -> Option<TestKind> {
    if mode == tcp_text() && role == client_text() {
        Some(TestKind::TcpClient)
    } else if mode == tcp_text() && role == server_text() {
        Some(TestKind::TcpServer)
    } else if mode == udp_text() && role == client_text() {
        Some(TestKind::UdpClient)
    } else if mode == udp_text() && role == server_text() {
        Some(TestKind::UdpServer)
    } else {
        None
    }
}

/// The test that a mode (`tcp` or `udp`) and a role (`client` or `server`)
/// name.
pub fn test_kind(mode: &str, role: &str) -> (r: Option<TestKind>)
    ensures
        r == kind_of(mode@, role@),
{
    let m = chars_of(mode);
    let r = chars_of(role);
    let tcp = vec!['t', 'c', 'p'];
    assert(tcp@ =~= tcp_text());
    let udp = vec!['u', 'd', 'p'];
    assert(udp@ =~= udp_text());
    let client = vec!['c', 'l', 'i', 'e', 'n', 't'];
    assert(client@ =~= client_text());
    let server = vec!['s', 'e', 'r', 'v', 'e', 'r'];
    assert(server@ =~= server_text());
    let is_tcp = same_chars(&m, &tcp);
    let is_udp = same_chars(&m, &udp);
    let is_client = same_chars(&r, &client);
    let is_server = same_chars(&r, &server);
    if is_tcp && is_client {
        Some(TestKind::TcpClient)
    } else if is_tcp && is_server {
        Some(TestKind::TcpServer)
    } else if is_udp && is_client {
        Some(TestKind::UdpClient)
    } else if is_udp && is_server {
        Some(TestKind::UdpServer)
    } else {
        None
    }
}

/// Whether the time that has passed, in seconds and nanoseconds, is longer
/// than `limit` seconds.
pub open spec fn longer_than(secs: u64, nanos: u32, limit: u64) -> bool {
    secs > limit || (secs == limit && nanos > 0)
}

impl NetToolState {
    /// Whether a test is running.
    pub closed spec fn is_running(&self) -> bool {
        self.running
    }

    /// Whether a test is running.
    pub fn running(&self) -> (r: bool)
        ensures
            r == self.is_running(),
    {
        self.running
    }

    /// Claims the tool for a test. Gives `false`, and changes nothing, where
    /// a test is running already.
    pub fn try_start(&mut self) -> (r: bool)
        ensures
            r == !old(self).is_running(),
            final(self).is_running(),
    {
        if self.running {
            false
        } else {
            self.running = true;
            true
        }
    }

    /// Ends the running test, if there is one.
    pub fn stop(&mut self)
        ensures
            !final(self).is_running(),
    {
        self.running = false;
    }

    /// Whether a test that has run for the given time has to stop: it was
    /// stopped from outside, or it has run longer than its duration, in which
    /// case the tool is free again.
    pub fn stop_check(&mut self, duration: Option<u64>, elapsed_secs: u64, elapsed_nanos: u32) -> (r:
        bool)
        ensures
            r == (!old(self).is_running() || (duration matches Some(d) && longer_than(
                elapsed_secs,
                elapsed_nanos,
                d,
            ))),
            final(self).is_running() == !r,
    {
        if !self.running {
            return true;
        }
        if let Some(d) = duration {
            if elapsed_secs > d || (elapsed_secs == d && elapsed_nanos > 0) {
                self.running = false;
                return true;
            }
        }
        false
    }
}

/// Counts the bytes of a test between two reports.
#[derive(Debug)]
pub struct RateMeter {
    total_bytes: u64,
}

impl RateMeter {
    /// The bytes counted since the last report.
    pub closed spec fn total(&self) -> nat {
        self.total_bytes as nat
    }

    /// A meter that has counted nothing.
    pub fn new() -> (r: RateMeter)
        ensures
            r.total() == 0,
    {
        RateMeter { total_bytes: 0 }
    }

    /// Counts `bytes` more bytes, `elapsed_secs` whole seconds after the
    /// last report. Once a full interval has passed the rate is reported and
    /// the count starts again at zero. A count beyond 64 bits stays at the
    /// largest value.
    pub fn record(&mut self, bytes: u64, elapsed_secs: u64, interval: u64) -> (r: Option<RateInfo>)
        requires
            interval > 0,
        ensures
            match r {
                Some(info) => elapsed_secs >= interval && info.delta_bytes == counted(
                    old(self).total(),
                    bytes,
                ) && info.rate == info.delta_bytes / interval / 1024 && final(self).total() == 0,
                None => elapsed_secs < interval && final(self).total() == counted(
                    old(self).total(),
                    bytes,
                ),
            },
    {
        let sum: u64 = if bytes > u64::MAX - self.total_bytes {
            u64::MAX
        } else {
            self.total_bytes + bytes
        };
        if elapsed_secs >= interval {
            self.total_bytes = 0;
            Some(RateInfo { delta_bytes: sum, rate: sum / interval / 1024 })
        } else {
            self.total_bytes = sum;
            None
        }
    }
}

/// The count after `bytes` more bytes, kept within 64 bits.
pub open spec fn counted(total: nat, bytes: u64) -> nat {
    if total + bytes > u64::MAX {
        u64::MAX as nat
    } else {
        (total + bytes) as nat
    }
}

/// Why a test did not start.
#[derive(Clone, Copy, Debug, PartialEq, Eq, Structural)]
pub enum StartError {
    AlreadyRunning,
}

impl StartError {
    /// The text of the error.
    pub open spec fn text(&self) -> Seq<char> {
        "Test is already running"@
    }

    /// The text of the error as a string.
    pub fn message(&self) -> (s: String)
        ensures
            s@ == self.text(),
    {
        "Test is already running".to_owned()
    }
}

/// Decides on the start of a test: refused where one is running; else the
/// tool is claimed, and the test that the configuration names is given, or
/// `None` where it names none.
pub fn nettool_start_test(state: &mut NetToolState, config: &NetToolConfig) -> (r: Result<
    Option<TestKind>,
    StartError,
>)
    ensures
        final(state).is_running(),
        r == if old(state).is_running() {
            Err::<Option<TestKind>, StartError>(StartError::AlreadyRunning)
        } else {
            Ok(kind_of(config.mode@, config.role@))
        },
{
    if !state.try_start() {
        return Err(StartError::AlreadyRunning);
    }
    Ok(test_kind(config.mode.as_str(), config.role.as_str()))
}

/// Ends the running test.
pub fn nettool_stop_test(state: &mut NetToolState)
    ensures
        !final(state).is_running(),
{
    state.stop();
}

} // verus!
