//! The configuration of the speed test and the choice of its protocol.

use crate::text::{chars_of, same_chars};
use vstd::prelude::*;

verus! {

/// The configuration of a speed test.
#[derive(Clone, Debug)]
pub struct SpeedTestConfig {
    /// `UDP` or `WebSocket`.
    pub protocol: String,
    /// `UploadOnly` or `DownloadOnly`.
    pub mode: String,
    pub port: u16,
    /// Milliseconds between two results.
    pub refresh_interval: u64,
    /// Kibibytes in a payload.
    pub payload_size_kb: usize,
}

/// The protocols that a speed test can run over.
#[derive(Clone, Copy, Debug, PartialEq, Eq, Structural)]
pub enum Protocol {
    Udp,
    WebSocket,
}

/// The name of the UDP protocol.
pub open spec fn udp_name() -> Seq<char> {
    seq!['U', 'D', 'P']
}

/// The name of the WebSocket protocol.
pub open spec fn websocket_name() -> Seq<char> {
    seq!['W', 'e', 'b', 'S', 'o', 'c', 'k', 'e', 't']
}

/// The protocol that a name stands for.
pub open spec fn protocol_of(name: Seq<char>) -> Option<Protocol> {
    if name == udp_name() {
        Some(Protocol::Udp)
    } else if name == websocket_name() {
        Some(Protocol::WebSocket)
    } else {
        None
    }
}

/// The protocol of a configuration, or `None` where it is not supported.
pub fn select_protocol(config: &SpeedTestConfig) -> (r: Option<Protocol>)
    ensures
        r == protocol_of(config.protocol@),
{
    let name = chars_of(config.protocol.as_str());
    let udp = vec!['U', 'D', 'P'];
    assert(udp@ =~= udp_name());
    let websocket = vec!['W', 'e', 'b', 'S', 'o', 'c', 'k', 'e', 't'];
    assert(websocket@ =~= websocket_name());
    if same_chars(&name, &udp) {
        Some(Protocol::Udp)
    } else if same_chars(&name, &websocket) {
        Some(Protocol::WebSocket)
    } else {
        None
    }
}

/// Whether a result is due: at least the refresh interval has passed since
/// the last one.
pub fn report_due(config: &SpeedTestConfig, elapsed_ms: u64) -> (r: bool)
    ensures
        r == (elapsed_ms >= config.refresh_interval),
{
    elapsed_ms >= config.refresh_interval
}

/// The mode in which uploads are counted.
pub open spec fn upload_name() -> Seq<char> {
    seq!['U', 'p', 'l', 'o', 'a', 'd', 'O', 'n', 'l', 'y']
}

/// What a client of the WebSocket server can bring about.
#[derive(Clone, Copy, Debug, PartialEq, Eq, Structural)]
pub enum ClientEvent {
    /// The client closed the connection.
    Close,
    /// The answer to a ping.
    Pong,
    /// A binary message of this many bytes.
    Binary(usize),
    /// A text message.
    Text,
    /// The connection failed or was closed under way.
    Failed,
    /// The stream of messages ended.
    Ended,
    /// Any other message.
    Other,
}

/// What the server does after an event.
#[derive(Clone, Copy, Debug, PartialEq, Eq, Structural)]
pub enum ClientStep {
    Continue,
    Disconnect,
}

/// The count of a client's bytes between two results.
#[derive(Debug)]
pub struct ClientSession {
    total_bytes: u64,
    upload: bool,
}

/// The count after an event: the bytes of a binary message are added where
/// uploads are counted, up to the largest count that 64 bits hold.
pub open spec fn counted_after(total: nat, upload: bool, event: ClientEvent) -> nat {
    match event {
        ClientEvent::Binary(n) => if !upload {
            total
        } else if total + n > u64::MAX {
            u64::MAX as nat
        } else {
            (total + n) as nat
        },
        _ => total,
    }
}

/// Whether an event ends the session.
pub open spec fn ends_session(event: ClientEvent) -> bool {
    event == ClientEvent::Close || event == ClientEvent::Failed || event == ClientEvent::Ended
}

impl ClientSession {
    /// The bytes counted since the last result.
    pub closed spec fn total(&self) -> nat {
        self.total_bytes as nat
    }

    /// Whether uploads are counted.
    pub closed spec fn counts_upload(&self) -> bool {
        self.upload
    }

    /// A session for a configuration; uploads are counted in the mode
    /// `UploadOnly`.
    pub fn new(config: &SpeedTestConfig) -> (r: ClientSession)
        ensures
            r.total() == 0,
            r.counts_upload() == (config.mode@ == upload_name()),
    {
        let mode = chars_of(config.mode.as_str());
        let upload = vec!['U', 'p', 'l', 'o', 'a', 'd', 'O', 'n', 'l', 'y'];
        assert(upload@ =~= upload_name());
        ClientSession { total_bytes: 0, upload: same_chars(&mode, &upload) }
    }

    /// Takes an event into the count and says whether the session goes on.
    pub fn on_event(&mut self, event: ClientEvent) -> (r: ClientStep)
        ensures
            final(self).counts_upload() == old(self).counts_upload(),
            final(self).total() == counted_after(
                old(self).total(),
                old(self).counts_upload(),
                event,
            ),
            r == if ends_session(event) {
                ClientStep::Disconnect
            } else {
                ClientStep::Continue
            },
    {
        match event {
            ClientEvent::Close => ClientStep::Disconnect,
            ClientEvent::Failed => ClientStep::Disconnect,
            ClientEvent::Ended => ClientStep::Disconnect,
            ClientEvent::Binary(n) => {
                if self.upload {
                    let more: u64 = n as u64;
                    if more > u64::MAX - self.total_bytes {
                        self.total_bytes = u64::MAX;
                    } else {
                        self.total_bytes = self.total_bytes + more;
                    }
                }
                ClientStep::Continue
            },
            _ => ClientStep::Continue,
        }
    }

    /// The bytes counted since the last result; the count starts again at
    /// zero.
    pub fn take_total(&mut self) -> (r: u64)
        ensures
            r == old(self).total(),
            final(self).total() == 0,
            final(self).counts_upload() == old(self).counts_upload(),
    {
        let r = self.total_bytes;
        self.total_bytes = 0;
        r
    }

    /// The bytes counted since the last result.
    pub fn peek_total(&self) -> (r: u64)
        ensures
            r == self.total(),
    {
        self.total_bytes
    }
}

} // verus!
