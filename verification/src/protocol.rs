//! Protocol abstraction layer.
//!
//! Every simulated server implements the [`Protocol`] trait: a lifecycle whose
//! steps say what has to be done outside (launch a runtime, shut it down) and
//! take in what happened there. All protocols share one [`ProtocolContext`]
//! (register store, statistics and message log).

use std::collections::VecDeque;

use vstd::prelude::*;

pub mod frame;
pub mod frame_laws;
pub mod laws;
pub mod lifecycle;
pub mod modbus;
pub mod session;
pub mod wire;

use crate::model::store::{RegisterStore, StoreView};
use crate::text::{dec_padded, push_dec_padded};

verus! {

// ---------------------------------------------------------------------------
// Statistics
// ---------------------------------------------------------------------------

/// Aggregate runtime statistics for one protocol server.
#[derive(Clone, Copy, Debug, PartialEq, Eq, Structural)]
pub struct ServerStats {
    /// Clients connected now.
    pub current_clients: usize,
    /// Most clients connected at once.
    pub peak_clients: usize,
    /// Requests answered.
    pub total_requests: u64,
    /// Cells written by clients.
    pub cells_written: u64,
    /// Requests answered with an exception.
    pub error_responses: u64,
}

impl Default for ServerStats {
    fn default() -> (s: Self)
        ensures
            s == (ServerStats {
                current_clients: 0,
                peak_clients: 0,
                total_requests: 0,
                cells_written: 0,
                error_responses: 0,
            }),
    {
        ServerStats {
            current_clients: 0,
            peak_clients: 0,
            total_requests: 0,
            cells_written: 0,
            error_responses: 0,
        }
    }
}

impl ServerStats {
    /// The statistics after `n` more requests.
    pub open spec fn with_requests(self, n: u64) -> ServerStats {
        ServerStats { total_requests: self.total_requests.wrapping_add(n), ..self }
    }

    /// The statistics after `n` more cells were written.
    pub open spec fn with_cells_written(self, n: u64) -> ServerStats {
        ServerStats { cells_written: self.cells_written.wrapping_add(n), ..self }
    }

    /// The statistics after `n` more exceptions.
    pub open spec fn with_errors(self, n: u64) -> ServerStats {
        ServerStats { error_responses: self.error_responses.wrapping_add(n), ..self }
    }

    /// Record a client connection.
    pub fn client_connected(&mut self)
        requires
            old(self).current_clients < usize::MAX,
        ensures
            *final(self) == (ServerStats {
                current_clients: (old(self).current_clients + 1) as usize,
                peak_clients: if old(self).current_clients >= old(self).peak_clients {
                    (old(self).current_clients + 1) as usize
                } else {
                    old(self).peak_clients
                },
                ..*old(self)
            }),
            final(self).wf(),
    {
        self.current_clients = self.current_clients + 1;
        if self.current_clients > self.peak_clients {
            self.peak_clients = self.current_clients;
        }
    }

    /// Record that a client has gone.
    pub fn client_disconnected(&mut self)
        ensures
            *final(self) == (ServerStats {
                current_clients: old(self).current_clients.wrapping_sub(1),
                ..*old(self)
            }),
            old(self).wf() && old(self).current_clients > 0 ==> final(self).wf(),
    {
        self.current_clients = self.current_clients.wrapping_sub(1);
    }

    /// Record `n` requests.
    pub fn requests(&mut self, n: u64)
        ensures
            *final(self) == old(self).with_requests(n),
    {
        self.total_requests = self.total_requests.wrapping_add(n);
    }

    /// Record `n` cells written.
    pub fn cells_written(&mut self, n: u64)
        ensures
            *final(self) == old(self).with_cells_written(n),
    {
        self.cells_written = self.cells_written.wrapping_add(n);
    }

    /// Record `n` exceptions.
    pub fn errors(&mut self, n: u64)
        ensures
            *final(self) == old(self).with_errors(n),
    {
        self.error_responses = self.error_responses.wrapping_add(n);
    }

    /// The peak is never below the number of clients.
    pub open spec fn wf(self) -> bool {
        self.current_clients <= self.peak_clients
    }
}

// ---------------------------------------------------------------------------
// Message log
// ---------------------------------------------------------------------------

/// Direction of a logged protocol message, as seen by the simulator.
#[derive(Clone, Copy, PartialEq, Eq, Debug, Structural)]
pub enum MsgDirection {
    /// A message the server sent back to a client.
    Sent,
    /// A message the server received from a client.
    Received,
}

impl MsgDirection {
    /// Short UI label.
    pub fn label(self) -> (s: &'static str)
        ensures
            s@ == (match self {
                MsgDirection::Sent => "发送"@,
                MsgDirection::Received => "接收"@,
            }),
    {
        match self {
            MsgDirection::Sent => "发送",
            MsgDirection::Received => "接收",
        }
    }
}

/// One logged protocol frame (request/response) shown in the UI log panel.
#[derive(Clone, Debug)]
pub struct MessageLogEntry {
    /// Who sent it.
    pub direction: MsgDirection,
    /// Function code (0 if not applicable).
    pub function_code: u8,
    /// Total frame length in bytes.
    pub bytes: usize,
    /// Number of 16-bit register words in the payload (0 when not applicable).
    pub registers: usize,
    /// Full message rendered as big-endian hex.
    pub hex: String,
    /// `HH:MM:SS` wall-clock time.
    pub time: String,
    /// Milliseconds since the UNIX epoch, by which entries sort.
    pub ts_ms: u64,
}

/// What a log entry says.
#[verifier::ext_equal]
pub struct EntryView {
    pub direction: MsgDirection,
    pub function_code: u8,
    pub bytes: nat,
    pub registers: nat,
    pub hex: Seq<char>,
    pub time: Seq<char>,
    pub ts_ms: u64,
}

impl View for MessageLogEntry {
    type V = EntryView;

    open spec fn view(&self) -> EntryView {
        EntryView {
            direction: self.direction,
            function_code: self.function_code,
            bytes: self.bytes as nat,
            registers: self.registers as nat,
            hex: self.hex@,
            time: self.time@,
            ts_ms: self.ts_ms,
        }
    }
}

/// What a log says, oldest entry first.
pub open spec fn log_view(log: Seq<MessageLogEntry>) -> Seq<EntryView> {
    Seq::new(log.len(), |i: int| log[i]@)
}

/// Max entries kept in the message log (ring buffer).
pub const MAX_LOG_ENTRIES: usize = 200;

/// A log after one more entry: once full it loses its oldest one.
pub open spec fn logged(log: Seq<EntryView>, entry: EntryView) -> Seq<EntryView> {
    if log.len() >= MAX_LOG_ENTRIES {
        log.drop_first().push(entry)
    } else {
        log.push(entry)
    }
}

/// Create an empty message log.
pub fn message_log() -> (log: VecDeque<MessageLogEntry>)
    ensures
        log_view(log@) == Seq::<EntryView>::empty(),
{
    let log: VecDeque<MessageLogEntry> = VecDeque::with_capacity(MAX_LOG_ENTRIES);
    proof {
        assert(log_view(log@) =~= Seq::<EntryView>::empty());
    }
    log
}

/// Push a frame into the log, evicting the oldest entry once full.
pub fn log_message(logs: &mut VecDeque<MessageLogEntry>, entry: MessageLogEntry)
    ensures
        log_view(final(logs)@) == logged(log_view(old(logs)@), entry@),
{
    let ghost before = log_view(logs@);
    let ghost new = entry@;
    if logs.len() >= MAX_LOG_ENTRIES {
        let _ = logs.pop_front();
    }
    logs.push_back(entry);
    proof {
        assert(log_view(logs@) =~= logged(before, new));
    }
}

/// A log that starts empty never grows past its limit, and keeps the latest
/// entries in their order.
pub proof fn lemma_log_is_bounded(log: Seq<EntryView>, entry: EntryView)
    requires
        log.len() <= MAX_LOG_ENTRIES,
    ensures
        ({
            let after = logged(log, entry);
            let dropped = if log.len() == MAX_LOG_ENTRIES {
                1
            } else {
                0
            };
            &&& after.len() <= MAX_LOG_ENTRIES
            &&& after.last() == entry
            &&& after.drop_last() == log.skip(dropped)
        }),
{
    let after = logged(log, entry);
    if log.len() == MAX_LOG_ENTRIES {
        assert(after.drop_last() =~= log.skip(1));
    } else {
        assert(after.drop_last() =~= log.skip(0));
    }
}

// ---------------------------------------------------------------------------
// Time
// ---------------------------------------------------------------------------

/// The time of day, `HH:MM:SS`, after so many seconds of the epoch.
pub open spec fn time_of_day(secs: nat) -> Seq<char> {
    dec_padded(secs / 3600 % 24, 2) + seq![':'] + dec_padded(secs / 60 % 60, 2) + seq![':']
        + dec_padded(secs % 60, 2)
}

/// `HH:MM:SS` timestamp for a clock reading in seconds since the UNIX epoch;
/// `None` stands for a clock before it.
pub fn timestamp(since_epoch: Option<u64>) -> (s: String)
    ensures
        s@ == time_of_day(
            match since_epoch {
                Some(secs) => secs as nat,
                None => 0,
            },
        ),
{
    let secs: u64 = match since_epoch {
        Some(secs) => secs,
        None => 0,
    };
    let mut s = String::new();
    push_dec_padded(&mut s, secs / 3600 % 24, 2);
    s.push(':');
    push_dec_padded(&mut s, secs / 60 % 60, 2);
    s.push(':');
    push_dec_padded(&mut s, secs % 60, 2);
    proof {
        assert(s@ =~= time_of_day(secs as nat));
    }
    s
}

/// Milliseconds of a clock reading since the UNIX epoch, as the log stores them:
/// the low 64 bits, or 0 for a clock before the epoch.
pub fn timestamp_ms(since_epoch: Option<u128>) -> (ms: u64)
    ensures
        ms == (match since_epoch {
            Some(ms) => ms as int % 0x1_0000_0000_0000_0000,
            None => 0,
        }),
{
    match since_epoch {
        Some(ms) => (ms % 0x1_0000_0000_0000_0000) as u64,
        None => 0,
    }
}

// ---------------------------------------------------------------------------
// Shared context
// ---------------------------------------------------------------------------

/// What every protocol server works on.
#[derive(Clone)]
pub struct ProtocolContext {
    /// The single register store shared by all protocols and the UI.
    pub store: RegisterStore,
    /// Protocol-wide statistics.
    pub stats: ServerStats,
    /// Message log (received/sent frames) for the UI log panel.
    pub logs: VecDeque<MessageLogEntry>,
}

/// What a context holds.
#[verifier::ext_equal]
pub struct ContextView {
    pub store: StoreView,
    pub stats: ServerStats,
    pub log: Seq<EntryView>,
}

impl View for ProtocolContext {
    type V = ContextView;

    open spec fn view(&self) -> ContextView {
        ContextView { store: self.store@, stats: self.stats, log: log_view(self.logs@) }
    }
}

// ---------------------------------------------------------------------------
// Lifecycle
// ---------------------------------------------------------------------------

/// Server lifecycle state, shown in the UI as a badge.
#[derive(Clone, Debug, PartialEq, Eq)]
pub enum ServerState {
    /// Not running.
    Stopped,
    /// Launched; the port is not bound yet.
    Starting,
    /// Listening.
    Running,
    /// Being shut down.
    Stopping,
    /// A fatal error (for example, the port is already in use).
    Error(String),
}

/// What a lifecycle state says.
pub enum StateView {
    Stopped,
    Starting,
    Running,
    Stopping,
    Error(Seq<char>),
}

impl View for ServerState {
    type V = StateView;

    open spec fn view(&self) -> StateView {
        match self {
            ServerState::Stopped => StateView::Stopped,
            ServerState::Starting => StateView::Starting,
            ServerState::Running => StateView::Running,
            ServerState::Stopping => StateView::Stopping,
            ServerState::Error(message) => StateView::Error(message@),
        }
    }
}

impl ServerState {
    /// Badge label.
    pub fn label(&self) -> (s: &'static str)
        ensures
            s@ == (match self@ {
                StateView::Stopped => "已停止"@,
                StateView::Starting => "启动中"@,
                StateView::Running => "运行中"@,
                StateView::Stopping => "停止中"@,
                StateView::Error(_) => "错误"@,
            }),
    {
        match self {
            ServerState::Stopped => "已停止",
            ServerState::Starting => "启动中",
            ServerState::Running => "运行中",
            ServerState::Stopping => "停止中",
            ServerState::Error(_) => "错误",
        }
    }

    /// A copy of the state.
    pub fn copy(&self) -> (s: ServerState)
        ensures
            s@ == self@,
    {
        match self {
            ServerState::Stopped => ServerState::Stopped,
            ServerState::Starting => ServerState::Starting,
            ServerState::Running => ServerState::Running,
            ServerState::Stopping => ServerState::Stopping,
            ServerState::Error(message) => ServerState::Error(message.clone()),
        }
    }
}

/// A server as its lifecycle sees it.
pub struct ServerView {
    /// The listen port.
    pub port: u16,
    /// True while the accept loop is to go on.
    pub accepting: bool,
    /// The lifecycle state.
    pub state: StateView,
    /// True while a runtime is there.
    pub launched: bool,
}

/// What has to be done to start a server.
#[derive(Clone, Copy, PartialEq, Eq, Debug, Structural)]
pub enum StartAction {
    /// It is running already.
    Nothing,
    /// Shut down the runtime that an earlier run left behind, if there is one,
    /// then launch a new one that listens on `port`.
    Launch { shut_down_first: bool, port: u16 },
}

/// What has to be done to stop a server.
#[derive(Clone, Copy, PartialEq, Eq, Debug, Structural)]
pub enum StopAction {
    /// There is nothing to shut down.
    Nothing,
    /// Shut down the runtime, if there is one, then report that it is done.
    ShutDown { runtime: bool },
}

impl ServerView {
    /// The server after a request to start it.
    pub open spec fn started(self) -> ServerView {
        if self.state is Running {
            self
        } else {
            ServerView {
                port: self.port,
                accepting: self.accepting && !self.launched,
                state: StateView::Starting,
                launched: false,
            }
        }
    }

    /// What starting it takes.
    pub open spec fn start_action(self) -> StartAction {
        if self.state is Running {
            StartAction::Nothing
        } else {
            StartAction::Launch { shut_down_first: self.launched, port: self.port }
        }
    }

    /// The server after a request to stop it.
    pub open spec fn stopping(self) -> ServerView {
        if !(self.state is Running) && !self.launched {
            ServerView { state: StateView::Stopped, ..self }
        } else {
            ServerView {
                port: self.port,
                accepting: false,
                state: StateView::Stopping,
                launched: false,
            }
        }
    }

    /// What stopping it takes.
    pub open spec fn stop_action(self) -> StopAction {
        if !(self.state is Running) && !self.launched {
            StopAction::Nothing
        } else {
            StopAction::ShutDown { runtime: self.launched }
        }
    }
}

/// Everything a simulated protocol server must provide.
pub trait Protocol: Send + Sync {
    /// The server as its lifecycle sees it.
    spec fn server(&self) -> ServerView;

    /// Stable identifier, e.g. `"modbus-tcp"`.
    fn id(&self) -> &'static str;

    /// Display name, e.g. `"Modbus TCP"`.
    fn name(&self) -> &'static str;

    /// One-line description.
    fn description(&self) -> &'static str;

    /// Begin to start the server.
    fn start(&mut self) -> (action: StartAction)
        ensures
            action == old(self).server().start_action(),
            final(self).server() == old(self).server().started(),
    ;

    /// Begin to stop the server.
    fn stop(&mut self) -> (action: StopAction)
        ensures
            action == old(self).server().stop_action(),
            final(self).server() == old(self).server().stopping(),
    ;

    /// Current lifecycle state.
    fn state(&self) -> (s: ServerState)
        ensures
            s@ == self.server().state,
    ;

    /// True while the server process is alive.
    fn is_running(&self) -> (b: bool)
        ensures
            b == (self.server().state is Running),
    {
        matches!(self.state(), ServerState::Running)
    }

    /// The listen port (used by the UI to pre-fill the control card).
    fn port(&self) -> (p: u16)
        ensures
            p == self.server().port,
    ;

    /// Change the listen port. Only effective while stopped.
    fn set_port(&mut self, port: u16)
        ensures
            final(self).server() == (if old(self).server().state is Stopped
                || old(self).server().state is Error {
                ServerView { port, ..old(self).server() }
            } else {
                old(self).server()
            }),
    ;
}

/// A registered protocol server and its UI state.
pub struct ProtocolCard<P: Protocol> {
    /// The server.
    pub protocol: P,
}

impl<P: Protocol> ProtocolCard<P> {
    /// Register a server.
    pub fn new(protocol: P) -> (card: Self)
        ensures
            card.protocol == protocol,
    {
        ProtocolCard { protocol }
    }
}

} // verus!
