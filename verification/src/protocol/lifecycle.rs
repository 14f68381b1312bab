//! Starting and stopping a Modbus TCP server.

use vstd::prelude::*;

use super::{Protocol, ServerState, ServerView, StartAction, StateView, StopAction};
use crate::text::{dec, push_dec};

verus! {

/// The lifecycle of a Modbus TCP server.
///
/// The runtime and the socket live outside: [`Protocol::start`] and
/// [`Protocol::stop`] say what to do with them, and the methods below take in
/// what came of it.
pub struct ModbusTcpServer {
    listen_port: u16,
    running: bool,
    lifecycle: ServerState,
    runtime: bool,
}

/// Says that a port could not be bound.
pub open spec fn bind_error(port: u16, reason: Seq<char>) -> Seq<char> {
    "绑定 0.0.0.0:"@ + dec(port as nat) + " 失败: "@ + reason
}

impl ModbusTcpServer {
    /// A server that listens on `port` once started.
    pub fn new(port: u16) -> (s: Self)
        ensures
            s.server() == (ServerView {
                port,
                accepting: false,
                state: StateView::Stopped,
                launched: false,
            }),
    {
        ModbusTcpServer {
            listen_port: port,
            running: false,
            lifecycle: ServerState::Stopped,
            runtime: false,
        }
    }

    /// The runtime was built and the server task spawned.
    pub fn launched(&mut self)
        ensures
            final(self).server() == (ServerView {
                accepting: true,
                launched: true,
                ..old(self).server()
            }),
    {
        self.running = true;
        self.runtime = true;
    }

    /// The port was bound.
    pub fn bound(&mut self)
        ensures
            final(self).server() == (ServerView {
                state: StateView::Running,
                ..old(self).server()
            }),
    {
        self.lifecycle = ServerState::Running;
    }

    /// The port could not be bound.
    pub fn bind_failed(&mut self, port: u16, reason: &str)
        ensures
            final(self).server() == (ServerView {
                state: StateView::Error(bind_error(port, reason@)),
                ..old(self).server()
            }),
    {
        let mut message = "绑定 0.0.0.0:".to_string();
        push_dec(&mut message, port as u64);
        message.append(" 失败: ");
        message.append(reason);
        self.lifecycle = ServerState::Error(message);
    }

    /// The runtime was shut down.
    pub fn stopped(&mut self)
        ensures
            final(self).server() == (ServerView {
                state: StateView::Stopped,
                ..old(self).server()
            }),
    {
        self.lifecycle = ServerState::Stopped;
    }

    /// True while the accept loop is to go on.
    pub fn keeps_accepting(&self) -> (b: bool)
        ensures
            b == self.server().accepting,
    {
        self.running
    }
}

impl Protocol for ModbusTcpServer {
    closed spec fn server(&self) -> ServerView {
        ServerView {
            port: self.listen_port,
            accepting: self.running,
            state: self.lifecycle@,
            launched: self.runtime,
        }
    }

    fn id(&self) -> (s: &'static str)
        ensures
            s@ == "modbus-tcp"@,
    {
        "modbus-tcp"
    }

    fn name(&self) -> (s: &'static str)
        ensures
            s@ == "Modbus TCP"@,
    {
        "Modbus TCP"
    }

    fn description(&self) -> (s: &'static str)
        ensures
            s@ == "Modbus TCP server (FC 01-06, 0F, 10)"@,
    {
        "Modbus TCP server (FC 01-06, 0F, 10)"
    }

    fn start(&mut self) -> (action: StartAction) {
        if self.is_running() {
            return StartAction::Nothing;
        }
        let shut_down_first = self.runtime;
        if shut_down_first {
            self.running = false;
            self.runtime = false;
        }
        self.lifecycle = ServerState::Starting;
        StartAction::Launch { shut_down_first, port: self.listen_port }
    }

    fn stop(&mut self) -> (action: StopAction) {
        if !self.is_running() && !self.runtime {
            self.lifecycle = ServerState::Stopped;
            return StopAction::Nothing;
        }
        let runtime = self.runtime;
        self.running = false;
        self.lifecycle = ServerState::Stopping;
        self.runtime = false;
        StopAction::ShutDown { runtime }
    }

    fn state(&self) -> (s: ServerState) {
        self.lifecycle.copy()
    }

    fn port(&self) -> (p: u16) {
        self.listen_port
    }

    fn set_port(&mut self, port: u16) {
        match self.lifecycle {
            ServerState::Stopped | ServerState::Error(_) => {
                self.listen_port = port;
            },
            _ => {},
        }
    }
}

/// A server that was started and bound runs and accepts on its port; stopped and
/// shut down again, it has no runtime left and accepts no more.
pub proof fn lemma_start_and_stop(s: ServerView)
    requires
        !(s.state is Running),
    ensures
        ({
            let up = (ServerView {
                accepting: true,
                launched: true,
                state: StateView::Running,
                ..s.started()
            });
            let down = (ServerView { state: StateView::Stopped, ..up.stopping() });
            &&& s.start_action() == (StartAction::Launch {
                shut_down_first: s.launched,
                port: s.port,
            })
            &&& up.start_action() == StartAction::Nothing
            &&& up.started() == up
            &&& up.stop_action() == (StopAction::ShutDown { runtime: true })
            &&& down.port == s.port
            &&& !down.accepting
            &&& !down.launched
            &&& down.stop_action() == StopAction::Nothing
        }),
{
}

/// Starting a running server does nothing. Any other one is launched on its
/// port, once what an earlier run left behind is shut down, and keeps its port.
pub proof fn lemma_start(s: ServerView)
    ensures
        s.state == StateView::Running ==> s.start_action() == StartAction::Nothing && s.started()
            == s,
        s.state != StateView::Running ==> {
            &&& s.start_action() == (StartAction::Launch {
                shut_down_first: s.launched,
                port: s.port,
            })
            &&& s.started().state == StateView::Starting
            &&& s.started().port == s.port
            &&& !s.started().launched
            &&& s.launched ==> !s.started().accepting
            &&& !s.launched ==> s.started().accepting == s.accepting
        },
{
}

/// Stopping a server that neither runs nor has a runtime only marks it as
/// stopped. Any other one accepts no more and is shut down, and keeps its port.
pub proof fn lemma_stop(s: ServerView)
    ensures
        s.state != StateView::Running && !s.launched ==> s.stop_action() == StopAction::Nothing
            && s.stopping() == (ServerView { state: StateView::Stopped, ..s }),
        s.state == StateView::Running || s.launched ==> {
            &&& s.stop_action() == (StopAction::ShutDown { runtime: s.launched })
            &&& s.stopping().state == StateView::Stopping
            &&& s.stopping().port == s.port
            &&& !s.stopping().launched
            &&& !s.stopping().accepting
        },
{
}

/// The message about a port that could not be bound names the port and the
/// reason.
pub proof fn lemma_bind_error(port: u16, reason: Seq<char>)
    ensures
        bind_error(port, reason) == "绑定 0.0.0.0:"@ + dec(port as nat) + " 失败: "@ + reason,
{
}

} // verus!
