//! The server core: connections open and close, lines arrive, and each event gives the
//! lines to send; counters of connections and lines.

use vstd::prelude::*;

use crate::laws;
use crate::model;
use crate::model::{ClientView, ConnectionId, OutboundMessage, StateView};
use crate::protocol::Message;
use crate::state;
use crate::state::{ClientSession, ServerState};
use crate::text;
use crate::text::{owned, same_text};

verus! {

/// The counters at one moment.
#[derive(Debug, Clone, Copy, PartialEq, Eq, Structural)]
pub struct MetricsSnapshot {
    pub active_connections: usize,
    pub total_connections: usize,
    pub total_lines_received: usize,
}

/// Counters of connections and received lines. They wrap around on overflow.
#[derive(Debug)]
pub struct ServerMetrics {
    active_connections: usize,
    total_connections: usize,
    total_lines_received: usize,
}

impl View for ServerMetrics {
    type V = MetricsSnapshot;

    closed spec fn view(&self) -> MetricsSnapshot {
        MetricsSnapshot {
            active_connections: self.active_connections,
            total_connections: self.total_connections,
            total_lines_received: self.total_lines_received,
        }
    }
}

/// One counted event.
pub enum MetricEvent {
    Opened,
    Closed,
    Line,
}

/// The counters after one event: an open adds one active and one total connection, a
/// close takes one active connection away, a line adds one received line; each wraps.
pub open spec fn metric_step(m: MetricsSnapshot, e: MetricEvent) -> MetricsSnapshot {
    match e {
        MetricEvent::Opened => MetricsSnapshot {
            active_connections: m.active_connections.wrapping_add(1),
            total_connections: m.total_connections.wrapping_add(1),
            ..m
        },
        MetricEvent::Closed => MetricsSnapshot {
            active_connections: m.active_connections.wrapping_sub(1),
            ..m
        },
        MetricEvent::Line => MetricsSnapshot {
            total_lines_received: m.total_lines_received.wrapping_add(1),
            ..m
        },
    }
}

/// The counters after the events, in order.
pub open spec fn metrics_after(m: MetricsSnapshot, evs: Seq<MetricEvent>) -> MetricsSnapshot
    decreases evs.len(),
{
    if evs.len() == 0 {
        m
    } else {
        metric_step(metrics_after(m, evs.drop_last()), evs.last())
    }
}

pub open spec fn zero_metrics() -> MetricsSnapshot {
    MetricsSnapshot { active_connections: 0, total_connections: 0, total_lines_received: 0 }
}

impl Default for ServerMetrics {
    fn default() -> (r: Self)
        ensures
            r@ == zero_metrics(),
    {
        ServerMetrics { active_connections: 0, total_connections: 0, total_lines_received: 0 }
    }
}

impl ServerMetrics {
    /// One more connection is active, and one more has been seen.
    pub fn record_connection_opened(&mut self)
        ensures
            final(self)@ == metric_step(old(self)@, MetricEvent::Opened),
            final(self)@ == (MetricsSnapshot {
                active_connections: old(self)@.active_connections.wrapping_add(1),
                total_connections: old(self)@.total_connections.wrapping_add(1),
                ..old(self)@
            }),
    {
        self.active_connections = self.active_connections.wrapping_add(1);
        self.total_connections = self.total_connections.wrapping_add(1);
    }

    /// One connection fewer is active.
    pub fn record_connection_closed(&mut self)
        ensures
            final(self)@ == metric_step(old(self)@, MetricEvent::Closed),
            final(self)@ == (MetricsSnapshot {
                active_connections: old(self)@.active_connections.wrapping_sub(1),
                ..old(self)@
            }),
    {
        self.active_connections = self.active_connections.wrapping_sub(1);
    }

    /// One more line has been received.
    pub fn record_line_received(&mut self)
        ensures
            final(self)@ == metric_step(old(self)@, MetricEvent::Line),
            final(self)@ == (MetricsSnapshot {
                total_lines_received: old(self)@.total_lines_received.wrapping_add(1),
                ..old(self)@
            }),
    {
        self.total_lines_received = self.total_lines_received.wrapping_add(1);
    }

    /// The counters now.
    pub fn snapshot(&self) -> (r: MetricsSnapshot)
        ensures
            r == self@,
    {
        MetricsSnapshot {
            active_connections: self.active_connections,
            total_connections: self.total_connections,
            total_lines_received: self.total_lines_received,
        }
    }
}

/// What the server core holds: its counters and its state.
pub struct CoreView {
    pub metrics: MetricsSnapshot,
    pub state: StateView,
}

/// The server: its counters and the state of its clients and channels.
pub struct ServerCore {
    metrics: ServerMetrics,
    state: ServerState,
}

impl View for ServerCore {
    type V = CoreView;

    closed spec fn view(&self) -> CoreView {
        CoreView { metrics: self.metrics@, state: self.state@ }
    }
}

/// The state of a server that has just started.
pub open spec fn initial_state() -> StateView {
    StateView {
        server_name: "clankircd.local"@,
        next_id: 1,
        clients: Seq::empty(),
        channels: Seq::empty(),
    }
}

/// A client that has just connected.
pub open spec fn fresh_client(id: ConnectionId) -> ClientView {
    ClientView {
        id,
        nick: None,
        user: None,
        real_name: None,
        cap_active: false,
        registered: false,
        joined: Seq::empty(),
    }
}

/// The state once the connection `s.next_id` is opened.
pub open spec fn open_step(s: StateView) -> StateView {
    let id = s.next_id;
    let clients = if model::has_client(s, id) {
        s.clients.update(model::find_client(s, id), fresh_client(id))
    } else {
        s.clients.push(fresh_client(id))
    };
    StateView { next_id: (s.next_id + 1) as usize, clients, ..s }
}

/// One event of the server core.
pub enum CoreEvent {
    Open,
    Line(ConnectionId, Seq<char>),
    Close(ConnectionId),
}

/// The state after one event, as `on_connection_opened`, `on_line` and
/// `on_connection_closed` give it.
pub open spec fn core_step(s: StateView, e: CoreEvent) -> StateView {
    match e {
        CoreEvent::Open => open_step(s),
        CoreEvent::Line(id, line) => model::line_step(s, id, line).0,
        CoreEvent::Close(id) => model::quit_step(s, id, "Client disconnected"@).0,
    }
}

/// The state after the events, in order.
pub open spec fn run(s: StateView, evs: Seq<CoreEvent>) -> StateView
    decreases evs.len(),
{
    if evs.len() == 0 {
        s
    } else {
        core_step(run(s, evs.drop_last()), evs.last())
    }
}

/// The connection ids that the opens among the events return, in order.
pub open spec fn opened_ids(s: StateView, evs: Seq<CoreEvent>) -> Seq<ConnectionId>
    decreases evs.len(),
{
    if evs.len() == 0 {
        Seq::empty()
    } else {
        let before = opened_ids(s, evs.drop_last());
        match evs.last() {
            CoreEvent::Open => before.push(run(s, evs.drop_last()).next_id),
            _ => before,
        }
    }
}

/// Whether the server can handle `line` from `connection_id`: a line that names its sender
/// (see `line_needs_client`) needs the sender to be a known client.
pub open spec fn can_handle(s: StateView, connection_id: ConnectionId, line: Seq<char>) -> bool {
    model::has_client(s, connection_id) || !model::line_needs_client(s, line)
}

fn fresh_session(id: ConnectionId) -> (r: ClientSession)
    ensures
        r@ == fresh_client(id),
{
    let joined: Vec<String> = Vec::new();
    let r = ClientSession {
        id,
        nick: None,
        user: None,
        real_name: None,
        cap_active: false,
        registered: false,
        joined_channels: joined,
    };
    assert(r@ =~= fresh_client(id));
    r
}

impl Default for ServerCore {
    fn default() -> (r: Self)
        ensures
            r@.state == initial_state(),
            r@.metrics == zero_metrics(),
    {
        let clients: Vec<ClientSession> = Vec::new();
        let channels: Vec<state::Channel> = Vec::new();
        let r = ServerCore {
            metrics: ServerMetrics::default(),
            state: ServerState {
                server_name: owned("clankircd.local"),
                next_connection_id: 1,
                clients,
                channels,
            },
        };
        assert(r@.state =~= initial_state());
        r
    }
}

impl ServerCore {
    /// A server with no clients and no channels, whose first connection will be 1.
    pub fn new() -> (r: Self)
        ensures
            r@.state == initial_state(),
            r@.metrics == zero_metrics(),
            model::wf(r@.state),
    {
        proof {
            laws::lemma_initial_wf();
        }
        Self::default()
    }

    /// The counters.
    pub fn metrics(&self) -> (r: &ServerMetrics)
        ensures
            r@ == self@.metrics,
    {
        &self.metrics
    }

    /// Whether another connection can be numbered: the next number is not `usize::MAX`.
    pub fn accepts_connection(&self) -> (r: bool)
        ensures
            r == (self@.state.next_id < usize::MAX),
    {
        self.state.next_connection_id < usize::MAX
    }

    /// A new connection: it gets the next number and a fresh session.
    pub fn on_connection_opened(&mut self) -> (connection_id: ConnectionId)
        requires
            old(self)@.state.next_id < usize::MAX,
        ensures
            connection_id == old(self)@.state.next_id,
            final(self)@.state == open_step(old(self)@.state),
            final(self)@.metrics == metric_step(old(self)@.metrics, MetricEvent::Opened),
            model::wf(old(self)@.state) ==> model::wf(final(self)@.state) && !model::has_client(
                old(self)@.state,
                connection_id,
            ) && final(self)@.state.clients == old(self)@.state.clients.push(
                fresh_client(connection_id),
            ) && final(self)@.state.channels == old(self)@.state.channels,
    {
        proof {
            if model::wf(self@.state) {
                laws::lemma_open_keeps_wf(self@.state);
            }
        }
        self.metrics.record_connection_opened();
        let connection_id = self.state.next_connection_id;
        self.state.next_connection_id = self.state.next_connection_id + 1;
        let ghost before = self.state@;
        match state::client_pos(&self.state, connection_id) {
            Some(i) => {
                self.state.clients.set(i, fresh_session(connection_id));
                assert(state::clients_view(self.state.clients@) =~= before.clients.update(
                    i as int,
                    fresh_client(connection_id),
                ));
            },
            None => {
                self.state.clients.push(fresh_session(connection_id));
                assert(state::clients_view(self.state.clients@) =~= before.clients.push(
                    fresh_client(connection_id),
                ));
            },
        }
        assert(self@.state =~= open_step(old(self)@.state));
        connection_id
    }

    /// The connection has closed: the client quits with "Client disconnected".
    pub fn on_connection_closed(&mut self, connection_id: ConnectionId) -> (outs: Vec<OutboundMessage>)
        ensures
            final(self)@.state == model::quit_step(
                old(self)@.state,
                connection_id,
                "Client disconnected"@,
            ).0,
            model::outs_view(outs@) == model::quit_step(
                old(self)@.state,
                connection_id,
                "Client disconnected"@,
            ).1,
            final(self)@.metrics == metric_step(old(self)@.metrics, MetricEvent::Closed),
            model::wf(old(self)@.state) ==> model::wf(final(self)@.state),
    {
        proof {
            if model::wf(self@.state) {
                laws::lemma_quit_keeps_wf(self@.state, connection_id, "Client disconnected"@);
            }
        }
        self.metrics.record_connection_closed();
        self.handle_quit(connection_id, "Client disconnected")
    }

    fn handle_quit(&mut self, connection_id: ConnectionId, reason: &str) -> (outs: Vec<OutboundMessage>)
        ensures
            final(self)@.state == model::quit_step(old(self)@.state, connection_id, reason@).0,
            model::outs_view(outs@) == model::quit_step(old(self)@.state, connection_id, reason@).1,
            final(self)@.metrics == old(self)@.metrics,
    {
        let reason = owned(reason);
        state::handle_quit(&mut self.state, connection_id, &reason)
    }

    /// Whether `on_line` can take this line from this connection (see `can_handle`).
    pub fn accepts_line(&self, connection_id: ConnectionId, line: &str) -> (r: bool)
        ensures
            r == can_handle(self@.state, connection_id, line@),
    {
        if state::client_pos(&self.state, connection_id).is_some() {
            return true;
        }
        let msg = match Message::parse(line) {
            Ok(m) => m,
            Err(_) => {
                return true;
            },
        };
        let cmd = msg.command.as_str();
        let names_sender = (same_text(cmd, "PRIVMSG") || same_text(cmd, "NOTICE")) && msg.params.len()
            >= 2;
        let parts_channel = same_text(cmd, "PART") && msg.params.len() >= 1 && state::channel_pos(
            &self.state,
            &msg.params[0],
        ).is_some();
        !(names_sender || parts_channel)
    }

    /// One line received from the connection: it is counted, parsed, and handled; the
    /// result is the lines to send. A line that is not a message does nothing more.
    pub fn on_line(&mut self, connection_id: ConnectionId, line: &str) -> (outs: Vec<OutboundMessage>)
        requires
            can_handle(old(self)@.state, connection_id, line@),
        ensures
            final(self)@.state == model::line_step(old(self)@.state, connection_id, line@).0,
            model::outs_view(outs@) == model::line_step(old(self)@.state, connection_id, line@).1,
            final(self)@.metrics == metric_step(old(self)@.metrics, MetricEvent::Line),
            model::wf(old(self)@.state) ==> model::wf(final(self)@.state)
                && laws::keeps_registration(old(self)@.state, final(self)@.state),
    {
        proof {
            if model::wf(self@.state) {
                laws::lemma_line_keeps_wf(self@.state, connection_id, line@);
                laws::lemma_line_keeps_registration(self@.state, connection_id, line@);
            }
        }
        self.metrics.record_line_received();
        let msg = match Message::parse(line) {
            Ok(m) => m,
            Err(_) => {
                return Vec::new();
            },
        };
        let cmd = msg.command.as_str();
        if same_text(cmd, "CAP") {
            state::handle_cap(&mut self.state, connection_id, &msg.params)
        } else if same_text(cmd, "PASS") {
            Vec::new()
        } else if same_text(cmd, "NICK") {
            state::handle_nick(&mut self.state, connection_id, &msg.params)
        } else if same_text(cmd, "USER") {
            state::handle_user(&mut self.state, connection_id, &msg.params)
        } else if same_text(cmd, "JOIN") {
            state::handle_join(&mut self.state, connection_id, &msg.params)
        } else if same_text(cmd, "PART") {
            state::handle_part(&mut self.state, connection_id, &msg.params)
        } else if same_text(cmd, "PRIVMSG") {
            state::handle_privmsg(&self.state, connection_id, &msg.params, false)
        } else if same_text(cmd, "NOTICE") {
            state::handle_privmsg(&self.state, connection_id, &msg.params, true)
        } else if same_text(cmd, "QUIT") {
            let reason = if msg.params.len() > 0 {
                msg.params[0].clone()
            } else {
                owned("Client quit")
            };
            state::handle_quit(&mut self.state, connection_id, &reason)
        } else if same_text(cmd, "PING") {
            let pong = Message { prefix: None, command: owned("PONG"), params: msg.params };
            let mut outs: Vec<OutboundMessage> = Vec::new();
            outs.push(state::reply(connection_id, pong));
            assert(model::outs_view(outs@) =~= model::line_step(
                old(self)@.state,
                connection_id,
                line@,
            ).1);
            outs
        } else {
            let nick = state::client_nick(&self.state, connection_id);
            let mut params: Vec<String> = Vec::new();
            params.push(msg.command.clone());
            params.push(owned("Unknown command"));
            assert(text::strings_view(params@) =~= seq![msg.command@, "Unknown command"@]);
            let mut outs: Vec<OutboundMessage> = Vec::new();
            outs.push(
                state::numeric(
                    self.state.server_name.as_str(),
                    connection_id,
                    nick.as_str(),
                    "421",
                    params,
                ),
            );
            assert(model::outs_view(outs@) =~= model::line_step(
                old(self)@.state,
                connection_id,
                line@,
            ).1);
            outs
        }
    }
}

} // verus!
