//! The abstract server state and what each command does to it: the next state and the
//! lines sent, each to one connection.

use vstd::prelude::*;

use crate::protocol;
use crate::protocol::MessageView;
use crate::text;

verus! {

/// The number that names one client connection.
pub type ConnectionId = usize;

/// A line to send (its text as a sequence of characters) and the connection to send it to.
pub type Out = (ConnectionId, Seq<char>);

/// A serialized line addressed to one connection.
#[derive(Debug, Clone)]
pub struct OutboundMessage {
    pub target: ConnectionId,
    pub line: String,
}

impl View for OutboundMessage {
    type V = Out;

    open spec fn view(&self) -> Out {
        (self.target, self.line@)
    }
}

pub open spec fn outs_view(v: Seq<OutboundMessage>) -> Seq<Out> {
    v.map_values(|o: OutboundMessage| o@)
}

/// One connected client.
#[verifier::ext_equal]
pub struct ClientView {
    pub id: ConnectionId,
    pub nick: Option<Seq<char>>,
    pub user: Option<Seq<char>>,
    pub real_name: Option<Seq<char>>,
    pub cap_active: bool,
    pub registered: bool,
    /// The channels the client has joined, in the order it joined them.
    pub joined: Seq<Seq<char>>,
}

/// One channel and its members, in the order they joined.
#[verifier::ext_equal]
pub struct ChannelView {
    pub name: Seq<char>,
    pub members: Seq<ConnectionId>,
}

/// The whole state of the server.
#[verifier::ext_equal]
pub struct StateView {
    pub server_name: Seq<char>,
    pub next_id: ConnectionId,
    pub clients: Seq<ClientView>,
    pub channels: Seq<ChannelView>,
}

// ---------------------------------------------------------------------------
// Looking things up
// ---------------------------------------------------------------------------
/// The first position at or after `i` of a client with the given id, or -1.
pub open spec fn client_index_from(cs: Seq<ClientView>, id: ConnectionId, i: int) -> int
    decreases cs.len() - i,
{
    if i < 0 || i >= cs.len() {
        -1
    } else if cs[i].id == id {
        i
    } else {
        client_index_from(cs, id, i + 1)
    }
}

/// The position of the client with the given id, or -1.
pub open spec fn find_client(s: StateView, id: ConnectionId) -> int {
    client_index_from(s.clients, id, 0)
}

pub open spec fn has_client(s: StateView, id: ConnectionId) -> bool {
    find_client(s, id) >= 0
}

pub open spec fn client_of(s: StateView, id: ConnectionId) -> ClientView {
    s.clients[find_client(s, id)]
}

/// The first position at or after `i` of a channel with the given name, or -1.
pub open spec fn channel_index_from(chs: Seq<ChannelView>, name: Seq<char>, i: int) -> int
    decreases chs.len() - i,
{
    if i < 0 || i >= chs.len() {
        -1
    } else if chs[i].name == name {
        i
    } else {
        channel_index_from(chs, name, i + 1)
    }
}

/// The position of the channel with the given name, or -1.
pub open spec fn find_channel(s: StateView, name: Seq<char>) -> int {
    channel_index_from(s.channels, name, 0)
}

pub open spec fn has_channel(s: StateView, name: Seq<char>) -> bool {
    find_channel(s, name) >= 0
}

/// The members of the named channel; none where there is no such channel.
pub open spec fn members_of(s: StateView, name: Seq<char>) -> Seq<ConnectionId> {
    if has_channel(s, name) {
        s.channels[find_channel(s, name)].members
    } else {
        Seq::empty()
    }
}

/// The first position at or after `i` of a client with the given nick, or -1.
pub open spec fn nick_index_from(cs: Seq<ClientView>, nick: Seq<char>, i: int) -> int
    decreases cs.len() - i,
{
    if i < 0 || i >= cs.len() {
        -1
    } else if cs[i].nick == Some(nick) {
        i
    } else {
        nick_index_from(cs, nick, i + 1)
    }
}

/// Whether a client other than `id` goes by `nick`.
pub open spec fn nick_taken(s: StateView, id: ConnectionId, nick: Seq<char>) -> bool {
    exists|i: int| 0 <= i < s.clients.len() && s.clients[i].id != id && s.clients[i].nick == Some(nick)
}

pub open spec fn nick_or_star(c: ClientView) -> Seq<char> {
    match c.nick {
        Some(n) => n,
        None => "*"@,
    }
}

/// The nick of the client, or `*` where it has none or there is no such client.
pub open spec fn nick_in(s: StateView, id: ConnectionId) -> Seq<char> {
    if has_client(s, id) {
        nick_or_star(client_of(s, id))
    } else {
        "*"@
    }
}

/// `nick!user@localhost`, with `*` and `unknown` for what the client has not given.
pub open spec fn prefix_of(c: ClientView) -> Seq<char> {
    let user = match c.user {
        Some(u) => u,
        None => "unknown"@,
    };
    nick_or_star(c) + "!"@ + user + "@localhost"@
}

pub open spec fn registered_in(s: StateView, id: ConnectionId) -> bool {
    has_client(s, id) && client_of(s, id).registered
}

// ---------------------------------------------------------------------------
// Building lines
// ---------------------------------------------------------------------------
pub open spec fn reply_out(target: ConnectionId, m: MessageView) -> Out {
    (target, protocol::spec_serialize(m))
}

/// A numeric reply from the server: `:server CODE nick params...`.
pub open spec fn numeric_out(
    server: Seq<char>,
    target: ConnectionId,
    nick: Seq<char>,
    code: Seq<char>,
    params: Seq<Seq<char>>,
) -> Out {
    reply_out(target, MessageView { prefix: Some(server), command: code, params: seq![nick] + params })
}

/// The same line to each of the targets, in order.
pub open spec fn broadcast(targets: Seq<ConnectionId>, line: Seq<char>) -> Seq<Out> {
    targets.map_values(|t: ConnectionId| (t, line))
}

/// The line `:prefix COMMAND param`.
pub open spec fn event_line(prefix: Seq<char>, command: Seq<char>, param: Seq<char>) -> Seq<char> {
    protocol::spec_serialize(MessageView { prefix: Some(prefix), command, params: seq![param] })
}

// ---------------------------------------------------------------------------
// Small updates
// ---------------------------------------------------------------------------
pub open spec fn with_client(s: StateView, i: int, c: ClientView) -> StateView {
    StateView { clients: s.clients.update(i, c), ..s }
}

pub open spec fn with_channels(s: StateView, chs: Seq<ChannelView>) -> StateView {
    StateView { channels: chs, ..s }
}

pub open spec fn insert_new<A>(xs: Seq<A>, x: A) -> Seq<A> {
    if xs.contains(x) {
        xs
    } else {
        xs.push(x)
    }
}

pub open spec fn remove_id(ms: Seq<ConnectionId>, id: ConnectionId) -> Seq<ConnectionId> {
    ms.filter(|m: ConnectionId| m != id)
}

pub open spec fn remove_name(ns: Seq<Seq<char>>, name: Seq<char>) -> Seq<Seq<char>> {
    ns.filter(|n: Seq<char>| n != name)
}

/// The channels with the channel at `k` given the members `ms`, or dropped when `ms` is
/// empty.
pub open spec fn set_members(chs: Seq<ChannelView>, k: int, ms: Seq<ConnectionId>) -> Seq<
    ChannelView,
> {
    if ms.len() == 0 {
        chs.remove(k)
    } else {
        chs.update(k, ChannelView { name: chs[k].name, members: ms })
    }
}

// ---------------------------------------------------------------------------
// Registration
// ---------------------------------------------------------------------------
/// A client that has given a nick and a user, is not negotiating capabilities, and is
/// not registered yet.
pub open spec fn ready_to_register(c: ClientView) -> bool {
    !c.registered && c.nick is Some && c.user is Some && !c.cap_active
}

/// The welcome numerics 001 to 004.
pub open spec fn welcome(server: Seq<char>, id: ConnectionId, nick: Seq<char>) -> Seq<Out> {
    seq![
        numeric_out(server, id, nick, "001"@, seq!["Welcome to ClankyIRCd, "@ + nick]),
        numeric_out(server, id, nick, "002"@, seq!["Your host is "@ + server]),
        numeric_out(server, id, nick, "003"@, seq!["This server was created today"@]),
        numeric_out(
            server,
            id,
            nick,
            "004"@,
            seq![server, "clankircd-0.1"@, "ao"@, "mtov"@],
        ),
    ]
}

/// Registers the client once it is ready, and welcomes it.
pub open spec fn complete_registration(s: StateView, id: ConnectionId) -> (StateView, Seq<Out>) {
    if has_client(s, id) && ready_to_register(client_of(s, id)) {
        let i = find_client(s, id);
        let c = s.clients[i];
        (
            with_client(s, i, ClientView { registered: true, ..c }),
            welcome(s.server_name, id, c.nick->0),
        )
    } else {
        (s, Seq::empty())
    }
}

// ---------------------------------------------------------------------------
// Commands
// ---------------------------------------------------------------------------
/// `CAP LS` lists the one capability; `CAP END` ends negotiation.
pub open spec fn cap_step(s: StateView, id: ConnectionId, params: Seq<Seq<char>>) -> (
    StateView,
    Seq<Out>,
) {
    if params.len() == 0 {
        (s, Seq::empty())
    } else if text::upper(params[0]) == "LS"@ {
        (
            s,
            seq![
                reply_out(
                    id,
                    MessageView {
                        prefix: Some(s.server_name),
                        command: "CAP"@,
                        params: seq![nick_in(s, id), "LS"@, "multi-prefix"@],
                    },
                ),
            ],
        )
    } else if text::upper(params[0]) == "END"@ {
        let s1 = if has_client(s, id) {
            let i = find_client(s, id);
            with_client(s, i, ClientView { cap_active: false, ..s.clients[i] })
        } else {
            s
        };
        complete_registration(s1, id)
    } else {
        (s, Seq::empty())
    }
}

/// The connections not yet in `acc` nor equal to `skip`, among `ms`, added in order.
pub open spec fn add_new(acc: Seq<ConnectionId>, ms: Seq<ConnectionId>, skip: ConnectionId) -> Seq<
    ConnectionId,
>
    decreases ms.len(),
{
    if ms.len() == 0 {
        acc
    } else {
        let a = add_new(acc, ms.drop_last(), skip);
        let m = ms.last();
        if m == skip || a.contains(m) {
            a
        } else {
            a.push(m)
        }
    }
}

/// The members of the channels, each once, other than `skip`.
pub open spec fn peers_through(s: StateView, chans: Seq<Seq<char>>, skip: ConnectionId) -> Seq<
    ConnectionId,
>
    decreases chans.len(),
{
    if chans.len() == 0 {
        Seq::empty()
    } else {
        add_new(peers_through(s, chans.drop_last(), skip), members_of(s, chans.last()), skip)
    }
}

/// The other clients that share a channel with the client.
pub open spec fn visible_peers(s: StateView, id: ConnectionId) -> Seq<ConnectionId> {
    if has_client(s, id) {
        peers_through(s, client_of(s, id).joined, id)
    } else {
        Seq::empty()
    }
}

/// `NICK nick`: refused when none is given or another client has it; otherwise the client
/// takes it, its peers hear of the change if it had a nick before, and it may register.
pub open spec fn nick_step(s: StateView, id: ConnectionId, params: Seq<Seq<char>>) -> (
    StateView,
    Seq<Out>,
) {
    if params.len() == 0 {
        (s, seq![numeric_out(s.server_name, id, nick_in(s, id), "431"@, seq!["No nickname given"@])])
    } else if nick_taken(s, id, params[0]) {
        (
            s,
            seq![
                numeric_out(
                    s.server_name,
                    id,
                    nick_in(s, id),
                    "433"@,
                    seq![params[0], "Nickname is already in use"@],
                ),
            ],
        )
    } else if has_client(s, id) {
        let nick = params[0];
        let i = find_client(s, id);
        let c = s.clients[i];
        let s1 = with_client(s, i, ClientView { nick: Some(nick), ..c });
        let announce = if c.nick is Some {
            broadcast(visible_peers(s1, id), event_line(prefix_of(c), "NICK"@, nick))
        } else {
            Seq::empty()
        };
        let (s2, w) = complete_registration(s1, id);
        (s2, announce + w)
    } else {
        (s, Seq::empty())
    }
}

/// `USER user mode unused :real name`: needs four parameters; records the user and the
/// real name, and the client may register.
pub open spec fn user_step(s: StateView, id: ConnectionId, params: Seq<Seq<char>>) -> (
    StateView,
    Seq<Out>,
) {
    if params.len() < 4 {
        (
            s,
            seq![
                numeric_out(
                    s.server_name,
                    id,
                    nick_in(s, id),
                    "461"@,
                    seq!["USER"@, "Not enough parameters"@],
                ),
            ],
        )
    } else {
        let s1 = if has_client(s, id) {
            let i = find_client(s, id);
            with_client(
                s,
                i,
                ClientView { user: Some(params[0]), real_name: Some(params[3]), ..s.clients[i] },
            )
        } else {
            s
        };
        complete_registration(s1, id)
    }
}

/// The channel names of a `JOIN` parameter: its comma-separated parts that begin with `#`.
pub open spec fn join_targets(raw: Seq<char>) -> Seq<Seq<char>> {
    text::split_on(raw, ',').filter(|c: Seq<char>| c.len() > 0 && c[0] == '#')
}

/// The channels with `id` added to the named channel, which is created when missing.
pub open spec fn add_member(chs: Seq<ChannelView>, name: Seq<char>, id: ConnectionId) -> Seq<
    ChannelView,
> {
    let k = channel_index_from(chs, name, 0);
    if k >= 0 {
        chs.update(k, ChannelView { name: chs[k].name, members: insert_new(chs[k].members, id) })
    } else {
        chs.push(ChannelView { name, members: seq![id] })
    }
}

/// The nicks of the members that have one, in order.
pub open spec fn member_nicks(s: StateView, ms: Seq<ConnectionId>) -> Seq<Seq<char>>
    decreases ms.len(),
{
    if ms.len() == 0 {
        Seq::empty()
    } else {
        let r = member_nicks(s, ms.drop_last());
        let m = ms.last();
        if has_client(s, m) && client_of(s, m).nick is Some {
            r.push(client_of(s, m).nick->0)
        } else {
            r
        }
    }
}

/// The words joined with single spaces.
pub open spec fn join_words(ws: Seq<Seq<char>>) -> Seq<char>
    decreases ws.len(),
{
    if ws.len() == 0 {
        Seq::empty()
    } else if ws.len() == 1 {
        ws[0]
    } else {
        join_words(ws.drop_last()) + seq![' '] + ws.last()
    }
}

/// The client joins one channel: every member (the client too) sees the `JOIN`, and the
/// client gets the names list (353) and its end (366).
pub open spec fn join_one(s: StateView, id: ConnectionId, name: Seq<char>) -> (StateView, Seq<Out>) {
    let i = find_client(s, id);
    let c = s.clients[i];
    let s1 = with_client(
        with_channels(s, add_member(s.channels, name, id)),
        i,
        ClientView { joined: insert_new(c.joined, name), ..c },
    );
    let members = members_of(s1, name);
    (
        s1,
        broadcast(members, event_line(prefix_of(c), "JOIN"@, name)) + seq![
            numeric_out(
                s1.server_name,
                id,
                nick_in(s1, id),
                "353"@,
                seq!["="@, name, join_words(member_nicks(s1, members))],
            ),
            numeric_out(s1.server_name, id, nick_in(s1, id), "366"@, seq![name, "End of /NAMES list"@]),
        ],
    )
}

/// The client joins the channels in order.
pub open spec fn join_all(s: StateView, id: ConnectionId, names: Seq<Seq<char>>) -> (
    StateView,
    Seq<Out>,
)
    decreases names.len(),
{
    if names.len() == 0 {
        (s, Seq::empty())
    } else {
        let (s1, o1) = join_all(s, id, names.drop_last());
        let (s2, o2) = join_one(s1, id, names.last());
        (s2, o1 + o2)
    }
}

/// `JOIN #a,#b`: refused before registration; otherwise joins each named channel.
pub open spec fn join_step(s: StateView, id: ConnectionId, params: Seq<Seq<char>>) -> (
    StateView,
    Seq<Out>,
) {
    if !registered_in(s, id) {
        (
            s,
            seq![numeric_out(s.server_name, id, nick_in(s, id), "451"@, seq!["You have not registered"@])],
        )
    } else if params.len() == 0 {
        (s, Seq::empty())
    } else {
        join_all(s, id, join_targets(params[0]))
    }
}

/// `PART #chan`: every member of the channel sees the `PART`; the client leaves it, and
/// the channel goes away once empty.
pub open spec fn part_step(s: StateView, id: ConnectionId, params: Seq<Seq<char>>) -> (
    StateView,
    Seq<Out>,
) {
    if params.len() == 0 {
        (s, Seq::empty())
    } else {
        let name = params[0];
        let (s1, outs) = if has_channel(s, name) {
            let k = find_channel(s, name);
            let ms = s.channels[k].members;
            (
                with_channels(s, set_members(s.channels, k, remove_id(ms, id))),
                broadcast(ms, event_line(prefix_of(client_of(s, id)), "PART"@, name)),
            )
        } else {
            (s, Seq::empty())
        };
        let s2 = if has_client(s1, id) {
            let i = find_client(s1, id);
            with_client(
                s1,
                i,
                ClientView { joined: remove_name(s1.clients[i].joined, name), ..s1.clients[i] },
            )
        } else {
            s1
        };
        (s2, outs)
    }
}

/// `PRIVMSG`/`NOTICE target :text`: to a channel, every member but the sender gets it;
/// to a nick, the client with that nick gets it.
pub open spec fn privmsg_outs(s: StateView, id: ConnectionId, params: Seq<Seq<char>>, is_notice: bool) -> Seq<
    Out,
> {
    if params.len() < 2 {
        Seq::empty()
    } else {
        let target = params[0];
        let line = protocol::spec_serialize(
            MessageView {
                prefix: Some(prefix_of(client_of(s, id))),
                command: if is_notice {
                    "NOTICE"@
                } else {
                    "PRIVMSG"@
                },
                params: seq![target, params[1]],
            },
        );
        if target.len() > 0 && target[0] == '#' {
            broadcast(remove_id(members_of(s, target), id), line)
        } else {
            let k = nick_index_from(s.clients, target, 0);
            if k >= 0 {
                seq![(s.clients[k].id, line)]
            } else {
                Seq::empty()
            }
        }
    }
}

/// The client leaves one channel as it quits: the remaining members see the line.
pub open spec fn leave_one(s: StateView, id: ConnectionId, name: Seq<char>, line: Seq<char>) -> (
    StateView,
    Seq<Out>,
) {
    if has_channel(s, name) {
        let k = find_channel(s, name);
        let rest = remove_id(s.channels[k].members, id);
        (with_channels(s, set_members(s.channels, k, rest)), broadcast(rest, line))
    } else {
        (s, Seq::empty())
    }
}

pub open spec fn leave_all(s: StateView, id: ConnectionId, names: Seq<Seq<char>>, line: Seq<char>) -> (
    StateView,
    Seq<Out>,
)
    decreases names.len(),
{
    if names.len() == 0 {
        (s, Seq::empty())
    } else {
        let (s1, o1) = leave_all(s, id, names.drop_last(), line);
        let (s2, o2) = leave_one(s1, id, names.last(), line);
        (s2, o1 + o2)
    }
}

/// The client is removed; the other members of each channel it joined see its `QUIT`.
pub open spec fn quit_step(s: StateView, id: ConnectionId, reason: Seq<char>) -> (
    StateView,
    Seq<Out>,
) {
    if !has_client(s, id) {
        (s, Seq::empty())
    } else {
        let i = find_client(s, id);
        let c = s.clients[i];
        let s1 = StateView { clients: s.clients.remove(i), ..s };
        leave_all(s1, id, c.joined, event_line(prefix_of(c), "QUIT"@, reason))
    }
}

/// What one parsed message does.
pub open spec fn dispatch(s: StateView, id: ConnectionId, m: MessageView) -> (StateView, Seq<Out>) {
    let cmd = m.command;
    let ps = m.params;
    if cmd == "CAP"@ {
        cap_step(s, id, ps)
    } else if cmd == "PASS"@ {
        (s, Seq::empty())
    } else if cmd == "NICK"@ {
        nick_step(s, id, ps)
    } else if cmd == "USER"@ {
        user_step(s, id, ps)
    } else if cmd == "JOIN"@ {
        join_step(s, id, ps)
    } else if cmd == "PART"@ {
        part_step(s, id, ps)
    } else if cmd == "PRIVMSG"@ {
        (s, privmsg_outs(s, id, ps, false))
    } else if cmd == "NOTICE"@ {
        (s, privmsg_outs(s, id, ps, true))
    } else if cmd == "QUIT"@ {
        quit_step(
            s,
            id,
            if ps.len() > 0 {
                ps[0]
            } else {
                "Client quit"@
            },
        )
    } else if cmd == "PING"@ {
        (s, seq![reply_out(id, MessageView { prefix: None, command: "PONG"@, params: ps })])
    } else {
        (s, seq![numeric_out(s.server_name, id, nick_in(s, id), "421"@, seq![cmd, "Unknown command"@])])
    }
}

/// What one received line does: nothing when it is not a message.
pub open spec fn line_step(s: StateView, id: ConnectionId, line: Seq<char>) -> (StateView, Seq<Out>) {
    match protocol::spec_parse(line) {
        Some(m) => dispatch(s, id, m),
        None => (s, Seq::empty()),
    }
}

/// Whether handling the line needs the connection to be a known client: a `PRIVMSG` or
/// `NOTICE` with a target and a text, or a `PART` of an existing channel, names its sender.
pub open spec fn line_needs_client(s: StateView, line: Seq<char>) -> bool {
    match protocol::spec_parse(line) {
        Some(m) => {
            ||| ((m.command == "PRIVMSG"@ || m.command == "NOTICE"@) && m.params.len() >= 2)
            ||| (m.command == "PART"@ && m.params.len() >= 1 && has_channel(s, m.params[0]))
        },
        None => false,
    }
}

// ---------------------------------------------------------------------------
// The invariant
// ---------------------------------------------------------------------------
/// Whether a channel with the given name counts `m` among its members.
pub open spec fn is_member(s: StateView, m: ConnectionId, name: Seq<char>) -> bool {
    exists|k: int| 0 <= k < s.channels.len() && s.channels[k].name == name && s.channels[k].members.contains(m)
}

/// Whether the client `m` has the given channel among those it joined.
pub open spec fn has_joined(s: StateView, m: ConnectionId, name: Seq<char>) -> bool {
    exists|i: int| 0 <= i < s.clients.len() && s.clients[i].id == m && s.clients[i].joined.contains(name)
}

/// The parts of the invariant that do not relate clients to channels: distinct client
/// ids, each below the next id to be given; distinct channel names; distinct nicks;
/// channels with members, each once; joined channels, each once.
pub open spec fn wf_shape(s: StateView) -> bool {
    &&& forall|i: int, j: int|
        0 <= i < s.clients.len() && 0 <= j < s.clients.len() && i != j ==> s.clients[i].id
            != s.clients[j].id
    &&& forall|i: int| 0 <= i < s.clients.len() ==> s.clients[i].id < s.next_id
    &&& forall|i: int, j: int|
        0 <= i < s.channels.len() && 0 <= j < s.channels.len() && i != j ==> s.channels[i].name
            != s.channels[j].name
    &&& forall|i: int, j: int|
        0 <= i < s.clients.len() && 0 <= j < s.clients.len() && i != j && s.clients[i].nick is Some
            ==> s.clients[i].nick != s.clients[j].nick
    &&& forall|k: int|
        0 <= k < s.channels.len() ==> s.channels[k].members.len() > 0
            && s.channels[k].members.no_duplicates()
    &&& forall|i: int| 0 <= i < s.clients.len() ==> s.clients[i].joined.no_duplicates()
}

/// The invariant of the server state: `wf_shape`, and a client is a member of a channel
/// exactly when the channel is among those the client joined.
pub open spec fn wf(s: StateView) -> bool {
    &&& wf_shape(s)
    &&& forall|m: ConnectionId, name: Seq<char>|
        #![trigger is_member(s, m, name)]
        #![trigger has_joined(s, m, name)]
        is_member(s, m, name) <==> has_joined(s, m, name)
}

} // verus!
