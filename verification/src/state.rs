//! The server's state and the handlers of each command, each proved to do what
//! `model` says of it.

use vstd::prelude::*;

use crate::model;
use crate::model::{ChannelView, ClientView, ConnectionId, OutboundMessage, StateView};
use crate::protocol;
use crate::protocol::Message;
use crate::text;
use crate::text::{owned, push_text, same_text, split_string, starts_with_char, upper_string};

verus! {

/// One connected client.
pub struct ClientSession {
    pub id: ConnectionId,
    pub nick: Option<String>,
    pub user: Option<String>,
    pub real_name: Option<String>,
    pub cap_active: bool,
    pub registered: bool,
    pub joined_channels: Vec<String>,
}

impl View for ClientSession {
    type V = ClientView;

    open spec fn view(&self) -> ClientView {
        ClientView {
            id: self.id,
            nick: text::opt_view(self.nick),
            user: text::opt_view(self.user),
            real_name: text::opt_view(self.real_name),
            cap_active: self.cap_active,
            registered: self.registered,
            joined: text::strings_view(self.joined_channels@),
        }
    }
}

/// One channel and its members.
pub struct Channel {
    pub name: String,
    pub members: Vec<ConnectionId>,
}

impl View for Channel {
    type V = ChannelView;

    open spec fn view(&self) -> ChannelView {
        ChannelView { name: self.name@, members: self.members@ }
    }
}

/// Everything the server knows of its clients and channels.
pub struct ServerState {
    pub server_name: String,
    pub next_connection_id: ConnectionId,
    pub clients: Vec<ClientSession>,
    pub channels: Vec<Channel>,
}

pub open spec fn clients_view(cs: Seq<ClientSession>) -> Seq<ClientView> {
    cs.map_values(|c: ClientSession| c@)
}

pub open spec fn channels_view(chs: Seq<Channel>) -> Seq<ChannelView> {
    chs.map_values(|c: Channel| c@)
}

impl View for ServerState {
    type V = StateView;

    open spec fn view(&self) -> StateView {
        StateView {
            server_name: self.server_name@,
            next_id: self.next_connection_id,
            clients: clients_view(self.clients@),
            channels: channels_view(self.channels@),
        }
    }
}

// ---------------------------------------------------------------------------
// Facts about lookups
// ---------------------------------------------------------------------------
pub proof fn lemma_client_index_bounds(cs: Seq<ClientView>, id: ConnectionId, i: int)
    requires
        0 <= i,
    ensures
        model::client_index_from(cs, id, i) == -1 || (i <= model::client_index_from(cs, id, i)
            < cs.len() && cs[model::client_index_from(cs, id, i)].id == id),
        model::client_index_from(cs, id, i) == -1 ==> forall|k: int|
            i <= k < cs.len() ==> cs[k].id != id,
    decreases cs.len() - i,
{
    if i < cs.len() && cs[i].id != id {
        lemma_client_index_bounds(cs, id, i + 1);
    }
}

/// Changing clients without changing their ids keeps every client where it was.
pub proof fn lemma_client_index_same_ids(a: Seq<ClientView>, b: Seq<ClientView>, id: ConnectionId, i: int)
    requires
        a.len() == b.len(),
        forall|k: int| 0 <= k < a.len() ==> a[k].id == b[k].id,
    ensures
        model::client_index_from(a, id, i) == model::client_index_from(b, id, i),
    decreases a.len() - i,
{
    if 0 <= i < a.len() && a[i].id != id {
        lemma_client_index_same_ids(a, b, id, i + 1);
    }
}

pub proof fn lemma_channel_index_bounds(chs: Seq<ChannelView>, name: Seq<char>, i: int)
    requires
        0 <= i,
    ensures
        model::channel_index_from(chs, name, i) == -1 || (i <= model::channel_index_from(
            chs,
            name,
            i,
        ) < chs.len() && chs[model::channel_index_from(chs, name, i)].name == name),
        model::channel_index_from(chs, name, i) == -1 ==> forall|k: int|
            i <= k < chs.len() ==> chs[k].name != name,
    decreases chs.len() - i,
{
    if i < chs.len() && chs[i].name != name {
        lemma_channel_index_bounds(chs, name, i + 1);
    }
}


pub proof fn lemma_outs_concat(a: Seq<OutboundMessage>, b: Seq<OutboundMessage>)
    ensures
        model::outs_view(a + b) == model::outs_view(a) + model::outs_view(b),
{
    assert(model::outs_view(a + b) =~= model::outs_view(a) + model::outs_view(b));
}

// ---------------------------------------------------------------------------
// Lookups
// ---------------------------------------------------------------------------
/// The position of the client with the given id.
pub fn client_pos(state: &ServerState, connection_id: ConnectionId) -> (r: Option<usize>)
    ensures
        match r {
            Some(i) => i as int == model::find_client(state@, connection_id) && i < state.clients.len(),
            None => model::find_client(state@, connection_id) == -1,
        },
{
    let mut k: usize = 0;
    while k < state.clients.len()
        invariant
            k <= state.clients.len(),
            model::find_client(state@, connection_id) == model::client_index_from(
                state@.clients,
                connection_id,
                k as int,
            ),
        decreases state.clients.len() - k,
    {
        if state.clients[k].id == connection_id {
            return Some(k);
        }
        k = k + 1;
    }
    None
}

/// The position of the channel with the given name.
pub fn channel_pos(state: &ServerState, name: &String) -> (r: Option<usize>)
    ensures
        match r {
            Some(k) => k as int == model::find_channel(state@, name@) && k < state.channels.len(),
            None => model::find_channel(state@, name@) == -1,
        },
{
    let mut k: usize = 0;
    while k < state.channels.len()
        invariant
            k <= state.channels.len(),
            model::find_channel(state@, name@) == model::channel_index_from(
                state@.channels,
                name@,
                k as int,
            ),
        decreases state.channels.len() - k,
    {
        if state.channels[k].name == *name {
            return Some(k);
        }
        k = k + 1;
    }
    None
}

/// Whether the client has registered.
pub fn is_registered(state: &ServerState, connection_id: ConnectionId) -> (r: bool)
    ensures
        r == model::registered_in(state@, connection_id),
{
    match client_pos(state, connection_id) {
        Some(i) => state.clients[i].registered,
        None => false,
    }
}

/// The client's nick, or `*`.
pub fn client_nick(state: &ServerState, connection_id: ConnectionId) -> (r: String)
    ensures
        r@ == model::nick_in(state@, connection_id),
{
    match client_pos(state, connection_id) {
        Some(i) => match &state.clients[i].nick {
            Some(n) => n.clone(),
            None => owned("*"),
        },
        None => owned("*"),
    }
}

/// `nick!user@localhost` for the client.
pub fn client_prefix(client: &ClientSession) -> (r: String)
    ensures
        r@ == model::prefix_of(client@),
{
    let mut out = match &client.nick {
        Some(n) => n.clone(),
        None => owned("*"),
    };
    push_text(&mut out, "!");
    match &client.user {
        Some(u) => push_text(&mut out, u.as_str()),
        None => push_text(&mut out, "unknown"),
    }
    push_text(&mut out, "@localhost");
    out
}

// ---------------------------------------------------------------------------
// Building lines
// ---------------------------------------------------------------------------
/// The line of the message, to one connection.
pub fn reply(target: ConnectionId, message: Message) -> (r: OutboundMessage)
    ensures
        r@ == model::reply_out(target, message@),
{
    OutboundMessage { target, line: message.serialize() }
}

/// A numeric reply from the server to the client.
pub fn numeric(server_name: &str, target: ConnectionId, nick: &str, code: &str, params: Vec<String>) -> (r:
    OutboundMessage)
    ensures
        r@ == model::numeric_out(
            server_name@,
            target,
            nick@,
            code@,
            text::strings_view(params@),
        ),
{
    let mut full_params: Vec<String> = Vec::new();
    full_params.push(owned(nick));
    let mut k: usize = 0;
    while k < params.len()
        invariant
            k <= params.len(),
            text::strings_view(full_params@) == seq![nick@] + text::strings_view(params@).take(
                k as int,
            ),
        decreases params.len() - k,
    {
        let ghost before = full_params@;
        let p = params[k].clone();
        full_params.push(p);
        assert(full_params@ == before.push(p));
        assert(text::strings_view(full_params@) =~= text::strings_view(before).push(p@));
        assert(text::strings_view(params@).take(k + 1) =~= text::strings_view(params@).take(
            k as int,
        ).push(p@));
        k = k + 1;
        assert(text::strings_view(full_params@) =~= seq![nick@] + text::strings_view(params@).take(
            k as int,
        ));
    }
    assert(text::strings_view(params@).take(params.len() as int) =~= text::strings_view(params@));
    reply(target, Message { prefix: Some(owned(server_name)), command: owned(code), params: full_params })
}

/// The same line to each of the targets, in order.
pub fn broadcast(targets: &Vec<ConnectionId>, line: &String) -> (r: Vec<OutboundMessage>)
    ensures
        model::outs_view(r@) == model::broadcast(targets@, line@),
{
    let mut out: Vec<OutboundMessage> = Vec::new();
    let mut k: usize = 0;
    while k < targets.len()
        invariant
            k <= targets.len(),
            model::outs_view(out@) == model::broadcast(targets@.take(k as int), line@),
        decreases targets.len() - k,
    {
        let ghost before = out@;
        let o = OutboundMessage { target: targets[k], line: line.clone() };
        out.push(o);
        assert(out@ == before.push(o));
        assert(model::outs_view(out@) =~= model::outs_view(before).push(o@));
        assert(targets@.take(k + 1) =~= targets@.take(k as int).push(targets@[k as int]));
        k = k + 1;
        assert(model::outs_view(out@) =~= model::broadcast(targets@.take(k as int), line@));
    }
    assert(targets@.take(targets.len() as int) =~= targets@);
    out
}

/// The line `:prefix COMMAND param`.
pub fn event_line(prefix: String, command: &str, param: String) -> (r: String)
    ensures
        r@ == model::event_line(prefix@, command@, param@),
{
    let mut params: Vec<String> = Vec::new();
    params.push(param);
    let m = Message { prefix: Some(prefix), command: owned(command), params };
    assert(m@.params =~= seq![param@]);
    m.serialize()
}

/// Appends `more` to `outs`.
pub fn extend(outs: &mut Vec<OutboundMessage>, more: Vec<OutboundMessage>)
    ensures
        model::outs_view(final(outs)@) == model::outs_view(old(outs)@) + model::outs_view(more@),
{
    let mut more = more;
    let ghost m = more@;
    outs.append(&mut more);
    proof {
        lemma_outs_concat(old(outs)@, m);
    }
}

// ---------------------------------------------------------------------------
// Small updates
// ---------------------------------------------------------------------------

fn set_client_nick(state: &mut ServerState, i: usize, nick: String)
    requires
        i < old(state).clients.len(),
    ensures
        final(state)@ == model::with_client(
            old(state)@,
            i as int,
            ClientView { nick: Some(nick@), ..old(state)@.clients[i as int] },
        ),
{
    state.clients[i].nick = Some(nick);
    proof {
        assert(clients_view(state.clients@) =~= old(state)@.clients.update(
            i as int,
            ClientView { nick: Some(nick@), ..old(state)@.clients[i as int] },
        ));
        assert(state@ =~= model::with_client(
            old(state)@,
            i as int,
            ClientView { nick: Some(nick@), ..old(state)@.clients[i as int] },
        ));
    }
}

fn set_client_user(state: &mut ServerState, i: usize, user: String, real_name: String)
    requires
        i < old(state).clients.len(),
    ensures
        final(state)@ == model::with_client(
            old(state)@,
            i as int,
            ClientView {
                user: Some(user@),
                real_name: Some(real_name@),
                ..old(state)@.clients[i as int]
            },
        ),
{
    state.clients[i].user = Some(user);
    state.clients[i].real_name = Some(real_name);
    proof {
        let c = ClientView {
            user: Some(user@),
            real_name: Some(real_name@),
            ..old(state)@.clients[i as int]
        };
        assert(clients_view(state.clients@) =~= old(state)@.clients.update(i as int, c));
        assert(state@ =~= model::with_client(old(state)@, i as int, c));
    }
}

fn clear_cap(state: &mut ServerState, i: usize)
    requires
        i < old(state).clients.len(),
    ensures
        final(state)@ == model::with_client(
            old(state)@,
            i as int,
            ClientView { cap_active: false, ..old(state)@.clients[i as int] },
        ),
{
    state.clients[i].cap_active = false;
    proof {
        let c = ClientView { cap_active: false, ..old(state)@.clients[i as int] };
        assert(clients_view(state.clients@) =~= old(state)@.clients.update(i as int, c));
        assert(state@ =~= model::with_client(old(state)@, i as int, c));
    }
}

fn mark_registered(state: &mut ServerState, i: usize)
    requires
        i < old(state).clients.len(),
    ensures
        final(state)@ == model::with_client(
            old(state)@,
            i as int,
            ClientView { registered: true, ..old(state)@.clients[i as int] },
        ),
{
    state.clients[i].registered = true;
    proof {
        let c = ClientView { registered: true, ..old(state)@.clients[i as int] };
        assert(clients_view(state.clients@) =~= old(state)@.clients.update(i as int, c));
        assert(state@ =~= model::with_client(old(state)@, i as int, c));
    }
}

/// Whether the names hold `name`.
fn contains_name(names: &Vec<String>, name: &String) -> (r: bool)
    ensures
        r == text::strings_view(names@).contains(name@),
{
    let mut k: usize = 0;
    while k < names.len()
        invariant
            k <= names.len(),
            forall|j: int| 0 <= j < k ==> names@[j]@ != name@,
        decreases names.len() - k,
    {
        if names[k] == *name {
            assert(text::strings_view(names@)[k as int] == name@);
            return true;
        }
        k = k + 1;
    }
    proof {
        if text::strings_view(names@).contains(name@) {
            let j = choose|j: int|
                0 <= j < text::strings_view(names@).len() && text::strings_view(names@)[j]
                    == name@;
            assert(names@[j]@ == name@);
        }
    }
    false
}

/// Whether the ids hold `id`.
fn contains_id(ids: &Vec<ConnectionId>, id: ConnectionId) -> (r: bool)
    ensures
        r == ids@.contains(id),
{
    let mut k: usize = 0;
    while k < ids.len()
        invariant
            k <= ids.len(),
            forall|j: int| 0 <= j < k ==> ids@[j] != id,
        decreases ids.len() - k,
    {
        if ids[k] == id {
            assert(ids@[k as int] == id);
            return true;
        }
        k = k + 1;
    }
    false
}

fn add_joined(state: &mut ServerState, i: usize, name: &String)
    requires
        i < old(state).clients.len(),
    ensures
        final(state)@ == model::with_client(
            old(state)@,
            i as int,
            ClientView {
                joined: model::insert_new(old(state)@.clients[i as int].joined, name@),
                ..old(state)@.clients[i as int]
            },
        ),
{
    let present = contains_name(&state.clients[i].joined_channels, name);
    if !present {
        let ghost before = state.clients[i as int].joined_channels@;
        state.clients[i].joined_channels.push(name.clone());
        assert(text::strings_view(state.clients[i as int].joined_channels@) =~= text::strings_view(
            before,
        ).push(name@));
    }
    proof {
        let c = ClientView {
            joined: model::insert_new(old(state)@.clients[i as int].joined, name@),
            ..old(state)@.clients[i as int]
        };
        assert(clients_view(state.clients@) =~= old(state)@.clients.update(i as int, c));
        assert(state@ =~= model::with_client(old(state)@, i as int, c));
    }
}

/// The names other than `name`, in order.
fn without_name(names: &Vec<String>, name: &String) -> (r: Vec<String>)
    ensures
        text::strings_view(r@) == model::remove_name(text::strings_view(names@), name@),
{
    let mut out: Vec<String> = Vec::new();
    let mut k: usize = 0;
    while k < names.len()
        invariant
            k <= names.len(),
            text::strings_view(out@) == model::remove_name(
                text::strings_view(names@).take(k as int),
                name@,
            ),
        decreases names.len() - k,
    {
        let ghost before = out@;
        proof {
            reveal(Seq::filter);
        }
        let ghost t1 = text::strings_view(names@).take(k + 1);
        assert(t1.drop_last() =~= text::strings_view(names@).take(k as int));
        assert(t1.last() == names@[k as int]@);
        assert(model::remove_name(t1, name@) == (if names@[k as int]@ != name@ {
            model::remove_name(text::strings_view(names@).take(k as int), name@).push(names@[k as int]@)
        } else {
            model::remove_name(text::strings_view(names@).take(k as int), name@)
        }));
        if names[k] != *name {
            let n = names[k].clone();
            out.push(n);
            assert(text::strings_view(out@) =~= text::strings_view(before).push(n@));
        }
        k = k + 1;
    }
    assert(text::strings_view(names@).take(names.len() as int) =~= text::strings_view(names@));
    out
}

fn remove_joined(state: &mut ServerState, i: usize, name: &String)
    requires
        i < old(state).clients.len(),
    ensures
        final(state)@ == model::with_client(
            old(state)@,
            i as int,
            ClientView {
                joined: model::remove_name(old(state)@.clients[i as int].joined, name@),
                ..old(state)@.clients[i as int]
            },
        ),
{
    let kept = without_name(&state.clients[i].joined_channels, name);
    state.clients[i].joined_channels = kept;
    proof {
        let c = ClientView {
            joined: model::remove_name(old(state)@.clients[i as int].joined, name@),
            ..old(state)@.clients[i as int]
        };
        assert(clients_view(state.clients@) =~= old(state)@.clients.update(i as int, c));
        assert(state@ =~= model::with_client(old(state)@, i as int, c));
    }
}

/// The ids other than `id`, in order.
fn without_id(ids: &Vec<ConnectionId>, id: ConnectionId) -> (r: Vec<ConnectionId>)
    ensures
        r@ == model::remove_id(ids@, id),
{
    let mut out: Vec<ConnectionId> = Vec::new();
    let mut k: usize = 0;
    while k < ids.len()
        invariant
            k <= ids.len(),
            out@ == model::remove_id(ids@.take(k as int), id),
        decreases ids.len() - k,
    {
        proof {
            reveal(Seq::filter);
        }
        let ghost t1 = ids@.take(k + 1);
        assert(t1.drop_last() =~= ids@.take(k as int));
        assert(t1.last() == ids@[k as int]);
        assert(model::remove_id(t1, id) == (if ids@[k as int] != id {
            model::remove_id(ids@.take(k as int), id).push(ids@[k as int])
        } else {
            model::remove_id(ids@.take(k as int), id)
        }));
        if ids[k] != id {
            out.push(ids[k]);
        }
        k = k + 1;
    }
    assert(ids@.take(ids.len() as int) =~= ids@);
    out
}

/// A copy of the ids.
fn copy_ids(ids: &Vec<ConnectionId>) -> (r: Vec<ConnectionId>)
    ensures
        r@ == ids@,
{
    let mut out: Vec<ConnectionId> = Vec::new();
    let mut k: usize = 0;
    while k < ids.len()
        invariant
            k <= ids.len(),
            out@ == ids@.take(k as int),
        decreases ids.len() - k,
    {
        out.push(ids[k]);
        k = k + 1;
        assert(out@ =~= ids@.take(k as int));
    }
    assert(ids@.take(ids.len() as int) =~= ids@);
    out
}

/// The channel at `k` takes the members `ms`, or goes away when `ms` is empty.
fn set_channel_members(state: &mut ServerState, k: usize, ms: Vec<ConnectionId>)
    requires
        k < old(state).channels.len(),
    ensures
        final(state)@ == model::with_channels(
            old(state)@,
            model::set_members(old(state)@.channels, k as int, ms@),
        ),
{
    if ms.len() == 0 {
        let _ = state.channels.remove(k);
        assert(channels_view(state.channels@) =~= old(state)@.channels.remove(k as int));
    } else {
        let ghost msv = ms@;
        state.channels[k].members = ms;
        assert(channels_view(state.channels@) =~= old(state)@.channels.update(
            k as int,
            ChannelView { name: old(state)@.channels[k as int].name, members: msv },
        ));
    }
    assert(state@ =~= model::with_channels(
        old(state)@,
        model::set_members(old(state)@.channels, k as int, ms@),
    ));
}

/// `id` joins the named channel, which is created when missing.
fn add_member(state: &mut ServerState, name: &String, id: ConnectionId)
    ensures
        final(state)@ == model::with_channels(
            old(state)@,
            model::add_member(old(state)@.channels, name@, id),
        ),
{
    match channel_pos(state, name) {
        Some(k) => {
            let present = contains_id(&state.channels[k].members, id);
            if !present {
                state.channels[k].members.push(id);
            }
            assert(channels_view(state.channels@) =~= old(state)@.channels.update(
                k as int,
                ChannelView {
                    name: old(state)@.channels[k as int].name,
                    members: model::insert_new(old(state)@.channels[k as int].members, id),
                },
            ));
        },
        None => {
            let mut ms: Vec<ConnectionId> = Vec::new();
            ms.push(id);
            let ch = Channel { name: name.clone(), members: ms };
            state.channels.push(ch);
            assert(channels_view(state.channels@) =~= old(state)@.channels.push(
                ChannelView { name: name@, members: seq![id] },
            ));
        },
    }
    assert(state@ =~= model::with_channels(
        old(state)@,
        model::add_member(old(state)@.channels, name@, id),
    ));
}

// ---------------------------------------------------------------------------
// Registration
// ---------------------------------------------------------------------------
/// `text` followed by `more`.
fn joined_text(text: &str, more: &str) -> (r: String)
    ensures
        r@ == text@ + more@,
{
    let mut r = owned(text);
    push_text(&mut r, more);
    r
}

fn one_param(a: String) -> (r: Vec<String>)
    ensures
        text::strings_view(r@) == seq![a@],
{
    let mut v: Vec<String> = Vec::new();
    v.push(a);
    assert(text::strings_view(v@) =~= seq![a@]);
    v
}

fn two_params(a: String, b: String) -> (r: Vec<String>)
    ensures
        text::strings_view(r@) == seq![a@, b@],
{
    let mut v: Vec<String> = Vec::new();
    v.push(a);
    v.push(b);
    assert(text::strings_view(v@) =~= seq![a@, b@]);
    v
}

fn three_params(a: String, b: String, c: String) -> (r: Vec<String>)
    ensures
        text::strings_view(r@) == seq![a@, b@, c@],
{
    let mut v: Vec<String> = Vec::new();
    v.push(a);
    v.push(b);
    v.push(c);
    assert(text::strings_view(v@) =~= seq![a@, b@, c@]);
    v
}

fn four_params(a: String, b: String, c: String, d: String) -> (r: Vec<String>)
    ensures
        text::strings_view(r@) == seq![a@, b@, c@, d@],
{
    let mut v: Vec<String> = Vec::new();
    v.push(a);
    v.push(b);
    v.push(c);
    v.push(d);
    assert(text::strings_view(v@) =~= seq![a@, b@, c@, d@]);
    v
}

/// Registers the client once it has a nick and a user and is not negotiating
/// capabilities, and welcomes it with 001 to 004.
pub fn maybe_complete_registration(state: &mut ServerState, connection_id: ConnectionId) -> (outs: Vec<
    OutboundMessage,
>)
    ensures
        final(state)@ == model::complete_registration(old(state)@, connection_id).0,
        model::outs_view(outs@) == model::complete_registration(old(state)@, connection_id).1,
{
    let i = match client_pos(state, connection_id) {
        Some(i) => i,
        None => {
            return Vec::new();
        },
    };
    let nick = match &state.clients[i].nick {
        Some(n) => n.clone(),
        None => {
            return Vec::new();
        },
    };
    match &state.clients[i].user {
        Some(_) => {},
        None => {
            return Vec::new();
        },
    }
    if state.clients[i].registered || state.clients[i].cap_active {
        return Vec::new();
    }
    mark_registered(state, i);
    let server = state.server_name.as_str();
    let mut outs: Vec<OutboundMessage> = Vec::new();
    outs.push(
        numeric(
            server,
            connection_id,
            nick.as_str(),
            "001",
            one_param(joined_text("Welcome to ClankyIRCd, ", nick.as_str())),
        ),
    );
    outs.push(
        numeric(
            server,
            connection_id,
            nick.as_str(),
            "002",
            one_param(joined_text("Your host is ", server)),
        ),
    );
    outs.push(
        numeric(
            server,
            connection_id,
            nick.as_str(),
            "003",
            one_param(owned("This server was created today")),
        ),
    );
    outs.push(
        numeric(
            server,
            connection_id,
            nick.as_str(),
            "004",
            four_params(owned(server), owned("clankircd-0.1"), owned("ao"), owned("mtov")),
        ),
    );
    assert(model::outs_view(outs@) =~= model::complete_registration(old(state)@, connection_id).1);
    outs
}

/// `CAP LS` and `CAP END`.
pub fn handle_cap(state: &mut ServerState, connection_id: ConnectionId, params: &Vec<String>) -> (outs:
    Vec<OutboundMessage>)
    ensures
        final(state)@ == model::cap_step(old(state)@, connection_id, text::strings_view(params@)).0,
        model::outs_view(outs@) == model::cap_step(
            old(state)@,
            connection_id,
            text::strings_view(params@),
        ).1,
{
    if params.len() == 0 {
        return Vec::new();
    }
    let sub = upper_string(params[0].as_str());
    if same_text(sub.as_str(), "LS") {
        let m = Message {
            prefix: Some(state.server_name.clone()),
            command: owned("CAP"),
            params: three_params(
                client_nick(state, connection_id),
                owned("LS"),
                owned("multi-prefix"),
            ),
        };
        let mut outs: Vec<OutboundMessage> = Vec::new();
        outs.push(reply(connection_id, m));
        assert(model::outs_view(outs@) =~= model::cap_step(
            old(state)@,
            connection_id,
            text::strings_view(params@),
        ).1);
        outs
    } else if same_text(sub.as_str(), "END") {
        match client_pos(state, connection_id) {
            Some(i) => clear_cap(state, i),
            None => {},
        }
        maybe_complete_registration(state, connection_id)
    } else {
        Vec::new()
    }
}

/// `USER user mode unused :real name`.
pub fn handle_user(state: &mut ServerState, connection_id: ConnectionId, params: &Vec<String>) -> (outs:
    Vec<OutboundMessage>)
    ensures
        final(state)@ == model::user_step(old(state)@, connection_id, text::strings_view(params@)).0,
        model::outs_view(outs@) == model::user_step(
            old(state)@,
            connection_id,
            text::strings_view(params@),
        ).1,
{
    if params.len() < 4 {
        let nick = client_nick(state, connection_id);
        let mut outs: Vec<OutboundMessage> = Vec::new();
        outs.push(
            numeric(
                state.server_name.as_str(),
                connection_id,
                nick.as_str(),
                "461",
                two_params(owned("USER"), owned("Not enough parameters")),
            ),
        );
        assert(model::outs_view(outs@) =~= model::user_step(
            old(state)@,
            connection_id,
            text::strings_view(params@),
        ).1);
        return outs;
    }
    match client_pos(state, connection_id) {
        Some(i) => set_client_user(state, i, params[0].clone(), params[3].clone()),
        None => {},
    }
    maybe_complete_registration(state, connection_id)
}

/// Whether a client other than `connection_id` goes by `nick`.
fn nick_in_use(state: &ServerState, connection_id: ConnectionId, nick: &String) -> (r: bool)
    ensures
        r == model::nick_taken(state@, connection_id, nick@),
{
    let mut k: usize = 0;
    while k < state.clients.len()
        invariant
            k <= state.clients.len(),
            forall|j: int|
                0 <= j < k ==> !(state@.clients[j].id != connection_id && state@.clients[j].nick
                    == Some(nick@)),
        decreases state.clients.len() - k,
    {
        let same = match &state.clients[k].nick {
            Some(n) => *n == *nick,
            None => false,
        };
        if state.clients[k].id != connection_id && same {
            assert(state@.clients[k as int].nick == Some(nick@));
            return true;
        }
        k = k + 1;
    }
    false
}

/// Adds to `acc`, in order, the ids of `ms` that are neither in it yet nor `skip`.
fn add_new_ids(acc: &mut Vec<ConnectionId>, ms: &Vec<ConnectionId>, skip: ConnectionId)
    ensures
        final(acc)@ == model::add_new(old(acc)@, ms@, skip),
{
    let mut j: usize = 0;
    while j < ms.len()
        invariant
            j <= ms.len(),
            acc@ == model::add_new(old(acc)@, ms@.take(j as int), skip),
        decreases ms.len() - j,
    {
        let m = ms[j];
        let ghost t1 = ms@.take(j + 1);
        assert(t1.drop_last() =~= ms@.take(j as int));
        assert(t1.last() == m);
        let present = contains_id(acc, m);
        if m != skip && !present {
            acc.push(m);
        }
        j = j + 1;
    }
    assert(ms@.take(ms.len() as int) =~= ms@);
}

/// The other clients that share a channel with the client, each once.
pub fn collect_visible_peers(state: &ServerState, connection_id: ConnectionId) -> (r: Vec<
    ConnectionId,
>)
    ensures
        r@ == model::visible_peers(state@, connection_id),
{
    let mut peers: Vec<ConnectionId> = Vec::new();
    let i = match client_pos(state, connection_id) {
        Some(i) => i,
        None => {
            return peers;
        },
    };
    let ghost names = state@.clients[i as int].joined;
    let n = state.clients[i].joined_channels.len();
    let mut k: usize = 0;
    while k < n
        invariant
            k <= n == state.clients[i as int].joined_channels.len(),
            i < state.clients.len(),
            names == state@.clients[i as int].joined,
            peers@ == model::peers_through(state@, names.take(k as int), connection_id),
        decreases n - k,
    {
        let name = &state.clients[i].joined_channels[k];
        let ghost t1 = names.take(k + 1);
        assert(t1.drop_last() =~= names.take(k as int));
        assert(t1.last() == name@);
        match channel_pos(state, name) {
            Some(c) => add_new_ids(&mut peers, &state.channels[c].members, connection_id),
            None => {},
        }
        k = k + 1;
    }
    assert(names.take(n as int) =~= names);
    peers
}

/// `NICK nick`.
pub fn handle_nick(state: &mut ServerState, connection_id: ConnectionId, params: &Vec<String>) -> (outs:
    Vec<OutboundMessage>)
    ensures
        final(state)@ == model::nick_step(old(state)@, connection_id, text::strings_view(params@)).0,
        model::outs_view(outs@) == model::nick_step(
            old(state)@,
            connection_id,
            text::strings_view(params@),
        ).1,
{
    if params.len() == 0 {
        let nick = client_nick(state, connection_id);
        let mut outs: Vec<OutboundMessage> = Vec::new();
        outs.push(
            numeric(
                state.server_name.as_str(),
                connection_id,
                nick.as_str(),
                "431",
                one_param(owned("No nickname given")),
            ),
        );
        assert(model::outs_view(outs@) =~= model::nick_step(
            old(state)@,
            connection_id,
            text::strings_view(params@),
        ).1);
        return outs;
    }
    let nick = &params[0];
    if nick_in_use(state, connection_id, nick) {
        let current = client_nick(state, connection_id);
        let mut outs: Vec<OutboundMessage> = Vec::new();
        outs.push(
            numeric(
                state.server_name.as_str(),
                connection_id,
                current.as_str(),
                "433",
                two_params(nick.clone(), owned("Nickname is already in use")),
            ),
        );
        assert(model::outs_view(outs@) =~= model::nick_step(
            old(state)@,
            connection_id,
            text::strings_view(params@),
        ).1);
        return outs;
    }
    let i = match client_pos(state, connection_id) {
        Some(i) => i,
        None => {
            return Vec::new();
        },
    };
    let old_prefix = match &state.clients[i].nick {
        Some(_) => Some(client_prefix(&state.clients[i])),
        None => None,
    };
    set_client_nick(state, i, nick.clone());
    let mut outs: Vec<OutboundMessage> = Vec::new();
    match old_prefix {
        Some(p) => {
            let line = event_line(p, "NICK", nick.clone());
            let peers = collect_visible_peers(state, connection_id);
            outs = broadcast(&peers, &line);
        },
        None => {},
    }
    let welcome = maybe_complete_registration(state, connection_id);
    extend(&mut outs, welcome);
    outs
}

// ---------------------------------------------------------------------------
// Channels
// ---------------------------------------------------------------------------
pub proof fn lemma_client_index_update_same_id(cs: Seq<ClientView>, i: int, c: ClientView, id: ConnectionId)
    requires
        0 <= i < cs.len(),
        c.id == cs[i].id,
    ensures
        model::client_index_from(cs.update(i, c), id, 0) == model::client_index_from(cs, id, 0),
{
    lemma_client_index_same_ids(cs.update(i, c), cs, id, 0);
}

/// The nicks of the members that have one, in order.
fn member_nicks(state: &ServerState, members: &Vec<ConnectionId>) -> (r: Vec<String>)
    ensures
        text::strings_view(r@) == model::member_nicks(state@, members@),
{
    let mut out: Vec<String> = Vec::new();
    let mut j: usize = 0;
    while j < members.len()
        invariant
            j <= members.len(),
            text::strings_view(out@) == model::member_nicks(state@, members@.take(j as int)),
        decreases members.len() - j,
    {
        let ghost before = out@;
        let ghost t1 = members@.take(j + 1);
        assert(t1.drop_last() =~= members@.take(j as int));
        assert(t1.last() == members@[j as int]);
        match client_pos(state, members[j]) {
            Some(c) => match &state.clients[c].nick {
                Some(n) => {
                    let nn = n.clone();
                    out.push(nn);
                    assert(text::strings_view(out@) =~= text::strings_view(before).push(nn@));
                },
                None => {},
            },
            None => {},
        }
        j = j + 1;
    }
    assert(members@.take(members.len() as int) =~= members@);
    out
}

/// The words joined with single spaces.
fn join_words(words: &Vec<String>) -> (r: String)
    ensures
        r@ == model::join_words(text::strings_view(words@)),
{
    let ghost ws = text::strings_view(words@);
    let mut out = String::new();
    let mut j: usize = 0;
    while j < words.len()
        invariant
            j <= words.len(),
            ws == text::strings_view(words@),
            out@ == model::join_words(ws.take(j as int)),
        decreases words.len() - j,
    {
        let ghost t1 = ws.take(j + 1);
        assert(t1.drop_last() =~= ws.take(j as int));
        assert(t1.last() == words@[j as int]@);
        if j > 0 {
            out.push(' ');
        } else {
            assert(out@ =~= Seq::<char>::empty());
        }
        push_text(&mut out, words[j].as_str());
        proof {
            if j == 0 {
                assert(t1.len() == 1);
                assert(out@ =~= t1[0]);
            } else {
                assert(out@ =~= model::join_words(ws.take(j as int)) + seq![' '] + t1.last());
            }
        }
        j = j + 1;
    }
    assert(ws.take(words.len() as int) =~= ws);
    out
}

/// The client joins one channel.
fn join_one(state: &mut ServerState, connection_id: ConnectionId, name: &String) -> (outs: Vec<
    OutboundMessage,
>)
    requires
        model::has_client(old(state)@, connection_id),
    ensures
        final(state)@ == model::join_one(old(state)@, connection_id, name@).0,
        model::outs_view(outs@) == model::join_one(old(state)@, connection_id, name@).1,
        model::has_client(final(state)@, connection_id),
{
    let i = match client_pos(state, connection_id) {
        Some(i) => i,
        None => {
            return Vec::new();
        },
    };
    let prefix = client_prefix(&state.clients[i]);
    let ghost c = old(state)@.clients[i as int];
    add_member(state, name, connection_id);
    add_joined(state, i, name);
    proof {
        lemma_client_index_update_same_id(
            model::with_channels(old(state)@, model::add_member(old(state)@.channels, name@, connection_id)).clients,
            i as int,
            ClientView { joined: model::insert_new(c.joined, name@), ..c },
            connection_id,
        );
    }
    let members = match channel_pos(state, name) {
        Some(k) => copy_ids(&state.channels[k].members),
        None => Vec::new(),
    };
    let line = event_line(prefix, "JOIN", name.clone());
    let mut outs = broadcast(&members, &line);
    let nicks = member_nicks(state, &members);
    let names = join_words(&nicks);
    let own = client_nick(state, connection_id);
    outs.push(
        numeric(
            state.server_name.as_str(),
            connection_id,
            own.as_str(),
            "353",
            three_params(owned("="), name.clone(), names),
        ),
    );
    outs.push(
        numeric(
            state.server_name.as_str(),
            connection_id,
            own.as_str(),
            "366",
            two_params(name.clone(), owned("End of /NAMES list")),
        ),
    );
    assert(model::outs_view(outs@) =~= model::join_one(old(state)@, connection_id, name@).1);
    outs
}

/// The `#`-names among the comma-separated parts of `raw`.
fn join_targets(raw: &String) -> (r: Vec<String>)
    ensures
        text::strings_view(r@) == model::join_targets(raw@),
{
    let parts = split_string(raw.as_str(), ',');
    let ghost ps = text::strings_view(parts@);
    let mut out: Vec<String> = Vec::new();
    let mut j: usize = 0;
    while j < parts.len()
        invariant
            j <= parts.len(),
            ps == text::strings_view(parts@),
            ps == text::split_on(raw@, ','),
            text::strings_view(out@) == ps.take(j as int).filter(
                |c: Seq<char>| c.len() > 0 && c[0] == '#',
            ),
        decreases parts.len() - j,
    {
        proof {
            reveal(Seq::filter);
        }
        let ghost before = out@;
        let ghost t1 = ps.take(j + 1);
        assert(t1.drop_last() =~= ps.take(j as int));
        assert(t1.last() == parts@[j as int]@);
        if starts_with_char(parts[j].as_str(), '#') {
            let p = parts[j].clone();
            out.push(p);
            assert(text::strings_view(out@) =~= text::strings_view(before).push(p@));
        }
        j = j + 1;
    }
    assert(ps.take(parts.len() as int) =~= ps);
    out
}

/// `JOIN #a,#b`.
pub fn handle_join(state: &mut ServerState, connection_id: ConnectionId, params: &Vec<String>) -> (outs:
    Vec<OutboundMessage>)
    ensures
        final(state)@ == model::join_step(old(state)@, connection_id, text::strings_view(params@)).0,
        model::outs_view(outs@) == model::join_step(
            old(state)@,
            connection_id,
            text::strings_view(params@),
        ).1,
{
    if !is_registered(state, connection_id) {
        let nick = client_nick(state, connection_id);
        let mut outs: Vec<OutboundMessage> = Vec::new();
        outs.push(
            numeric(
                state.server_name.as_str(),
                connection_id,
                nick.as_str(),
                "451",
                one_param(owned("You have not registered")),
            ),
        );
        assert(model::outs_view(outs@) =~= model::join_step(
            old(state)@,
            connection_id,
            text::strings_view(params@),
        ).1);
        return outs;
    }
    if params.len() == 0 {
        return Vec::new();
    }
    let targets = join_targets(&params[0]);
    let ghost names = text::strings_view(targets@);
    let mut outs: Vec<OutboundMessage> = Vec::new();
    let mut j: usize = 0;
    while j < targets.len()
        invariant
            j <= targets.len(),
            names == text::strings_view(targets@),
            model::has_client(state@, connection_id),
            state@ == model::join_all(old(state)@, connection_id, names.take(j as int)).0,
            model::outs_view(outs@) == model::join_all(
                old(state)@,
                connection_id,
                names.take(j as int),
            ).1,
        decreases targets.len() - j,
    {
        let ghost t1 = names.take(j + 1);
        assert(t1.drop_last() =~= names.take(j as int));
        assert(t1.last() == targets@[j as int]@);
        let more = join_one(state, connection_id, &targets[j]);
        extend(&mut outs, more);
        j = j + 1;
    }
    assert(names.take(targets.len() as int) =~= names);
    outs
}

/// `PART #chan`.
pub fn handle_part(state: &mut ServerState, connection_id: ConnectionId, params: &Vec<String>) -> (outs:
    Vec<OutboundMessage>)
    requires
        params.len() >= 1 && model::has_channel(old(state)@, params@[0]@) ==> model::has_client(
            old(state)@,
            connection_id,
        ),
    ensures
        final(state)@ == model::part_step(old(state)@, connection_id, text::strings_view(params@)).0,
        model::outs_view(outs@) == model::part_step(
            old(state)@,
            connection_id,
            text::strings_view(params@),
        ).1,
{
    if params.len() == 0 {
        return Vec::new();
    }
    let name = &params[0];
    let outs = match channel_pos(state, name) {
        Some(k) => {
            let i = match client_pos(state, connection_id) {
                Some(i) => i,
                None => {
                    return Vec::new();
                },
            };
            let prefix = client_prefix(&state.clients[i]);
            let line = event_line(prefix, "PART", name.clone());
            let members = copy_ids(&state.channels[k].members);
            let outs = broadcast(&members, &line);
            let rest = without_id(&members, connection_id);
            set_channel_members(state, k, rest);
            outs
        },
        None => Vec::new(),
    };
    match client_pos(state, connection_id) {
        Some(i) => remove_joined(state, i, name),
        None => {},
    }
    outs
}

/// `PRIVMSG`/`NOTICE target :text`.
pub fn handle_privmsg(
    state: &ServerState,
    connection_id: ConnectionId,
    params: &Vec<String>,
    is_notice: bool,
) -> (outs: Vec<OutboundMessage>)
    requires
        params.len() >= 2 ==> model::has_client(state@, connection_id),
    ensures
        model::outs_view(outs@) == model::privmsg_outs(
            state@,
            connection_id,
            text::strings_view(params@),
            is_notice,
        ),
{
    if params.len() < 2 {
        return Vec::new();
    }
    let target = &params[0];
    let i = match client_pos(state, connection_id) {
        Some(i) => i,
        None => {
            return Vec::new();
        },
    };
    let command = if is_notice {
        owned("NOTICE")
    } else {
        owned("PRIVMSG")
    };
    let m = Message {
        prefix: Some(client_prefix(&state.clients[i])),
        command,
        params: two_params(target.clone(), params[1].clone()),
    };
    let line = m.serialize();
    assert(m@.params == seq![target@, params@[1]@]);
    assert(m@ =~= protocol::MessageView {
        prefix: Some(model::prefix_of(model::client_of(state@, connection_id))),
        command: if is_notice {
            "NOTICE"@
        } else {
            "PRIVMSG"@
        },
        params: seq![target@, params@[1]@],
    });
    if starts_with_char(target.as_str(), '#') {
        let members = match channel_pos(state, target) {
            Some(k) => copy_ids(&state.channels[k].members),
            None => Vec::new(),
        };
        let recipients = without_id(&members, connection_id);
        broadcast(&recipients, &line)
    } else {
        let mut k: usize = 0;
        while k < state.clients.len()
            invariant
                k <= state.clients.len(),
                model::nick_index_from(state@.clients, target@, 0) == model::nick_index_from(
                    state@.clients,
                    target@,
                    k as int,
                ),
                params.len() >= 2,
                *target == params@[0],
                !(target@.len() > 0 && target@[0] == '#'),
                line@ == protocol::spec_serialize(
                    protocol::MessageView {
                        prefix: Some(model::prefix_of(model::client_of(state@, connection_id))),
                        command: if is_notice {
                            "NOTICE"@
                        } else {
                            "PRIVMSG"@
                        },
                        params: seq![target@, params@[1]@],
                    },
                ),
            decreases state.clients.len() - k,
        {
            let found = match &state.clients[k].nick {
                Some(n) => *n == *target,
                None => false,
            };
            if found {
                let mut outs: Vec<OutboundMessage> = Vec::new();
                outs.push(OutboundMessage { target: state.clients[k].id, line });
                assert(model::outs_view(outs@) =~= model::privmsg_outs(
                    state@,
                    connection_id,
                    text::strings_view(params@),
                    is_notice,
                ));
                return outs;
            }
            assert(state@.clients[k as int].nick != Some(target@));
            k = k + 1;
        }
        Vec::new()
    }
}

/// The client leaves one channel as it quits.
fn leave_one(state: &mut ServerState, connection_id: ConnectionId, name: &String, line: &String) -> (outs:
    Vec<OutboundMessage>)
    ensures
        final(state)@ == model::leave_one(old(state)@, connection_id, name@, line@).0,
        model::outs_view(outs@) == model::leave_one(old(state)@, connection_id, name@, line@).1,
{
    match channel_pos(state, name) {
        Some(k) => {
            let rest = without_id(&state.channels[k].members, connection_id);
            let outs = broadcast(&rest, line);
            set_channel_members(state, k, rest);
            outs
        },
        None => Vec::new(),
    }
}

/// The client goes away: it is removed, and the other members of its channels see its
/// `QUIT`.
pub fn handle_quit(state: &mut ServerState, connection_id: ConnectionId, reason: &String) -> (outs: Vec<
    OutboundMessage,
>)
    ensures
        final(state)@ == model::quit_step(old(state)@, connection_id, reason@).0,
        model::outs_view(outs@) == model::quit_step(old(state)@, connection_id, reason@).1,
{
    let i = match client_pos(state, connection_id) {
        Some(i) => i,
        None => {
            return Vec::new();
        },
    };
    let client = state.clients.remove(i);
    proof {
        assert(clients_view(state.clients@) =~= old(state)@.clients.remove(i as int));
        assert(state@ =~= model::StateView { clients: old(state)@.clients.remove(i as int), ..old(state)@ });
    }
    let ghost s1 = state@;
    let line = event_line(client_prefix(&client), "QUIT", reason.clone());
    let ghost names = client@.joined;
    let mut outs: Vec<OutboundMessage> = Vec::new();
    let mut k: usize = 0;
    while k < client.joined_channels.len()
        invariant
            k <= client.joined_channels.len(),
            names == client@.joined,
            state@ == model::leave_all(s1, connection_id, names.take(k as int), line@).0,
            model::outs_view(outs@) == model::leave_all(
                s1,
                connection_id,
                names.take(k as int),
                line@,
            ).1,
        decreases client.joined_channels.len() - k,
    {
        let ghost t1 = names.take(k + 1);
        assert(t1.drop_last() =~= names.take(k as int));
        assert(t1.last() == client.joined_channels@[k as int]@);
        let more = leave_one(state, connection_id, &client.joined_channels[k], &line);
        extend(&mut outs, more);
        k = k + 1;
    }
    assert(names.take(client.joined_channels.len() as int) =~= names);
    outs
}

} // verus!
