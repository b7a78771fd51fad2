//! Properties of the library as a whole: what parsing keeps and ignores, and the
//! invariant that every event keeps.

use vstd::prelude::*;

use crate::model;
use crate::model::{ChannelView, ClientView, ConnectionId, StateView};
use crate::protocol;
use crate::server;
use crate::server::{CoreEvent, MetricEvent, MetricsSnapshot};
use crate::state;
use crate::text;

verus! {

// ---------------------------------------------------------------------------
// Sequences
// ---------------------------------------------------------------------------
proof fn lemma_remove_id(ms: Seq<ConnectionId>, id: ConnectionId)
    ensures
        forall|m: ConnectionId| #[trigger]
            model::remove_id(ms, id).contains(m) <==> (ms.contains(m) && m != id),
        ms.no_duplicates() ==> model::remove_id(ms, id).no_duplicates(),
    decreases ms.len(),
{
    reveal(Seq::filter);
    if ms.len() > 0 {
        let init = ms.drop_last();
        lemma_remove_id(init, id);
        assert(init.no_duplicates() || !ms.no_duplicates());
        assert forall|m: ConnectionId| #[trigger]
            model::remove_id(ms, id).contains(m) <==> (ms.contains(m) && m != id) by {
            if ms.contains(m) && m != id {
                let k = choose|k: int| 0 <= k < ms.len() && ms[k] == m;
                if k < ms.len() - 1 {
                    assert(init[k] == m);
                } else {
                    assert(model::remove_id(ms, id).last() == m);
                }
            }
            if model::remove_id(ms, id).contains(m) {
                if ms.last() != id && model::remove_id(ms, id).last() == m && model::remove_id(
                    ms,
                    id,
                ) == model::remove_id(init, id).push(ms.last()) {
                    assert(ms[ms.len() - 1] == m);
                } else {
                    let k = choose|k: int|
                        0 <= k < model::remove_id(ms, id).len() && model::remove_id(ms, id)[k]
                            == m;
                    if ms.last() != id {
                        if k < model::remove_id(init, id).len() {
                            assert(model::remove_id(init, id)[k] == m);
                        } else {
                            assert(ms[ms.len() - 1] == m);
                        }
                    } else {
                        assert(model::remove_id(init, id)[k] == m);
                    }
                    if model::remove_id(init, id).contains(m) {
                        let j = choose|j: int| 0 <= j < init.len() && init[j] == m;
                        assert(ms[j] == m);
                    }
                }
            }
        }
        if ms.no_duplicates() && ms.last() != id {
            assert(init.no_duplicates()) by {
                assert forall|a: int, b: int|
                    0 <= a < init.len() && 0 <= b < init.len() && a != b implies init[a]
                    != init[b] by {
                    assert(init[a] == ms[a] && init[b] == ms[b]);
                }
            }
            assert(!model::remove_id(init, id).contains(ms.last())) by {
                if model::remove_id(init, id).contains(ms.last()) {
                    let j = choose|j: int| 0 <= j < init.len() && init[j] == ms.last();
                    assert(ms[j] == ms[ms.len() - 1]);
                }
            }
        }
        if ms.no_duplicates() {
            assert(init.no_duplicates()) by {
                assert forall|a: int, b: int|
                    0 <= a < init.len() && 0 <= b < init.len() && a != b implies init[a]
                    != init[b] by {
                    assert(init[a] == ms[a] && init[b] == ms[b]);
                }
            }
        }
    }
}

proof fn lemma_remove_name(ns: Seq<Seq<char>>, name: Seq<char>)
    ensures
        forall|n: Seq<char>| #[trigger]
            model::remove_name(ns, name).contains(n) <==> (ns.contains(n) && n != name),
        ns.no_duplicates() ==> model::remove_name(ns, name).no_duplicates(),
    decreases ns.len(),
{
    reveal(Seq::filter);
    if ns.len() > 0 {
        let init = ns.drop_last();
        lemma_remove_name(init, name);
        assert forall|n: Seq<char>| #[trigger]
            model::remove_name(ns, name).contains(n) <==> (ns.contains(n) && n != name) by {
            if ns.contains(n) && n != name {
                let k = choose|k: int| 0 <= k < ns.len() && ns[k] == n;
                if k < ns.len() - 1 {
                    assert(init[k] == n);
                } else {
                    assert(model::remove_name(ns, name).last() == n);
                }
            }
            if model::remove_name(ns, name).contains(n) {
                let k = choose|k: int|
                    0 <= k < model::remove_name(ns, name).len() && model::remove_name(ns, name)[k]
                        == n;
                if ns.last() != name {
                    if k < model::remove_name(init, name).len() {
                        assert(model::remove_name(init, name)[k] == n);
                    } else {
                        assert(ns[ns.len() - 1] == n);
                    }
                } else {
                    assert(model::remove_name(init, name)[k] == n);
                }
                if model::remove_name(init, name).contains(n) {
                    let j = choose|j: int| 0 <= j < init.len() && init[j] == n;
                    assert(ns[j] == n);
                }
            }
        }
        if ns.no_duplicates() {
            assert(init.no_duplicates()) by {
                assert forall|a: int, b: int|
                    0 <= a < init.len() && 0 <= b < init.len() && a != b implies init[a]
                    != init[b] by {
                    assert(init[a] == ns[a] && init[b] == ns[b]);
                }
            }
            if ns.last() != name {
                assert(!model::remove_name(init, name).contains(ns.last())) by {
                    if model::remove_name(init, name).contains(ns.last()) {
                        let j = choose|j: int| 0 <= j < init.len() && init[j] == ns.last();
                        assert(ns[j] == ns[ns.len() - 1]);
                    }
                }
            }
        }
    }
}

proof fn lemma_insert_new<A>(xs: Seq<A>, x: A)
    ensures
        forall|y: A| #[trigger] model::insert_new(xs, x).contains(y) <==> (xs.contains(y) || y == x),
        xs.no_duplicates() ==> model::insert_new(xs, x).no_duplicates(),
        model::insert_new(xs, x).len() > 0,
{
    if !xs.contains(x) {
        let ys = xs.push(x);
        assert forall|y: A| #[trigger] ys.contains(y) <==> (xs.contains(y) || y == x) by {
            if ys.contains(y) {
                let k = choose|k: int| 0 <= k < ys.len() && ys[k] == y;
                if k < xs.len() {
                    assert(xs[k] == y);
                }
            }
            if xs.contains(y) {
                let k = choose|k: int| 0 <= k < xs.len() && xs[k] == y;
                assert(ys[k] == y);
            }
            if y == x {
                assert(ys[xs.len() as int] == y);
            }
        }
        if xs.no_duplicates() {
            assert forall|a: int, b: int| 0 <= a < ys.len() && 0 <= b < ys.len() && a != b implies ys[a]
                != ys[b] by {
                if a == xs.len() && b < xs.len() {
                    assert(xs[b] == ys[b]);
                }
                if b == xs.len() && a < xs.len() {
                    assert(xs[a] == ys[a]);
                }
            }
        }
    } else {
        let k = choose|k: int| 0 <= k < xs.len() && xs[k] == x;
        assert(xs[k] == x);
    }
}

// ---------------------------------------------------------------------------
// Lookups in a well-formed state
// ---------------------------------------------------------------------------
proof fn lemma_find_client_at(s: StateView, id: ConnectionId, i: int)
    requires
        model::wf_shape(s),
        0 <= i < s.clients.len(),
        s.clients[i].id == id,
    ensures
        model::find_client(s, id) == i,
{
    state::lemma_client_index_bounds(s.clients, id, 0);
}

proof fn lemma_find_client_none(s: StateView, id: ConnectionId)
    ensures
        model::find_client(s, id) == -1 <==> forall|i: int|
            0 <= i < s.clients.len() ==> s.clients[i].id != id,
        model::find_client(s, id) != -1 ==> 0 <= model::find_client(s, id) < s.clients.len()
            && s.clients[model::find_client(s, id)].id == id,
{
    state::lemma_client_index_bounds(s.clients, id, 0);
}


proof fn lemma_find_channel_none(s: StateView, name: Seq<char>)
    ensures
        model::find_channel(s, name) == -1 <==> forall|k: int|
            0 <= k < s.channels.len() ==> s.channels[k].name != name,
        model::find_channel(s, name) != -1 ==> 0 <= model::find_channel(s, name) < s.channels.len()
            && s.channels[model::find_channel(s, name)].name == name,
{
    state::lemma_channel_index_bounds(s.channels, name, 0);
}

// ---------------------------------------------------------------------------
// Updates that keep the invariant
// ---------------------------------------------------------------------------
/// Clients with the same ids and joined channels, in the same order, have joined the
/// same channels.
proof fn lemma_same_joined(a: StateView, b: StateView)
    requires
        a.clients.len() == b.clients.len(),
        forall|i: int|
            0 <= i < a.clients.len() ==> a.clients[i].id == b.clients[i].id && a.clients[i].joined
                == b.clients[i].joined,
    ensures
        forall|m: ConnectionId, n: Seq<char>| #[trigger]
            model::has_joined(a, m, n) == model::has_joined(b, m, n),
{
    assert forall|m: ConnectionId, n: Seq<char>| #[trigger]
        model::has_joined(a, m, n) == model::has_joined(b, m, n) by {
        if model::has_joined(a, m, n) {
            let i = choose|i: int|
                0 <= i < a.clients.len() && a.clients[i].id == m && a.clients[i].joined.contains(n);
            assert(b.clients[i].id == m && b.clients[i].joined.contains(n));
        }
        if model::has_joined(b, m, n) {
            let i = choose|i: int|
                0 <= i < b.clients.len() && b.clients[i].id == m && b.clients[i].joined.contains(n);
            assert(a.clients[i].id == m && a.clients[i].joined.contains(n));
        }
    }
}

/// Channels with the same names and members, in the same order, count the same members.
proof fn lemma_same_members(a: StateView, b: StateView)
    requires
        a.channels == b.channels,
    ensures
        forall|m: ConnectionId, n: Seq<char>| #[trigger]
            model::is_member(a, m, n) == model::is_member(b, m, n),
{
    assert forall|m: ConnectionId, n: Seq<char>| #[trigger]
        model::is_member(a, m, n) == model::is_member(b, m, n) by {
        if model::is_member(a, m, n) {
            let k = choose|k: int|
                0 <= k < a.channels.len() && a.channels[k].name == n && a.channels[k].members.contains(m);
            assert(b.channels[k].name == n && b.channels[k].members.contains(m));
        }
        if model::is_member(b, m, n) {
            let k = choose|k: int|
                0 <= k < b.channels.len() && b.channels[k].name == n && b.channels[k].members.contains(m);
            assert(a.channels[k].name == n && a.channels[k].members.contains(m));
        }
    }
}

/// Changing a client's nick (to one no other client has), user, real name, capability or
/// registration keeps the invariant.
proof fn lemma_with_client_keeps_wf(s: StateView, i: int, c: ClientView)
    requires
        model::wf(s),
        0 <= i < s.clients.len(),
        c.id == s.clients[i].id,
        c.joined == s.clients[i].joined,
        c.nick is Some ==> forall|j: int|
            0 <= j < s.clients.len() && j != i ==> s.clients[j].nick != c.nick,
    ensures
        model::wf(model::with_client(s, i, c)),
{
    let t = model::with_client(s, i, c);
    assert forall|a: int, b: int|
        0 <= a < t.clients.len() && 0 <= b < t.clients.len() && a != b && t.clients[a].nick is Some
            implies t.clients[a].nick != t.clients[b].nick by {
        if a != i && b != i {
            assert(s.clients[a].nick != s.clients[b].nick);
        }
    }
    assert forall|a: int, b: int|
        0 <= a < t.clients.len() && 0 <= b < t.clients.len() && a != b implies t.clients[a].id
        != t.clients[b].id by {
        assert(s.clients[a].id != s.clients[b].id);
    }
    lemma_same_joined(t, s);
    lemma_same_members(t, s);
}

/// A state with a new connection keeps the invariant.
pub proof fn lemma_open_keeps_wf(s: StateView)
    requires
        model::wf(s),
        s.next_id < usize::MAX,
    ensures
        model::wf(server::open_step(s)),
        !model::has_client(s, s.next_id),
{
    let id = s.next_id;
    lemma_find_client_none(s, id);
    let t = server::open_step(s);
    assert(t.clients == s.clients.push(server::fresh_client(id)));
    assert forall|a: int, b: int|
        0 <= a < t.clients.len() && 0 <= b < t.clients.len() && a != b implies t.clients[a].id
        != t.clients[b].id by {
        if a < s.clients.len() && b < s.clients.len() {
            assert(s.clients[a].id != s.clients[b].id);
        } else if a < s.clients.len() {
            assert(s.clients[a].id < s.next_id);
        } else {
            assert(s.clients[b].id < s.next_id);
        }
    }
    assert forall|a: int, b: int|
        0 <= a < t.clients.len() && 0 <= b < t.clients.len() && a != b && t.clients[a].nick is Some
            implies t.clients[a].nick != t.clients[b].nick by {
        if a < s.clients.len() && b < s.clients.len() {
            assert(s.clients[a].nick != s.clients[b].nick);
        }
    }
    assert forall|a: int| 0 <= a < t.clients.len() implies t.clients[a].id < t.next_id by {
        if a < s.clients.len() {
            assert(s.clients[a].id < s.next_id);
        }
    }
    assert forall|a: int| 0 <= a < t.clients.len() implies t.clients[a].joined.no_duplicates() by {
        if a < s.clients.len() {
            assert(s.clients[a].joined.no_duplicates());
        }
    }
    assert forall|m: ConnectionId, n: Seq<char>| #[trigger]
        model::has_joined(t, m, n) == model::has_joined(s, m, n) by {
        if model::has_joined(t, m, n) {
            let i = choose|i: int|
                0 <= i < t.clients.len() && t.clients[i].id == m && t.clients[i].joined.contains(n);
            if i == s.clients.len() {
                assert(t.clients[i].joined == Seq::<Seq<char>>::empty());
            } else {
                assert(s.clients[i].id == m && s.clients[i].joined.contains(n));
            }
        }
        if model::has_joined(s, m, n) {
            let i = choose|i: int|
                0 <= i < s.clients.len() && s.clients[i].id == m && s.clients[i].joined.contains(n);
            assert(t.clients[i].id == m && t.clients[i].joined.contains(n));
        }
    }
    lemma_same_members(t, s);
}

/// Changing a client without changing its id, nick or joined channels keeps the invariant.
proof fn lemma_with_client_same_nick(s: StateView, i: int, c: ClientView)
    requires
        model::wf(s),
        0 <= i < s.clients.len(),
        c.id == s.clients[i].id,
        c.joined == s.clients[i].joined,
        c.nick == s.clients[i].nick,
    ensures
        model::wf(model::with_client(s, i, c)),
{
    assert forall|j: int| 0 <= j < s.clients.len() && j != i && c.nick is Some implies s.clients[j].nick
        != c.nick by {
        assert(s.clients[i].nick != s.clients[j].nick);
    }
    lemma_with_client_keeps_wf(s, i, c);
}

proof fn lemma_registration_keeps_wf(s: StateView, id: ConnectionId)
    requires
        model::wf(s),
    ensures
        model::wf(model::complete_registration(s, id).0),
{
    lemma_find_client_none(s, id);
    if model::has_client(s, id) && model::ready_to_register(model::client_of(s, id)) {
        let i = model::find_client(s, id);
        lemma_with_client_same_nick(s, i, ClientView { registered: true, ..s.clients[i] });
    }
}

proof fn lemma_cap_keeps_wf(s: StateView, id: ConnectionId, params: Seq<Seq<char>>)
    requires
        model::wf(s),
    ensures
        model::wf(model::cap_step(s, id, params).0),
{
    lemma_find_client_none(s, id);
    if params.len() > 0 && text::upper(params[0]) != "LS"@ && text::upper(params[0]) == "END"@ {
        if model::has_client(s, id) {
            let i = model::find_client(s, id);
            let c = ClientView { cap_active: false, ..s.clients[i] };
            lemma_with_client_same_nick(s, i, c);
            lemma_registration_keeps_wf(model::with_client(s, i, c), id);
        } else {
            lemma_registration_keeps_wf(s, id);
        }
    }
}

proof fn lemma_user_keeps_wf(s: StateView, id: ConnectionId, params: Seq<Seq<char>>)
    requires
        model::wf(s),
    ensures
        model::wf(model::user_step(s, id, params).0),
{
    lemma_find_client_none(s, id);
    if params.len() >= 4 {
        if model::has_client(s, id) {
            let i = model::find_client(s, id);
            let c = ClientView { user: Some(params[0]), real_name: Some(params[3]), ..s.clients[i] };
            lemma_with_client_same_nick(s, i, c);
            lemma_registration_keeps_wf(model::with_client(s, i, c), id);
        } else {
            lemma_registration_keeps_wf(s, id);
        }
    }
}

proof fn lemma_nick_keeps_wf(s: StateView, id: ConnectionId, params: Seq<Seq<char>>)
    requires
        model::wf(s),
    ensures
        model::wf(model::nick_step(s, id, params).0),
{
    lemma_find_client_none(s, id);
    if params.len() > 0 && !model::nick_taken(s, id, params[0]) && model::has_client(s, id) {
        let i = model::find_client(s, id);
        let c = ClientView { nick: Some(params[0]), ..s.clients[i] };
        assert forall|j: int| 0 <= j < s.clients.len() && j != i implies s.clients[j].nick != c.nick by {
            assert(s.clients[j].id != s.clients[i].id);
        }
        lemma_with_client_keeps_wf(s, i, c);
        lemma_registration_keeps_wf(model::with_client(s, i, c), id);
    }
}

/// The channel parts of `wf_shape`: distinct names, and members that are there, each once.
pub open spec fn channels_ok(chs: Seq<ChannelView>) -> bool {
    &&& forall|i: int, j: int|
        0 <= i < chs.len() && 0 <= j < chs.len() && i != j ==> chs[i].name != chs[j].name
    &&& forall|k: int| 0 <= k < chs.len() ==> chs[k].members.len() > 0 && chs[k].members.no_duplicates()
}

/// Adding a member to a channel (creating it if needed) adds exactly that membership.
proof fn lemma_add_member(s: StateView, name: Seq<char>, id: ConnectionId)
    requires
        channels_ok(s.channels),
    ensures
        channels_ok(model::add_member(s.channels, name, id)),
        forall|m: ConnectionId, n: Seq<char>| #[trigger]
            model::is_member(
                model::with_channels(s, model::add_member(s.channels, name, id)),
                m,
                n,
            ) <==> (model::is_member(s, m, n) || (m == id && n == name)),
{
    let chs = s.channels;
    let t = model::with_channels(s, model::add_member(s.channels, name, id));
    let k = model::channel_index_from(chs, name, 0);
    state::lemma_channel_index_bounds(chs, name, 0);
    if k >= 0 {
        let ms = chs[k].members;
        lemma_insert_new(ms, id);
        assert(t.channels == chs.update(
            k,
            ChannelView { name: chs[k].name, members: model::insert_new(ms, id) },
        ));
        assert forall|m: ConnectionId, n: Seq<char>| #[trigger]
            model::is_member(t, m, n) <==> (model::is_member(s, m, n) || (m == id && n == name)) by {
            if model::is_member(t, m, n) {
                let j = choose|j: int|
                    0 <= j < t.channels.len() && t.channels[j].name == n
                        && t.channels[j].members.contains(m);
                if j != k {
                    assert(chs[j].name == n && chs[j].members.contains(m));
                } else if m != id {
                    assert(chs[k].name == n && chs[k].members.contains(m));
                }
            }
            if model::is_member(s, m, n) {
                let j = choose|j: int|
                    0 <= j < chs.len() && chs[j].name == n && chs[j].members.contains(m);
                assert(t.channels[j].name == n && t.channels[j].members.contains(m));
            }
            if m == id && n == name {
                assert(t.channels[k].name == n && t.channels[k].members.contains(m));
            }
        }
        assert forall|a: int, b: int|
            0 <= a < t.channels.len() && 0 <= b < t.channels.len() && a != b implies t.channels[a].name
            != t.channels[b].name by {
            assert(chs[a].name != chs[b].name);
        }
    } else {
        let nc = ChannelView { name, members: seq![id] };
        assert(t.channels == chs.push(nc));
        assert(nc.members.contains(id)) by {
            assert(nc.members[0] == id);
        }
        assert forall|m: ConnectionId, n: Seq<char>| #[trigger]
            model::is_member(t, m, n) <==> (model::is_member(s, m, n) || (m == id && n == name)) by {
            if model::is_member(t, m, n) {
                let j = choose|j: int|
                    0 <= j < t.channels.len() && t.channels[j].name == n
                        && t.channels[j].members.contains(m);
                if j < chs.len() {
                    assert(chs[j].name == n && chs[j].members.contains(m));
                } else {
                    let q = choose|q: int| 0 <= q < nc.members.len() && nc.members[q] == m;
                    assert(q == 0);
                }
            }
            if model::is_member(s, m, n) {
                let j = choose|j: int|
                    0 <= j < chs.len() && chs[j].name == n && chs[j].members.contains(m);
                assert(t.channels[j].name == n && t.channels[j].members.contains(m));
            }
            if m == id && n == name {
                assert(t.channels[chs.len() as int] == nc);
            }
        }
        assert forall|a: int, b: int|
            0 <= a < t.channels.len() && 0 <= b < t.channels.len() && a != b implies t.channels[a].name
            != t.channels[b].name by {
            if a < chs.len() && b < chs.len() {
                assert(chs[a].name != chs[b].name);
            }
        }
        assert forall|q: int| 0 <= q < t.channels.len() implies t.channels[q].members.len() > 0
            && t.channels[q].members.no_duplicates() by {
            if q < chs.len() {
                assert(t.channels[q] == chs[q]);
            }
        }
    }
}

proof fn lemma_join_one_keeps_wf(s: StateView, id: ConnectionId, name: Seq<char>)
    requires
        model::wf(s),
        model::has_client(s, id),
    ensures
        model::wf(model::join_one(s, id, name).0),
        model::has_client(model::join_one(s, id, name).0, id),
        forall|m: ConnectionId, n: Seq<char>| #[trigger]
            model::is_member(model::join_one(s, id, name).0, m, n) <==> (model::is_member(s, m, n)
                || (m == id && n == name)),
{
    lemma_find_client_none(s, id);
    let i = model::find_client(s, id);
    let c = s.clients[i];
    let sa = model::with_channels(s, model::add_member(s.channels, name, id));
    let c1 = ClientView { joined: model::insert_new(c.joined, name), ..c };
    let s1 = model::with_client(sa, i, c1);
    assert(model::join_one(s, id, name).0 == s1);
    lemma_add_member(s, name, id);
    lemma_insert_new(c.joined, name);
    state::lemma_client_index_update_same_id(sa.clients, i, c1, id);
    // Joined channels: exactly one more.
    assert forall|m: ConnectionId, n: Seq<char>| #[trigger]
        model::has_joined(s1, m, n) <==> (model::has_joined(s, m, n) || (m == id && n == name)) by {
        if model::has_joined(s1, m, n) {
            let j = choose|j: int|
                0 <= j < s1.clients.len() && s1.clients[j].id == m && s1.clients[j].joined.contains(n);
            if j != i {
                assert(s.clients[j].id == m && s.clients[j].joined.contains(n));
            } else if n != name {
                assert(s.clients[i].id == m && s.clients[i].joined.contains(n));
            }
        }
        if model::has_joined(s, m, n) {
            let j = choose|j: int|
                0 <= j < s.clients.len() && s.clients[j].id == m && s.clients[j].joined.contains(n);
            assert(s1.clients[j].id == m && s1.clients[j].joined.contains(n));
        }
        if m == id && n == name {
            assert(s1.clients[i].id == m && s1.clients[i].joined.contains(n));
        }
    }
    assert forall|m: ConnectionId, n: Seq<char>| #[trigger]
        model::is_member(s1, m, n) == model::is_member(sa, m, n) by {
        if model::is_member(s1, m, n) {
            let k = choose|k: int|
                0 <= k < s1.channels.len() && s1.channels[k].name == n && s1.channels[k].members.contains(m);
            assert(sa.channels[k].name == n && sa.channels[k].members.contains(m));
        }
        if model::is_member(sa, m, n) {
            let k = choose|k: int|
                0 <= k < sa.channels.len() && sa.channels[k].name == n && sa.channels[k].members.contains(m);
            assert(s1.channels[k].name == n && s1.channels[k].members.contains(m));
        }
    }
    assert forall|a: int, b: int|
        0 <= a < s1.clients.len() && 0 <= b < s1.clients.len() && a != b implies s1.clients[a].id
        != s1.clients[b].id by {
        assert(s.clients[a].id != s.clients[b].id);
    }
    assert forall|a: int, b: int|
        0 <= a < s1.clients.len() && 0 <= b < s1.clients.len() && a != b && s1.clients[a].nick is Some
            implies s1.clients[a].nick != s1.clients[b].nick by {
        assert(s.clients[a].nick != s.clients[b].nick);
    }
    assert forall|a: int| 0 <= a < s1.clients.len() implies s1.clients[a].joined.no_duplicates() by {
        if a != i {
            assert(s.clients[a].joined.no_duplicates());
        }
    }
    assert forall|a: int| 0 <= a < s1.clients.len() implies s1.clients[a].id < s1.next_id by {
        assert(s.clients[a].id < s.next_id);
    }
}

proof fn lemma_join_all_keeps_wf(s: StateView, id: ConnectionId, names: Seq<Seq<char>>)
    requires
        model::wf(s),
        model::has_client(s, id),
    ensures
        model::wf(model::join_all(s, id, names).0),
        model::has_client(model::join_all(s, id, names).0, id),
        forall|m: ConnectionId, n: Seq<char>| #[trigger]
            model::is_member(model::join_all(s, id, names).0, m, n) <==> (model::is_member(s, m, n)
                || (m == id && names.contains(n))),
    decreases names.len(),
{
    if names.len() > 0 {
        let init = names.drop_last();
        lemma_join_all_keeps_wf(s, id, init);
        lemma_join_one_keeps_wf(model::join_all(s, id, init).0, id, names.last());
        assert forall|n: Seq<char>| names.contains(n) <==> (init.contains(n) || n == names.last()) by {
            if names.contains(n) {
                let j = choose|j: int| 0 <= j < names.len() && names[j] == n;
                if j < init.len() {
                    assert(init[j] == n);
                }
            }
            if init.contains(n) {
                let j = choose|j: int| 0 <= j < init.len() && init[j] == n;
                assert(names[j] == n);
            }
            if n == names.last() {
                assert(names[names.len() - 1] == n);
            }
        }
    } else {
        assert forall|m: ConnectionId, n: Seq<char>| #[trigger]
            model::is_member(model::join_all(s, id, names).0, m, n) <==> (model::is_member(s, m, n)
                || (m == id && names.contains(n))) by {}
    }
}

proof fn lemma_join_keeps_wf(s: StateView, id: ConnectionId, params: Seq<Seq<char>>)
    requires
        model::wf(s),
    ensures
        model::wf(model::join_step(s, id, params).0),
{
    if model::registered_in(s, id) && params.len() > 0 {
        lemma_join_all_keeps_wf(s, id, model::join_targets(params[0]));
    }
}

/// Removing a member from a channel (dropping the channel once empty) removes exactly
/// that membership.
proof fn lemma_remove_member(s: StateView, k: int, id: ConnectionId)
    requires
        channels_ok(s.channels),
        0 <= k < s.channels.len(),
    ensures
        channels_ok(
            model::set_members(s.channels, k, model::remove_id(s.channels[k].members, id)),
        ),
        forall|m: ConnectionId, n: Seq<char>| #[trigger]
            model::is_member(
                model::with_channels(
                    s,
                    model::set_members(s.channels, k, model::remove_id(s.channels[k].members, id)),
                ),
                m,
                n,
            ) <==> (model::is_member(s, m, n) && !(m == id && n == s.channels[k].name)),
{
    let chs = s.channels;
    let ms = chs[k].members;
    let rest = model::remove_id(ms, id);
    let name = chs[k].name;
    lemma_remove_id(ms, id);
    let t = model::with_channels(s, model::set_members(chs, k, rest));
    if rest.len() == 0 {
        let cs = chs.remove(k);
        assert(t.channels == cs);
        assert forall|j: int| 0 <= j < cs.len() implies cs[j] == (if j < k {
            chs[j]
        } else {
            chs[j + 1]
        }) by {}
        assert forall|m: ConnectionId, n: Seq<char>| #[trigger]
            model::is_member(t, m, n) <==> (model::is_member(s, m, n) && !(m == id && n == name)) by {
            if model::is_member(t, m, n) {
                let j = choose|j: int|
                    0 <= j < cs.len() && cs[j].name == n && cs[j].members.contains(m);
                let jj = if j < k {
                    j
                } else {
                    j + 1
                };
                assert(chs[jj].name == n && chs[jj].members.contains(m));
                assert(jj != k);
                assert(chs[jj].name != name);
            }
            if model::is_member(s, m, n) && !(m == id && n == name) {
                let j = choose|j: int|
                    0 <= j < chs.len() && chs[j].name == n && chs[j].members.contains(m);
                if j == k {
                    assert(rest.contains(m));
                    assert(false);
                } else if j < k {
                    assert(cs[j].name == n && cs[j].members.contains(m));
                } else {
                    assert(cs[j - 1].name == n && cs[j - 1].members.contains(m));
                }
            }
        }
        assert forall|a: int, b: int|
            0 <= a < cs.len() && 0 <= b < cs.len() && a != b implies cs[a].name != cs[b].name by {
            let aa = if a < k {
                a
            } else {
                a + 1
            };
            let bb = if b < k {
                b
            } else {
                b + 1
            };
            assert(chs[aa].name != chs[bb].name);
        }
        assert forall|q: int| 0 <= q < cs.len() implies cs[q].members.len() > 0
            && cs[q].members.no_duplicates() by {
            let qq = if q < k {
                q
            } else {
                q + 1
            };
            assert(cs[q] == chs[qq]);
        }
    } else {
        let cs = chs.update(k, ChannelView { name, members: rest });
        assert(t.channels == cs);
        assert forall|m: ConnectionId, n: Seq<char>| #[trigger]
            model::is_member(t, m, n) <==> (model::is_member(s, m, n) && !(m == id && n == name)) by {
            if model::is_member(t, m, n) {
                let j = choose|j: int|
                    0 <= j < cs.len() && cs[j].name == n && cs[j].members.contains(m);
                if j != k {
                    assert(chs[j].name == n && chs[j].members.contains(m));
                    assert(chs[j].name != name);
                } else {
                    assert(chs[k].name == n && chs[k].members.contains(m));
                }
            }
            if model::is_member(s, m, n) && !(m == id && n == name) {
                let j = choose|j: int|
                    0 <= j < chs.len() && chs[j].name == n && chs[j].members.contains(m);
                if j == k {
                    assert(rest.contains(m));
                }
                assert(cs[j].name == n && cs[j].members.contains(m));
            }
        }
        assert forall|a: int, b: int|
            0 <= a < cs.len() && 0 <= b < cs.len() && a != b implies cs[a].name != cs[b].name by {
            assert(chs[a].name != chs[b].name);
        }
    }
}

/// `wf_shape`, with no client `id`, where every joined channel counts its client as a
/// member, and every member has joined the channel, but for `id` in the `pending` channels.
pub open spec fn wf_pending(s: StateView, id: ConnectionId, pending: Set<Seq<char>>) -> bool {
    &&& model::wf_shape(s)
    &&& forall|i: int| 0 <= i < s.clients.len() ==> s.clients[i].id != id
    &&& forall|m: ConnectionId, n: Seq<char>| #[trigger]
        model::has_joined(s, m, n) ==> model::is_member(s, m, n)
    &&& forall|m: ConnectionId, n: Seq<char>| #[trigger]
        model::is_member(s, m, n) ==> model::has_joined(s, m, n) || (m == id && pending.contains(n))
}

proof fn lemma_leave_one(s: StateView, id: ConnectionId, name: Seq<char>, line: Seq<char>, pending: Set<
    Seq<char>,
>)
    requires
        wf_pending(s, id, pending),
    ensures
        wf_pending(model::leave_one(s, id, name, line).0, id, pending.remove(name)),
{
    lemma_find_channel_none(s, name);
    let t = model::leave_one(s, id, name, line).0;
    if model::has_channel(s, name) {
        let k = model::find_channel(s, name);
        lemma_remove_member(s, k, id);
        lemma_same_joined(t, s);
        assert forall|m: ConnectionId, n: Seq<char>| #[trigger]
            model::has_joined(t, m, n) implies model::is_member(t, m, n) by {
            assert(model::has_joined(s, m, n));
            assert(model::is_member(s, m, n));
            let i = choose|i: int|
                0 <= i < s.clients.len() && s.clients[i].id == m && s.clients[i].joined.contains(n);
            assert(m != id);
        }
        assert forall|m: ConnectionId, n: Seq<char>| #[trigger]
            model::is_member(t, m, n) implies model::has_joined(t, m, n) || (m == id
            && pending.remove(name).contains(n)) by {
            assert(model::is_member(s, m, n));
        }
    } else {
        assert forall|m: ConnectionId, n: Seq<char>| #[trigger]
            model::is_member(t, m, n) implies model::has_joined(t, m, n) || (m == id
            && pending.remove(name).contains(n)) by {
            if n == name {
                let k = choose|k: int|
                    0 <= k < s.channels.len() && s.channels[k].name == n
                        && s.channels[k].members.contains(m);
                assert(s.channels[k].name != name);
            }
        }
    }
}

proof fn lemma_leave_all(s: StateView, id: ConnectionId, names: Seq<Seq<char>>, line: Seq<char>, pending: Set<
    Seq<char>,
>)
    requires
        wf_pending(s, id, pending),
    ensures
        wf_pending(model::leave_all(s, id, names, line).0, id, pending.difference(names.to_set())),
    decreases names.len(),
{
    if names.len() == 0 {
        assert(pending.difference(names.to_set()) =~= pending);
    } else {
        let init = names.drop_last();
        lemma_leave_all(s, id, init, line, pending);
        let p1 = pending.difference(init.to_set());
        lemma_leave_one(model::leave_all(s, id, init, line).0, id, names.last(), line, p1);
        assert(names == init.push(names.last()));
        assert(names.to_set() =~= init.to_set().insert(names.last())) by {
            assert forall|n: Seq<char>| names.to_set().contains(n) <==> init.to_set().insert(
                names.last(),
            ).contains(n) by {
                if names.contains(n) {
                    let j = choose|j: int| 0 <= j < names.len() && names[j] == n;
                    if j < init.len() {
                        assert(init[j] == n);
                    }
                }
                if init.contains(n) {
                    let j = choose|j: int| 0 <= j < init.len() && init[j] == n;
                    assert(names[j] == n);
                }
                if n == names.last() {
                    assert(names[names.len() - 1] == n);
                }
            }
        }
        assert(p1.remove(names.last()) =~= pending.difference(names.to_set()));
    }
}

pub proof fn lemma_quit_keeps_wf(s: StateView, id: ConnectionId, reason: Seq<char>)
    requires
        model::wf(s),
    ensures
        model::wf(model::quit_step(s, id, reason).0),
        !model::has_client(model::quit_step(s, id, reason).0, id),
        forall|n: Seq<char>| !model::is_member(model::quit_step(s, id, reason).0, id, n),
{
    lemma_find_client_none(s, id);
    if model::has_client(s, id) {
        let i = model::find_client(s, id);
        let c = s.clients[i];
        let s1 = StateView { clients: s.clients.remove(i), ..s };
        let cs = s1.clients;
        assert forall|j: int| 0 <= j < cs.len() implies cs[j] == (if j < i {
            s.clients[j]
        } else {
            s.clients[j + 1]
        }) by {}
        assert forall|a: int, b: int|
            0 <= a < cs.len() && 0 <= b < cs.len() && a != b implies cs[a].id != cs[b].id by {
            let aa = if a < i {
                a
            } else {
                a + 1
            };
            let bb = if b < i {
                b
            } else {
                b + 1
            };
            assert(s.clients[aa].id != s.clients[bb].id);
        }
        assert forall|a: int, b: int|
            0 <= a < cs.len() && 0 <= b < cs.len() && a != b && cs[a].nick is Some implies cs[a].nick
            != cs[b].nick by {
            let aa = if a < i {
                a
            } else {
                a + 1
            };
            let bb = if b < i {
                b
            } else {
                b + 1
            };
            assert(s.clients[aa].nick != s.clients[bb].nick);
        }
        assert forall|a: int| 0 <= a < cs.len() implies cs[a].id != id && cs[a].id < s1.next_id
            && cs[a].joined.no_duplicates() by {
            let aa = if a < i {
                a
            } else {
                a + 1
            };
            assert(s.clients[aa].id != s.clients[i].id);
            assert(s.clients[aa].id < s.next_id);
            assert(s.clients[aa].joined.no_duplicates());
        }
        lemma_same_members(s1, s);
        let pending = c.joined.to_set();
        assert forall|m: ConnectionId, n: Seq<char>| #[trigger]
            model::has_joined(s1, m, n) implies model::is_member(s1, m, n) by {
            let j = choose|j: int| 0 <= j < cs.len() && cs[j].id == m && cs[j].joined.contains(n);
            let jj = if j < i {
                j
            } else {
                j + 1
            };
            assert(s.clients[jj].id == m && s.clients[jj].joined.contains(n));
        }
        assert forall|m: ConnectionId, n: Seq<char>| #[trigger]
            model::is_member(s1, m, n) implies model::has_joined(s1, m, n) || (m == id
            && pending.contains(n)) by {
            assert(model::has_joined(s, m, n));
            let j = choose|j: int|
                0 <= j < s.clients.len() && s.clients[j].id == m && s.clients[j].joined.contains(n);
            if j == i {
                assert(pending.contains(n));
            } else {
                let jj = if j < i {
                    j
                } else {
                    j - 1
                };
                assert(cs[jj].id == m && cs[jj].joined.contains(n));
            }
        }
        assert(wf_pending(s1, id, pending));
        let line = model::event_line(model::prefix_of(c), "QUIT"@, reason);
        lemma_leave_all(s1, id, c.joined, line, pending);
        let t = model::leave_all(s1, id, c.joined, line).0;
        assert(pending.difference(c.joined.to_set()) =~= Set::empty());
        assert forall|m: ConnectionId, n: Seq<char>| #[trigger]
            model::is_member(t, m, n) implies model::has_joined(t, m, n) by {}
        lemma_find_client_none(t, id);
        assert forall|n: Seq<char>| !model::is_member(t, id, n) by {
            if model::is_member(t, id, n) {
                assert(model::has_joined(t, id, n));
                let j = choose|j: int|
                    0 <= j < t.clients.len() && t.clients[j].id == id && t.clients[j].joined.contains(n);
            }
        }
    } else {
        assert forall|n: Seq<char>| !model::is_member(s, id, n) by {
            if model::is_member(s, id, n) {
                assert(model::has_joined(s, id, n));
                let j = choose|j: int|
                    0 <= j < s.clients.len() && s.clients[j].id == id && s.clients[j].joined.contains(n);
            }
        }
    }
}

proof fn lemma_part_keeps_wf(s: StateView, id: ConnectionId, params: Seq<Seq<char>>)
    requires
        model::wf(s),
    ensures
        model::wf(model::part_step(s, id, params).0),
        params.len() > 0 ==> forall|m: ConnectionId, n: Seq<char>| #[trigger]
            model::is_member(model::part_step(s, id, params).0, m, n) <==> (model::is_member(s, m, n)
                && !(m == id && n == params[0])),
{
    if params.len() > 0 {
        let name = params[0];
        lemma_find_channel_none(s, name);
        let s1 = if model::has_channel(s, name) {
            let k = model::find_channel(s, name);
            lemma_remove_member(s, k, id);
            model::with_channels(
                s,
                model::set_members(s.channels, k, model::remove_id(s.channels[k].members, id)),
            )
        } else {
            s
        };
        // The memberships of the client in the channel are gone, and only those.
        assert forall|m: ConnectionId, n: Seq<char>| #[trigger]
            model::is_member(s1, m, n) <==> (model::is_member(s, m, n) && !(m == id && n == name)) by {
            if !model::has_channel(s, name) && model::is_member(s, m, n) && n == name {
                let k = choose|k: int|
                    0 <= k < s.channels.len() && s.channels[k].name == n
                        && s.channels[k].members.contains(m);
                assert(s.channels[k].name != name);
            }
        }
        lemma_same_joined(s1, s);
        lemma_find_client_none(s1, id);
        let s2 = model::part_step(s, id, params).0;
        lemma_same_members(s2, s1);
        if model::has_client(s1, id) {
            let i = model::find_client(s1, id);
            let c = s1.clients[i];
            lemma_remove_name(c.joined, name);
            assert(s2 == model::with_client(
                s1,
                i,
                ClientView { joined: model::remove_name(c.joined, name), ..c },
            ));
            assert forall|m: ConnectionId, n: Seq<char>| #[trigger]
                model::has_joined(s2, m, n) <==> (model::has_joined(s1, m, n) && !(m == id && n
                    == name)) by {
                if model::has_joined(s2, m, n) {
                    let j = choose|j: int|
                        0 <= j < s2.clients.len() && s2.clients[j].id == m
                            && s2.clients[j].joined.contains(n);
                    assert(s1.clients[j].id == m && s1.clients[j].joined.contains(n));
                }
                if model::has_joined(s1, m, n) && !(m == id && n == name) {
                    let j = choose|j: int|
                        0 <= j < s1.clients.len() && s1.clients[j].id == m
                            && s1.clients[j].joined.contains(n);
                    if j == i {
                        assert(s2.clients[i].joined.contains(n));
                    } else {
                        assert(s2.clients[j].id == m && s2.clients[j].joined.contains(n));
                    }
                }
                if model::has_joined(s2, m, n) && m == id && n == name {
                    let j = choose|j: int|
                        0 <= j < s2.clients.len() && s2.clients[j].id == m
                            && s2.clients[j].joined.contains(n);
                    if j != i {
                        assert(s1.clients[j].id != s1.clients[i].id);
                    }
                }
            }
            lemma_same_members(s2, s1);
            assert forall|a: int, b: int|
                0 <= a < s2.clients.len() && 0 <= b < s2.clients.len() && a != b implies s2.clients[a].id
                != s2.clients[b].id by {
                assert(s.clients[a].id != s.clients[b].id);
            }
            assert forall|a: int, b: int|
                0 <= a < s2.clients.len() && 0 <= b < s2.clients.len() && a != b
                    && s2.clients[a].nick is Some implies s2.clients[a].nick != s2.clients[b].nick by {
                assert(s.clients[a].nick != s.clients[b].nick);
            }
            assert forall|a: int| 0 <= a < s2.clients.len() implies s2.clients[a].joined.no_duplicates()
                && s2.clients[a].id < s2.next_id by {
                assert(s.clients[a].joined.no_duplicates());
                assert(s.clients[a].id < s.next_id);
            }
        } else {
            assert forall|m: ConnectionId, n: Seq<char>| #[trigger]
                model::has_joined(s2, m, n) implies !(m == id && n == name) by {
                let j = choose|j: int|
                    0 <= j < s2.clients.len() && s2.clients[j].id == m && s2.clients[j].joined.contains(n);
                assert(s1.clients[j].id != id);
            }
        }
    }
}

/// Every line keeps the invariant of the server state.
pub proof fn lemma_line_keeps_wf(s: StateView, id: ConnectionId, line: Seq<char>)
    requires
        model::wf(s),
    ensures
        model::wf(model::line_step(s, id, line).0),
{
    match protocol::spec_parse(line) {
        Some(m) => {
            let cmd = m.command;
            let ps = m.params;
            if cmd == "CAP"@ {
                lemma_cap_keeps_wf(s, id, ps);
            } else if cmd == "PASS"@ {
            } else if cmd == "NICK"@ {
                lemma_nick_keeps_wf(s, id, ps);
            } else if cmd == "USER"@ {
                lemma_user_keeps_wf(s, id, ps);
            } else if cmd == "JOIN"@ {
                lemma_join_keeps_wf(s, id, ps);
            } else if cmd == "PART"@ {
                lemma_part_keeps_wf(s, id, ps);
            } else if cmd == "PRIVMSG"@ || cmd == "NOTICE"@ {
            } else if cmd == "QUIT"@ {
                lemma_quit_keeps_wf(
                    s,
                    id,
                    if ps.len() > 0 {
                        ps[0]
                    } else {
                        "Client quit"@
                    },
                );
            }
        },
        None => {},
    }
}

/// A new server is in the invariant.
pub proof fn lemma_initial_wf()
    ensures
        model::wf(server::initial_state()),
{
    let s = server::initial_state();
    assert forall|m: ConnectionId, n: Seq<char>| #[trigger]
        model::is_member(s, m, n) <==> model::has_joined(s, m, n) by {}
}

// ---------------------------------------------------------------------------
// Parsing
// ---------------------------------------------------------------------------
proof fn lemma_upper_idempotent(x: Seq<char>)
    ensures
        text::upper(text::upper(x)) == text::upper(x),
{
    assert(text::upper(text::upper(x)) =~= text::upper(x));
}

/// The command of a parsed message is in upper case.
pub proof fn lemma_parsed_command_is_upper(input: Seq<char>)
    ensures
        protocol::spec_parse(input) matches Some(m) ==> text::upper(m.command) == m.command,
{
    let l = text::trim_crlf(input);
    if !text::all_ws(l) {
        let r = if l[0] == ':' {
            text::skip_ws(l, text::char_from(l, 1, ' ') + 1)
        } else {
            0
        };
        let sp = text::char_from(l, r, ' ');
        if sp < l.len() {
            lemma_upper_idempotent(l.subrange(r, sp));
        } else {
            lemma_upper_idempotent(l.subrange(r, l.len() as int));
        }
    }
}

proof fn lemma_skip_crlf_extended(s: Seq<char>, t: Seq<char>, i: int)
    requires
        0 <= i <= s.len(),
        t == s + seq!['\r', '\n'],
    ensures
        text::skip_crlf(s, i) < s.len() ==> text::skip_crlf(t, i) == text::skip_crlf(s, i),
        text::skip_crlf(s, i) >= s.len() ==> text::skip_crlf(t, i) == t.len(),
    decreases s.len() - i,
{
    if i < s.len() {
        assert(t[i] == s[i]);
        if text::is_crlf(s[i]) {
            lemma_skip_crlf_extended(s, t, i + 1);
        }
    } else {
        assert(t[i] == '\r');
        assert(t[i + 1] == '\n');
        assert(text::skip_crlf(t, i + 2) == i + 2);
        assert(text::skip_crlf(t, i + 1) == i + 2);
        assert(text::skip_crlf(t, i) == i + 2);
    }
}

proof fn lemma_back_crlf_extended(s: Seq<char>, t: Seq<char>, j: int)
    requires
        0 <= j <= s.len(),
        t == s + seq!['\r', '\n'],
    ensures
        text::back_crlf(t, j) == text::back_crlf(s, j),
    decreases j,
{
    if j > 0 {
        assert(t[j - 1] == s[j - 1]);
        lemma_back_crlf_extended(s, t, j - 1);
    }
}

/// A line ending after a line changes nothing of what the line holds.
pub proof fn lemma_parse_ignores_line_ending(s: Seq<char>)
    ensures
        protocol::spec_parse(s + seq!['\r', '\n']) == protocol::spec_parse(s),
{
    let t = s + seq!['\r', '\n'];
    lemma_skip_crlf_extended(s, t, 0);
    lemma_back_crlf_extended(s, t, s.len() as int);
    assert(t[t.len() - 1] == '\n');
    assert(t[t.len() - 2] == '\r');
    assert(text::back_crlf(t, t.len() - 1) == text::back_crlf(t, s.len() as int));
    assert(text::back_crlf(t, t.len() as int) == text::back_crlf(t, t.len() - 1));
    text::lemma_back_crlf_bounds(s, s.len() as int);
    text::lemma_skip_crlf_bounds(s, 0);
    if text::skip_crlf(s, 0) < s.len() {
        let a = text::skip_crlf(s, 0);
        let b = text::back_crlf(s, s.len() as int);
        assert(t.subrange(a, b) =~= s.subrange(a, b));
    }
    assert(text::trim_crlf(t) == text::trim_crlf(s));
}

// ---------------------------------------------------------------------------
// Channels
// ---------------------------------------------------------------------------
/// After `JOIN`, a registered client is a member of each `#`-channel it named, and no
/// other membership changes.
pub proof fn lemma_join_makes_member(s: StateView, id: ConnectionId, params: Seq<Seq<char>>)
    requires
        model::wf(s),
        model::registered_in(s, id),
        params.len() > 0,
    ensures
        forall|m: ConnectionId, n: Seq<char>| #[trigger]
            model::is_member(model::join_step(s, id, params).0, m, n) <==> (model::is_member(s, m, n)
                || (m == id && model::join_targets(params[0]).contains(n))),
{
    lemma_join_all_keeps_wf(s, id, model::join_targets(params[0]));
}

/// After `PART #c`, the client is no longer a member of `#c`, and no other membership
/// changes.
pub proof fn lemma_part_removes_member(s: StateView, id: ConnectionId, params: Seq<Seq<char>>)
    requires
        model::wf(s),
        params.len() > 0,
    ensures
        forall|m: ConnectionId, n: Seq<char>| #[trigger]
            model::is_member(model::part_step(s, id, params).0, m, n) <==> (model::is_member(s, m, n)
                && !(m == id && n == params[0])),
        !model::is_member(model::part_step(s, id, params).0, id, params[0]),
{
    lemma_part_keeps_wf(s, id, params);
}

/// After `QUIT` (or a closed connection), the client is gone and a member of no channel.
pub proof fn lemma_quit_removes_client(s: StateView, id: ConnectionId, reason: Seq<char>)
    requires
        model::wf(s),
    ensures
        !model::has_client(model::quit_step(s, id, reason).0, id),
        forall|n: Seq<char>| !model::is_member(model::quit_step(s, id, reason).0, id, n),
{
    lemma_quit_keeps_wf(s, id, reason);
}

/// A message to a channel goes, once each, to exactly the members of the channel other
/// than the sender.
pub proof fn lemma_channel_message_recipients(
    s: StateView,
    id: ConnectionId,
    params: Seq<Seq<char>>,
    is_notice: bool,
)
    requires
        model::wf(s),
        params.len() >= 2,
        params[0].len() > 0,
        params[0][0] == '#',
    ensures
        ({
            let outs = model::privmsg_outs(s, id, params, is_notice);
            let rs = model::remove_id(model::members_of(s, params[0]), id);
            &&& outs.len() == rs.len()
            &&& forall|k: int| 0 <= k < outs.len() ==> outs[k].0 == rs[k] && outs[k].1 == outs[0].1
            &&& rs.no_duplicates()
            &&& forall|t: ConnectionId| #[trigger]
                rs.contains(t) <==> (model::is_member(s, t, params[0]) && t != id)
        }),
{
    let name = params[0];
    let ms = model::members_of(s, name);
    lemma_remove_id(ms, id);
    lemma_find_channel_none(s, name);
    if model::has_channel(s, name) {
        let k = model::find_channel(s, name);
        assert forall|t: ConnectionId| model::is_member(s, t, name) <==> ms.contains(t) by {
            if model::is_member(s, t, name) {
                let j = choose|j: int|
                    0 <= j < s.channels.len() && s.channels[j].name == name
                        && s.channels[j].members.contains(t);
                if j != k {
                    assert(s.channels[j].name != s.channels[k].name);
                }
            }
            if ms.contains(t) {
                assert(s.channels[k].name == name && s.channels[k].members.contains(t));
            }
        }
    } else {
        assert forall|t: ConnectionId| !model::is_member(s, t, name) by {
            if model::is_member(s, t, name) {
                let j = choose|j: int|
                    0 <= j < s.channels.len() && s.channels[j].name == name
                        && s.channels[j].members.contains(t);
            }
        }
        assert(ms.no_duplicates());
    }
}

// ---------------------------------------------------------------------------
// Registration
// ---------------------------------------------------------------------------
/// No client appears, and a registered client that is still there is still registered.
pub open spec fn keeps_registration(s: StateView, t: StateView) -> bool {
    forall|c: ConnectionId| #[trigger]
        model::has_client(t, c) ==> model::has_client(s, c) && (model::registered_in(s, c)
            ==> model::registered_in(t, c))
}

proof fn lemma_keeps_same_clients(s: StateView, t: StateView)
    requires
        t.clients == s.clients,
    ensures
        keeps_registration(s, t),
{
}

proof fn lemma_keeps_trans(s: StateView, t: StateView, u: StateView)
    requires
        keeps_registration(s, t),
        keeps_registration(t, u),
    ensures
        keeps_registration(s, u),
{
    assert forall|c: ConnectionId| #[trigger] model::has_client(u, c) implies model::has_client(s, c)
        && (model::registered_in(s, c) ==> model::registered_in(u, c)) by {
        assert(model::has_client(t, c));
    }
}

proof fn lemma_keeps_with_client(s: StateView, i: int, c: ClientView)
    requires
        0 <= i < s.clients.len(),
        c.id == s.clients[i].id,
        s.clients[i].registered ==> c.registered,
    ensures
        keeps_registration(s, model::with_client(s, i, c)),
{
    let t = model::with_client(s, i, c);
    assert forall|x: ConnectionId| #[trigger] model::has_client(t, x) implies model::has_client(s, x)
        && (model::registered_in(s, x) ==> model::registered_in(t, x)) by {
        state::lemma_client_index_same_ids(t.clients, s.clients, x, 0);
        lemma_find_client_none(s, x);
        let j = model::find_client(s, x);
        assert(model::find_client(t, x) == j);
        if j != i {
            assert(t.clients[j] == s.clients[j]);
        }
    }
}

proof fn lemma_registration_keeps(s: StateView, id: ConnectionId)
    ensures
        keeps_registration(s, model::complete_registration(s, id).0),
{
    lemma_find_client_none(s, id);
    if model::has_client(s, id) && model::ready_to_register(model::client_of(s, id)) {
        let i = model::find_client(s, id);
        lemma_keeps_with_client(s, i, ClientView { registered: true, ..s.clients[i] });
    }
}

proof fn lemma_cap_keeps(s: StateView, id: ConnectionId, params: Seq<Seq<char>>)
    ensures
        keeps_registration(s, model::cap_step(s, id, params).0),
{
    lemma_find_client_none(s, id);
    if params.len() > 0 && text::upper(params[0]) != "LS"@ && text::upper(params[0]) == "END"@ {
        if model::has_client(s, id) {
            let i = model::find_client(s, id);
            let c = ClientView { cap_active: false, ..s.clients[i] };
            lemma_keeps_with_client(s, i, c);
            let s1 = model::with_client(s, i, c);
            lemma_registration_keeps(s1, id);
            lemma_keeps_trans(s, s1, model::complete_registration(s1, id).0);
        } else {
            lemma_registration_keeps(s, id);
        }
    }
}

proof fn lemma_user_keeps(s: StateView, id: ConnectionId, params: Seq<Seq<char>>)
    ensures
        keeps_registration(s, model::user_step(s, id, params).0),
{
    lemma_find_client_none(s, id);
    if params.len() >= 4 {
        if model::has_client(s, id) {
            let i = model::find_client(s, id);
            let c = ClientView { user: Some(params[0]), real_name: Some(params[3]), ..s.clients[i] };
            lemma_keeps_with_client(s, i, c);
            let s1 = model::with_client(s, i, c);
            lemma_registration_keeps(s1, id);
            lemma_keeps_trans(s, s1, model::complete_registration(s1, id).0);
        } else {
            lemma_registration_keeps(s, id);
        }
    }
}

proof fn lemma_nick_keeps(s: StateView, id: ConnectionId, params: Seq<Seq<char>>)
    ensures
        keeps_registration(s, model::nick_step(s, id, params).0),
{
    lemma_find_client_none(s, id);
    if params.len() > 0 && !model::nick_taken(s, id, params[0]) && model::has_client(s, id) {
        let i = model::find_client(s, id);
        let c = ClientView { nick: Some(params[0]), ..s.clients[i] };
        lemma_keeps_with_client(s, i, c);
        let s1 = model::with_client(s, i, c);
        lemma_registration_keeps(s1, id);
        lemma_keeps_trans(s, s1, model::complete_registration(s1, id).0);
    }
}

proof fn lemma_join_all_keeps(s: StateView, id: ConnectionId, names: Seq<Seq<char>>)
    requires
        model::wf(s),
        model::has_client(s, id),
    ensures
        keeps_registration(s, model::join_all(s, id, names).0),
    decreases names.len(),
{
    if names.len() > 0 {
        let init = names.drop_last();
        lemma_join_all_keeps(s, id, init);
        lemma_join_all_keeps_wf(s, id, init);
        let s1 = model::join_all(s, id, init).0;
        lemma_find_client_none(s1, id);
        let i = model::find_client(s1, id);
        let c = s1.clients[i];
        let sa = model::with_channels(s1, model::add_member(s1.channels, names.last(), id));
        lemma_keeps_same_clients(s1, sa);
        lemma_keeps_with_client(sa, i, ClientView { joined: model::insert_new(c.joined, names.last()), ..c });
        lemma_keeps_trans(s1, sa, model::join_one(s1, id, names.last()).0);
        lemma_keeps_trans(s, s1, model::join_one(s1, id, names.last()).0);
    } else {
        lemma_keeps_same_clients(s, s);
    }
}

proof fn lemma_part_keeps(s: StateView, id: ConnectionId, params: Seq<Seq<char>>)
    ensures
        keeps_registration(s, model::part_step(s, id, params).0),
{
    if params.len() > 0 {
        let name = params[0];
        let s1 = if model::has_channel(s, name) {
            let k = model::find_channel(s, name);
            model::with_channels(
                s,
                model::set_members(s.channels, k, model::remove_id(s.channels[k].members, id)),
            )
        } else {
            s
        };
        lemma_keeps_same_clients(s, s1);
        lemma_find_client_none(s1, id);
        if model::has_client(s1, id) {
            let i = model::find_client(s1, id);
            lemma_keeps_with_client(
                s1,
                i,
                ClientView { joined: model::remove_name(s1.clients[i].joined, name), ..s1.clients[i] },
            );
            lemma_keeps_trans(s, s1, model::part_step(s, id, params).0);
        }
    }
}

proof fn lemma_leave_all_clients(s: StateView, id: ConnectionId, names: Seq<Seq<char>>, line: Seq<char>)
    ensures
        model::leave_all(s, id, names, line).0.clients == s.clients,
    decreases names.len(),
{
    if names.len() > 0 {
        lemma_leave_all_clients(s, id, names.drop_last(), line);
    }
}

proof fn lemma_quit_keeps(s: StateView, id: ConnectionId, reason: Seq<char>)
    requires
        model::wf_shape(s),
    ensures
        keeps_registration(s, model::quit_step(s, id, reason).0),
{
    lemma_find_client_none(s, id);
    if model::has_client(s, id) {
        let i = model::find_client(s, id);
        let c = s.clients[i];
        let s1 = StateView { clients: s.clients.remove(i), ..s };
        let line = model::event_line(model::prefix_of(c), "QUIT"@, reason);
        lemma_leave_all_clients(s1, id, c.joined, line);
        let t = model::quit_step(s, id, reason).0;
        assert(t.clients == s1.clients);
        assert forall|x: ConnectionId| #[trigger] model::has_client(t, x) implies model::has_client(s, x)
            && (model::registered_in(s, x) ==> model::registered_in(t, x)) by {
            lemma_find_client_none(t, x);
            let j = model::find_client(t, x);
            let jj = if j < i {
                j
            } else {
                j + 1
            };
            assert(t.clients[j] == s.clients[jj]);
            lemma_find_client_at(s, x, jj);
        }
    } else {
        lemma_keeps_same_clients(s, s);
    }
}

/// No line adds a client, and a registered client stays registered for as long as it is
/// connected: the welcome numerics, which only an unregistered client gets, come once.
pub proof fn lemma_line_keeps_registration(s: StateView, id: ConnectionId, line: Seq<char>)
    requires
        model::wf(s),
    ensures
        keeps_registration(s, model::line_step(s, id, line).0),
{
    lemma_keeps_same_clients(s, s);
    match protocol::spec_parse(line) {
        Some(m) => {
            let cmd = m.command;
            let ps = m.params;
            if cmd == "CAP"@ {
                lemma_cap_keeps(s, id, ps);
            } else if cmd == "PASS"@ {
            } else if cmd == "NICK"@ {
                lemma_nick_keeps(s, id, ps);
            } else if cmd == "USER"@ {
                lemma_user_keeps(s, id, ps);
            } else if cmd == "JOIN"@ {
                if model::registered_in(s, id) && ps.len() > 0 {
                    lemma_join_all_keeps(s, id, model::join_targets(ps[0]));
                }
            } else if cmd == "PART"@ {
                lemma_part_keeps(s, id, ps);
            } else if cmd == "PRIVMSG"@ || cmd == "NOTICE"@ {
            } else if cmd == "QUIT"@ {
                lemma_quit_keeps(
                    s,
                    id,
                    if ps.len() > 0 {
                        ps[0]
                    } else {
                        "Client quit"@
                    },
                );
            }
        },
        None => {},
    }
}

// ---------------------------------------------------------------------------
// Nick changes
// ---------------------------------------------------------------------------
proof fn lemma_add_new(acc: Seq<ConnectionId>, ms: Seq<ConnectionId>, skip: ConnectionId)
    ensures
        forall|t: ConnectionId| #[trigger]
            model::add_new(acc, ms, skip).contains(t) <==> (acc.contains(t) || (ms.contains(t) && t
                != skip)),
        acc.no_duplicates() ==> model::add_new(acc, ms, skip).no_duplicates(),
    decreases ms.len(),
{
    if ms.len() > 0 {
        let init = ms.drop_last();
        lemma_add_new(acc, init, skip);
        let a = model::add_new(acc, init, skip);
        let m = ms.last();
        assert forall|t: ConnectionId| ms.contains(t) <==> (init.contains(t) || t == m) by {
            if ms.contains(t) {
                let j = choose|j: int| 0 <= j < ms.len() && ms[j] == t;
                if j < init.len() {
                    assert(init[j] == t);
                }
            }
            if init.contains(t) {
                let j = choose|j: int| 0 <= j < init.len() && init[j] == t;
                assert(ms[j] == t);
            }
            if t == m {
                assert(ms[ms.len() - 1] == t);
            }
        }
        if !(m == skip || a.contains(m)) {
            lemma_insert_new(a, m);
        }
    }
}

proof fn lemma_peers_through(s: StateView, chans: Seq<Seq<char>>, skip: ConnectionId)
    ensures
        model::peers_through(s, chans, skip).no_duplicates(),
        forall|t: ConnectionId| #[trigger]
            model::peers_through(s, chans, skip).contains(t) <==> (t != skip && exists|j: int|
                0 <= j < chans.len() && model::members_of(s, chans[j]).contains(t)),
    decreases chans.len(),
{
    if chans.len() > 0 {
        let init = chans.drop_last();
        lemma_peers_through(s, init, skip);
        lemma_add_new(model::peers_through(s, init, skip), model::members_of(s, chans.last()), skip);
        assert forall|t: ConnectionId| #[trigger]
            model::peers_through(s, chans, skip).contains(t) <==> (t != skip && exists|j: int|
                0 <= j < chans.len() && model::members_of(s, chans[j]).contains(t)) by {
            if t != skip && exists|j: int|
                0 <= j < chans.len() && model::members_of(s, chans[j]).contains(t) {
                let j = choose|j: int|
                    0 <= j < chans.len() && model::members_of(s, chans[j]).contains(t);
                if j < init.len() {
                    assert(model::members_of(s, init[j]).contains(t));
                }
            }
            if model::peers_through(s, init, skip).contains(t) {
                let j = choose|j: int|
                    0 <= j < init.len() && model::members_of(s, init[j]).contains(t);
                assert(model::members_of(s, chans[j]).contains(t));
            }
        }
    } else {
        assert(model::peers_through(s, chans, skip) =~= Seq::<ConnectionId>::empty());
    }
}

/// A nick change is announced once to each other client that shares a channel with the
/// client, and to no one else.
pub proof fn lemma_nick_change_reaches_peers_once(s: StateView, id: ConnectionId)
    ensures
        model::visible_peers(s, id).no_duplicates(),
        forall|t: ConnectionId| #[trigger]
            model::visible_peers(s, id).contains(t) <==> (model::has_client(s, id) && t != id
                && exists|n: Seq<char>| #[trigger]
                model::client_of(s, id).joined.contains(n) && model::members_of(s, n).contains(t)),
{
    if model::has_client(s, id) {
        let js = model::client_of(s, id).joined;
        lemma_peers_through(s, js, id);
        assert forall|t: ConnectionId| #[trigger]
            model::visible_peers(s, id).contains(t) <==> (t != id && exists|n: Seq<char>| #[trigger]
                js.contains(n) && model::members_of(s, n).contains(t)) by {
            if exists|j: int| 0 <= j < js.len() && model::members_of(s, js[j]).contains(t) {
                let j = choose|j: int| 0 <= j < js.len() && model::members_of(s, js[j]).contains(t);
                assert(js.contains(js[j]));
            }
            if exists|n: Seq<char>| #[trigger] js.contains(n) && model::members_of(s, n).contains(t) {
                let n = choose|n: Seq<char>| #[trigger] js.contains(n) && model::members_of(s, n).contains(t);
                let j = choose|j: int| 0 <= j < js.len() && js[j] == n;
                assert(model::members_of(s, js[j]).contains(t));
            }
        }
    }
}

/// When a client that already has a nick takes a free one, each other client that shares
/// a channel with it gets the `NICK` line whose source is its old nick, its user name and
/// `@localhost`, and every line sent to another client is that line.
pub proof fn lemma_nick_change_announced(s: StateView, id: ConnectionId, params: Seq<Seq<char>>)
    requires
        model::has_client(s, id),
        model::client_of(s, id).nick is Some,
        params.len() > 0,
        !model::nick_taken(s, id, params[0]),
    ensures
        ({
            let outs = model::nick_step(s, id, params).1;
            let line = line_from(source_of(model::client_of(s, id)), "NICK"@, seq![params[0]]);
            &&& forall|k: int|
                0 <= k < outs.len() && (#[trigger] outs[k]).0 != id ==> outs[k].1 == line
            &&& forall|t: ConnectionId, n: Seq<char>|
                #![trigger model::client_of(s, id).joined.contains(n), model::members_of(s, n).contains(t)]
                t != id && model::client_of(s, id).joined.contains(n) && model::members_of(
                    s,
                    n,
                ).contains(t) ==> outs.contains((t, line))
        }),
{
    lemma_find_client_none(s, id);
    let i = model::find_client(s, id);
    let c = s.clients[i];
    let nick = params[0];
    let s1 = model::with_client(s, i, ClientView { nick: Some(nick), ..c });
    state::lemma_client_index_update_same_id(s.clients, i, ClientView { nick: Some(nick), ..c }, id);
    assert(model::find_client(s1, id) == i);
    let line = line_from(source_of(c), "NICK"@, seq![nick]);
    assert(model::prefix_of(c) == source_of(c));
    assert(model::event_line(model::prefix_of(c), "NICK"@, nick) == line);
    let vp = model::visible_peers(s1, id);
    let announce = model::broadcast(vp, line);
    let w = model::complete_registration(s1, id).1;
    let outs = model::nick_step(s, id, params).1;
    assert(outs == announce + w);
    assert forall|k: int| 0 <= k < w.len() implies (#[trigger] w[k]).0 == id by {}
    lemma_peers_through(s1, c.joined, id);
    assert forall|k: int|
        0 <= k < outs.len() && (#[trigger] outs[k]).0 != id implies outs[k].1 == line by {
        if k >= announce.len() {
            assert(outs[k] == w[k - announce.len()]);
        } else {
            assert(outs[k] == (vp[k], line));
        }
    }
    assert forall|t: ConnectionId, n: Seq<char>|
        #![trigger model::client_of(s, id).joined.contains(n), model::members_of(s, n).contains(t)]
        t != id && c.joined.contains(n) && model::members_of(s, n).contains(t) implies outs.contains(
        (t, line),
    ) by {
        let j = choose|j: int| 0 <= j < c.joined.len() && c.joined[j] == n;
        assert(model::members_of(s1, c.joined[j]) == model::members_of(s, n));
        assert(vp.contains(t));
        let q = choose|q: int| 0 <= q < vp.len() && vp[q] == t;
        assert(outs[q] == (t, line));
    }
}

// ---------------------------------------------------------------------------
// Metrics
// ---------------------------------------------------------------------------
/// The number of opens, closes or lines among the events.
pub open spec fn count_of(evs: Seq<MetricEvent>, e: MetricEvent) -> nat
    decreases evs.len(),
{
    if evs.len() == 0 {
        0
    } else {
        count_of(evs.drop_last(), e) + if evs.last() == e {
            1nat
        } else {
            0nat
        }
    }
}

/// No prefix of the events holds more closes than opens.
pub open spec fn closes_follow_opens(evs: Seq<MetricEvent>) -> bool {
    forall|k: int|
        0 <= k <= evs.len() ==> #[trigger] count_of(evs.take(k), MetricEvent::Closed) <= count_of(
            evs.take(k),
            MetricEvent::Opened,
        )
}

/// From zero, with no more closes than opens at any point and no counter overflowing,
/// the counters are: active = opens - closes, total = opens, lines = lines received;
/// so there are never more active connections than connections seen.
pub proof fn lemma_metrics_count(evs: Seq<MetricEvent>)
    requires
        closes_follow_opens(evs),
        count_of(evs, MetricEvent::Opened) <= usize::MAX,
        count_of(evs, MetricEvent::Line) <= usize::MAX,
    ensures
        server::metrics_after(server::zero_metrics(), evs) == (MetricsSnapshot {
            active_connections: (count_of(evs, MetricEvent::Opened) - count_of(
                evs,
                MetricEvent::Closed,
            )) as usize,
            total_connections: count_of(evs, MetricEvent::Opened) as usize,
            total_lines_received: count_of(evs, MetricEvent::Line) as usize,
        }),
        count_of(evs, MetricEvent::Closed) <= count_of(evs, MetricEvent::Opened),
        server::metrics_after(server::zero_metrics(), evs).active_connections
            <= server::metrics_after(server::zero_metrics(), evs).total_connections,
    decreases evs.len(),
{
    assert(evs.take(evs.len() as int) =~= evs);
    assert(count_of(evs.take(evs.len() as int), MetricEvent::Closed) <= count_of(
        evs.take(evs.len() as int),
        MetricEvent::Opened,
    ));
    if evs.len() > 0 {
        let init = evs.drop_last();
        assert forall|k: int| 0 <= k <= init.len() implies #[trigger] count_of(
            init.take(k),
            MetricEvent::Closed,
        ) <= count_of(init.take(k), MetricEvent::Opened) by {
            assert(init.take(k) =~= evs.take(k));
        }
        lemma_metrics_count(init);
    }
}

// ---------------------------------------------------------------------------
// Connection ids
// ---------------------------------------------------------------------------
proof fn lemma_join_all_next_id(s: StateView, id: ConnectionId, names: Seq<Seq<char>>)
    ensures
        model::join_all(s, id, names).0.next_id == s.next_id,
    decreases names.len(),
{
    if names.len() > 0 {
        lemma_join_all_next_id(s, id, names.drop_last());
    }
}

proof fn lemma_leave_all_next_id(s: StateView, id: ConnectionId, names: Seq<Seq<char>>, line: Seq<char>)
    ensures
        model::leave_all(s, id, names, line).0.next_id == s.next_id,
    decreases names.len(),
{
    if names.len() > 0 {
        lemma_leave_all_next_id(s, id, names.drop_last(), line);
    }
}

proof fn lemma_quit_next_id(s: StateView, id: ConnectionId, reason: Seq<char>)
    ensures
        model::quit_step(s, id, reason).0.next_id == s.next_id,
{
    if model::has_client(s, id) {
        let i = model::find_client(s, id);
        let c = s.clients[i];
        lemma_leave_all_next_id(
            StateView { clients: s.clients.remove(i), ..s },
            id,
            c.joined,
            model::event_line(model::prefix_of(c), "QUIT"@, reason),
        );
    }
}

/// No line changes the next connection id.
pub proof fn lemma_line_keeps_next_id(s: StateView, id: ConnectionId, line: Seq<char>)
    ensures
        model::line_step(s, id, line).0.next_id == s.next_id,
{
    match protocol::spec_parse(line) {
        Some(m) => {
            let cmd = m.command;
            let ps = m.params;
            if cmd == "CAP"@ || cmd == "PASS"@ || cmd == "NICK"@ || cmd == "USER"@ {
            } else if cmd == "JOIN"@ {
                if model::registered_in(s, id) && ps.len() > 0 {
                    lemma_join_all_next_id(s, id, model::join_targets(ps[0]));
                }
            } else if cmd == "PART"@ || cmd == "PRIVMSG"@ || cmd == "NOTICE"@ {
            } else if cmd == "QUIT"@ {
                lemma_quit_next_id(
                    s,
                    id,
                    if ps.len() > 0 {
                        ps[0]
                    } else {
                        "Client quit"@
                    },
                );
            }
        },
        None => {},
    }
}

/// The number of opens among the events.
pub open spec fn count_opens(evs: Seq<CoreEvent>) -> nat
    decreases evs.len(),
{
    if evs.len() == 0 {
        0
    } else {
        count_opens(evs.drop_last()) + match evs.last() {
            CoreEvent::Open => 1nat,
            _ => 0nat,
        }
    }
}

/// Over any events, with no more opens than the ids left, the opens return the ids
/// `s.next_id`, `s.next_id + 1`, ... in order: each is new, none is given twice, and none
/// is the id of a client there at the start.
pub proof fn lemma_opened_ids_are_fresh(s: StateView, evs: Seq<CoreEvent>)
    requires
        s.next_id + count_opens(evs) <= usize::MAX,
    ensures
        server::opened_ids(s, evs).len() == count_opens(evs),
        server::run(s, evs).next_id == s.next_id + count_opens(evs),
        forall|i: int|
            0 <= i < server::opened_ids(s, evs).len() ==> #[trigger] server::opened_ids(s, evs)[i]
                == s.next_id + i,
        model::wf(s) ==> forall|i: int|
            0 <= i < server::opened_ids(s, evs).len() ==> !model::has_client(
                s,
                #[trigger] server::opened_ids(s, evs)[i],
            ),
    decreases evs.len(),
{
    if evs.len() > 0 {
        let init = evs.drop_last();
        lemma_opened_ids_are_fresh(s, init);
        let r = server::run(s, init);
        match evs.last() {
            CoreEvent::Open => {},
            CoreEvent::Line(id, line) => {
                lemma_line_keeps_next_id(r, id, line);
            },
            CoreEvent::Close(id) => {
                lemma_quit_next_id(r, id, "Client disconnected"@);
            },
        }
    }
    if model::wf(s) {
        lemma_find_client_none(s, s.next_id);
        assert forall|i: int|
            0 <= i < server::opened_ids(s, evs).len() implies !model::has_client(
            s,
            #[trigger] server::opened_ids(s, evs)[i],
        ) by {
            let x = server::opened_ids(s, evs)[i];
            lemma_find_client_none(s, x);
            if model::has_client(s, x) {
                assert(s.clients[model::find_client(s, x)].id < s.next_id);
            }
        }
    }
}

// ---------------------------------------------------------------------------
// Nicks
// ---------------------------------------------------------------------------
pub open spec fn nicks_distinct(s: StateView) -> bool {
    forall|i: int, j: int|
        0 <= i < s.clients.len() && 0 <= j < s.clients.len() && i != j && s.clients[i].nick is Some
            ==> s.clients[i].nick != s.clients[j].nick
}

pub open spec fn ids_distinct(s: StateView) -> bool {
    forall|i: int, j: int|
        0 <= i < s.clients.len() && 0 <= j < s.clients.len() && i != j ==> s.clients[i].id
            != s.clients[j].id
}

/// `NICK n` keeps nicks distinct. When another client has `n`, the only effect is the 433
/// reply. Otherwise the client (if known) goes by `n`, and every other client is left as
/// it was. (Client ids are taken distinct, as the server's invariant keeps them: with two
/// clients of one id, a nick held by the second would not count as taken.)
pub proof fn lemma_nick_law(s: StateView, id: ConnectionId, params: Seq<Seq<char>>)
    requires
        nicks_distinct(s),
        ids_distinct(s),
        params.len() > 0,
    ensures
        nicks_distinct(model::nick_step(s, id, params).0),
        model::nick_taken(s, id, params[0]) ==> model::nick_step(s, id, params).0 == s
            && model::nick_step(s, id, params).1 == seq![
            model::numeric_out(
                s.server_name,
                id,
                model::nick_in(s, id),
                "433"@,
                seq![params[0], "Nickname is already in use"@],
            ),
        ],
        !model::nick_taken(s, id, params[0]) && model::has_client(s, id) ==> ({
            let t = model::nick_step(s, id, params).0;
            &&& model::has_client(t, id)
            &&& model::client_of(t, id).nick == Some(params[0])
            &&& t.clients.len() == s.clients.len()
            &&& forall|j: int|
                0 <= j < s.clients.len() ==> t.clients[j].id == s.clients[j].id && (s.clients[j].id
                    != id ==> t.clients[j] == s.clients[j])
        }),
        !model::nick_taken(s, id, params[0]) && !model::has_client(s, id) ==> model::nick_step(
            s,
            id,
            params,
        ).0 == s,
{
    lemma_find_client_none(s, id);
    let n = params[0];
    if !model::nick_taken(s, id, n) && model::has_client(s, id) {
        let i = model::find_client(s, id);
        let c1 = ClientView { nick: Some(n), ..s.clients[i] };
        let s1 = model::with_client(s, i, c1);
        state::lemma_client_index_update_same_id(s.clients, i, c1, id);
        assert(model::find_client(s1, id) == i);
        let t = model::nick_step(s, id, params).0;
        assert(t == model::complete_registration(s1, id).0);
        let c2 = if model::ready_to_register(c1) {
            ClientView { registered: true, ..c1 }
        } else {
            c1
        };
        assert(t.clients == s.clients.update(i, c2));
        state::lemma_client_index_update_same_id(s.clients, i, c2, id);
        assert forall|a: int, b: int|
            0 <= a < t.clients.len() && 0 <= b < t.clients.len() && a != b && t.clients[a].nick is Some
                implies t.clients[a].nick != t.clients[b].nick by {
            if a == i {
                assert(s.clients[b].id != id);
            } else if b == i {
                assert(s.clients[a].id != id);
            } else {
                assert(s.clients[a].nick != s.clients[b].nick);
            }
        }
        assert forall|j: int|
            0 <= j < s.clients.len() implies t.clients[j].id == s.clients[j].id && (s.clients[j].id
                != id ==> t.clients[j] == s.clients[j]) by {}
    }
}

// ---------------------------------------------------------------------------
// Joining
// ---------------------------------------------------------------------------
/// With distinct channel names, the members of the named channel are exactly those that
/// are members of a channel of that name.
proof fn lemma_members_of_iff(s: StateView)
    requires
        channels_ok(s.channels),
    ensures
        forall|m: ConnectionId, n: Seq<char>| #[trigger]
            model::members_of(s, n).contains(m) <==> model::is_member(s, m, n),
{
    assert forall|m: ConnectionId, n: Seq<char>| #[trigger]
        model::members_of(s, n).contains(m) <==> model::is_member(s, m, n) by {
        lemma_find_channel_none(s, n);
        if model::is_member(s, m, n) {
            let k = choose|k: int|
                0 <= k < s.channels.len() && s.channels[k].name == n && s.channels[k].members.contains(m);
            let f = model::find_channel(s, n);
            if f != k {
                assert(s.channels[f].name != s.channels[k].name);
            }
        }
        if model::members_of(s, n).contains(m) {
            let f = model::find_channel(s, n);
            assert(s.channels[f].name == n && s.channels[f].members.contains(m));
        }
    }
}

/// `JOIN` by a registered client keeps the invariant (every channel has members, and a
/// client is a member of a channel exactly when it joined it); each `#`-channel named
/// gains the client, and no other membership changes; naming no `#`-channel changes
/// nothing and sends nothing.
pub proof fn lemma_join_law(s: StateView, id: ConnectionId, params: Seq<Seq<char>>)
    requires
        model::wf(s),
        model::registered_in(s, id),
    ensures
        ({
            let (t, outs) = model::join_step(s, id, params);
            let names = if params.len() > 0 {
                model::join_targets(params[0])
            } else {
                Seq::empty()
            };
            &&& model::wf(t)
            &&& forall|m: ConnectionId, n: Seq<char>| #[trigger]
                model::members_of(t, n).contains(m) <==> (model::members_of(s, n).contains(m) || (m
                    == id && names.contains(n)))
            &&& names.len() == 0 ==> t == s && outs.len() == 0
        }),
{
    lemma_join_keeps_wf(s, id, params);
    let t = model::join_step(s, id, params).0;
    lemma_members_of_iff(s);
    lemma_members_of_iff(t);
    if params.len() > 0 {
        lemma_join_makes_member(s, id, params);
    } else {
        assert forall|m: ConnectionId, n: Seq<char>| #[trigger]
            model::members_of(t, n).contains(m) <==> model::members_of(s, n).contains(m) by {}
    }
}

// ---------------------------------------------------------------------------
// The lines a client causes
// ---------------------------------------------------------------------------
/// The source of a line a client causes, as IRC writes it: the nick (or `*`), `!`, the
/// user name given as the first `USER` parameter (or `unknown`), and `@localhost`.
pub open spec fn source_of(c: ClientView) -> Seq<char> {
    (match c.nick {
        Some(n) => n,
        None => "*"@,
    }) + "!"@ + (match c.user {
        Some(u) => u,
        None => "unknown"@,
    }) + "@localhost"@
}

/// The line `:source COMMAND params...` with CR LF.
pub open spec fn line_from(source: Seq<char>, command: Seq<char>, params: Seq<Seq<char>>) -> Seq<char> {
    protocol::spec_serialize(protocol::MessageView { prefix: Some(source), command, params })
}

proof fn lemma_contains_push_split<A>(xs: Seq<A>)
    requires
        xs.len() > 0,
    ensures
        forall|y: A| #[trigger] xs.contains(y) <==> (xs.drop_last().contains(y) || y == xs.last()),
{
    let init = xs.drop_last();
    assert forall|y: A| #[trigger] xs.contains(y) <==> (init.contains(y) || y == xs.last()) by {
        if xs.contains(y) {
            let j = choose|j: int| 0 <= j < xs.len() && xs[j] == y;
            if j < init.len() {
                assert(init[j] == y);
            }
        }
        if init.contains(y) {
            let j = choose|j: int| 0 <= j < init.len() && init[j] == y;
            assert(xs[j] == y);
        }
        if y == xs.last() {
            assert(xs[xs.len() - 1] == y);
        }
    }
}

/// As a client leaves its channels one by one, each remaining member of each of them
/// gets the line.
proof fn lemma_leave_all_reaches(s: StateView, id: ConnectionId, names: Seq<Seq<char>>, line: Seq<char>)
    requires
        channels_ok(s.channels),
        names.no_duplicates(),
    ensures
        channels_ok(model::leave_all(s, id, names, line).0.channels),
        forall|m: ConnectionId, n: Seq<char>| #[trigger]
            model::is_member(model::leave_all(s, id, names, line).0, m, n) <==> (model::is_member(
                s,
                m,
                n,
            ) && !(m == id && names.contains(n))),
        forall|j: int, m: ConnectionId|
            0 <= j < names.len() && #[trigger] model::is_member(s, m, names[j]) && m != id ==> exists|
                k: int,
            |
                0 <= k < model::leave_all(s, id, names, line).1.len() && #[trigger] model::leave_all(
                    s,
                    id,
                    names,
                    line,
                ).1[k] == (m, line),
    decreases names.len(),
{
    if names.len() == 0 {
        assert forall|m: ConnectionId, n: Seq<char>| #[trigger]
            model::is_member(model::leave_all(s, id, names, line).0, m, n) <==> (model::is_member(
                s,
                m,
                n,
            ) && !(m == id && names.contains(n))) by {}
    } else {
        let init = names.drop_last();
        let last = names.last();
        assert(init.no_duplicates()) by {
            assert forall|a: int, b: int|
                0 <= a < init.len() && 0 <= b < init.len() && a != b implies init[a] != init[b] by {
                assert(init[a] == names[a] && init[b] == names[b]);
            }
        }
        assert(!init.contains(last)) by {
            if init.contains(last) {
                let j = choose|j: int| 0 <= j < init.len() && init[j] == last;
                assert(names[j] == names[names.len() - 1]);
            }
        }
        lemma_contains_push_split(names);
        lemma_leave_all_reaches(s, id, init, line);
        let (r1, o1) = model::leave_all(s, id, init, line);
        let (r2, o2) = model::leave_one(r1, id, last, line);
        assert(model::leave_all(s, id, names, line) == (r2, o1 + o2));
        lemma_find_channel_none(r1, last);
        if model::has_channel(r1, last) {
            let k = model::find_channel(r1, last);
            lemma_remove_member(r1, k, id);
            let rest = model::remove_id(r1.channels[k].members, id);
            lemma_remove_id(r1.channels[k].members, id);
            assert forall|m: ConnectionId| #[trigger]
                model::is_member(s, m, last) && m != id implies exists|q: int|
                0 <= q < o2.len() && o2[q] == (m, line) by {
                assert(model::is_member(r1, m, last));
                let k2 = choose|k2: int|
                    0 <= k2 < r1.channels.len() && r1.channels[k2].name == last
                        && r1.channels[k2].members.contains(m);
                if k2 != k {
                    assert(r1.channels[k2].name != r1.channels[k].name);
                }
                assert(rest.contains(m));
                let q = choose|q: int| 0 <= q < rest.len() && rest[q] == m;
                assert(o2[q] == (m, line));
            }
        } else {
            assert forall|m: ConnectionId| #[trigger]
                model::is_member(s, m, last) && m != id implies false by {
                assert(model::is_member(r1, m, last));
                let k2 = choose|k2: int|
                    0 <= k2 < r1.channels.len() && r1.channels[k2].name == last
                        && r1.channels[k2].members.contains(m);
            }
            assert forall|m: ConnectionId| !model::is_member(r1, m, last) by {
                if model::is_member(r1, m, last) {
                    let k2 = choose|k2: int|
                        0 <= k2 < r1.channels.len() && r1.channels[k2].name == last
                            && r1.channels[k2].members.contains(m);
                }
            }
        }
        let outs = model::leave_all(s, id, names, line).1;
        assert(outs == o1 + o2);
        assert forall|j: int, m: ConnectionId|
            0 <= j < names.len() && #[trigger] model::is_member(s, m, names[j]) && m != id implies exists|
            k: int,
        | 0 <= k < outs.len() && #[trigger] outs[k] == (m, line) by {
            if j < init.len() {
                assert(model::is_member(s, m, init[j]));
                let k = choose|k: int| 0 <= k < o1.len() && o1[k] == (m, line);
                assert(outs[k] == (m, line));
            } else {
                assert(names[j] == last);
                let q = choose|q: int| 0 <= q < o2.len() && o2[q] == (m, line);
                assert(outs[o1.len() + q] == (m, line));
            }
        }
    }
}

/// When a client quits (or its connection closes, with the reason "Client disconnected"),
/// every other member of every channel it had joined gets its `QUIT` line, whose source
/// is the client's nick, user name and `@localhost`.
pub proof fn lemma_quit_notifies_channel_peers(s: StateView, id: ConnectionId, reason: Seq<char>)
    requires
        model::wf(s),
        model::has_client(s, id),
    ensures
        forall|n: Seq<char>, m: ConnectionId|
            #![trigger model::client_of(s, id).joined.contains(n), model::members_of(s, n).contains(m)]
            model::client_of(s, id).joined.contains(n) && model::members_of(s, n).contains(m) && m
                != id ==> exists|k: int|
                0 <= k < model::quit_step(s, id, reason).1.len() && #[trigger] model::quit_step(
                    s,
                    id,
                    reason,
                ).1[k] == (m, line_from(source_of(model::client_of(s, id)), "QUIT"@, seq![reason])),
{
    lemma_find_client_none(s, id);
    let i = model::find_client(s, id);
    let c = s.clients[i];
    let s1 = StateView { clients: s.clients.remove(i), ..s };
    let line = line_from(source_of(c), "QUIT"@, seq![reason]);
    assert(model::prefix_of(c) == source_of(c));
    assert(model::event_line(model::prefix_of(c), "QUIT"@, reason) == line);
    lemma_same_members(s1, s);
    lemma_members_of_iff(s);
    lemma_leave_all_reaches(s1, id, c.joined, line);
    assert forall|n: Seq<char>, m: ConnectionId|
        #![trigger model::client_of(s, id).joined.contains(n), model::members_of(s, n).contains(m)]
        c.joined.contains(n) && model::members_of(s, n).contains(m) && m != id implies exists|
        k: int,
    | 0 <= k < model::quit_step(s, id, reason).1.len() && #[trigger] model::quit_step(s, id, reason).1[k]
        == (m, line) by {
        let j = choose|j: int| 0 <= j < c.joined.len() && c.joined[j] == n;
        assert(model::is_member(s, m, n));
        assert(model::is_member(s1, m, c.joined[j]));
        let outs = model::leave_all(s1, id, c.joined, line).1;
        assert(model::quit_step(s, id, reason).1 == outs);
        let k = choose|k: int| 0 <= k < outs.len() && outs[k] == (m, line);
        assert(model::quit_step(s, id, reason).1[k] == (m, line));
    }
}

/// As a client leaves its channels one by one, every line sent is the given line, to a
/// client other than the leaving one that was a member of one of those channels.
proof fn lemma_leave_all_only_peers(s: StateView, id: ConnectionId, names: Seq<Seq<char>>, line: Seq<char>)
    requires
        channels_ok(s.channels),
        names.no_duplicates(),
    ensures
        forall|k: int|
            0 <= k < model::leave_all(s, id, names, line).1.len() ==> {
                let o = #[trigger] model::leave_all(s, id, names, line).1[k];
                &&& o.1 == line
                &&& o.0 != id
                &&& exists|j: int| 0 <= j < names.len() && model::is_member(s, o.0, #[trigger] names[j])
            },
    decreases names.len(),
{
    if names.len() > 0 {
        let init = names.drop_last();
        let last = names.last();
        assert(init.no_duplicates()) by {
            assert forall|a: int, b: int|
                0 <= a < init.len() && 0 <= b < init.len() && a != b implies init[a] != init[b] by {
                assert(init[a] == names[a] && init[b] == names[b]);
            }
        }
        lemma_leave_all_only_peers(s, id, init, line);
        lemma_leave_all_reaches(s, id, init, line);
        let (r1, o1) = model::leave_all(s, id, init, line);
        let (r2, o2) = model::leave_one(r1, id, last, line);
        let outs = model::leave_all(s, id, names, line).1;
        assert(outs == o1 + o2);
        lemma_find_channel_none(r1, last);
        assert forall|k: int| 0 <= k < outs.len() implies {
            let o = #[trigger] outs[k];
            &&& o.1 == line
            &&& o.0 != id
            &&& exists|j: int| 0 <= j < names.len() && model::is_member(s, o.0, #[trigger] names[j])
        } by {
            if k < o1.len() {
                assert(outs[k] == o1[k]);
                let j = choose|j: int| 0 <= j < init.len() && model::is_member(s, o1[k].0, #[trigger] init[j]);
                assert(names[j] == init[j]);
            } else {
                let q = k - o1.len();
                assert(outs[k] == o2[q]);
                let ch = model::find_channel(r1, last);
                let rest = model::remove_id(r1.channels[ch].members, id);
                lemma_remove_id(r1.channels[ch].members, id);
                assert(o2 == model::broadcast(rest, line));
                assert(o2[q] == (rest[q], line));
                assert(rest.contains(rest[q]));
                assert(model::is_member(r1, rest[q], last));
                assert(model::is_member(s, rest[q], last));
                assert(names[names.len() - 1] == last);
            }
        }
    }
}

/// When a client quits, every line sent is its `QUIT` line, and each goes to a client
/// other than itself that shared one of its channels: no one else hears of it.
pub proof fn lemma_quit_reaches_only_peers(s: StateView, id: ConnectionId, reason: Seq<char>)
    requires
        model::wf(s),
        model::has_client(s, id),
    ensures
        forall|k: int|
            0 <= k < model::quit_step(s, id, reason).1.len() ==> {
                let o = #[trigger] model::quit_step(s, id, reason).1[k];
                &&& o.1 == line_from(source_of(model::client_of(s, id)), "QUIT"@, seq![reason])
                &&& o.0 != id
                &&& exists|n: Seq<char>|
                    model::client_of(s, id).joined.contains(n) && #[trigger] model::members_of(
                        s,
                        n,
                    ).contains(o.0)
            },
{
    lemma_find_client_none(s, id);
    let i = model::find_client(s, id);
    let c = s.clients[i];
    let s1 = StateView { clients: s.clients.remove(i), ..s };
    let line = line_from(source_of(c), "QUIT"@, seq![reason]);
    assert(model::prefix_of(c) == source_of(c));
    assert(model::event_line(model::prefix_of(c), "QUIT"@, reason) == line);
    lemma_same_members(s1, s);
    lemma_members_of_iff(s);
    lemma_leave_all_reaches(s1, id, c.joined, line);
    lemma_leave_all_only_peers(s1, id, c.joined, line);
    let outs = model::quit_step(s, id, reason).1;
    assert(outs == model::leave_all(s1, id, c.joined, line).1);
    assert forall|k: int| 0 <= k < outs.len() implies {
        let o = #[trigger] outs[k];
        &&& o.1 == line
        &&& o.0 != id
        &&& exists|n: Seq<char>| c.joined.contains(n) && #[trigger] model::members_of(s, n).contains(o.0)
    } by {
        let j = choose|j: int| 0 <= j < c.joined.len() && model::is_member(s1, outs[k].0, #[trigger] c.joined[j]);
        assert(c.joined.contains(c.joined[j]));
        assert(model::is_member(s, outs[k].0, c.joined[j]));
        assert(model::members_of(s, c.joined[j]).contains(outs[k].0));
    }
}

/// Over the channels joined in order, the joining client gets its own `JOIN` line for
/// each, with its nick and user name as the source; its nick and user name stay as they
/// were.
proof fn lemma_join_all_announces(s: StateView, id: ConnectionId, names: Seq<Seq<char>>)
    requires
        model::wf(s),
        model::has_client(s, id),
    ensures
        model::client_of(model::join_all(s, id, names).0, id).nick == model::client_of(s, id).nick,
        model::client_of(model::join_all(s, id, names).0, id).user == model::client_of(s, id).user,
        forall|j: int|
            #![trigger names[j]]
            0 <= j < names.len() ==> exists|k: int|
                0 <= k < model::join_all(s, id, names).1.len() && #[trigger] model::join_all(
                    s,
                    id,
                    names,
                ).1[k] == (id, line_from(source_of(model::client_of(s, id)), "JOIN"@, seq![names[j]])),
        forall|j: int, m: ConnectionId|
            0 <= j < names.len() && #[trigger] model::is_member(s, m, names[j]) ==> exists|k: int|
                0 <= k < model::join_all(s, id, names).1.len() && #[trigger] model::join_all(
                    s,
                    id,
                    names,
                ).1[k] == (m, line_from(source_of(model::client_of(s, id)), "JOIN"@, seq![names[j]])),
    decreases names.len(),
{
    if names.len() > 0 {
        let init = names.drop_last();
        let name = names.last();
        lemma_join_all_announces(s, id, init);
        lemma_join_all_keeps_wf(s, id, init);
        let (s1, o1) = model::join_all(s, id, init);
        lemma_find_client_none(s1, id);
        let i = model::find_client(s1, id);
        let c1 = s1.clients[i];
        let sa = model::with_channels(s1, model::add_member(s1.channels, name, id));
        let c2 = ClientView { joined: model::insert_new(c1.joined, name), ..c1 };
        let s2 = model::with_client(sa, i, c2);
        let (t, o2) = model::join_one(s1, id, name);
        assert(t == s2);
        state::lemma_client_index_update_same_id(sa.clients, i, c2, id);
        assert(model::client_of(s2, id) == c2);
        lemma_add_member(s1, name, id);
        assert(model::is_member(sa, id, name));
        let ka = choose|ka: int|
            0 <= ka < sa.channels.len() && sa.channels[ka].name == name
                && sa.channels[ka].members.contains(id);
        assert(model::is_member(s2, id, name)) by {
            assert(s2.channels[ka].name == name && s2.channels[ka].members.contains(id));
        }
        lemma_members_of_iff(s2);
        let ms = model::members_of(s2, name);
        assert(ms.contains(id));
        let q = choose|q: int| 0 <= q < ms.len() && ms[q] == id;
        let line = line_from(source_of(model::client_of(s, id)), "JOIN"@, seq![name]);
        assert(model::prefix_of(c1) == source_of(model::client_of(s, id)));
        assert(o2[q] == (id, line));
        let outs = model::join_all(s, id, names).1;
        assert(outs == o1 + o2);
        assert forall|j: int| #![trigger names[j]] 0 <= j < names.len() implies exists|k: int|
            0 <= k < outs.len() && #[trigger] outs[k] == (id, line_from(
                source_of(model::client_of(s, id)),
                "JOIN"@,
                seq![names[j]],
            )) by {
            if j < init.len() {
                assert(names[j] == init[j]);
                let k = choose|k: int|
                    0 <= k < o1.len() && o1[k] == (id, line_from(
                        source_of(model::client_of(s, id)),
                        "JOIN"@,
                        seq![init[j]],
                    ));
                assert(outs[k] == o1[k]);
            } else {
                assert(outs[o1.len() + q] == (id, line));
            }
        }
        assert forall|j: int, m: ConnectionId|
            0 <= j < names.len() && #[trigger] model::is_member(s, m, names[j]) implies exists|k: int|
            0 <= k < outs.len() && #[trigger] outs[k] == (m, line_from(
                source_of(model::client_of(s, id)),
                "JOIN"@,
                seq![names[j]],
            )) by {
            if j < init.len() {
                assert(names[j] == init[j]);
                let k = choose|k: int|
                    0 <= k < o1.len() && o1[k] == (m, line_from(
                        source_of(model::client_of(s, id)),
                        "JOIN"@,
                        seq![init[j]],
                    ));
                assert(outs[k] == o1[k]);
            } else {
                assert(names[j] == name);
                assert(model::is_member(s1, m, name));
                assert(model::is_member(sa, m, name));
                let kb = choose|kb: int|
                    0 <= kb < sa.channels.len() && sa.channels[kb].name == name
                        && sa.channels[kb].members.contains(m);
                assert(model::is_member(s2, m, name)) by {
                    assert(s2.channels[kb].name == name && s2.channels[kb].members.contains(m));
                }
                assert(ms.contains(m));
                let q2 = choose|q2: int| 0 <= q2 < ms.len() && ms[q2] == m;
                assert(o2[q2] == (m, line));
                assert(outs[o1.len() + q2] == (m, line));
            }
        }
    }
}

/// A registered client that sends `JOIN` gets, for each `#`-channel it names, the `JOIN`
/// line whose source is its nick, `!`, its user name and `@localhost`.
pub proof fn lemma_join_announces_joiner(s: StateView, id: ConnectionId, params: Seq<Seq<char>>)
    requires
        model::wf(s),
        model::registered_in(s, id),
        params.len() > 0,
    ensures
        forall|n: Seq<char>| #[trigger]
            model::join_targets(params[0]).contains(n) ==> exists|k: int|
                0 <= k < model::join_step(s, id, params).1.len() && model::join_step(s, id, params).1[k]
                    == (id, line_from(source_of(model::client_of(s, id)), "JOIN"@, seq![n])),
{
    let names = model::join_targets(params[0]);
    lemma_join_all_announces(s, id, names);
    assert forall|n: Seq<char>| #[trigger] names.contains(n) implies exists|k: int|
        0 <= k < model::join_step(s, id, params).1.len() && model::join_step(s, id, params).1[k] == (
            id,
            line_from(source_of(model::client_of(s, id)), "JOIN"@, seq![n]),
        ) by {
        let j = choose|j: int| 0 <= j < names.len() && names[j] == n;
        let k = choose|k: int|
            0 <= k < model::join_all(s, id, names).1.len() && #[trigger] model::join_all(
                s,
                id,
                names,
            ).1[k] == (id, line_from(source_of(model::client_of(s, id)), "JOIN"@, seq![names[j]]));
        assert(model::join_step(s, id, params).1[k] == model::join_all(s, id, names).1[k]);
    }
}

/// A registered client that sends `JOIN` has, for each `#`-channel it names, the `JOIN`
/// line whose source is its nick, user name and `@localhost` sent to every client that was
/// already a member of that channel.
pub proof fn lemma_join_announced_to_members(s: StateView, id: ConnectionId, params: Seq<Seq<char>>)
    requires
        model::wf(s),
        model::registered_in(s, id),
        params.len() > 0,
    ensures
        forall|n: Seq<char>, m: ConnectionId|
            #![trigger model::join_targets(params[0]).contains(n), model::members_of(s, n).contains(m)]
            model::join_targets(params[0]).contains(n) && model::members_of(s, n).contains(m)
                ==> model::join_step(s, id, params).1.contains(
                (m, line_from(source_of(model::client_of(s, id)), "JOIN"@, seq![n])),
            ),
{
    let names = model::join_targets(params[0]);
    lemma_join_all_announces(s, id, names);
    lemma_members_of_iff(s);
    assert forall|n: Seq<char>, m: ConnectionId|
        #![trigger model::join_targets(params[0]).contains(n), model::members_of(s, n).contains(m)]
        names.contains(n) && model::members_of(s, n).contains(m) implies model::join_step(
        s,
        id,
        params,
    ).1.contains((m, line_from(source_of(model::client_of(s, id)), "JOIN"@, seq![n]))) by {
        let j = choose|j: int| 0 <= j < names.len() && names[j] == n;
        assert(model::is_member(s, m, names[j]));
        let k = choose|k: int|
            0 <= k < model::join_all(s, id, names).1.len() && #[trigger] model::join_all(
                s,
                id,
                names,
            ).1[k] == (m, line_from(source_of(model::client_of(s, id)), "JOIN"@, seq![names[j]]));
        assert(model::join_step(s, id, params).1[k] == model::join_all(s, id, names).1[k]);
    }
}

/// `PART` of an existing channel sends every member of it (the client too, if a member)
/// the `PART` line whose source is the client's nick, user name and `@localhost`.
pub proof fn lemma_part_announces(s: StateView, id: ConnectionId, params: Seq<Seq<char>>)
    requires
        model::has_client(s, id),
        params.len() > 0,
        model::has_channel(s, params[0]),
    ensures
        forall|m: ConnectionId| #[trigger]
            model::members_of(s, params[0]).contains(m) ==> exists|k: int|
                0 <= k < model::part_step(s, id, params).1.len() && model::part_step(s, id, params).1[k]
                    == (m, line_from(source_of(model::client_of(s, id)), "PART"@, seq![params[0]])),
{
    let c = model::client_of(s, id);
    assert(model::prefix_of(c) == source_of(c));
    let outs = model::part_step(s, id, params).1;
    assert forall|m: ConnectionId| #[trigger] model::members_of(s, params[0]).contains(m) implies exists|
        k: int,
    | 0 <= k < outs.len() && outs[k] == (m, line_from(source_of(c), "PART"@, seq![params[0]])) by {
        let ms = model::members_of(s, params[0]);
        let q = choose|q: int| 0 <= q < ms.len() && ms[q] == m;
        assert(outs[q] == (m, line_from(source_of(c), "PART"@, seq![params[0]])));
    }
}

/// Every line relayed for a `NOTICE` is a `NOTICE`, and every line relayed for a
/// `PRIVMSG` is a `PRIVMSG`, to a channel or to a nick alike: the source is the sender's
/// nick, user name and `@localhost`, and the parameters are the target and the text.
pub proof fn lemma_relay_keeps_command(
    s: StateView,
    id: ConnectionId,
    params: Seq<Seq<char>>,
    is_notice: bool,
)
    requires
        params.len() >= 2,
    ensures
        forall|k: int|
            0 <= k < model::privmsg_outs(s, id, params, is_notice).len() ==> #[trigger] model::privmsg_outs(
                s,
                id,
                params,
                is_notice,
            )[k].1 == line_from(
                source_of(model::client_of(s, id)),
                if is_notice {
                    "NOTICE"@
                } else {
                    "PRIVMSG"@
                },
                seq![params[0], params[1]],
            ),
{
    assert(model::prefix_of(model::client_of(s, id)) == source_of(model::client_of(s, id)));
}

proof fn lemma_nick_index(cs: Seq<ClientView>, nick: Seq<char>, i: int)
    requires
        0 <= i,
    ensures
        model::nick_index_from(cs, nick, i) == -1 ==> forall|k: int|
            i <= k < cs.len() ==> cs[k].nick != Some(nick),
        model::nick_index_from(cs, nick, i) != -1 ==> i <= model::nick_index_from(cs, nick, i)
            < cs.len() && cs[model::nick_index_from(cs, nick, i)].nick == Some(nick),
    decreases cs.len() - i,
{
    if i < cs.len() && cs[i].nick != Some(nick) {
        lemma_nick_index(cs, nick, i + 1);
    }
}

/// A `PRIVMSG` or `NOTICE` to a nick (a target not beginning with `#`) that a client holds
/// gives exactly one line, to that client's connection; to a nick no client holds, none.
pub proof fn lemma_relay_to_nick(s: StateView, id: ConnectionId, params: Seq<Seq<char>>, is_notice: bool)
    requires
        nicks_distinct(s),
        params.len() >= 2,
        !(params[0].len() > 0 && params[0][0] == '#'),
    ensures
        forall|j: int|
            0 <= j < s.clients.len() && #[trigger] s.clients[j].nick == Some(params[0]) ==> {
                &&& model::privmsg_outs(s, id, params, is_notice).len() == 1
                &&& model::privmsg_outs(s, id, params, is_notice)[0].0 == s.clients[j].id
            },
        (forall|j: int| 0 <= j < s.clients.len() ==> s.clients[j].nick != Some(params[0]))
            ==> model::privmsg_outs(s, id, params, is_notice).len() == 0,
{
    lemma_nick_index(s.clients, params[0], 0);
    let r = model::nick_index_from(s.clients, params[0], 0);
    assert forall|j: int|
        0 <= j < s.clients.len() && #[trigger] s.clients[j].nick == Some(params[0]) implies {
        &&& model::privmsg_outs(s, id, params, is_notice).len() == 1
        &&& model::privmsg_outs(s, id, params, is_notice)[0].0 == s.clients[j].id
    } by {
        if r != j {
            assert(s.clients[r].nick == s.clients[j].nick);
        }
    }
}

/// The nick by which the server addresses a connection: that of the client with this id,
/// or `*` when it has none or there is no such client.
pub open spec fn display_nick(s: StateView, id: ConnectionId) -> Seq<char> {
    if exists|i: int| 0 <= i < s.clients.len() && s.clients[i].id == id {
        let i = choose|i: int| 0 <= i < s.clients.len() && s.clients[i].id == id;
        match s.clients[i].nick {
            Some(n) => n,
            None => "*"@,
        }
    } else {
        "*"@
    }
}

proof fn lemma_display_nick(s: StateView, id: ConnectionId)
    requires
        ids_distinct(s),
    ensures
        display_nick(s, id) == model::nick_in(s, id),
{
    lemma_find_client_none(s, id);
    if exists|i: int| 0 <= i < s.clients.len() && s.clients[i].id == id {
        let i = choose|i: int| 0 <= i < s.clients.len() && s.clients[i].id == id;
        let f = model::find_client(s, id);
        if f != i {
            assert(s.clients[f].id == s.clients[i].id);
        }
    }
}

/// An unknown command gets exactly one reply, to the connection that sent it: the 421
/// numeric from the server naming the client's nick (or `*`), the command, and "Unknown
/// command"; nothing else changes.
pub proof fn lemma_unknown_command_reply(s: StateView, id: ConnectionId, line: Seq<char>, m: protocol::MessageView)
    requires
        ids_distinct(s),
        protocol::spec_parse(line) == Some(m),
        m.command != "CAP"@ && m.command != "PASS"@ && m.command != "NICK"@ && m.command != "USER"@
            && m.command != "JOIN"@ && m.command != "PART"@ && m.command != "PRIVMSG"@ && m.command
            != "NOTICE"@ && m.command != "QUIT"@ && m.command != "PING"@,
    ensures
        model::line_step(s, id, line).0 == s,
        model::line_step(s, id, line).1 == seq![
            (
                id,
                line_from(s.server_name, "421"@, seq![display_nick(s, id), m.command, "Unknown command"@]),
            ),
        ],
{
    lemma_display_nick(s, id);
    assert(seq![display_nick(s, id)] + seq![m.command, "Unknown command"@] =~= seq![
        display_nick(s, id),
        m.command,
        "Unknown command"@,
    ]);
}

/// `PING` gets exactly one reply, to the connection that sent it: `PONG` with the same
/// parameters and no source; nothing else changes.
pub proof fn lemma_ping_gets_pong(s: StateView, id: ConnectionId, line: Seq<char>, m: protocol::MessageView)
    requires
        protocol::spec_parse(line) == Some(m),
        m.command == "PING"@,
    ensures
        model::line_step(s, id, line).0 == s,
        model::line_step(s, id, line).1 == seq![
            (
                id,
                protocol::spec_serialize(
                    protocol::MessageView { prefix: None, command: "PONG"@, params: m.params },
                ),
            ),
        ],
{
    reveal_strlit("PING");
    reveal_strlit("CAP");
    reveal_strlit("PASS");
    reveal_strlit("NICK");
    reveal_strlit("USER");
    reveal_strlit("JOIN");
    reveal_strlit("PART");
    reveal_strlit("PRIVMSG");
    reveal_strlit("NOTICE");
    reveal_strlit("QUIT");
    assert("PING"@.len() != "CAP"@.len());
    assert("PING"@[1] != "PASS"@[1]);
    assert("PING"@[0] != "NICK"@[0]);
    assert("PING"@[0] != "USER"@[0]);
    assert("PING"@[0] != "JOIN"@[0]);
    assert("PING"@[1] != "PART"@[1]);
    assert("PING"@.len() != "PRIVMSG"@.len());
    assert("PING"@.len() != "NOTICE"@.len());
    assert("PING"@[0] != "QUIT"@[0]);
}

/// `CAP LS` gets exactly one reply, to the connection that sent it: `CAP` from the server
/// naming the client's nick (or `*`), `LS`, and the one capability `multi-prefix`.
pub proof fn lemma_cap_ls_reply(s: StateView, id: ConnectionId, params: Seq<Seq<char>>)
    requires
        ids_distinct(s),
        params.len() > 0,
        text::upper(params[0]) == "LS"@,
    ensures
        model::cap_step(s, id, params).0 == s,
        model::cap_step(s, id, params).1 == seq![
            (id, line_from(s.server_name, "CAP"@, seq![display_nick(s, id), "LS"@, "multi-prefix"@])),
        ],
{
    lemma_display_nick(s, id);
}

/// Once a client has a nick and a user, is not negotiating capabilities and is not yet
/// registered, it becomes registered and gets the welcome numerics 001 to 004 from the
/// server, naming its nick; otherwise nothing happens.
pub proof fn lemma_registration_welcome(s: StateView, id: ConnectionId, i: int)
    requires
        ids_distinct(s),
        0 <= i < s.clients.len(),
        s.clients[i].id == id,
    ensures
        ({
            let c = s.clients[i];
            let (t, outs) = model::complete_registration(s, id);
            let srv = s.server_name;
            if !c.registered && c.nick is Some && c.user is Some && !c.cap_active {
                let n = c.nick->0;
                &&& t.clients == s.clients.update(i, ClientView { registered: true, ..c })
                &&& outs == seq![
                    (id, line_from(srv, "001"@, seq![n, "Welcome to ClankyIRCd, "@ + n])),
                    (id, line_from(srv, "002"@, seq![n, "Your host is "@ + srv])),
                    (id, line_from(srv, "003"@, seq![n, "This server was created today"@])),
                    (id, line_from(srv, "004"@, seq![n, srv, "clankircd-0.1"@, "ao"@, "mtov"@])),
                ]
            } else {
                t == s && outs.len() == 0
            }
        }),
{
    lemma_find_client_none(s, id);
    let f = model::find_client(s, id);
    if f != i {
        assert(s.clients[f].id == s.clients[i].id);
    }
    let c = s.clients[i];
    if !c.registered && c.nick is Some && c.user is Some && !c.cap_active {
        let n = c.nick->0;
        let srv = s.server_name;
        assert(seq![n] + seq!["Welcome to ClankyIRCd, "@ + n] =~= seq![n, "Welcome to ClankyIRCd, "@ + n]);
        assert(seq![n] + seq!["Your host is "@ + srv] =~= seq![n, "Your host is "@ + srv]);
        assert(seq![n] + seq!["This server was created today"@] =~= seq![
            n,
            "This server was created today"@,
        ]);
        assert(seq![n] + seq![srv, "clankircd-0.1"@, "ao"@, "mtov"@] =~= seq![
            n,
            srv,
            "clankircd-0.1"@,
            "ao"@,
            "mtov"@,
        ]);
    }
}

} // verus!
