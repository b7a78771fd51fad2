use clankircd::ServerCore;

fn registered(core: &mut ServerCore, nick: &str) -> usize {
    let id = core.on_connection_opened();
    core.on_line(id, &format!("NICK {nick}"));
    core.on_line(id, &format!("USER {nick} 0 * :{nick}"));
    id
}

#[test]
fn updates_metrics() {
    let mut core = ServerCore::new();
    let id = core.on_connection_opened();
    core.on_line(id, "PING 123\r\n");
    core.on_connection_closed(id);

    let metrics = core.metrics().snapshot();
    assert_eq!(metrics.total_connections, 1);
    assert_eq!(metrics.active_connections, 0);
    assert_eq!(metrics.total_lines_received, 1);
}

#[test]
fn completes_registration_after_nick_and_user() {
    let mut core = ServerCore::new();
    let id = core.on_connection_opened();
    assert!(core.on_line(id, "NICK test").is_empty());
    let messages = core.on_line(id, "USER u 0 * :Real Name");
    assert!(messages.iter().any(|m| m.line.contains(" 001 test ")));
}

#[test]
fn relays_privmsg_to_channel_members() {
    let mut core = ServerCore::new();
    let a = core.on_connection_opened();
    let b = core.on_connection_opened();

    core.on_line(a, "NICK a");
    core.on_line(a, "USER a 0 * :a");
    core.on_line(b, "NICK b");
    core.on_line(b, "USER b 0 * :b");
    core.on_line(a, "JOIN #test");
    core.on_line(b, "JOIN #test");

    let relay = core.on_line(a, "PRIVMSG #test :hello");
    assert!(relay
        .iter()
        .any(|m| m.target == b && m.line.contains("PRIVMSG #test hello")));
}

#[test]
fn connection_ids_start_at_one_and_increase() {
    let mut core = ServerCore::new();
    assert_eq!(core.on_connection_opened(), 1);
    assert_eq!(core.on_connection_opened(), 2);
    let m = core.metrics().snapshot();
    assert_eq!(m.active_connections, 2);
    assert_eq!(m.total_connections, 2);
}

#[test]
fn welcome_numerics_are_exact() {
    let mut core = ServerCore::new();
    let id = core.on_connection_opened();
    core.on_line(id, "NICK test");
    let lines: Vec<(usize, String)> = core
        .on_line(id, "USER u 0 * :Real Name")
        .into_iter()
        .map(|m| (m.target, m.line))
        .collect();
    assert_eq!(
        lines,
        vec![
            (id, ":clankircd.local 001 test :Welcome to ClankyIRCd, test\r\n".to_string()),
            (id, ":clankircd.local 002 test :Your host is clankircd.local\r\n".to_string()),
            (id, ":clankircd.local 003 test :This server was created today\r\n".to_string()),
            (id, ":clankircd.local 004 test clankircd.local clankircd-0.1 ao mtov\r\n".to_string()),
        ]
    );
    // Registration happens once.
    assert!(core.on_line(id, "USER u 0 * :Again").is_empty());
}

#[test]
fn user_before_nick_registers_on_nick() {
    let mut core = ServerCore::new();
    let id = core.on_connection_opened();
    assert!(core.on_line(id, "USER u 0 * :Real").is_empty());
    let out = core.on_line(id, "NICK late");
    assert_eq!(out.len(), 4);
    assert!(out[0].line.contains(" 001 late "));
}

#[test]
fn error_numerics() {
    let mut core = ServerCore::new();
    let id = core.on_connection_opened();
    let out = core.on_line(id, "NICK");
    assert_eq!(out[0].line, ":clankircd.local 431 * :No nickname given\r\n");
    let out = core.on_line(id, "USER a b");
    assert_eq!(out[0].line, ":clankircd.local 461 * USER :Not enough parameters\r\n");
    let out = core.on_line(id, "JOIN #x");
    assert_eq!(out[0].line, ":clankircd.local 451 * :You have not registered\r\n");
    let out = core.on_line(id, "frob x");
    assert_eq!(out[0].line, ":clankircd.local 421 * FROB :Unknown command\r\n");
    assert!(core.on_line(id, "PASS secret").is_empty());
    assert!(core.on_line(id, "   ").is_empty());
}

#[test]
fn nick_in_use_is_refused() {
    let mut core = ServerCore::new();
    let a = registered(&mut core, "alice");
    let b = core.on_connection_opened();
    let out = core.on_line(b, "NICK alice");
    assert_eq!(out.len(), 1);
    assert_eq!(out[0].target, b);
    assert_eq!(out[0].line, ":clankircd.local 433 * alice :Nickname is already in use\r\n");
    // A client may take its own nick again.
    assert!(core.on_line(a, "NICK alice").is_empty());
}

#[test]
fn cap_ls_and_end() {
    let mut core = ServerCore::new();
    let id = core.on_connection_opened();
    let out = core.on_line(id, "CAP ls 302");
    assert_eq!(out.len(), 1);
    assert_eq!(out[0].line, ":clankircd.local CAP * LS multi-prefix\r\n");
    core.on_line(id, "NICK n");
    core.on_line(id, "USER n 0 * :n");
    assert!(core.on_line(id, "CAP END").is_empty());
    assert!(core.on_line(id, "CAP").is_empty());
}

#[test]
fn ping_gets_pong() {
    let mut core = ServerCore::new();
    let id = core.on_connection_opened();
    let out = core.on_line(id, "PING :abc def");
    assert_eq!(out.len(), 1);
    assert_eq!(out[0].target, id);
    assert_eq!(out[0].line, "PONG :abc def\r\n");
}

#[test]
fn join_reports_names_and_reaches_members() {
    let mut core = ServerCore::new();
    let a = registered(&mut core, "a");
    let b = registered(&mut core, "b");
    let out = core.on_line(a, "JOIN #t");
    assert_eq!(out.len(), 3);
    assert_eq!(out[0].target, a);
    assert_eq!(out[0].line, ":a!a@localhost JOIN #t\r\n");
    assert_eq!(out[1].line, ":clankircd.local 353 a = #t a\r\n");
    assert_eq!(out[2].line, ":clankircd.local 366 a #t :End of /NAMES list\r\n");
    let out = core.on_line(b, "JOIN #t,nohash,#u");
    // #t: two JOIN lines, 353, 366; #u: one JOIN line, 353, 366.
    assert_eq!(out.len(), 7);
    assert_eq!(out[0].target, a);
    assert_eq!(out[1].target, b);
    assert_eq!(out[2].line, ":clankircd.local 353 b = #t :a b\r\n");
}

#[test]
fn privmsg_to_nick_and_notice() {
    let mut core = ServerCore::new();
    let a = registered(&mut core, "a");
    let b = registered(&mut core, "b");
    let out = core.on_line(a, "PRIVMSG b :hi there");
    assert_eq!(out.len(), 1);
    assert_eq!(out[0].target, b);
    assert_eq!(out[0].line, ":a!a@localhost PRIVMSG b :hi there\r\n");
    let out = core.on_line(a, "NOTICE nobody :x");
    assert!(out.is_empty());
    let out = core.on_line(a, "NOTICE b x");
    assert_eq!(out[0].line, ":a!a@localhost NOTICE b x\r\n");
}

#[test]
fn sender_does_not_hear_its_own_channel_message() {
    let mut core = ServerCore::new();
    let a = registered(&mut core, "a");
    core.on_line(a, "JOIN #solo");
    assert!(core.on_line(a, "PRIVMSG #solo :echo?").is_empty());
}

#[test]
fn part_and_quit_notify_members() {
    let mut core = ServerCore::new();
    let a = registered(&mut core, "a");
    let b = registered(&mut core, "b");
    core.on_line(a, "JOIN #t");
    core.on_line(b, "JOIN #t");
    let out = core.on_line(a, "PART #t");
    assert_eq!(out.len(), 2);
    assert!(out.iter().all(|m| m.line == ":a!a@localhost PART #t\r\n"));
    // a is no longer a member: b's message reaches nobody else.
    assert!(core.on_line(b, "PRIVMSG #t :x").is_empty());
    core.on_line(a, "JOIN #t");
    let out = core.on_line(b, "QUIT :bye");
    assert_eq!(out.len(), 1);
    assert_eq!(out[0].target, a);
    assert_eq!(out[0].line, ":b!b@localhost QUIT bye\r\n");
    let out = core.on_connection_closed(a);
    assert!(out.is_empty());
    assert!(core.on_connection_closed(a).is_empty());
}

#[test]
fn nick_change_is_announced_to_peers_once() {
    let mut core = ServerCore::new();
    let a = registered(&mut core, "a");
    let b = registered(&mut core, "b");
    core.on_line(a, "JOIN #x,#y");
    core.on_line(b, "JOIN #x,#y");
    let out = core.on_line(a, "NICK a2");
    assert_eq!(out.len(), 1);
    assert_eq!(out[0].target, b);
    assert_eq!(out[0].line, ":a!a@localhost NICK a2\r\n");
}

#[test]
fn accepts_line_reports_lines_that_need_a_client() {
    let mut core = ServerCore::new();
    let a = registered(&mut core, "a");
    core.on_line(a, "JOIN #t");
    assert!(core.accepts_line(99, "PING x"));
    assert!(!core.accepts_line(99, "PRIVMSG #t :x"));
    assert!(!core.accepts_line(99, "PART #t"));
    assert!(core.accepts_line(99, "PART #none"));
    assert!(core.accepts_line(a, "PRIVMSG #t :x"));
    assert!(core.accepts_connection());
}

#[test]
fn nick_is_free_again_after_quit() {
    let mut core = ServerCore::new();
    let a = registered(&mut core, "a");
    core.on_line(a, "QUIT");
    let b = core.on_connection_opened();
    assert!(core.on_line(b, "NICK a").is_empty());
}

#[test]
fn connection_ids_are_never_reused() {
    let mut core = ServerCore::new();
    let a = core.on_connection_opened();
    core.on_connection_closed(a);
    let b = core.on_connection_opened();
    core.on_line(b, "QUIT");
    let c = core.on_connection_opened();
    assert_eq!((a, b, c), (1, 2, 3));
    let m = core.metrics().snapshot();
    assert_eq!(m.active_connections, 2);
    assert_eq!(m.total_connections, 3);
    assert_eq!(m.total_lines_received, 1);
    assert!(m.active_connections <= m.total_connections);
}
