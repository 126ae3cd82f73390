//! End-to-end scenarios over the relay's core: lifecycle, registry,
//! router and channel together, with the transport played by the test.

use rust_ws_chat::channel::{Broadcaster, Receive};
use rust_ws_chat::connection::{ConnPhase, Connection};
use rust_ws_chat::message_type::{parse_message, to_json, MessageType};
use rust_ws_chat::user_manager::UserManager;

fn expect_payload(r: Receive) -> String {
    match r {
        Receive::Payload(p) => p,
        other => panic!("expected a payload, got {:?}", other),
    }
}

/// Brings one connection to `Active` under the given name.
fn join(
    um: &mut UserManager,
    b: &mut Broadcaster,
    peer: &str,
    identity_frame: &str,
) -> Connection {
    let mut conn = Connection::new(peer.to_string());
    let prompt = conn.on_handshake_complete();
    let prompt = parse_message(&prompt).unwrap();
    assert!(matches!(prompt, MessageType::Notice { .. }));
    conn.on_identity_frame(identity_frame, um, b);
    assert_eq!(conn.phase(), ConnPhase::Active);
    conn
}

#[test]
fn identity_frame_produces_a_join_notice_for_every_subscriber() {
    let mut um = UserManager::new();
    let mut b = Broadcaster::new();
    let mut other = b.subscribe();

    let mut conn = Connection::new("10.0.0.1:4000".to_string());
    let _prompt = conn.on_handshake_complete();
    // Alice's own outbound loop subscribes before her name goes out.
    let mut own = b.subscribe();
    conn.on_identity_frame("  alice \n", &mut um, &mut b);

    for h in [&mut other, &mut own] {
        let payload = expect_payload(b.receive(h));
        match parse_message(&payload).unwrap() {
            MessageType::Notice { category, text } => {
                assert_eq!(category, "SYSTEM");
                assert!(text.contains("alice"));
                assert!(text.contains("joined"));
            }
            other => panic!("expected a notice, got {:?}", other),
        }
    }
    let snap = um.list_users();
    assert_eq!(snap.len(), 1);
    assert_eq!(snap[0].username, "alice");
    assert_eq!(snap[0].peer_address, "10.0.0.1:4000");
}

#[test]
fn chat_is_attributed_to_the_authenticated_sender() {
    let mut um = UserManager::new();
    let mut b = Broadcaster::new();
    let mut alice = join(&mut um, &mut b, "10.0.0.1:4000", "alice");
    let _bob = join(&mut um, &mut b, "10.0.0.2:4000", "bob");
    let mut alice_out = b.subscribe();
    let mut bob_out = b.subscribe();

    // The frame claims to be from "mallory"; the relay must not believe it.
    let frame = to_json(&MessageType::Chat {
        from: "mallory".to_string(),
        to: "bob".to_string(),
        text: "hi".to_string(),
    });
    alice.on_inbound_frame(&frame, &um, &mut b).unwrap();

    for h in [&mut alice_out, &mut bob_out] {
        let payload = expect_payload(b.receive(h));
        match parse_message(&payload).unwrap() {
            MessageType::Chat { from, to, text } => {
                assert_eq!(from, "alice");
                assert_eq!(to, "all");
                assert_eq!(text, "hi");
            }
            other => panic!("expected a chat, got {:?}", other),
        }
    }
}

#[test]
fn transport_close_deregisters_and_announces_the_leave() {
    let mut um = UserManager::new();
    let mut b = Broadcaster::new();
    let mut alice = join(&mut um, &mut b, "10.0.0.1:4000", "alice");
    let mut watcher = b.subscribe();

    alice.on_loop_ended();
    assert_eq!(alice.phase(), ConnPhase::Draining);
    let published = alice.finish(&mut um, &mut b);
    assert!(published);
    assert_eq!(alice.phase(), ConnPhase::Closed);

    assert!(um.list_users().is_empty());
    let payload = expect_payload(b.receive(&mut watcher));
    match parse_message(&payload).unwrap() {
        MessageType::Notice { category, text } => {
            assert_eq!(category, "SYSTEM");
            assert!(text.contains("alice"));
            assert!(text.contains("left"));
        }
        other => panic!("expected a notice, got {:?}", other),
    }
}

#[test]
fn invalid_frame_broadcasts_nothing_and_the_loop_continues() {
    let mut um = UserManager::new();
    let mut b = Broadcaster::new();
    let mut alice = join(&mut um, &mut b, "10.0.0.1:4000", "alice");
    let mut watcher = b.subscribe();

    alice.on_inbound_frame("this is not a frame", &um, &mut b).unwrap();
    assert!(matches!(b.receive(&mut watcher), Receive::Pending));
    assert_eq!(alice.phase(), ConnPhase::Active);

    // The very next frame is still served.
    let frame = to_json(&MessageType::Chat {
        from: "alice".to_string(),
        to: "all".to_string(),
        text: "still here".to_string(),
    });
    alice.on_inbound_frame(&frame, &um, &mut b).unwrap();
    let payload = expect_payload(b.receive(&mut watcher));
    assert!(matches!(parse_message(&payload).unwrap(), MessageType::Chat { .. }));
}

#[test]
fn roster_request_lists_exactly_the_registered_identities() {
    let mut um = UserManager::new();
    let mut b = Broadcaster::new();
    let mut alice = join(&mut um, &mut b, "10.0.0.1:4000", "alice");
    let _bob = join(&mut um, &mut b, "10.0.0.2:4000", "bob");
    let _carol = join(&mut um, &mut b, "10.0.0.3:4000", "carol");
    let mut watcher = b.subscribe();

    let frame = to_json(&MessageType::RosterRequest);
    alice.on_inbound_frame(&frame, &um, &mut b).unwrap();

    let payload = expect_payload(b.receive(&mut watcher));
    match parse_message(&payload).unwrap() {
        MessageType::Roster { mut names } => {
            names.sort();
            assert_eq!(names, vec!["alice", "bob", "carol"]);
        }
        other => panic!("expected a roster, got {:?}", other),
    }
}

#[test]
fn command_frame_is_accepted_and_broadcasts_nothing() {
    let mut um = UserManager::new();
    let mut b = Broadcaster::new();
    let mut alice = join(&mut um, &mut b, "10.0.0.1:4000", "alice");
    let mut watcher = b.subscribe();

    let frame = to_json(&MessageType::Command { raw: "/mute".to_string() });
    alice.on_inbound_frame(&frame, &um, &mut b).unwrap();
    assert!(matches!(b.receive(&mut watcher), Receive::Pending));
}

#[test]
fn closing_before_any_identity_frame_registers_nothing() {
    let mut um = UserManager::new();
    let mut b = Broadcaster::new();
    let mut watcher = b.subscribe();
    let mut conn = Connection::new("10.0.0.1:4000".to_string());
    let _prompt = conn.on_handshake_complete();
    conn.on_closed_before_identity();
    assert_eq!(conn.phase(), ConnPhase::Closed);
    assert!(um.list_users().is_empty());
    assert!(matches!(b.receive(&mut watcher), Receive::Pending));
}
