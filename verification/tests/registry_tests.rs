use rust_ws_chat::user_manager::UserManager;

#[test]
fn register_then_deregister_leaves_key_absent() {
    let mut um = UserManager::new();
    um.add_user("10.0.0.1:4000", "alice");
    um.remove_user("10.0.0.1:4000");
    assert!(um.list_users().is_empty());
}

#[test]
fn register_alone_keeps_last_identity() {
    let mut um = UserManager::new();
    um.add_user("10.0.0.1:4000", "alice");
    um.add_user("10.0.0.1:4000", "alicia");
    let snap = um.list_users();
    assert_eq!(snap.len(), 1);
    assert_eq!(snap[0].peer_address, "10.0.0.1:4000");
    assert_eq!(snap[0].username, "alicia");
}

#[test]
fn deregister_absent_key_is_a_noop() {
    let mut um = UserManager::new();
    um.add_user("10.0.0.1:4000", "alice");
    um.remove_user("10.0.0.2:4000");
    assert_eq!(um.list_users().len(), 1);
}

#[test]
fn display_names_need_not_be_unique() {
    let mut um = UserManager::new();
    um.add_user("10.0.0.1:4000", "alice");
    um.add_user("10.0.0.2:4000", "alice");
    let snap = um.list_users();
    assert_eq!(snap.len(), 2);
    assert!(snap.iter().all(|u| u.username == "alice"));
}

#[test]
fn snapshot_is_a_copy_not_a_live_view() {
    let mut um = UserManager::new();
    um.add_user("10.0.0.1:4000", "alice");
    let snap = um.list_users();
    um.add_user("10.0.0.2:4000", "bob");
    um.remove_user("10.0.0.1:4000");
    assert_eq!(snap.len(), 1);
    assert_eq!(snap[0].username, "alice");
}

#[test]
fn interleaved_callers_end_with_the_surviving_set() {
    // Two connections' calls, serialized in some order by the lock.
    let mut um = UserManager::new();
    um.add_user("10.0.0.1:4000", "alice");
    um.add_user("10.0.0.2:4000", "bob");
    um.remove_user("10.0.0.1:4000");
    um.add_user("10.0.0.3:4000", "carol");
    um.remove_user("10.0.0.3:4000");
    let snap = um.list_users();
    assert_eq!(snap.len(), 1);
    assert_eq!(snap[0].username, "bob");
    assert_eq!(snap[0].peer_address, "10.0.0.2:4000");
}
