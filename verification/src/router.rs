//! The message router: maps one decoded envelope to the side effect it
//! produces — a broadcast emission, a registry query, or nothing.
//!
//! The router never terminates a connection.  Its only failure is the
//! publish step, and that fails only when the channel's publish counter is
//! exhausted; the caller logs such a failure and carries on.

use vstd::prelude::*;
use crate::channel::Broadcaster;
use crate::message_type::{spec_encode, to_json, MessageType, MessageView};
use crate::user_manager::UserManager;

verus! {

/// Why a dispatch failed.  The only fallible step is publishing.
#[derive(Debug, Clone, Copy, PartialEq, Eq, Structural)]
pub enum RouteError {
    /// The channel's publish counter is exhausted.
    ChannelFull,
}

/// The envelope broadcast for a chat line: the sender is the connection's
/// authenticated identity — never the client-supplied `from` field — and
/// delivery is always to everyone.
pub open spec fn chat_broadcast(acting: Seq<char>, text: Seq<char>) -> MessageView {
    MessageView::Chat { from: acting, to: "all"@, text }
}

/// The envelope broadcast for a roster reply: the display names currently
/// registered.
pub open spec fn roster_broadcast(names: Seq<Seq<char>>) -> MessageView {
    MessageView::Roster { names }
}

/// Broadcasts a chat line from `sender`.  The advisory receiver is
/// ignored: the relay has no per-recipient routing, every delivery goes
/// to all subscribers.
pub fn handle_chat_message(
    sender: &str,
    content: &str,
    _receiver: &str,
    broadcaster: &mut Broadcaster,
) -> (r: Result<(), RouteError>)
    requires
        old(broadcaster).wf(),
    ensures
        final(broadcaster).wf(),
        r is Ok <==> old(broadcaster).can_publish(),
        r is Ok ==> final(broadcaster)@ == old(broadcaster)@.push(
            spec_encode(chat_broadcast(sender@, content@)),
        ),
        r is Err ==> final(broadcaster)@ == old(broadcaster)@,
{
    let msg = MessageType::Chat {
        from: String::from_str(sender),
        to: String::from_str("all"),
        text: String::from_str(content),
    };
    let frame = to_json(&msg);
    if broadcaster.try_publish(frame) {
        Ok(())
    } else {
        Err(RouteError::ChannelFull)
    }
}

/// Rebroadcasts an informational notice verbatim.
pub fn handle_system_message(
    message_type: &str,
    content: &str,
    broadcaster: &mut Broadcaster,
) -> (r: Result<(), RouteError>)
    requires
        old(broadcaster).wf(),
    ensures
        final(broadcaster).wf(),
        r is Ok <==> old(broadcaster).can_publish(),
        r is Ok ==> final(broadcaster)@ == old(broadcaster)@.push(
            spec_encode(
                MessageView::Notice { category: message_type@, text: content@ },
            ),
        ),
        r is Err ==> final(broadcaster)@ == old(broadcaster)@,
{
    let msg = MessageType::Notice {
        category: String::from_str(message_type),
        text: String::from_str(content),
    };
    let frame = to_json(&msg);
    if broadcaster.try_publish(frame) {
        Ok(())
    } else {
        Err(RouteError::ChannelFull)
    }
}

/// Broadcasts the current roster: the display names of every registered
/// participant, in registry order.
pub fn handle_user_list_request(
    user_manager: &UserManager,
    broadcaster: &mut Broadcaster,
) -> (r: Result<(), RouteError>)
    requires
        user_manager.wf(),
        old(broadcaster).wf(),
    ensures
        final(broadcaster).wf(),
        r is Ok <==> old(broadcaster).can_publish(),
        r is Ok ==> final(broadcaster)@ == old(broadcaster)@.push(
            spec_encode(roster_broadcast(user_manager.roster())),
        ),
        r is Err ==> final(broadcaster)@ == old(broadcaster)@,
{
    let users = user_manager.list_users();
    let mut names: Vec<String> = Vec::new();
    let mut i: usize = 0;
    while i < users.len()
        invariant
            crate::user_manager::users_view(users@) == user_manager.entries(),
            0 <= i <= users@.len(),
            crate::message_type::names_view(names@) =~= user_manager.roster().take(i as int),
        decreases users@.len() - i,
    {
        names.push(String::from_str(users[i].username.as_str()));
        proof {
            let r = user_manager.roster();
            assert(crate::message_type::names_view(names@).drop_last() =~= r.take(i as int));
            assert(crate::message_type::names_view(names@).last() == users@[i as int]@.username);
            assert(users@[i as int]@.username == r[i as int]);
            assert(crate::message_type::names_view(names@) =~= r.take(i + 1));
        }
        i = i + 1;
    }
    proof {
        assert(user_manager.roster().take(users@.len() as int) =~= user_manager.roster());
    }
    let msg = MessageType::Roster { names };
    let frame = to_json(&msg);
    if broadcaster.try_publish(frame) {
        Ok(())
    } else {
        Err(RouteError::ChannelFull)
    }
}

/// What the router publishes for a given inbound envelope and acting
/// identity; `None` for an envelope that produces no broadcast.
pub open spec fn route_effect(
    m: MessageView,
    acting: Seq<char>,
    roster: Seq<Seq<char>>,
) -> Option<Seq<char>> {
    match m {
        MessageView::Chat { from, to, text } => Some(spec_encode(chat_broadcast(acting, text))),
        MessageView::Notice { category, text } => Some(
            spec_encode(MessageView::Notice { category, text }),
        ),
        MessageView::RosterRequest => Some(spec_encode(roster_broadcast(roster))),
        MessageView::Roster { names } => Some(spec_encode(roster_broadcast(roster))),
        MessageView::Command { raw } => None,
    }
}

/// Dispatches one decoded envelope.
///
/// A chat line is rebroadcast attributed to `username` — the identity the
/// relay authenticated for this connection — never to the client-supplied
/// sender field, so a client cannot spoof another sender.  A notice is
/// rebroadcast verbatim.  A roster request (or a stray roster frame, which
/// the relay answers the same way) is answered with the current display
/// names.  A command is observed and deliberately produces nothing.
pub fn route_message(
    message: &MessageType,
    username: &str,
    user_manager: &UserManager,
    broadcaster: &mut Broadcaster,
) -> (r: Result<(), RouteError>)
    requires
        user_manager.wf(),
        old(broadcaster).wf(),
    ensures
        final(broadcaster).wf(),
        match route_effect(message@, username@, user_manager.roster()) {
            Some(payload) => {
                &&& (r is Ok <==> old(broadcaster).can_publish())
                &&& (r is Ok ==> final(broadcaster)@ == old(broadcaster)@.push(payload))
                &&& (r is Err ==> final(broadcaster)@ == old(broadcaster)@)
            },
            None => r is Ok && final(broadcaster)@ == old(broadcaster)@,
        },
{
    match message {
        MessageType::Chat { from: _, to: receiver, text } => handle_chat_message(
            username,
            text.as_str(),
            receiver.as_str(),
            broadcaster,
        ),
        MessageType::Notice { category, text } => handle_system_message(
            category.as_str(),
            text.as_str(),
            broadcaster,
        ),
        MessageType::RosterRequest => handle_user_list_request(user_manager, broadcaster),
        MessageType::Roster { names: _ } => handle_user_list_request(user_manager, broadcaster),
        MessageType::Command { raw: _ } => Ok(()),
    }
}

} // verus!
