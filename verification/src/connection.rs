//! The per-connection lifecycle: `Connecting → AwaitingIdentity → Active
//! → Draining → Closed`.
//!
//! Everything the relay decides about one connection lives here; the
//! transport loops outside merely feed frames in and carry payloads out.
//! The handler prompts for a display name after the handshake, treats the
//! first inbound frame as that name, registers the participant and
//! announces the join, dispatches every later frame through the router
//! (a frame that fails to decode is dropped and the connection lives on),
//! and on transport close deregisters the participant and announces the
//! leave, retrying the announcement a bounded number of times rather
//! than ever waiting forever.

use vstd::prelude::*;
use crate::channel::Broadcaster;
use crate::message_type::{spec_decode, to_json, MessageType, MessageView};
use crate::router::{route_effect, route_message, RouteError};
use crate::user_manager::UserManager;

verus! {

/// How many times a leave notice is offered to the channel before the
/// handler gives up rather than block shutdown.
pub const LEAVE_RETRIES: usize = 3;

/// The lifecycle states of one connection.
#[derive(Debug, Clone, Copy, PartialEq, Eq, Structural)]
pub enum ConnPhase {
    /// The transport handshake has not finished yet.
    Connecting,
    /// The name prompt went out; the first inbound frame will be the name.
    AwaitingIdentity,
    /// Registered and relaying frames in both directions.
    Active,
    /// A transport loop ended; bookkeeping has not run yet.
    Draining,
    /// Deregistered; the connection is gone.
    Closed,
}

/// One connection's lifecycle state.
pub struct Connection {
    phase: ConnPhase,
    peer_address: String,
    identity: Option<String>,
}

/// The mathematical shape of a connection.
pub struct ConnectionView {
    pub phase: ConnPhase,
    pub peer_address: Seq<char>,
    pub identity: Option<Seq<char>>,
}

impl View for Connection {
    type V = ConnectionView;

    closed spec fn view(&self) -> ConnectionView {
        ConnectionView {
            phase: self.phase,
            peer_address: self.peer_address@,
            identity: match self.identity {
                Option::Some(ref s) => Option::Some(s@),
                Option::None => Option::None,
            },
        }
    }
}

impl Connection {
    /// Once a connection has been registered it knows who it is.
    pub open spec fn wf(&self) -> bool {
        (self@.phase == ConnPhase::Active || self@.phase == ConnPhase::Draining)
            ==> self@.identity is Some
    }
}

pub open spec fn is_space(c: char) -> bool {
    c == ' ' || c == '\t' || c == '\n' || c == '\r'
}

pub open spec fn trim_front(s: Seq<char>) -> Seq<char>
    decreases s.len(),
{
    if s.len() > 0 && is_space(s[0]) {
        trim_front(s.drop_first())
    } else {
        s
    }
}

pub open spec fn trim_back(s: Seq<char>) -> Seq<char>
    decreases s.len(),
{
    if s.len() > 0 && is_space(s.last()) {
        trim_back(s.drop_last())
    } else {
        s
    }
}

/// `s` without its surrounding spaces, tabs, carriage returns and
/// newlines.
pub open spec fn trim_of(s: Seq<char>) -> Seq<char> {
    trim_back(trim_front(s))
}

fn is_space_char(c: char) -> (r: bool)
    ensures
        r == is_space(c),
{
    c == ' ' || c == '\t' || c == '\n' || c == '\r'
}

/// Strips surrounding whitespace from a raw identity frame.
#[verifier::loop_isolation(false)]
pub fn trim_spaces(s: &str) -> (r: String)
    ensures
        r@ == trim_of(s@),
{
    let n = s.unicode_len();
    let mut i: usize = 0;
    proof {
        assert(s@.skip(0) =~= s@);
    }
    while i < n && is_space_char(s.get_char(i))
        invariant
            0 <= i <= n,
            trim_front(s@) == trim_front(s@.skip(i as int)),
        decreases n - i,
    {
        proof {
            let u = s@.skip(i as int);
            assert(u[0] == s@[i as int]);
            assert(u.drop_first() =~= s@.skip(i + 1));
        }
        i = i + 1;
    }
    proof {
        let u = s@.skip(i as int);
        if i == n {
            assert(u =~= Seq::<char>::empty());
        }
        assert(trim_front(s@) == u);
    }
    let mut j: usize = n;
    while j > i && is_space_char(s.get_char(j - 1))
        invariant
            i <= j <= n,
            trim_back(s@.subrange(i as int, n as int)) == trim_back(s@.subrange(i as int, j as int)),
        decreases j,
    {
        proof {
            let u = s@.subrange(i as int, j as int);
            assert(u.last() == s@[j - 1]);
            assert(u.drop_last() =~= s@.subrange(i as int, j - 1));
        }
        j = j - 1;
    }
    proof {
        let u = s@.subrange(i as int, j as int);
        if j == i {
            assert(u =~= Seq::<char>::empty());
        }
        assert(trim_back(u) == u);
        assert(s@.skip(i as int) =~= s@.subrange(i as int, n as int));
        assert(trim_of(s@) == u);
    }
    String::from_str(s.substring_char(i, j))
}

/// The notice that prompts a fresh connection for a display name.
pub open spec fn prompt_view() -> MessageView {
    MessageView::Notice { category: "SYSTEM"@, text: "Enter your username:"@ }
}

/// The announcement text for a participant joining.
pub open spec fn join_text(name: Seq<char>) -> Seq<char> {
    "*** "@ + name + " has joined the chat ***"@
}

/// The announcement text for a participant leaving.
pub open spec fn leave_text(name: Seq<char>) -> Seq<char> {
    "*** "@ + name + " has left the chat ***"@
}

pub open spec fn join_notice(name: Seq<char>) -> MessageView {
    MessageView::Notice { category: "SYSTEM"@, text: join_text(name) }
}

pub open spec fn leave_notice(name: Seq<char>) -> MessageView {
    MessageView::Notice { category: "SYSTEM"@, text: leave_text(name) }
}

fn make_notice(category: &str, text: String) -> (r: MessageType)
    ensures
        r@ == (MessageView::Notice { category: category@, text: text@ }),
{
    MessageType::Notice { category: String::from_str(category), text }
}

impl Connection {
    /// A connection that has just been accepted, before its handshake.
    pub fn new(peer_address: String) -> (c: Connection)
        ensures
            c.wf(),
            c@.phase == ConnPhase::Connecting,
            c@.peer_address == peer_address@,
            c@.identity is None,
    {
        Connection { phase: ConnPhase::Connecting, peer_address, identity: None }
    }

    /// The connection's current phase.
    pub fn phase(&self) -> (p: ConnPhase)
        ensures
            p == self@.phase,
    {
        self.phase
    }

    /// The handshake finished: move to `AwaitingIdentity` and hand back
    /// the encoded name prompt for the transport to send.
    pub fn on_handshake_complete(&mut self) -> (prompt: String)
        requires
            old(self).wf(),
            old(self)@.phase == ConnPhase::Connecting,
        ensures
            final(self).wf(),
            final(self)@.phase == ConnPhase::AwaitingIdentity,
            final(self)@.peer_address == old(self)@.peer_address,
            final(self)@.identity == old(self)@.identity,
            prompt@ == crate::message_type::spec_encode(prompt_view()),
    {
        self.phase = ConnPhase::AwaitingIdentity;
        let msg = make_notice("SYSTEM", String::from_str("Enter your username:"));
        to_json(&msg)
    }

    /// The first inbound frame arrived: take it whole as the display
    /// name (surrounding whitespace stripped), register the participant
    /// under this connection's address, and announce the join to every
    /// subscriber — this connection's own outbound loop included.
    pub fn on_identity_frame(
        &mut self,
        raw_name: &str,
        registry: &mut UserManager,
        broadcaster: &mut Broadcaster,
    )
        requires
            old(self).wf(),
            old(self)@.phase == ConnPhase::AwaitingIdentity,
            old(registry).wf(),
            old(broadcaster).wf(),
        ensures
            final(self).wf(),
            final(registry).wf(),
            final(broadcaster).wf(),
            final(self)@.phase == ConnPhase::Active,
            final(self)@.peer_address == old(self)@.peer_address,
            final(self)@.identity == Some(trim_of(raw_name@)),
            final(registry)@ == old(registry)@.insert(
                old(self)@.peer_address,
                trim_of(raw_name@),
            ),
            old(broadcaster).can_publish() ==> final(broadcaster)@ == old(broadcaster)@.push(
                crate::message_type::spec_encode(join_notice(trim_of(raw_name@))),
            ),
            !old(broadcaster).can_publish() ==> final(broadcaster)@ == old(broadcaster)@,
    {
        let name = trim_spaces(raw_name);
        registry.add_user(self.peer_address.as_str(), name.as_str());
        let mut text = String::from_str("*** ");
        text.append(name.as_str());
        text.append(" has joined the chat ***");
        let msg = make_notice("SYSTEM", text);
        let frame = to_json(&msg);
        broadcaster.try_publish(frame);
        self.identity = Some(name);
        self.phase = ConnPhase::Active;
    }

    /// The transport closed before any frame arrived: nothing was
    /// registered and nothing is announced.
    pub fn on_closed_before_identity(&mut self)
        requires
            old(self).wf(),
            old(self)@.phase == ConnPhase::AwaitingIdentity,
        ensures
            final(self).wf(),
            final(self)@.phase == ConnPhase::Closed,
            final(self)@.peer_address == old(self)@.peer_address,
            final(self)@.identity == old(self)@.identity,
    {
        self.phase = ConnPhase::Closed;
    }

    /// One inbound frame while active: decode it and dispatch through the
    /// router.  A frame that fails to decode is dropped — nothing is
    /// broadcast and the connection stays active to serve the next frame.
    pub fn on_inbound_frame(
        &mut self,
        raw: &str,
        registry: &UserManager,
        broadcaster: &mut Broadcaster,
    ) -> (r: Result<(), RouteError>)
        requires
            old(self).wf(),
            old(self)@.phase == ConnPhase::Active,
            registry.wf(),
            old(broadcaster).wf(),
        ensures
            final(self).wf(),
            final(broadcaster).wf(),
            final(self)@ == old(self)@,
            match spec_decode(raw@) {
                Option::None => r is Ok && final(broadcaster)@ == old(broadcaster)@,
                Option::Some(m) => match route_effect(
                    m,
                    old(self)@.identity->0,
                    registry.roster(),
                ) {
                    Option::Some(payload) => {
                        &&& (r is Ok <==> old(broadcaster).can_publish())
                        &&& (r is Ok ==> final(broadcaster)@ == old(broadcaster)@.push(payload))
                        &&& (r is Err ==> final(broadcaster)@ == old(broadcaster)@)
                    },
                    Option::None => r is Ok && final(broadcaster)@ == old(broadcaster)@,
                },
            },
    {
        match crate::message_type::parse_message(raw) {
            Err(_) => Ok(()),
            Ok(message) => {
                let name = match &self.identity {
                    Some(n) => n.as_str(),
                    None => "",
                };
                route_message(&message, name, registry, broadcaster)
            },
        }
    }

    /// A transport loop ended: the connection is no longer serving and
    /// waits for its bookkeeping.
    pub fn on_loop_ended(&mut self)
        requires
            old(self).wf(),
            old(self)@.phase == ConnPhase::Active,
        ensures
            final(self).wf(),
            final(self)@.phase == ConnPhase::Draining,
            final(self)@.peer_address == old(self)@.peer_address,
            final(self)@.identity == old(self)@.identity,
    {
        self.phase = ConnPhase::Draining;
    }

    /// The final bookkeeping: deregister the participant and announce the
    /// leave.  The announcement is offered to the channel a bounded
    /// number of times and then abandoned — shutdown never blocks on it.
    /// Returns whether the announcement was published.
    pub fn finish(
        &mut self,
        registry: &mut UserManager,
        broadcaster: &mut Broadcaster,
    ) -> (published: bool)
        requires
            old(self).wf(),
            old(self)@.phase == ConnPhase::Draining,
            old(registry).wf(),
            old(broadcaster).wf(),
        ensures
            final(self).wf(),
            final(registry).wf(),
            final(broadcaster).wf(),
            final(self)@.phase == ConnPhase::Closed,
            final(self)@.peer_address == old(self)@.peer_address,
            final(self)@.identity == old(self)@.identity,
            final(registry)@ == old(registry)@.remove(old(self)@.peer_address),
            published == old(broadcaster).can_publish(),
            published ==> final(broadcaster)@ == old(broadcaster)@.push(
                crate::message_type::spec_encode(leave_notice(old(self)@.identity->0)),
            ),
            !published ==> final(broadcaster)@ == old(broadcaster)@,
    {
        registry.remove_user(self.peer_address.as_str());
        let name: &str = match &self.identity {
            Some(n) => n.as_str(),
            None => "",
        };
        let mut text = String::from_str("*** ");
        text.append(name);
        text.append(" has left the chat ***");
        let msg = make_notice("SYSTEM", text);
        let frame = to_json(&msg);
        let mut sent = false;
        let mut attempts: usize = 0;
        while attempts < LEAVE_RETRIES && !sent
            invariant
                old(broadcaster).wf(),
                broadcaster.wf(),
                frame@ == crate::message_type::spec_encode(
                    leave_notice(old(self)@.identity->0),
                ),
                attempts > 0 ==> sent == old(broadcaster).can_publish(),
                sent ==> old(broadcaster).can_publish(),
                sent ==> broadcaster@ == old(broadcaster)@.push(
                    crate::message_type::spec_encode(leave_notice(old(self)@.identity->0)),
                ),
                !sent ==> broadcaster@ == old(broadcaster)@,
            decreases LEAVE_RETRIES - attempts,
        {
            sent = broadcaster.try_publish(String::from_str(frame.as_str()));
            attempts = attempts + 1;
        }
        self.phase = ConnPhase::Closed;
        sent
    }
}

} // verus!
