//! The participant registry: the directory of currently connected
//! participants, keyed by the connection's transport address.
//!
//! The registry is a sequential structure; the process that serves many
//! connections at once serializes every call through one exclusive lock,
//! so each interleaving of calls is some sequence of the operations
//! specified here.  Its mathematical content is a map from connection key
//! to display name: `register` is `Map::insert`, `deregister` is
//! `Map::remove`, and a snapshot is an association list denoting the map.

use vstd::prelude::*;
use crate::message_type::str_eq;

verus! {

/// One connected participant.
#[derive(Debug, Clone)]
pub struct User {
    /// The user-chosen display name; not guaranteed unique.
    pub username: String,
    /// The transport-level address: the participant's true identity.
    pub peer_address: String,
}

/// The mathematical shape of a participant.
pub struct UserView {
    pub username: Seq<char>,
    pub peer_address: Seq<char>,
}

impl View for User {
    type V = UserView;

    open spec fn view(&self) -> UserView {
        UserView { username: self.username@, peer_address: self.peer_address@ }
    }
}

pub open spec fn users_view(s: Seq<User>) -> Seq<UserView> {
    s.map_values(|u: User| u@)
}

/// The map an association list of participants denotes: a later entry for
/// the same key overwrites an earlier one.
pub open spec fn map_of(s: Seq<UserView>) -> Map<Seq<char>, Seq<char>>
    decreases s.len(),
{
    if s.len() == 0 {
        Map::empty()
    } else {
        map_of(s.drop_last()).insert(s.last().peer_address, s.last().username)
    }
}

/// No two entries share a connection key.
pub open spec fn distinct_keys(s: Seq<UserView>) -> bool {
    forall|i: int, j: int| 0 <= i < j < s.len() ==> s[i].peer_address != s[j].peer_address
}

/// The registry of connected participants.
pub struct UserManager {
    users: Vec<User>,
}

impl View for UserManager {
    type V = Map<Seq<char>, Seq<char>>;

    closed spec fn view(&self) -> Map<Seq<char>, Seq<char>> {
        map_of(users_view(self.users@))
    }
}

proof fn lemma_map_of_contains(s: Seq<UserView>, k: Seq<char>)
    ensures
        map_of(s).dom().contains(k) <==> exists|i: int|
            0 <= i < s.len() && #[trigger] s[i].peer_address == k,
    decreases s.len(),
{
    if s.len() > 0 {
        lemma_map_of_contains(s.drop_last(), k);
        if map_of(s).dom().contains(k) {
            if s.last().peer_address == k {
                assert(s[s.len() - 1].peer_address == k);
            } else {
                let i = choose|i: int|
                    0 <= i < s.drop_last().len() && #[trigger] s.drop_last()[i].peer_address == k;
                assert(s[i].peer_address == k);
            }
        }
        if exists|i: int| 0 <= i < s.len() && #[trigger] s[i].peer_address == k {
            let i = choose|i: int| 0 <= i < s.len() && #[trigger] s[i].peer_address == k;
            if i < s.len() - 1 {
                assert(s.drop_last()[i].peer_address == k);
            }
        }
    }
}

proof fn lemma_map_of_remove_idx(s: Seq<UserView>, i: int)
    requires
        distinct_keys(s),
        0 <= i < s.len(),
    ensures
        map_of(s.remove(i)) == map_of(s).remove(s[i].peer_address),
    decreases s.len(),
{
    let k = s[i].peer_address;
    if i == s.len() - 1 {
        assert(s.remove(i) =~= s.drop_last());
        assert(forall|j: int|
            0 <= j < s.drop_last().len() ==> s.drop_last()[j].peer_address != k);
        lemma_map_of_contains(s.drop_last(), k);
        assert(!map_of(s.drop_last()).dom().contains(k));
        assert(map_of(s.drop_last()).insert(k, s.last().username).remove(k) =~= map_of(
            s.drop_last(),
        ));
    } else {
        let dl = s.drop_last();
        assert(distinct_keys(dl)) by {
            assert(forall|a: int, b: int|
                0 <= a < b < dl.len() ==> dl[a].peer_address != dl[b].peer_address);
        }
        lemma_map_of_remove_idx(dl, i);
        assert(s.remove(i).drop_last() =~= dl.remove(i));
        assert(s.remove(i).last() == s.last());
        assert(map_of(s.remove(i)) == map_of(dl).remove(k).insert(
            s.last().peer_address,
            s.last().username,
        ));
        assert(s.last().peer_address != k);
        assert(map_of(dl).remove(k).insert(s.last().peer_address, s.last().username) =~= map_of(
            dl,
        ).insert(s.last().peer_address, s.last().username).remove(k));
    }
}

proof fn lemma_map_of_len(s: Seq<UserView>)
    requires
        distinct_keys(s),
    ensures
        map_of(s).dom().finite(),
        map_of(s).dom().len() == s.len(),
    decreases s.len(),
{
    if s.len() > 0 {
        let dl = s.drop_last();
        assert(distinct_keys(dl)) by {
            assert(forall|a: int, b: int|
                0 <= a < b < dl.len() ==> dl[a].peer_address != dl[b].peer_address);
        }
        lemma_map_of_len(dl);
        lemma_map_of_contains(dl, s.last().peer_address);
        assert(forall|j: int|
            0 <= j < dl.len() ==> dl[j].peer_address != s.last().peer_address);
        assert(!map_of(dl).dom().contains(s.last().peer_address));
        assert(map_of(s).dom() =~= map_of(dl).dom().insert(s.last().peer_address));
    } else {
        assert(map_of(s).dom() =~= Set::<Seq<char>>::empty());
    }
}

impl UserManager {
    /// The stored entries, as their mathematical shapes, in storage order.
    pub closed spec fn entries(&self) -> Seq<UserView> {
        users_view(self.users@)
    }

    /// No two stored entries share a connection key.
    pub open spec fn wf(&self) -> bool {
        distinct_keys(self.entries())
    }

    /// The display names currently registered, in storage order.
    pub open spec fn roster(&self) -> Seq<Seq<char>> {
        self.entries().map_values(|u: UserView| u.username)
    }

    /// An empty registry.
    pub fn new() -> (r: UserManager)
        ensures
            r.wf(),
            r@ == Map::<Seq<char>, Seq<char>>::empty(),
            r.roster() == Seq::<Seq<char>>::empty(),
    {
        let r = UserManager { users: Vec::new() };
        proof {
            assert(users_view(r.users@) =~= Seq::<UserView>::empty());
            assert(r.roster() =~= Seq::<Seq<char>>::empty());
        }
        r
    }

    fn find_index(&self, peer_address: &str) -> (r: Option<usize>)
        requires
            self.wf(),
        ensures
            match r {
                Some(i) => i < self.users@.len() && users_view(self.users@)[i as int].peer_address
                    == peer_address@,
                None => !self@.dom().contains(peer_address@),
            },
    {
        let mut i: usize = 0;
        while i < self.users.len()
            invariant
                self.wf(),
                0 <= i <= self.users@.len(),
                forall|j: int|
                    0 <= j < i ==> users_view(self.users@)[j].peer_address != peer_address@,
            decreases self.users@.len() - i,
        {
            if str_eq(self.users[i].peer_address.as_str(), peer_address) {
                return Some(i);
            }
            i = i + 1;
        }
        proof {
            lemma_map_of_contains(users_view(self.users@), peer_address@);
        }
        None
    }

    /// Inserts or overwrites the entry for `peer_address`.  Overwriting is
    /// legal (a re-handshake) and silently replaces the prior entry.
    pub fn add_user(&mut self, peer_address: &str, username: &str)
        requires
            old(self).wf(),
        ensures
            final(self).wf(),
            final(self)@ == old(self)@.insert(peer_address@, username@),
    {
        self.remove_user(peer_address);
        let u = User {
            username: String::from_str(username),
            peer_address: String::from_str(peer_address),
        };
        let ghost before = users_view(self.users@);
        self.users.push(u);
        proof {
            let after = users_view(self.users@);
            assert(after.drop_last() =~= before);
            assert(after.last() == u@);
            assert(map_of(after) == map_of(before).insert(peer_address@, username@));
            lemma_map_of_contains(before, peer_address@);
            assert(forall|j: int| 0 <= j < before.len() ==> before[j].peer_address
                != peer_address@);
            assert forall|a: int, b: int| 0 <= a < b < after.len() implies after[a].peer_address
                != after[b].peer_address by {
                assert(after[a] == before[a]);
                if b == after.len() - 1 {
                    assert(after[b] == u@);
                } else {
                    assert(after[b] == before[b]);
                }
            }
            assert(distinct_keys(after));
            assert(old(self)@.remove(peer_address@).insert(peer_address@, username@) =~= old(
                self,
            )@.insert(peer_address@, username@));
        }
    }

    /// Removes the entry for `peer_address` if present; removing an absent
    /// key is a no-op, not an error.
    pub fn remove_user(&mut self, peer_address: &str)
        requires
            old(self).wf(),
        ensures
            final(self).wf(),
            final(self)@ == old(self)@.remove(peer_address@),
    {
        match self.find_index(peer_address) {
            None => {
                proof {
                    assert(self@ =~= self@.remove(peer_address@));
                }
            },
            Some(i) => {
                let ghost before = users_view(self.users@);
                self.users.remove(i);
                proof {
                    assert(users_view(self.users@) =~= before.remove(i as int));
                    lemma_map_of_remove_idx(before, i as int);
                    assert(distinct_keys(before.remove(i as int))) by {
                        assert(forall|a: int, b: int|
                            0 <= a < b < before.remove(i as int).len()
                                ==> before.remove(i as int)[a].peer_address != before.remove(
                                i as int,
                            )[b].peer_address);
                    }
                }
            },
        }
    }

    /// A point-in-time copy of the current entries.  The copy is an
    /// association list with distinct keys that denotes exactly the
    /// registry's map, and its display names are the current roster.
    pub fn list_users(&self) -> (r: Vec<User>)
        requires
            self.wf(),
        ensures
            users_view(r@) == self.entries(),
            distinct_keys(users_view(r@)),
            map_of(users_view(r@)) == self@,
            users_view(r@).map_values(|u: UserView| u.username) == self.roster(),
            r@.len() == self@.dom().len(),
    {
        let mut out: Vec<User> = Vec::new();
        let mut i: usize = 0;
        while i < self.users.len()
            invariant
                0 <= i <= self.users@.len(),
                users_view(out@) =~= users_view(self.users@).take(i as int),
            decreases self.users@.len() - i,
        {
            let u = User {
                username: String::from_str(self.users[i].username.as_str()),
                peer_address: String::from_str(self.users[i].peer_address.as_str()),
            };
            out.push(u);
            proof {
                let prev = users_view(self.users@).take(i as int);
                assert(users_view(out@).drop_last() =~= prev);
                assert(users_view(out@) =~= users_view(self.users@).take(i + 1));
            }
            i = i + 1;
        }
        proof {
            assert(users_view(self.users@).take(self.users@.len() as int) =~= users_view(
                self.users@,
            ));
            lemma_map_of_len(users_view(self.users@));
        }
        out
    }
}

proof fn lemma_map_of_index(s: Seq<UserView>, i: int)
    requires
        distinct_keys(s),
        0 <= i < s.len(),
    ensures
        map_of(s).contains_pair(s[i].peer_address, s[i].username),
    decreases s.len(),
{
    if i == s.len() - 1 {
        assert(map_of(s) == map_of(s.drop_last()).insert(s.last().peer_address, s.last().username));
    } else {
        let dl = s.drop_last();
        assert(distinct_keys(dl)) by {
            assert(forall|a: int, b: int|
                0 <= a < b < dl.len() ==> dl[a].peer_address != dl[b].peer_address);
        }
        lemma_map_of_index(dl, i);
        assert(s.last().peer_address != s[i].peer_address);
    }
}

/// Law: a roster lists exactly the registered participants.  It has one
/// display name per registered connection, each of its names is the
/// identity of some registered connection, and every registered
/// connection's identity appears in it.
pub proof fn lemma_roster_matches_registry(um: &UserManager)
    requires
        um.wf(),
    ensures
        um@.dom().finite(),
        um.roster().len() == um@.dom().len(),
        forall|i: int| 0 <= i < um.roster().len() ==> um@.contains_pair(
            um.entries()[i].peer_address,
            #[trigger] um.roster()[i],
        ),
        forall|k: Seq<char>| #[trigger] um@.dom().contains(k) ==> exists|i: int|
            0 <= i < um.roster().len() && #[trigger] um.roster()[i] == um@[k],
{
    let s = um.entries();
    lemma_map_of_len(s);
    assert forall|i: int| 0 <= i < um.roster().len() implies um@.contains_pair(
        um.entries()[i].peer_address,
        #[trigger] um.roster()[i],
    ) by {
        lemma_map_of_index(s, i);
        assert(um.roster()[i] == s[i].username);
    }
    assert forall|k: Seq<char>| #[trigger] um@.dom().contains(k) implies exists|i: int|
        0 <= i < um.roster().len() && #[trigger] um.roster()[i] == um@[k] by {
        lemma_map_of_contains(s, k);
        let i = choose|i: int| 0 <= i < s.len() && #[trigger] s[i].peer_address == k;
        lemma_map_of_index(s, i);
        assert(um.roster()[i] == s[i].username);
        assert(um@[k] == s[i].username);
    }
}

/// Law: the registry is consistent under any sequence of register and
/// deregister calls.  Registering `k` then deregistering `k` leaves `k`
/// absent; registering `k` (possibly over a prior entry) leaves `k`
/// present with the last-registered identity.  Because every mutation is
/// `insert` or `remove` on the registry's map, these two facts cover
/// every interleaving once the lock has put the calls in some order.
pub proof fn lemma_registry_consistency(
    m: Map<Seq<char>, Seq<char>>,
    k: Seq<char>,
    id: Seq<char>,
    prior: Seq<char>,
)
    ensures
        !m.insert(k, id).remove(k).dom().contains(k),
        m.insert(k, prior).insert(k, id).dom().contains(k),
        m.insert(k, prior).insert(k, id)[k] == id,
{
}

/// One registry mutation, as the callers see it.
pub enum RegistryOp {
    Register { key: Seq<char>, identity: Seq<char> },
    Deregister { key: Seq<char> },
}

pub open spec fn op_key(op: RegistryOp) -> Seq<char> {
    match op {
        RegistryOp::Register { key, .. } => key,
        RegistryOp::Deregister { key } => key,
    }
}

pub open spec fn apply_op(m: Map<Seq<char>, Seq<char>>, op: RegistryOp) -> Map<
    Seq<char>,
    Seq<char>,
> {
    match op {
        RegistryOp::Register { key, identity } => m.insert(key, identity),
        RegistryOp::Deregister { key } => m.remove(key),
    }
}

pub open spec fn apply_ops(m: Map<Seq<char>, Seq<char>>, ops: Seq<RegistryOp>) -> Map<
    Seq<char>,
    Seq<char>,
>
    decreases ops.len(),
{
    if ops.len() == 0 {
        m
    } else {
        apply_op(apply_ops(m, ops.drop_last()), ops.last())
    }
}

/// The last mutation in the trace that touched key `k`, if any.
pub open spec fn last_op_on(ops: Seq<RegistryOp>, k: Seq<char>) -> Option<RegistryOp>
    decreases ops.len(),
{
    if ops.len() == 0 {
        Option::None
    } else if op_key(ops.last()) == k {
        Option::Some(ops.last())
    } else {
        last_op_on(ops.drop_last(), k)
    }
}

/// Law: for any interleaving of register and deregister calls across any
/// number of callers — once the lock has serialized them into a trace —
/// a snapshot taken after all calls complete holds each key according to
/// the last call that touched it: present with the last-registered
/// identity after a final register, absent after a final deregister, and
/// as before the trace when no call touched it.
pub proof fn lemma_registry_trace(
    m: Map<Seq<char>, Seq<char>>,
    ops: Seq<RegistryOp>,
    k: Seq<char>,
)
    ensures
        match last_op_on(ops, k) {
            Option::Some(op) => match op {
                RegistryOp::Register { identity, .. } => apply_ops(m, ops).dom().contains(k)
                    && apply_ops(m, ops)[k] == identity,
                RegistryOp::Deregister { .. } => !apply_ops(m, ops).dom().contains(k),
            },
            Option::None => apply_ops(m, ops).dom().contains(k) == m.dom().contains(k) && (
            m.dom().contains(k) ==> apply_ops(m, ops)[k] == m[k]),
        },
    decreases ops.len(),
{
    if ops.len() > 0 {
        lemma_registry_trace(m, ops.drop_last(), k);
    }
}

} // verus!
