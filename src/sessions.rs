//! Sessions and the registry of live sessions: membership, ownership and the
//! rule that a session lives exactly as long as it has an active member.
//!
//! Policies: a session can always be joined, also while a match is under way.
//! A member that disconnects is marked inactive and keeps its tank, so that
//! the world it left stays as it was; leaving removes both. When the owner
//! leaves, the first remaining active member, in joining order, takes over.
use vstd::prelude::*;

use crate::environment::Environment;
use crate::game::{
    add_player_model, aim_model, game_wf, movement_model, remove_player_model, shoot_model, tick_model,
    GameState, GameView,
};
use crate::geometry::{vec_normalize, Vector2};

verus! {

/// Membership of one client in a session; `active` is false while the client
/// is disconnected.
#[derive(Debug)]
pub struct ClientStatus {
    pub id: String,
    pub active: bool,
}

/// One isolated match: its members, its owner and its world.
#[derive(Debug)]
pub struct Session {
    pub id: String,
    /// The member with host privileges; `None` until a first member joins.
    pub owner: Option<String>,
    /// Members in the order they joined.
    pub client_statuses: Vec<ClientStatus>,
    pub data: GameState,
}

pub struct SessionView {
    pub id: Seq<char>,
    pub owner: Option<Seq<char>>,
    pub members: Seq<(Seq<char>, bool)>,
    pub game: GameView,
}

impl View for ClientStatus {
    type V = (Seq<char>, bool);

    open spec fn view(&self) -> (Seq<char>, bool) {
        (self.id@, self.active)
    }
}

pub open spec fn members_view(ms: Seq<ClientStatus>) -> Seq<(Seq<char>, bool)> {
    ms.map_values(|m: ClientStatus| m@)
}

pub open spec fn owner_view(o: Option<String>) -> Option<Seq<char>> {
    match o {
        Some(s) => Some(s@),
        None => None,
    }
}

impl View for Session {
    type V = SessionView;

    open spec fn view(&self) -> SessionView {
        SessionView {
            id: self.id@,
            owner: owner_view(self.owner),
            members: members_view(self.client_statuses@),
            game: self.data@,
        }
    }
}

pub open spec fn is_member(ms: Seq<(Seq<char>, bool)>, id: Seq<char>) -> bool {
    exists|i: int| 0 <= i < ms.len() && (#[trigger] ms[i]).0 == id
}

pub open spec fn member_index(ms: Seq<(Seq<char>, bool)>, id: Seq<char>) -> int {
    choose|i: int| 0 <= i < ms.len() && (#[trigger] ms[i]).0 == id
}

pub open spec fn members_unique(ms: Seq<(Seq<char>, bool)>) -> bool {
    forall|i: int, j: int| 0 <= i < ms.len() && 0 <= j < ms.len() && i != j ==> (#[trigger] ms[i]).0 != (#[trigger] ms[j]).0
}

pub open spec fn has_active(ms: Seq<(Seq<char>, bool)>) -> bool {
    exists|i: int| 0 <= i < ms.len() && (#[trigger] ms[i]).1
}

/// Ids of the members whose status is `status`, in joining order.
pub open spec fn ids_with_status(ms: Seq<(Seq<char>, bool)>, status: bool) -> Seq<Seq<char>>
    decreases ms.len(),
{
    if ms.len() == 0 {
        Seq::empty()
    } else {
        let rest = ids_with_status(ms.drop_last(), status);
        if ms.last().1 == status {
            rest.push(ms.last().0)
        } else {
            rest
        }
    }
}

/// The first active member, in joining order.
pub open spec fn first_active(ms: Seq<(Seq<char>, bool)>) -> int {
    choose|i: int| 0 <= i < ms.len() && (#[trigger] ms[i]).1 && forall|j: int| 0 <= j < i ==> !(#[trigger] ms[j]).1
}

/// `insert_client`: adds the member, or overwrites the status of an existing one.
pub open spec fn members_inserted(ms: Seq<(Seq<char>, bool)>, id: Seq<char>, active: bool) -> Seq<(Seq<char>, bool)> {
    if is_member(ms, id) {
        ms.update(member_index(ms, id), (id, active))
    } else {
        ms.push((id, active))
    }
}

/// `remove_client`: drops the member, if present.
pub open spec fn members_removed(ms: Seq<(Seq<char>, bool)>, id: Seq<char>) -> Seq<(Seq<char>, bool)> {
    if is_member(ms, id) {
        ms.remove(member_index(ms, id))
    } else {
        ms
    }
}

/// A client joins: it becomes an active member, gets a tank, and owns the
/// session if no one did.
pub open spec fn joined(s: SessionView, id: Seq<char>) -> SessionView {
    SessionView {
        owner: if s.owner is None { Some(id) } else { s.owner },
        members: s.members.push((id, true)),
        game: add_player_model(s.game, id),
        ..s
    }
}

/// A client leaves: its membership and its tank go; if it owned the session,
/// the first remaining active member becomes the owner, or no one when none
/// is left (and the session is about to go).
pub open spec fn departed(s: SessionView, id: Seq<char>) -> SessionView {
    let ms = members_removed(s.members, id);
    SessionView {
        owner: if s.owner == Some(id) {
            if has_active(ms) {
                Some(ms[first_active(ms)].0)
            } else {
                None
            }
        } else {
            s.owner
        },
        members: ms,
        game: remove_player_model(s.game, id),
        ..s
    }
}

/// The owner, if any, is a member.
pub open spec fn owner_is_member(s: SessionView) -> bool {
    s.owner matches Some(o) ==> is_member(s.members, o)
}

pub open spec fn session_wf(s: SessionView) -> bool {
    &&& members_unique(s.members)
    &&& owner_is_member(s)
    &&& game_wf(s.game)
}

/// Changing one entry keeps every other id a member.
proof fn lemma_member_after_update(ms: Seq<(Seq<char>, bool)>, i: int, x: (Seq<char>, bool), o: Seq<char>)
    requires
        is_member(ms, o),
        0 <= i < ms.len(),
        x.0 == ms[i].0 || ms[i].0 != o,
    ensures
        is_member(ms.update(i, x), o),
{
    let k = choose|k: int| 0 <= k < ms.len() && (#[trigger] ms[k]).0 == o;
    assert(ms.update(i, x)[k].0 == o);
}

/// Removing one id keeps every other id a member.
proof fn lemma_member_after_remove(ms: Seq<(Seq<char>, bool)>, id: Seq<char>, o: Seq<char>)
    requires
        is_member(ms, o),
        o != id,
    ensures
        is_member(members_removed(ms, id), o),
{
    if is_member(ms, id) {
        let mi = member_index(ms, id);
        let k = choose|k: int| 0 <= k < ms.len() && (#[trigger] ms[k]).0 == o;
        let r = ms.remove(mi);
        if k < mi {
            assert(r[k] == ms[k]);
        } else {
            assert(k != mi);
            assert(r[k - 1] == ms[k]);
        }
    }
}

/// Adding an entry keeps every id a member.
proof fn lemma_member_after_push(ms: Seq<(Seq<char>, bool)>, x: (Seq<char>, bool), o: Seq<char>)
    requires
        is_member(ms, o) || x.0 == o,
    ensures
        is_member(ms.push(x), o),
{
    if x.0 == o {
        assert(ms.push(x)[ms.len() as int].0 == o);
    } else {
        let k = choose|k: int| 0 <= k < ms.len() && (#[trigger] ms[k]).0 == o;
        assert(ms.push(x)[k] == ms[k]);
    }
}

impl Session {
    pub open spec fn wf(&self) -> bool {
        session_wf(self@)
    }

    /// An empty session on an empty map.
    pub fn new(id: String) -> (r: Session)
        ensures
            r@.id == id@,
            r@.owner is None,
            r@.members.len() == 0,
            r@.game.players.len() == 0,
            r@.game.bullets.len() == 0,
            r@.game.tiles.len() == 0,
            r.wf(),
    {
        Session::with_environment(id, Environment::new())
    }

    /// An empty session on the given map.
    pub fn with_environment(id: String, environment: Environment) -> (r: Session)
        requires
            environment.wf(),
        ensures
            r@.id == id@,
            r@.owner is None,
            r@.members.len() == 0,
            r@.game.players.len() == 0,
            r@.game.bullets.len() == 0,
            r@.game.tiles == environment@,
            r.wf(),
    {
        let s = Session { id, owner: None, client_statuses: Vec::new(), data: GameState::new(environment) };
        proof {
            assert(s@.members =~= Seq::<(Seq<char>, bool)>::empty());
        }
        s
    }

    /// Number of members, active or not.
    pub fn get_num_clients(&self) -> (r: usize)
        ensures
            r == self@.members.len(),
    {
        self.client_statuses.len()
    }

    /// Index of the member `id`.
    fn find_member(&self, id: &String) -> (r: Option<usize>)
        requires
            members_unique(self@.members),
        ensures
            r is Some <==> is_member(self@.members, id@),
            r matches Some(i) ==> i < self@.members.len() && i as int == member_index(self@.members, id@)
                && self@.members[i as int].0 == id@,
    {
        let mut i: usize = 0;
        while i < self.client_statuses.len()
            invariant
                i <= self@.members.len(),
                members_unique(self@.members),
                forall|k: int| 0 <= k < i ==> self@.members[k].0 != id@,
            decreases self@.members.len() - i,
        {
            if self.client_statuses[i].id == *id {
                proof {
                    assert(self@.members[i as int].0 == id@);
                    assert(is_member(self@.members, id@));
                    let j = member_index(self@.members, id@);
                    if j != i as int {
                        assert(self@.members[j].0 != self@.members[i as int].0);
                    }
                }
                return Some(i);
            }
            i = i + 1;
        }
        proof {
            assert forall|k: int| 0 <= k < self@.members.len() implies (#[trigger] self@.members[k]).0 != id@ by {}
        }
        None
    }

    /// Whether `id` is a member, active or not.
    pub fn contains_client(&self, id: &str) -> (r: bool)
        requires
            members_unique(self@.members),
        ensures
            r == is_member(self@.members, id@),
    {
        let owned = id.to_owned();
        self.find_member(&owned).is_some()
    }

    /// Ids of all members, in joining order.
    pub fn get_client_ids(&self) -> (r: Vec<String>)
        ensures
            r@.len() == self@.members.len(),
            forall|i: int| 0 <= i < r@.len() ==> (#[trigger] r@[i])@ == self@.members[i].0,
    {
        let mut ids: Vec<String> = Vec::new();
        let mut i: usize = 0;
        while i < self.client_statuses.len()
            invariant
                i <= self@.members.len(),
                ids@.len() == i,
                forall|k: int| 0 <= k < i ==> (#[trigger] ids@[k])@ == self@.members[k].0,
            decreases self@.members.len() - i,
        {
            ids.push(self.client_statuses[i].id.clone());
            i = i + 1;
        }
        ids
    }

    /// Removes the member `id`, if present; its tank and the owner are left as they are.
    pub fn remove_client(&mut self, id: &str)
        requires
            members_unique(old(self)@.members),
        ensures
            final(self)@ == (SessionView { members: members_removed(old(self)@.members, id@), ..old(self)@ }),
            members_unique(final(self)@.members),
    {
        let owned = id.to_owned();
        match self.find_member(&owned) {
            Some(i) => {
                let _gone = self.client_statuses.remove(i);
                proof {
                    let o = old(self)@.members;
                    let ms = self@.members;
                    assert(ms =~= o.remove(i as int));
                    assert forall|a: int, b: int| 0 <= a < ms.len() && 0 <= b < ms.len() && a != b implies (#[trigger] ms[a]).0 != (#[trigger] ms[b]).0 by {
                        let a1 = if a < i { a } else { a + 1 };
                        let b1 = if b < i { b } else { b + 1 };
                        assert(ms[a] == o[a1]);
                        assert(ms[b] == o[b1]);
                    }
                }
            },
            None => {},
        }
    }

    /// Adds `id` as a member with the given status, or overwrites its status.
    pub fn insert_client(&mut self, id: &str, is_active: bool)
        requires
            members_unique(old(self)@.members),
        ensures
            final(self)@ == (SessionView { members: members_inserted(old(self)@.members, id@, is_active), ..old(self)@ }),
            members_unique(final(self)@.members),
    {
        let owned = id.to_owned();
        match self.find_member(&owned) {
            Some(i) => {
                self.client_statuses.set(i, ClientStatus { id: owned, active: is_active });
                proof {
                    let o = old(self)@.members;
                    let ms = self@.members;
                    assert(ms =~= o.update(i as int, (id@, is_active)));
                    assert forall|a: int, b: int| 0 <= a < ms.len() && 0 <= b < ms.len() && a != b implies (#[trigger] ms[a]).0 != (#[trigger] ms[b]).0 by {
                        assert(ms[a].0 == o[a].0);
                        assert(ms[b].0 == o[b].0);
                    }
                }
            },
            None => {
                self.client_statuses.push(ClientStatus { id: owned, active: is_active });
                proof {
                    let o = old(self)@.members;
                    let ms = self@.members;
                    assert(ms =~= o.push((id@, is_active)));
                    assert forall|a: int, b: int| 0 <= a < ms.len() && 0 <= b < ms.len() && a != b implies (#[trigger] ms[a]).0 != (#[trigger] ms[b]).0 by {
                        if a < o.len() {
                            assert(ms[a] == o[a]);
                        }
                        if b < o.len() {
                            assert(ms[b] == o[b]);
                        }
                    }
                }
            },
        }
    }

    /// Ids of the members whose status is `active_status`, in joining order.
    pub fn get_clients_with_active_status(&self, active_status: bool) -> (r: Vec<String>)
        ensures
            r@.len() == ids_with_status(self@.members, active_status).len(),
            forall|i: int| 0 <= i < r@.len() ==> (#[trigger] r@[i])@ == ids_with_status(self@.members, active_status)[i],
    {
        let mut ids: Vec<String> = Vec::new();
        let mut i: usize = 0;
        while i < self.client_statuses.len()
            invariant
                i <= self@.members.len(),
                ids@.len() == ids_with_status(self@.members.subrange(0, i as int), active_status).len(),
                forall|k: int| 0 <= k < ids@.len() ==> (#[trigger] ids@[k])@ == ids_with_status(self@.members.subrange(0, i as int), active_status)[k],
            decreases self@.members.len() - i,
        {
            proof {
                assert(self@.members.subrange(0, i + 1).drop_last() =~= self@.members.subrange(0, i as int));
            }
            if self.client_statuses[i].active == active_status {
                ids.push(self.client_statuses[i].id.clone());
            }
            i = i + 1;
        }
        proof {
            assert(self@.members.subrange(0, self@.members.len() as int) =~= self@.members);
        }
        ids
    }

    /// Ids of the active members, in joining order.
    pub fn active_client_set(&self) -> (r: Vec<String>)
        ensures
            r@.len() == ids_with_status(self@.members, true).len(),
            forall|i: int| 0 <= i < r@.len() ==> (#[trigger] r@[i])@ == ids_with_status(self@.members, true)[i],
    {
        self.get_clients_with_active_status(true)
    }

    /// Sets the status of member `id`; fails with the id when it is not a member.
    pub fn set_client_active_status(&mut self, id: &str, is_active: bool) -> (r: Result<(), String>)
        requires
            members_unique(old(self)@.members),
        ensures
            r is Ok <==> is_member(old(self)@.members, id@),
            r is Ok ==> final(self)@ == (SessionView {
                members: old(self)@.members.update(member_index(old(self)@.members, id@), (id@, is_active)),
                ..old(self)@
            }),
            r matches Err(e) ==> e@ == id@ && final(self)@ == old(self)@,
            members_unique(final(self)@.members),
    {
        let owned = id.to_owned();
        match self.find_member(&owned) {
            Some(i) => {
                self.client_statuses.set(i, ClientStatus { id: owned, active: is_active });
                proof {
                    let o = old(self)@.members;
                    let ms = self@.members;
                    assert(ms =~= o.update(i as int, (id@, is_active)));
                    assert forall|a: int, b: int| 0 <= a < ms.len() && 0 <= b < ms.len() && a != b implies (#[trigger] ms[a]).0 != (#[trigger] ms[b]).0 by {
                        assert(ms[a].0 == o[a].0);
                        assert(ms[b].0 == o[b].0);
                    }
                }
                Ok(())
            },
            None => Err(owned),
        }
    }

    /// Sets the status of member `id`; nothing happens when it is not a member.
    pub fn set_client_status(&mut self, client_id: &str, active: bool)
        requires
            members_unique(old(self)@.members),
        ensures
            is_member(old(self)@.members, client_id@) ==> final(self)@ == (SessionView {
                members: old(self)@.members.update(member_index(old(self)@.members, client_id@), (client_id@, active)),
                ..old(self)@
            }),
            !is_member(old(self)@.members, client_id@) ==> final(self)@ == old(self)@,
            members_unique(final(self)@.members),
    {
        let _ = self.set_client_active_status(client_id, active);
    }

    /// Whether some member is active.
    pub fn has_active_member(&self) -> (r: bool)
        ensures
            r == has_active(self@.members),
    {
        let mut i: usize = 0;
        while i < self.client_statuses.len()
            invariant
                i <= self@.members.len(),
                forall|k: int| 0 <= k < i ==> !(#[trigger] self@.members[k]).1,
            decreases self@.members.len() - i,
        {
            if self.client_statuses[i].active {
                assert(self@.members[i as int].1);
                return true;
            }
            i = i + 1;
        }
        false
    }

    /// Index of the first active member.
    fn first_active_member(&self) -> (r: Option<usize>)
        ensures
            r is Some <==> has_active(self@.members),
            r matches Some(i) ==> i as int == first_active(self@.members) && i < self@.members.len(),
    {
        let mut i: usize = 0;
        while i < self.client_statuses.len()
            invariant
                i <= self@.members.len(),
                forall|k: int| 0 <= k < i ==> !(#[trigger] self@.members[k]).1,
            decreases self@.members.len() - i,
        {
            if self.client_statuses[i].active {
                proof {
                    let ms = self@.members;
                    assert(ms[i as int].1);
                    assert(has_active(ms));
                    assert(exists|f: int| 0 <= f < ms.len() && (#[trigger] ms[f]).1 && forall|j: int| 0 <= j < f ==> !(#[trigger] ms[j]).1);
                    let f = first_active(ms);
                    if f < i {
                    } else if f > i {
                        assert(!ms[i as int].1);
                    }
                }
                return Some(i);
            }
            i = i + 1;
        }
        None
    }

    /// Adds a client that is not yet a member.
    fn join_member(&mut self, client_id: &str)
        requires
            old(self).wf(),
            !is_member(old(self)@.members, client_id@),
        ensures
            final(self).wf(),
            final(self)@ == joined(old(self)@, client_id@),
    {
        let ghost o = old(self)@;
        self.insert_client(client_id, true);
        proof {
            assert(self@.members == o.members.push((client_id@, true)));
            if o.owner is Some {
                lemma_member_after_push(o.members, (client_id@, true), o.owner->Some_0);
            }
            lemma_member_after_push(o.members, (client_id@, true), client_id@);
        }
        if self.owner.is_none() {
            self.owner = Some(client_id.to_owned());
        }
        self.data.add_player(client_id);
    }

    /// Removes a member, its tank, and hands ownership on if the owner left.
    fn drop_member(&mut self, client_id: &str)
        requires
            old(self).wf(),
        ensures
            final(self).wf(),
            final(self)@ == departed(old(self)@, client_id@),
    {
        let ghost o = old(self)@;
        self.remove_client(client_id);
        proof {
            if o.owner is Some && o.owner->Some_0 != client_id@ {
                lemma_member_after_remove(o.members, client_id@, o.owner->Some_0);
            }
        }
        self.data.remove_player(client_id);
        let owned = client_id.to_owned();
        let was_owner = match &self.owner {
            Some(o) => *o == owned,
            None => false,
        };
        if was_owner {
            match self.first_active_member() {
                Some(i) => {
                    self.owner = Some(self.client_statuses[i].id.clone());
                    proof {
                        assert(self@.members[i as int].0 == self@.owner->Some_0);
                    }
                },
                None => {
                    self.owner = None;
                },
            }
        }
    }
}

// ---------------------------------------------------------------------------
// The registry

/// All live sessions, with the map that new sessions are played on.
#[derive(Debug)]
pub struct SessionRegistry {
    pub sessions: Vec<Session>,
    pub environment: Environment,
}

pub open spec fn sessions_view(ss: Seq<Session>) -> Seq<SessionView> {
    ss.map_values(|s: Session| s@)
}

pub open spec fn has_session(ss: Seq<SessionView>, id: Seq<char>) -> bool {
    exists|i: int| 0 <= i < ss.len() && (#[trigger] ss[i]).id == id
}

pub open spec fn session_index(ss: Seq<SessionView>, id: Seq<char>) -> int {
    choose|i: int| 0 <= i < ss.len() && (#[trigger] ss[i]).id == id
}

/// Every live session has distinct id, is well formed, and has an active member.
pub open spec fn registry_wf(ss: Seq<SessionView>) -> bool {
    &&& forall|i: int, j: int| 0 <= i < ss.len() && 0 <= j < ss.len() && i != j ==> (#[trigger] ss[i]).id != (#[trigger] ss[j]).id
    &&& forall|i: int| 0 <= i < ss.len() ==> session_wf(#[trigger] ss[i])
    &&& forall|i: int| 0 <= i < ss.len() ==> has_active((#[trigger] ss[i]).members)
}

/// An empty session with the given id, on map `tiles`.
pub open spec fn fresh_session(id: Seq<char>, tiles: Seq<crate::environment::PlacedTile>) -> SessionView {
    SessionView {
        id,
        owner: None,
        members: Seq::empty(),
        game: GameView { players: Seq::empty(), bullets: Seq::empty(), tiles },
    }
}

/// `client` joins session `sid`, which is created on the spot if unknown; a
/// client that is already a member changes nothing.
pub open spec fn join_model(ss: Seq<SessionView>, sid: Seq<char>, client: Seq<char>, tiles: Seq<crate::environment::PlacedTile>) -> Seq<SessionView> {
    if has_session(ss, sid) {
        let i = session_index(ss, sid);
        if is_member(ss[i].members, client) {
            ss
        } else {
            ss.update(i, joined(ss[i], client))
        }
    } else {
        ss.push(joined(fresh_session(sid, tiles), client))
    }
}

/// Replaces session `i` by `s`, or drops it when `s` has no active member left.
pub open spec fn keep_if_active(ss: Seq<SessionView>, i: int, s: SessionView) -> Seq<SessionView> {
    if has_active(s.members) {
        ss.update(i, s)
    } else {
        ss.remove(i)
    }
}

/// `client` leaves session `sid`; the session is destroyed once no active member remains.
pub open spec fn leave_model(ss: Seq<SessionView>, sid: Seq<char>, client: Seq<char>) -> Seq<SessionView> {
    if has_session(ss, sid) && is_member(ss[session_index(ss, sid)].members, client) {
        let i = session_index(ss, sid);
        keep_if_active(ss, i, departed(ss[i], client))
    } else {
        ss
    }
}

/// The status of `client` in session `sid` is set to `active`; the session is
/// destroyed once no active member remains.
pub open spec fn mark_model(ss: Seq<SessionView>, sid: Seq<char>, client: Seq<char>, active: bool) -> Seq<SessionView> {
    if has_session(ss, sid) && is_member(ss[session_index(ss, sid)].members, client) {
        let i = session_index(ss, sid);
        let s = ss[i];
        keep_if_active(
            ss,
            i,
            SessionView { members: s.members.update(member_index(s.members, client), (client, active)), ..s },
        )
    } else {
        ss
    }
}

/// Session `sid`'s world advances one tick; nothing else changes.
pub open spec fn tick_session_model(ss: Seq<SessionView>, sid: Seq<char>) -> Seq<SessionView> {
    if has_session(ss, sid) {
        let i = session_index(ss, sid);
        ss.update(i, SessionView { game: tick_model(ss[i].game), ..ss[i] })
    } else {
        ss
    }
}

/// The world of session `sid` becomes `game(world)`; nothing else changes.
pub open spec fn game_changed(ss: Seq<SessionView>, sid: Seq<char>, game: GameView) -> Seq<SessionView> {
    if has_session(ss, sid) {
        let i = session_index(ss, sid);
        ss.update(i, SessionView { game, ..ss[i] })
    } else {
        ss
    }
}

/// The world of session `sid`; meaningful only where `has_session(ss, sid)`.
pub open spec fn game_of(ss: Seq<SessionView>, sid: Seq<char>) -> GameView {
    ss[session_index(ss, sid)].game
}

impl View for SessionRegistry {
    type V = Seq<SessionView>;

    open spec fn view(&self) -> Seq<SessionView> {
        sessions_view(self.sessions@)
    }
}

impl SessionRegistry {
    pub open spec fn wf(&self) -> bool {
        registry_wf(self@) && self.environment.wf()
    }

    /// No sessions; new sessions are played on `environment`.
    pub fn new(environment: Environment) -> (r: SessionRegistry)
        requires
            environment.wf(),
        ensures
            r@.len() == 0,
            r.environment@ == environment@,
            r.wf(),
    {
        let r = SessionRegistry { sessions: Vec::new(), environment };
        proof {
            assert(r@ =~= Seq::<SessionView>::empty());
        }
        r
    }

    /// Number of live sessions.
    pub fn len(&self) -> (r: usize)
        ensures
            r == self@.len(),
    {
        self.sessions.len()
    }

    fn find_session(&self, id: &String) -> (r: Option<usize>)
        requires
            registry_wf(self@),
        ensures
            r is Some <==> has_session(self@, id@),
            r matches Some(i) ==> i < self@.len() && i as int == session_index(self@, id@) && self@[i as int].id == id@,
    {
        let mut i: usize = 0;
        while i < self.sessions.len()
            invariant
                i <= self@.len(),
                registry_wf(self@),
                forall|k: int| 0 <= k < i ==> self@[k].id != id@,
            decreases self@.len() - i,
        {
            if self.sessions[i].id == *id {
                proof {
                    assert(self@[i as int].id == id@);
                    assert(has_session(self@, id@));
                    let j = session_index(self@, id@);
                    if j != i as int {
                        assert(self@[j].id != self@[i as int].id);
                    }
                }
                return Some(i);
            }
            i = i + 1;
        }
        proof {
            assert forall|k: int| 0 <= k < self@.len() implies (#[trigger] self@[k]).id != id@ by {}
        }
        None
    }

    /// Whether a session with id `session_id` is live.
    pub fn contains_session(&self, session_id: &str) -> (r: bool)
        requires
            self.wf(),
        ensures
            r == has_session(self@, session_id@),
    {
        let owned = session_id.to_owned();
        self.find_session(&owned).is_some()
    }

    /// The live session with id `session_id`.
    pub fn get(&self, session_id: &str) -> (r: Option<&Session>)
        requires
            self.wf(),
        ensures
            r is Some <==> has_session(self@, session_id@),
            r matches Some(s) ==> s@ == self@[session_index(self@, session_id@)],
    {
        let owned = session_id.to_owned();
        match self.find_session(&owned) {
            Some(i) => Some(&self.sessions[i]),
            None => None,
        }
    }

    /// `client_id` joins session `session_id`, which is created first if unknown.
    /// Returns false, changing nothing, when the client is already a member.
    pub fn join(&mut self, session_id: &str, client_id: &str) -> (r: bool)
        requires
            old(self).wf(),
        ensures
            final(self).wf(),
            final(self).environment@ == old(self).environment@,
            final(self)@ == join_model(old(self)@, session_id@, client_id@, old(self).environment@),
            r == !(has_session(old(self)@, session_id@) && is_member(
                old(self)@[session_index(old(self)@, session_id@)].members,
                client_id@,
            )),
    {
        let owned = session_id.to_owned();
        match self.find_session(&owned) {
            Some(i) => {
                assert(session_wf(self@[i as int]));
                if self.sessions[i].contains_client(client_id) {
                    return false;
                }
                let mut s = self.sessions.remove(i);
                s.join_member(client_id);
                self.sessions.insert(i, s);
                proof {
                    let o = old(self)@;
                    let ss = self@;
                    assert(ss =~= o.update(i as int, joined(o[i as int], client_id@)));
                    lemma_joined_active(o[i as int], client_id@);
                    assert forall|a: int, b: int| 0 <= a < ss.len() && 0 <= b < ss.len() && a != b implies (#[trigger] ss[a]).id != (#[trigger] ss[b]).id by {
                        assert(ss[a].id == o[a].id);
                        assert(ss[b].id == o[b].id);
                    }
                    assert forall|a: int| 0 <= a < ss.len() implies session_wf(#[trigger] ss[a]) && has_active(ss[a].members) by {
                        if a != i {
                            assert(ss[a] == o[a]);
                        }
                    }
                }
                true
            },
            None => {
                let mut s = Session::with_environment(owned, self.environment.duplicate());
                let ghost s0 = s@;
                proof {
                    assert(!is_member(s@.members, client_id@));
                    let f = fresh_session(session_id@, self.environment@);
                    assert(s0.members =~= f.members);
                    assert(s0.game.players =~= f.game.players);
                    assert(s0.game.bullets =~= f.game.bullets);
                    assert(s0 == f);
                }
                s.join_member(client_id);
                self.sessions.push(s);
                proof {
                    let o = old(self)@;
                    let ss = self@;
                    let f = fresh_session(session_id@, self.environment@);
                    assert(ss =~= o.push(joined(f, client_id@)));
                    lemma_joined_active(f, client_id@);
                    assert forall|a: int, b: int| 0 <= a < ss.len() && 0 <= b < ss.len() && a != b implies (#[trigger] ss[a]).id != (#[trigger] ss[b]).id by {
                        if a < o.len() {
                            assert(ss[a] == o[a]);
                        }
                        if b < o.len() {
                            assert(ss[b] == o[b]);
                        }
                    }
                    assert forall|a: int| 0 <= a < ss.len() implies session_wf(#[trigger] ss[a]) && has_active(ss[a].members) by {
                        if a < o.len() {
                            assert(ss[a] == o[a]);
                        }
                    }
                }
                true
            },
        }
    }
}

impl SessionRegistry {
    /// Sets where the tank of `client_id` in session `session_id` heads.
    pub fn set_player_movement(&mut self, session_id: &str, client_id: &str, direction: &Vector2)
        requires
            old(self).wf(),
        ensures
            final(self).wf(),
            final(self).environment@ == old(self).environment@,
            final(self)@ == game_changed(
                old(self)@,
                session_id@,
                movement_model(game_of(old(self)@, session_id@), client_id@, vec_normalize(*direction)),
            ),
    {
        let owned = session_id.to_owned();
        match self.find_session(&owned) {
            Some(i) => {
                let ghost o = self@;
                let mut s = self.take_out(i);
                assert(has_active(o[i as int].members));
                s.data.set_player_movement(client_id, direction);
                self.put_back(i, s);
                proof {
                    assert(o.remove(i as int).insert(i as int, s@) =~= o.update(i as int, s@));
                }
            },
            None => {},
        }
    }

    /// Points the gun of `client_id` in session `session_id` along `direction`.
    pub fn set_player_angle(&mut self, session_id: &str, client_id: &str, direction: &Vector2)
        requires
            old(self).wf(),
        ensures
            final(self).wf(),
            final(self).environment@ == old(self).environment@,
            final(self)@ == game_changed(
                old(self)@,
                session_id@,
                aim_model(game_of(old(self)@, session_id@), client_id@, vec_normalize(*direction)),
            ),
    {
        let owned = session_id.to_owned();
        match self.find_session(&owned) {
            Some(i) => {
                let ghost o = self@;
                let mut s = self.take_out(i);
                assert(has_active(o[i as int].members));
                s.data.set_player_angle(client_id, direction);
                self.put_back(i, s);
                proof {
                    assert(o.remove(i as int).insert(i as int, s@) =~= o.update(i as int, s@));
                }
            },
            None => {},
        }
    }

    /// The tank of `client_id` in session `session_id` fires, if it can.
    pub fn player_shoot(&mut self, session_id: &str, client_id: &str)
        requires
            old(self).wf(),
        ensures
            final(self).wf(),
            final(self).environment@ == old(self).environment@,
            final(self)@ == game_changed(
                old(self)@,
                session_id@,
                shoot_model(game_of(old(self)@, session_id@), client_id@),
            ),
    {
        let owned = session_id.to_owned();
        match self.find_session(&owned) {
            Some(i) => {
                let ghost o = self@;
                let mut s = self.take_out(i);
                assert(has_active(o[i as int].members));
                s.data.player_shoot(client_id);
                self.put_back(i, s);
                proof {
                    assert(o.remove(i as int).insert(i as int, s@) =~= o.update(i as int, s@));
                }
            },
            None => {},
        }
    }
}

/// `client` is a member of live session `sid`.
pub open spec fn member_of(ss: Seq<SessionView>, sid: Seq<char>, client: Seq<char>) -> bool {
    has_session(ss, sid) && is_member(ss[session_index(ss, sid)].members, client)
}

impl SessionRegistry {
    /// Whether `client_id` is a member of live session `session_id`.
    pub fn has_member(&self, session_id: &str, client_id: &str) -> (r: bool)
        requires
            self.wf(),
        ensures
            r == member_of(self@, session_id@, client_id@),
    {
        let owned = session_id.to_owned();
        match self.find_session(&owned) {
            Some(i) => {
                assert(session_wf(self@[i as int]));
                self.sessions[i].contains_client(client_id)
            },
            None => false,
        }
    }
}

/// No session before position `i` has `client` as a member.
#[verifier::opaque]
pub open spec fn no_membership_before(ss: Seq<SessionView>, client: Seq<char>, i: int) -> bool {
    forall|j: int| 0 <= j < i ==> !is_member((#[trigger] ss[j]).members, client)
}

/// The first live session, in creation order, that has `client` as a member.
pub open spec fn first_membership(ss: Seq<SessionView>, client: Seq<char>) -> int {
    choose|i: int|
        0 <= i < ss.len() && is_member((#[trigger] ss[i]).members, client) && no_membership_before(ss, client, i)
}

pub open spec fn has_membership(ss: Seq<SessionView>, client: Seq<char>) -> bool {
    exists|i: int| 0 <= i < ss.len() && is_member((#[trigger] ss[i]).members, client)
}

impl SessionRegistry {
    /// Id of the first live session that has `client_id` as a member.
    pub fn session_with_member(&self, client_id: &str) -> (r: Option<String>)
        requires
            self.wf(),
        ensures
            r is Some <==> has_membership(self@, client_id@),
            r matches Some(sid) ==> sid@ == self@[first_membership(self@, client_id@)].id,
            r is Some ==> 0 <= first_membership(self@, client_id@) < self@.len() && is_member(
                self@[first_membership(self@, client_id@)].members,
                client_id@,
            ),
    {
        let mut i: usize = 0;
        while i < self.sessions.len()
            invariant
                i <= self@.len(),
                self.wf(),
                forall|k: int| 0 <= k < i ==> !is_member((#[trigger] self@[k]).members, client_id@),
            decreases self@.len() - i,
        {
            assert(session_wf(self@[i as int]));
            if self.sessions[i].contains_client(client_id) {
                proof {
                    let ss = self@;
                    reveal(no_membership_before);
                    assert(is_member(ss[i as int].members, client_id@));
                    assert(has_membership(ss, client_id@));
                    assert(no_membership_before(ss, client_id@, i as int));
                    let f = first_membership(ss, client_id@);
                    if f > i {
                        assert(!is_member(ss[i as int].members, client_id@));
                    } else if f < i {
                        assert(!is_member(ss[f].members, client_id@));
                    }
                }
                return Some(self.sessions[i].id.clone());
            }
            i = i + 1;
        }
        proof {
            assert forall|k: int| 0 <= k < self@.len() implies !is_member((#[trigger] self@[k]).members, client_id@) by {}
        }
        None
    }
}

/// Ticking a session `n` times, one after another.
pub open spec fn ticks_of_session(ss: Seq<SessionView>, sid: Seq<char>, n: nat) -> Seq<SessionView>
    decreases n,
{
    if n == 0 {
        ss
    } else {
        tick_session_model(ticks_of_session(ss, sid, (n - 1) as nat), sid)
    }
}

/// Sessions are independent worlds: ticking one session any number of times
/// leaves every other session exactly as it was.
pub proof fn lemma_tick_isolated(ss: Seq<SessionView>, sid: Seq<char>, n: nat, k: int)
    requires
        registry_wf(ss),
        0 <= k < ss.len(),
        ss[k].id != sid,
    ensures
        ticks_of_session(ss, sid, n).len() == ss.len(),
        ticks_of_session(ss, sid, n)[k] == ss[k],
        forall|i: int| 0 <= i < ss.len() ==> (#[trigger] ticks_of_session(ss, sid, n)[i]).id == ss[i].id,
    decreases n,
{
    if n > 0 {
        lemma_tick_isolated(ss, sid, (n - 1) as nat, k);
        let prev = ticks_of_session(ss, sid, (n - 1) as nat);
        if has_session(prev, sid) {
            let i = session_index(prev, sid);
            assert(prev[i].id == sid);
            assert(i != k);
        }
    }
}

/// After a join the session exists.
pub proof fn lemma_join_has_session(
    ss: Seq<SessionView>,
    sid: Seq<char>,
    client: Seq<char>,
    tiles: Seq<crate::environment::PlacedTile>,
)
    ensures
        has_session(join_model(ss, sid, client, tiles), sid),
{
    let r = join_model(ss, sid, client, tiles);
    if has_session(ss, sid) {
        let i = session_index(ss, sid);
        assert(r[i].id == sid);
    } else {
        assert(r[ss.len() as int].id == sid);
    }
}

proof fn lemma_joined_active(s: SessionView, id: Seq<char>)
    ensures
        has_active(joined(s, id).members),
{
    let ms = joined(s, id).members;
    assert(ms[ms.len() - 1].1);
}

impl SessionRegistry {
    /// Puts back session `i`, taken out as `s`, or drops it when it has no
    /// active member left.
    fn put_back(&mut self, i: usize, s: Session)
        requires
            i <= old(self).sessions@.len(),
            s.wf(),
            registry_wf(old(self)@),
            old(self).environment.wf(),
            forall|k: int| 0 <= k < old(self)@.len() ==> (#[trigger] old(self)@[k]).id != s@.id,
        ensures
            has_active(s@.members) ==> final(self)@ == old(self)@.insert(i as int, s@),
            !has_active(s@.members) ==> final(self)@ == old(self)@,
            final(self).environment == old(self).environment,
            final(self).wf(),
    {
        if s.has_active_member() {
            self.sessions.insert(i, s);
            proof {
                let o = old(self)@;
                let ss = self@;
                assert(ss =~= o.insert(i as int, s@));
                assert forall|a: int, b: int| 0 <= a < ss.len() && 0 <= b < ss.len() && a != b implies (#[trigger] ss[a]).id != (#[trigger] ss[b]).id by {
                    let a1 = if a < i { a } else { a - 1 };
                    let b1 = if b < i { b } else { b - 1 };
                    if a != i as int {
                        assert(ss[a] == o[a1]);
                    }
                    if b != i as int {
                        assert(ss[b] == o[b1]);
                    }
                }
                assert forall|a: int| 0 <= a < ss.len() implies session_wf(#[trigger] ss[a]) && has_active(ss[a].members) by {
                    if a < i {
                        assert(ss[a] == o[a]);
                    } else if a > i {
                        assert(ss[a] == o[a - 1]);
                    }
                }
            }
        }
    }

    /// Takes out session `i`.
    fn take_out(&mut self, i: usize) -> (r: Session)
        requires
            old(self).wf(),
            i < old(self)@.len(),
        ensures
            r@ == old(self)@[i as int],
            r.wf(),
            final(self)@ == old(self)@.remove(i as int),
            final(self).environment == old(self).environment,
            registry_wf(final(self)@),
            forall|k: int| 0 <= k < final(self)@.len() ==> (#[trigger] final(self)@[k]).id != r@.id,
    {
        let r = self.sessions.remove(i);
        proof {
            let o = old(self)@;
            let ss = self@;
            assert(ss =~= o.remove(i as int));
            assert(session_wf(o[i as int]));
            assert forall|a: int| 0 <= a < ss.len() implies (#[trigger] ss[a]) == o[if a < i { a } else { a + 1 }] by {}
            assert forall|a: int, b: int| 0 <= a < ss.len() && 0 <= b < ss.len() && a != b implies (#[trigger] ss[a]).id != (#[trigger] ss[b]).id by {
                assert(ss[a] == o[if a < i { a } else { a + 1 }]);
                assert(ss[b] == o[if b < i { b } else { b + 1 }]);
            }
            assert forall|a: int| 0 <= a < ss.len() implies session_wf(#[trigger] ss[a]) && has_active(ss[a].members) by {
                assert(ss[a] == o[if a < i { a } else { a + 1 }]);
            }
            assert forall|k: int| 0 <= k < ss.len() implies (#[trigger] ss[k]).id != r@.id by {
                assert(ss[k] == o[if k < i { k } else { k + 1 }]);
            }
        }
        r
    }

    /// `client_id` leaves session `session_id`: its membership and tank go,
    /// ownership passes on if needed, and the session is destroyed once no
    /// active member remains.
    pub fn leave(&mut self, session_id: &str, client_id: &str)
        requires
            old(self).wf(),
        ensures
            final(self).wf(),
            final(self).environment@ == old(self).environment@,
            final(self)@ == leave_model(old(self)@, session_id@, client_id@),
    {
        let owned = session_id.to_owned();
        match self.find_session(&owned) {
            Some(i) => {
                assert(session_wf(self@[i as int]));
                if !self.sessions[i].contains_client(client_id) {
                    return;
                }
                let mut s = self.take_out(i);
                s.drop_member(client_id);
                self.put_back(i, s);
                proof {
                    let o = old(self)@;
                    if has_active(s@.members) {
                        assert(o.remove(i as int).insert(i as int, s@) =~= o.update(i as int, s@));
                    }
                }
            },
            None => {},
        }
    }

    /// Sets the presence of member `client_id` of session `session_id`; the
    /// session is destroyed once no active member remains.
    pub fn set_active(&mut self, session_id: &str, client_id: &str, active: bool)
        requires
            old(self).wf(),
        ensures
            final(self).wf(),
            final(self).environment@ == old(self).environment@,
            final(self)@ == mark_model(old(self)@, session_id@, client_id@, active),
    {
        let owned = session_id.to_owned();
        match self.find_session(&owned) {
            Some(i) => {
                assert(session_wf(self@[i as int]));
                if !self.sessions[i].contains_client(client_id) {
                    return;
                }
                let mut s = self.take_out(i);
                let ghost s0 = s@;
                s.set_client_status(client_id, active);
                proof {
                    assert(is_member(s0.members, client_id@));
                    if s0.owner is Some {
                        let mi = member_index(s0.members, client_id@);
                        lemma_member_after_update(s0.members, mi, (client_id@, active), s0.owner->Some_0);
                    }
                }
                self.put_back(i, s);
                proof {
                    let o = old(self)@;
                    if has_active(s@.members) {
                        assert(o.remove(i as int).insert(i as int, s@) =~= o.update(i as int, s@));
                    }
                }
            },
            None => {},
        }
    }

    /// Advances the world of session `session_id` by one tick.
    pub fn tick_session(&mut self, session_id: &str)
        requires
            old(self).wf(),
        ensures
            final(self).wf(),
            final(self).environment@ == old(self).environment@,
            final(self)@ == tick_session_model(old(self)@, session_id@),
    {
        let owned = session_id.to_owned();
        match self.find_session(&owned) {
            Some(i) => {
                let ghost o = self@;
                let mut s = self.take_out(i);
                assert(has_active(o[i as int].members));
                s.data.tick();
                self.put_back(i, s);
                proof {
                    assert(o.remove(i as int).insert(i as int, s@) =~= o.update(i as int, s@));
                }
            },
            None => {},
        }
    }

    /// Advances every live session by one tick.
    pub fn tick_all(&mut self)
        requires
            old(self).wf(),
        ensures
            final(self).wf(),
            final(self).environment@ == old(self).environment@,
            final(self)@.len() == old(self)@.len(),
            forall|i: int| 0 <= i < old(self)@.len() ==> (#[trigger] final(self)@[i]) == (SessionView {
                game: tick_model(old(self)@[i].game),
                ..old(self)@[i]
            }),
    {
        let n = self.sessions.len();
        let mut i: usize = 0;
        while i < n
            invariant
                n == old(self)@.len(),
                i <= n,
                self.wf(),
                self.environment@ == old(self).environment@,
                self@.len() == n,
                forall|k: int| 0 <= k < i ==> (#[trigger] self@[k]) == (SessionView {
                    game: tick_model(old(self)@[k].game),
                    ..old(self)@[k]
                }),
                forall|k: int| i <= k < n ==> (#[trigger] self@[k]) == old(self)@[k],
            decreases n - i,
        {
            let ghost o = self@;
            let mut s = self.take_out(i);
            assert(has_active(o[i as int].members));
            s.data.tick();
            self.put_back(i, s);
            proof {
                assert(self@ =~= o.update(i as int, s@));
            }
            i = i + 1;
        }
    }
}

// ---------------------------------------------------------------------------
// Laws of the registry

pub open spec fn every_session_active(ss: Seq<SessionView>) -> bool {
    forall|i: int| 0 <= i < ss.len() ==> has_active((#[trigger] ss[i]).members)
}

proof fn lemma_keep_if_active(ss: Seq<SessionView>, i: int, s: SessionView)
    requires
        every_session_active(ss),
        0 <= i < ss.len(),
    ensures
        every_session_active(keep_if_active(ss, i, s)),
{
    let r = keep_if_active(ss, i, s);
    if has_active(s.members) {
        assert forall|k: int| 0 <= k < r.len() implies has_active((#[trigger] r[k]).members) by {
            if k != i {
                assert(r[k] == ss[k]);
            }
        }
    } else {
        assert forall|k: int| 0 <= k < r.len() implies has_active((#[trigger] r[k]).members) by {
            assert(r[k] == ss[if k < i { k } else { k + 1 }]);
        }
    }
}

/// Between operations every live session has an active member: joining,
/// leaving, changing presence and ticking all keep it so.
pub proof fn lemma_sessions_stay_active(
    ss: Seq<SessionView>,
    sid: Seq<char>,
    client: Seq<char>,
    active: bool,
    tiles: Seq<crate::environment::PlacedTile>,
)
    requires
        every_session_active(ss),
    ensures
        every_session_active(join_model(ss, sid, client, tiles)),
        every_session_active(leave_model(ss, sid, client)),
        every_session_active(mark_model(ss, sid, client, active)),
        every_session_active(tick_session_model(ss, sid)),
{
    if has_session(ss, sid) {
        let i = session_index(ss, sid);
        if !is_member(ss[i].members, client) {
            let r = join_model(ss, sid, client, tiles);
            lemma_joined_active(ss[i], client);
            assert forall|k: int| 0 <= k < r.len() implies has_active((#[trigger] r[k]).members) by {
                if k != i {
                    assert(r[k] == ss[k]);
                }
            }
        } else {
            let s = ss[i];
            lemma_keep_if_active(ss, i, departed(s, client));
            lemma_keep_if_active(
                ss,
                i,
                SessionView { members: s.members.update(member_index(s.members, client), (client, active)), ..s },
            );
        }
        let t = tick_session_model(ss, sid);
        assert forall|k: int| 0 <= k < t.len() implies has_active((#[trigger] t[k]).members) by {
            if k != i {
                assert(t[k] == ss[k]);
            } else {
                assert(t[k].members == ss[k].members);
            }
        }
    } else {
        let r = join_model(ss, sid, client, tiles);
        lemma_joined_active(fresh_session(sid, tiles), client);
        assert forall|k: int| 0 <= k < r.len() implies has_active((#[trigger] r[k]).members) by {
            if k < ss.len() {
                assert(r[k] == ss[k]);
            }
        }
    }
}

/// Joining twice with the same client id is idempotent: the second join
/// changes nothing.
pub proof fn lemma_join_idempotent(
    ss: Seq<SessionView>,
    sid: Seq<char>,
    client: Seq<char>,
    tiles: Seq<crate::environment::PlacedTile>,
)
    requires
        registry_wf(ss),
    ensures
        join_model(join_model(ss, sid, client, tiles), sid, client, tiles) == join_model(ss, sid, client, tiles),
{
    let r = join_model(ss, sid, client, tiles);
    if has_session(ss, sid) {
        let i = session_index(ss, sid);
        assert(r[i].id == sid);
        assert(has_session(r, sid));
        let j = session_index(r, sid);
        if j != i {
            assert(r[j] == ss[j]);
            assert(ss[j].id != ss[i].id);
        }
        if !is_member(ss[i].members, client) {
            let ms = r[i].members;
            assert(ms[ms.len() - 1].0 == client);
        }
    } else {
        let i = ss.len() as int;
        assert(r[i].id == sid);
        assert(has_session(r, sid));
        let j = session_index(r, sid);
        if j != i {
            assert(r[j] == ss[j]);
        }
        let ms = r[i].members;
        assert(ms[ms.len() - 1].0 == client);
    }
}

/// When the last active member of a session leaves, the session is gone.
pub proof fn lemma_last_active_leave_destroys(ss: Seq<SessionView>, sid: Seq<char>, client: Seq<char>)
    requires
        registry_wf(ss),
        has_session(ss, sid),
        is_member(ss[session_index(ss, sid)].members, client),
        forall|k: int|
            0 <= k < ss[session_index(ss, sid)].members.len() && (#[trigger] ss[session_index(ss, sid)].members[k]).1
                ==> ss[session_index(ss, sid)].members[k].0 == client,
    ensures
        !has_session(leave_model(ss, sid, client), sid),
{
    let i = session_index(ss, sid);
    let s = ss[i];
    let ms = s.members;
    let mi = member_index(ms, client);
    let rest = ms.remove(mi);
    assert(session_wf(s));
    assert forall|k: int| 0 <= k < rest.len() implies !(#[trigger] rest[k]).1 by {
        let k1 = if k < mi { k } else { k + 1 };
        assert(rest[k] == ms[k1]);
        if ms[k1].1 {
            assert(ms[k1].0 == client);
            assert(ms[mi].0 == client);
        }
    }
    let r = leave_model(ss, sid, client);
    assert(r == ss.remove(i));
    assert forall|k: int| 0 <= k < r.len() implies (#[trigger] r[k]).id != sid by {
        let k1 = if k < i { k } else { k + 1 };
        assert(r[k] == ss[k1]);
    }
}

/// When the owner leaves and another active member remains, the session
/// lives on and the first remaining active member becomes its owner.
pub proof fn lemma_owner_handover(ss: Seq<SessionView>, sid: Seq<char>, client: Seq<char>, other: Seq<char>)
    requires
        registry_wf(ss),
        has_session(ss, sid),
        ss[session_index(ss, sid)].owner == Some(client),
        other != client,
        exists|k: int|
            0 <= k < ss[session_index(ss, sid)].members.len() && (#[trigger] ss[session_index(ss, sid)].members[k])
                == (other, true),
    ensures
        has_session(leave_model(ss, sid, client), sid),
        ({
            let r = leave_model(ss, sid, client);
            let rest = r[session_index(r, sid)].members;
            has_active(rest) && r[session_index(r, sid)].owner == Some(rest[first_active(rest)].0)
        }),
{
    let i = session_index(ss, sid);
    let s = ss[i];
    assert(session_wf(s));
    let ms = s.members;
    let mi = member_index(ms, client);
    let rest = ms.remove(mi);
    let k = choose|k: int| 0 <= k < ms.len() && (#[trigger] ms[k]) == (other, true);
    assert(k != mi);
    let k1 = if k < mi { k } else { k - 1 };
    assert(rest[k1] == ms[k]);
    assert(has_active(rest));
    let r = leave_model(ss, sid, client);
    assert(r == ss.update(i, departed(s, client)));
    assert(r[i].id == sid);
    let j = session_index(r, sid);
    if j != i {
        assert(r[j] == ss[j]);
        assert(ss[j].id != ss[i].id);
    }
}

} // verus!
