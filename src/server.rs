//! The server context: connected clients and live sessions, and the dispatch
//! of client events to them.
use vstd::prelude::*;

use crate::clients::{current_session, opt_view, with_session, without_client, ClientRegistry, IDAlreadyTaken};
use crate::environment::Environment;
use crate::protocol::{convert_gamestate_to_broadcast, snapshot_of, strings_view, Broadcast, ClientEvent, ServerEvent};
use crate::sessions::{
    is_member, registry_wf, first_membership, game_changed, game_of, has_membership, has_session, ids_with_status, join_model,
    leave_model, mark_model, member_of, session_index, SessionRegistry, SessionView,
};
use crate::game::{aim_model, movement_model, shoot_model, tick_model};
use crate::geometry::vec_normalize;

verus! {

/// Length of a generated session id.
pub const SESSION_ID_LENGTH: usize = 5;

/// A generated session id: five capital letters.
pub open spec fn is_session_code(s: Seq<char>) -> bool {
    s.len() == SESSION_ID_LENGTH && forall|i: int| 0 <= i < s.len() ==> 'A' <= #[trigger] s[i] && s[i] <= 'Z'
}

/// Relies on `nanoid::format` with the default random source: for a non-empty
/// ASCII alphabet of at most 255 characters it returns `size` characters, each
/// taken from the alphabet.
#[verifier::external_body]
fn random_code(alphabet: &Vec<char>, size: usize) -> (r: String)
    requires
        0 < size,
        0 < alphabet@.len() <= 255,
        forall|i: int| 0 <= i < alphabet@.len() ==> (#[trigger] alphabet@[i] as u32) < 128,
    ensures
        r@.len() == size,
        forall|i: int| 0 <= i < r@.len() ==> alphabet@.contains(#[trigger] r@[i]),
{
    nanoid::format(nanoid::rngs::default, alphabet.as_slice(), size)
}

/// A fresh random session id of five capital letters.
pub fn generate_session_id() -> (r: String)
    ensures
        is_session_code(r@),
{
    let alphabet: Vec<char> = vec![
        'A', 'B', 'C', 'D', 'E', 'F', 'G', 'H', 'I', 'J', 'K', 'L', 'M', 'N', 'O', 'P', 'Q', 'R', 'S', 'T',
        'U', 'V', 'W', 'X', 'Y', 'Z',
    ];
    proof {
        assert(alphabet@.len() == 26);
        assert forall|i: int| 0 <= i < alphabet@.len() implies 'A' <= #[trigger] alphabet@[i] && alphabet@[i] <= 'Z' && (alphabet@[i] as u32) < 128 by {}
    }
    let r = random_code(&alphabet, SESSION_ID_LENGTH);
    proof {
        assert forall|i: int| 0 <= i < r@.len() implies 'A' <= #[trigger] r@[i] && r@[i] <= 'Z' by {
            assert(alphabet@.contains(r@[i]));
            let k = choose|k: int| 0 <= k < alphabet@.len() && alphabet@[k] == r@[i];
            assert('A' <= alphabet@[k] && alphabet@[k] <= 'Z');
        }
    }
    r
}

/// Connected clients and live sessions.
#[derive(Debug)]
pub struct ServerState {
    pub clients: ClientRegistry,
    pub sessions: SessionRegistry,
}

/// The client leaves the session it is in, if any.
pub open spec fn leave_current(
    ss: Seq<SessionView>,
    cs: Seq<(Seq<char>, Option<Seq<char>>)>,
    client: Seq<char>,
) -> Seq<SessionView> {
    match current_session(cs, client) {
        Some(sid) => leave_model(ss, sid, client),
        None => ss,
    }
}

/// `b` announces to every member of session `sid` that `client` joined it,
/// with the members as roster.
pub open spec fn joined_notice(b: Broadcast, ss: Seq<SessionView>, sid: Seq<char>, client: Seq<char>) -> bool {
    let members = ss[session_index(ss, sid)].members.map_values(|m: (Seq<char>, bool)| m.0);
    &&& strings_view(b.recipients@) == members
    &&& match b.event {
        ServerEvent::ClientJoined { session_id, client_id, session_client_ids } => {
            &&& session_id@ == sid
            &&& client_id@ == client
            &&& strings_view(session_client_ids@) == members
        },
        _ => false,
    }
}

/// `r` tells the active members of session `sid`, if it is still live, that `client` is gone.
pub open spec fn departure_notice(r: Option<Broadcast>, ss: Seq<SessionView>, sid: Seq<char>, client: Seq<char>) -> bool {
    if has_session(ss, sid) {
        &&& r is Some
        &&& strings_view(r->Some_0.recipients@) == ids_with_status(ss[session_index(ss, sid)].members, true)
        &&& match r->Some_0.event {
            ServerEvent::PlayerDisconnect { player } => player@ == client,
            _ => false,
        }
    } else {
        r is None
    }
}

/// What a join of `client` to session `sid` did: nothing if the client was a
/// member already; otherwise the client left its current session, joined
/// `sid` (created on the spot if unknown), and all members are told.
pub open spec fn join_outcome(
    s0: Seq<SessionView>,
    c0: Seq<(Seq<char>, Option<Seq<char>>)>,
    s1: Seq<SessionView>,
    c1: Seq<(Seq<char>, Option<Seq<char>>)>,
    client: Seq<char>,
    sid: Seq<char>,
    tiles: Seq<crate::environment::PlacedTile>,
    r: Option<Broadcast>,
) -> bool {
    if member_of(s0, sid, client) {
        &&& s1 == s0
        &&& c1 == c0
        &&& r is None
    } else {
        &&& s1 == join_model(leave_current(s0, c0, client), sid, client, tiles)
        &&& c1 == with_session(c0, client, Some(sid))
        &&& r is Some
        &&& joined_notice(r->Some_0, s1, sid, client)
    }
}

impl ServerState {
    pub open spec fn wf(&self) -> bool {
        &&& self.clients.wf()
        &&& self.sessions.wf()
        &&& clients_placed(self.clients@, self.sessions@)
    }

    /// No clients and no sessions; sessions are played on `environment`.
    pub fn new(environment: Environment) -> (r: ServerState)
        requires
            environment.wf(),
        ensures
            r.wf(),
            r.clients@.len() == 0,
            r.sessions@.len() == 0,
            r.sessions.environment@ == environment@,
    {
        ServerState { clients: ClientRegistry::new(), sessions: SessionRegistry::new(environment) }
    }

    /// Registers a new connection; an id that is already connected is
    /// refused. A client that is still an (inactive) member of a session
    /// becomes active in it again and is back in that session.
    pub fn connect_client(&mut self, client_id: &str) -> (r: Result<(), IDAlreadyTaken>)
        requires
            old(self).wf(),
        ensures
            final(self).wf(),
            final(self).sessions.environment@ == old(self).sessions.environment@,
            r is Err <==> crate::clients::is_connected(old(self).clients@, client_id@),
            r is Err ==> final(self).clients@ == old(self).clients@ && final(self).sessions@ == old(self).sessions@,
            r is Ok && !has_membership(old(self).sessions@, client_id@) ==> {
                &&& final(self).clients@ == old(self).clients@.push((client_id@, None))
                &&& final(self).sessions@ == old(self).sessions@
            },
            r is Ok && has_membership(old(self).sessions@, client_id@) ==> {
                let sid = old(self).sessions@[first_membership(old(self).sessions@, client_id@)].id;
                &&& final(self).clients@ == old(self).clients@.push((client_id@, Some(sid)))
                &&& final(self).sessions@ == mark_model(old(self).sessions@, sid, client_id@, true)
            },
    {
        let ghost cs0 = self.clients@;
        let ghost ss0 = self.sessions@;
        match self.clients.connect(client_id) {
            Err(e) => Err(e),
            Ok(()) => {
                proof {
                    lemma_not_connected(cs0, client_id@);
                }
                match self.sessions.session_with_member(client_id) {
                    Some(sid) => {
                        let ghost sv = sid@;
                        proof {
                            lemma_first_membership_member(ss0, client_id@);
                        }
                        self.sessions.set_active(&sid, client_id, true);
                        let ghost before = self.clients@;
                        self.clients.set_session(client_id, Some(sid));
                        proof {
                            lemma_last_client_update(cs0, client_id@, sv);
                            lemma_rejoin_placed(cs0, ss0, client_id@, sv);
                        }
                    },
                    None => {
                        proof {
                            lemma_placed_push(cs0, ss0, ss0, client_id@, None);
                        }
                    },
                }
                Ok(())
            },
        }
    }

    /// The notice to the active members of `session_id` that `client_id` is gone.
    fn departure(&self, session_id: &str, client_id: &str) -> (r: Option<Broadcast>)
        requires
            self.sessions.wf(),
        ensures
            departure_notice(r, self.sessions@, session_id@, client_id@),
    {
        match self.sessions.get(session_id) {
            Some(s) => {
                let recipients = s.active_client_set();
                proof {
                    assert(strings_view(recipients@) =~= ids_with_status(s@.members, true));
                }
                Some(Broadcast { recipients, event: ServerEvent::PlayerDisconnect { player: client_id.to_owned() } })
            },
            None => None,
        }
    }

    /// `client_id` leaves its session: its membership and tank go, and the
    /// session is destroyed once no active member remains. Remaining active
    /// members are told.
    pub fn leave_session(&mut self, client_id: &str) -> (r: Option<Broadcast>)
        requires
            old(self).wf(),
        ensures
            final(self).wf(),
            final(self).sessions@ == leave_current(old(self).sessions@, old(self).clients@, client_id@),
            final(self).clients@ == with_session(old(self).clients@, client_id@, None),
            final(self).sessions.environment@ == old(self).sessions.environment@,
            current_session(old(self).clients@, client_id@) matches Some(sid) ==> departure_notice(
                r,
                final(self).sessions@,
                sid,
                client_id@,
            ),
            current_session(old(self).clients@, client_id@) is None ==> r is None,
    {
        let ghost cs0 = self.clients@;
        let ghost ss0 = self.sessions@;
        let current = self.clients.session_of(client_id);
        self.clients.set_session(client_id, None);
        match current {
            Some(sid) => {
                let ghost sv = sid@;
                self.sessions.leave(&sid, client_id);
                proof {
                    assert forall|sid2: Seq<char>, c2: Seq<char>| c2 != client_id@ && #[trigger] active_in(ss0, sid2, c2) implies active_in(self.sessions@, sid2, c2) by {
                        lemma_active_after_leave(ss0, sv, client_id@, sid2, c2);
                    }
                    lemma_placed_with_session(cs0, ss0, self.sessions@, client_id@, None);
                }
                self.departure(&sid, client_id)
            },
            None => {
                proof {
                    lemma_placed_with_session(cs0, ss0, ss0, client_id@, None);
                }
                None
            },
        }
    }

    /// `client_id` joins session `session_id`, leaving its current session
    /// first; an unknown session is created. A client that is already a member
    /// changes nothing. All members are told of the join.
    pub fn join_session(&mut self, client_id: &str, session_id: &str) -> (r: Option<Broadcast>)
        requires
            old(self).wf(),
        ensures
            final(self).wf(),
            final(self).sessions.environment@ == old(self).sessions.environment@,
            join_outcome(
                old(self).sessions@,
                old(self).clients@,
                final(self).sessions@,
                final(self).clients@,
                client_id@,
                session_id@,
                old(self).sessions.environment@,
                r,
            ),
    {
        if self.sessions.has_member(session_id, client_id) {
            return None;
        }
        let ghost cs0 = self.clients@;
        let ghost ss0 = self.sessions@;
        let current = self.clients.session_of(client_id);
        match current {
            Some(sid) => {
                let ghost sv = sid@;
                self.sessions.leave(&sid, client_id);
                proof {
                    assert forall|sid2: Seq<char>, c2: Seq<char>| c2 != client_id@ && #[trigger] active_in(ss0, sid2, c2) implies active_in(self.sessions@, sid2, c2) by {
                        lemma_active_after_leave(ss0, sv, client_id@, sid2, c2);
                    }
                    lemma_member_of_iff_any(self.sessions@, session_id@, client_id@);
                    lemma_member_of_iff_any(ss0, session_id@, client_id@);
                    if member_any(self.sessions@, session_id@, client_id@) {
                        lemma_member_any_leave_back(ss0, sv, client_id@, session_id@, client_id@);
                    }
                }
            },
            None => {},
        }
        let ghost before = self.sessions@;
        self.sessions.join(session_id, client_id);
        self.clients.set_session(client_id, Some(session_id.to_owned()));
        proof {
            crate::sessions::lemma_join_has_session(before, session_id@, client_id@, self.sessions.environment@);
            lemma_joined_active_in(before, session_id@, client_id@, self.sessions.environment@);
            assert forall|sid2: Seq<char>, c2: Seq<char>| c2 != client_id@ && #[trigger] active_in(ss0, sid2, c2) implies active_in(self.sessions@, sid2, c2) by {
                lemma_active_after_join(before, session_id@, client_id@, self.sessions.environment@, sid2, c2);
            }
            lemma_placed_with_session(cs0, ss0, self.sessions@, client_id@, Some(session_id@));
        }
        match self.sessions.get(session_id) {
            Some(s) => {
                let ids = s.get_client_ids();
                let roster = s.get_client_ids();
                proof {
                    let members = s@.members.map_values(|m: (Seq<char>, bool)| m.0);
                    assert(strings_view(ids@) =~= members);
                    assert(strings_view(roster@) =~= members);
                }
                Some(Broadcast {
                    recipients: ids,
                    event: ServerEvent::ClientJoined {
                        session_id: session_id.to_owned(),
                        client_id: client_id.to_owned(),
                        session_client_ids: roster,
                    },
                })
            },
            None => None,
        }
    }

    /// `client_id` creates a session and joins it: with the requested id, or
    /// with a fresh random code. An id that is taken already is joined, never
    /// overwritten.
    pub fn create_session(&mut self, client_id: &str, requested: Option<String>) -> (r: Option<Broadcast>)
        requires
            old(self).wf(),
        ensures
            final(self).wf(),
            final(self).sessions.environment@ == old(self).sessions.environment@,
            exists|sid: Seq<char>| {
                &&& (requested matches Some(q) ==> sid == q@)
                &&& (requested is None ==> is_session_code(sid))
                &&& #[trigger] join_outcome(
                    old(self).sessions@,
                    old(self).clients@,
                    final(self).sessions@,
                    final(self).clients@,
                    client_id@,
                    sid,
                    old(self).sessions.environment@,
                    r,
                )
            },
    {
        let ghost req = requested;
        let id = match requested {
            Some(q) => q,
            None => generate_session_id(),
        };
        let ghost sid = id@;
        proof {
            assert(req matches Some(q) ==> sid == q@);
        }
        let r = self.join_session(client_id, &id);
        proof {
            assert(req matches Some(q) ==> sid == q@);
            assert(req is None ==> is_session_code(sid));
            assert(join_outcome(
                old(self).sessions@,
                old(self).clients@,
                self.sessions@,
                self.clients@,
                client_id@,
                sid,
                old(self).sessions.environment@,
                r,
            ));
        }
        r
    }

    /// The connection of `client_id` ends: it is forgotten, marked inactive in
    /// its session, and the session is destroyed once no active member
    /// remains. Remaining active members are told.
    pub fn disconnect_client(&mut self, client_id: &str) -> (r: Option<Broadcast>)
        requires
            old(self).wf(),
        ensures
            final(self).wf(),
            final(self).clients@ == without_client(old(self).clients@, client_id@),
            final(self).sessions.environment@ == old(self).sessions.environment@,
            current_session(old(self).clients@, client_id@) matches Some(sid) ==> {
                &&& final(self).sessions@ == mark_model(old(self).sessions@, sid, client_id@, false)
                &&& departure_notice(r, final(self).sessions@, sid, client_id@)
            },
            current_session(old(self).clients@, client_id@) is None ==> {
                &&& final(self).sessions@ == old(self).sessions@
                &&& r is None
            },
    {
        let ghost cs0 = self.clients@;
        let ghost ss0 = self.sessions@;
        match self.clients.disconnect(client_id) {
            Some(sid) => {
                let ghost sv = sid@;
                self.sessions.set_active(&sid, client_id, false);
                proof {
                    assert forall|sid2: Seq<char>, c2: Seq<char>| c2 != client_id@ && #[trigger] active_in(ss0, sid2, c2) implies active_in(self.sessions@, sid2, c2) by {
                        lemma_active_after_mark(ss0, sv, client_id@, false, sid2, c2);
                    }
                    lemma_placed_without(cs0, ss0, self.sessions@, client_id@);
                }
                self.departure(&sid, client_id)
            },
            None => {
                proof {
                    lemma_placed_without(cs0, ss0, ss0, client_id@);
                }
                None
            },
        }
    }

    /// Applies one client event. Movement, aim and shots act on the client's
    /// tank in its current session and are seen in the next tick's snapshot;
    /// session events return the notice to broadcast. A request that does not
    /// apply (no session, no tank, already a member) has no effect and no reply.
    pub fn handle_event(&mut self, client_id: &str, event: ClientEvent) -> (r: Option<Broadcast>)
        requires
            old(self).wf(),
        ensures
            final(self).wf(),
            final(self).sessions.environment@ == old(self).sessions.environment@,
            match event {
                ClientEvent::MovementUpdate { direction } => {
                    &&& r is None
                    &&& final(self).clients@ == old(self).clients@
                    &&& final(self).sessions@ == match current_session(old(self).clients@, client_id@) {
                        Some(sid) => game_changed(
                            old(self).sessions@,
                            sid,
                            movement_model(game_of(old(self).sessions@, sid), client_id@, vec_normalize(direction)),
                        ),
                        None => old(self).sessions@,
                    }
                },
                ClientEvent::AimUpdate { direction } => {
                    &&& r is None
                    &&& final(self).clients@ == old(self).clients@
                    &&& final(self).sessions@ == match current_session(old(self).clients@, client_id@) {
                        Some(sid) => game_changed(
                            old(self).sessions@,
                            sid,
                            aim_model(game_of(old(self).sessions@, sid), client_id@, vec_normalize(direction)),
                        ),
                        None => old(self).sessions@,
                    }
                },
                ClientEvent::Shoot => {
                    &&& r is None
                    &&& final(self).clients@ == old(self).clients@
                    &&& final(self).sessions@ == match current_session(old(self).clients@, client_id@) {
                        Some(sid) => game_changed(
                            old(self).sessions@,
                            sid,
                            shoot_model(game_of(old(self).sessions@, sid), client_id@),
                        ),
                        None => old(self).sessions@,
                    }
                },
                ClientEvent::JoinSession(sid) => join_outcome(
                    old(self).sessions@,
                    old(self).clients@,
                    final(self).sessions@,
                    final(self).clients@,
                    client_id@,
                    sid@,
                    old(self).sessions.environment@,
                    r,
                ),
                ClientEvent::CreateSession => exists|sid: Seq<char>| {
                    &&& is_session_code(sid)
                    &&& #[trigger] join_outcome(
                        old(self).sessions@,
                        old(self).clients@,
                        final(self).sessions@,
                        final(self).clients@,
                        client_id@,
                        sid,
                        old(self).sessions.environment@,
                        r,
                    )
                },
                ClientEvent::LeaveSession => {
                    &&& final(self).sessions@ == leave_current(old(self).sessions@, old(self).clients@, client_id@)
                    &&& final(self).clients@ == with_session(old(self).clients@, client_id@, None)
                    &&& (current_session(old(self).clients@, client_id@) matches Some(sid) ==> departure_notice(
                        r,
                        final(self).sessions@,
                        sid,
                        client_id@,
                    ))
                    &&& (current_session(old(self).clients@, client_id@) is None ==> r is None)
                },
            },
    {
        match event {
            ClientEvent::MovementUpdate { direction } => {
                match self.clients.session_of(client_id) {
                    Some(sid) => {
                        let ghost ss0 = self.sessions@;
                        self.sessions.set_player_movement(&sid, client_id, &direction);
                        proof {
                            lemma_placed_same_members(self.clients@, ss0, self.sessions@);
                        }
                    },
                    None => {},
                }
                None
            },
            ClientEvent::AimUpdate { direction } => {
                match self.clients.session_of(client_id) {
                    Some(sid) => {
                        let ghost ss0 = self.sessions@;
                        self.sessions.set_player_angle(&sid, client_id, &direction);
                        proof {
                            lemma_placed_same_members(self.clients@, ss0, self.sessions@);
                        }
                    },
                    None => {},
                }
                None
            },
            ClientEvent::Shoot => {
                match self.clients.session_of(client_id) {
                    Some(sid) => {
                        let ghost ss0 = self.sessions@;
                        self.sessions.player_shoot(&sid, client_id);
                        proof {
                            lemma_placed_same_members(self.clients@, ss0, self.sessions@);
                        }
                    },
                    None => {},
                }
                None
            },
            ClientEvent::JoinSession(sid) => self.join_session(client_id, &sid),
            ClientEvent::CreateSession => self.create_session(client_id, None),
            ClientEvent::LeaveSession => self.leave_session(client_id),
        }
    }

    /// One tick of the scheduler: every live session advances, and each one's
    /// snapshot goes to its active members.
    pub fn tick(&mut self) -> (r: Vec<Broadcast>)
        requires
            old(self).wf(),
        ensures
            final(self).wf(),
            final(self).clients@ == old(self).clients@,
            final(self).sessions.environment@ == old(self).sessions.environment@,
            final(self).sessions@.len() == old(self).sessions@.len(),
            forall|i: int| 0 <= i < old(self).sessions@.len() ==> (#[trigger] final(self).sessions@[i]) == (SessionView {
                game: tick_model(old(self).sessions@[i].game),
                ..old(self).sessions@[i]
            }),
            r@.len() == final(self).sessions@.len(),
            forall|i: int| 0 <= i < r@.len() ==> {
                &&& strings_view((#[trigger] r@[i]).recipients@) == ids_with_status(final(self).sessions@[i].members, true)
                &&& snapshot_of(r@[i].event, final(self).sessions@[i].game)
            },
    {
        let ghost ss0 = self.sessions@;
        self.sessions.tick_all();
        proof {
            lemma_placed_same_members(self.clients@, ss0, self.sessions@);
        }
        let mut out: Vec<Broadcast> = Vec::new();
        let mut i: usize = 0;
        while i < self.sessions.sessions.len()
            invariant
                i <= self.sessions@.len(),
                out@.len() == i,
                forall|k: int| 0 <= k < i ==> {
                    &&& strings_view((#[trigger] out@[k]).recipients@) == ids_with_status(self.sessions@[k].members, true)
                    &&& snapshot_of(out@[k].event, self.sessions@[k].game)
                },
            decreases self.sessions@.len() - i,
        {
            let s = &self.sessions.sessions[i];
            let recipients = s.active_client_set();
            proof {
                assert(strings_view(recipients@) =~= ids_with_status(s@.members, true));
            }
            out.push(Broadcast { recipients, event: convert_gamestate_to_broadcast(&s.data) });
            i = i + 1;
        }
        out
    }
}

// ---------------------------------------------------------------------------
// Where connected clients stand

/// `client` is an active member of a live session with id `sid`.
pub open spec fn active_in(ss: Seq<SessionView>, sid: Seq<char>, client: Seq<char>) -> bool {
    exists|k: int, m: int|
        0 <= k < ss.len() && ss[k].id == sid && 0 <= m < ss[k].members.len() && #[trigger] ss[k].members[m] == (
        client,
        true,
    )
}

/// Every connected client that is in a session is an active member of it.
pub open spec fn clients_placed(cs: Seq<(Seq<char>, Option<Seq<char>>)>, ss: Seq<SessionView>) -> bool {
    forall|i: int| 0 <= i < cs.len() && (#[trigger] cs[i]).1 is Some ==> active_in(ss, cs[i].1->Some_0, cs[i].0)
}

/// Active memberships of other clients survive `keep_if_active`-style changes
/// of one session that keep those memberships.
proof fn lemma_active_after_session_change(
    ss: Seq<SessionView>,
    i: int,
    s: SessionView,
    sid2: Seq<char>,
    c2: Seq<char>,
    m2: int,
)
    requires
        0 <= i < ss.len(),
        s.id == ss[i].id,
        active_in(ss, sid2, c2),
        0 <= m2 < s.members.len(),
        ss[i].id == sid2 && is_active_entry(ss[i], c2) ==> s.members[m2] == (c2, true),
    ensures
        active_in(crate::sessions::keep_if_active(ss, i, s), sid2, c2),
{
    let (k, m) = choose|k: int, m: int|
        0 <= k < ss.len() && ss[k].id == sid2 && 0 <= m < ss[k].members.len() && #[trigger] ss[k].members[m] == (c2, true);
    let r = crate::sessions::keep_if_active(ss, i, s);
    if k == i {
        assert(is_active_entry(ss[i], c2));
        assert(s.members[m2].1);
        assert(crate::sessions::has_active(s.members));
        assert(r[i] == s);
        assert(r[i].members[m2] == (c2, true));
    } else if crate::sessions::has_active(s.members) {
        assert(r[k] == ss[k]);
        assert(r[k].members[m] == (c2, true));
    } else {
        let k1 = if k < i { k } else { k - 1 };
        assert(r[k1] == ss[k]);
        assert(r[k1].members[m] == (c2, true));
    }
}

pub open spec fn is_active_entry(s: SessionView, c: Seq<char>) -> bool {
    exists|m: int| 0 <= m < s.members.len() && #[trigger] s.members[m] == (c, true)
}

/// Leaving a session keeps other clients' active memberships.
proof fn lemma_active_after_leave(ss: Seq<SessionView>, sid: Seq<char>, cid: Seq<char>, sid2: Seq<char>, c2: Seq<char>)
    requires
        registry_wf(ss),
        active_in(ss, sid2, c2),
        c2 != cid,
    ensures
        active_in(leave_model(ss, sid, cid), sid2, c2),
{
    if has_session(ss, sid) && crate::sessions::is_member(ss[session_index(ss, sid)].members, cid) {
        let i = session_index(ss, sid);
        let s = crate::sessions::departed(ss[i], cid);
        let ms = ss[i].members;
        let mi = crate::sessions::member_index(ms, cid);
        if ss[i].id == sid2 && is_active_entry(ss[i], c2) {
            let m = choose|m: int| 0 <= m < ms.len() && #[trigger] ms[m] == (c2, true);
            assert(m != mi);
            let m2 = if m < mi { m } else { m - 1 };
            assert(s.members[m2] == ms[m]);
            lemma_active_after_session_change(ss, i, s, sid2, c2, m2);
        } else {
            let (k, m) = choose|k: int, m: int|
                0 <= k < ss.len() && ss[k].id == sid2 && 0 <= m < ss[k].members.len() && #[trigger] ss[k].members[m] == (c2, true);
            if k == i {
                assert(is_active_entry(ss[i], c2));
            }
            let r = leave_model(ss, sid, cid);
            if crate::sessions::has_active(s.members) {
                assert(r[k] == ss[k]);
                assert(r[k].members[m] == (c2, true));
            } else {
                let k1 = if k < i { k } else { k - 1 };
                assert(r[k1] == ss[k]);
                assert(r[k1].members[m] == (c2, true));
            }
        }
    }
}

/// `c` is a member, active or not, of a live session with id `sid`.
pub open spec fn member_any(ss: Seq<SessionView>, sid: Seq<char>, c: Seq<char>) -> bool {
    exists|k: int, m: int|
        0 <= k < ss.len() && ss[k].id == sid && 0 <= m < ss[k].members.len() && (#[trigger] ss[k].members[m]).0 == c
}

proof fn lemma_member_of_iff_any(ss: Seq<SessionView>, sid: Seq<char>, c: Seq<char>)
    requires
        registry_wf(ss),
    ensures
        member_of(ss, sid, c) <==> member_any(ss, sid, c),
{
    if member_of(ss, sid, c) {
        let i = session_index(ss, sid);
        let m = crate::sessions::member_index(ss[i].members, c);
        assert(ss[i].members[m].0 == c);
    }
    if member_any(ss, sid, c) {
        let (k, m) = choose|k: int, m: int|
            0 <= k < ss.len() && ss[k].id == sid && 0 <= m < ss[k].members.len() && (#[trigger] ss[k].members[m]).0 == c;
        assert(has_session(ss, sid));
        let i = session_index(ss, sid);
        if i != k {
            assert(ss[i].id != ss[k].id);
        }
        assert(ss[k].members[m].0 == c);
    }
}

/// Leaving makes no one a member of anything.
proof fn lemma_member_any_leave_back(ss: Seq<SessionView>, x: Seq<char>, cid: Seq<char>, sid: Seq<char>, c: Seq<char>)
    requires
        member_any(leave_model(ss, x, cid), sid, c),
    ensures
        member_any(ss, sid, c),
{
    let r = leave_model(ss, x, cid);
    let (k, m) = choose|k: int, m: int|
        0 <= k < r.len() && r[k].id == sid && 0 <= m < r[k].members.len() && (#[trigger] r[k].members[m]).0 == c;
    if has_session(ss, x) && crate::sessions::is_member(ss[session_index(ss, x)].members, cid) {
        let i = session_index(ss, x);
        let s = crate::sessions::departed(ss[i], cid);
        let ms = ss[i].members;
        let mi = crate::sessions::member_index(ms, cid);
        if crate::sessions::has_active(s.members) {
            if k == i {
                let m1 = if m < mi { m } else { m + 1 };
                assert(ms[m1] == s.members[m]);
                assert(ss[i].members[m1].0 == c);
            } else {
                assert(ss[k].members[m].0 == c);
            }
        } else {
            let k1 = if k < i { k } else { k + 1 };
            assert(r[k] == ss[k1]);
            assert(ss[k1].members[m].0 == c);
        }
    } else {
        assert(ss[k].members[m].0 == c);
    }
}

/// Changing a member's presence keeps other clients' active memberships.
proof fn lemma_active_after_mark(
    ss: Seq<SessionView>,
    sid: Seq<char>,
    cid: Seq<char>,
    active: bool,
    sid2: Seq<char>,
    c2: Seq<char>,
)
    requires
        registry_wf(ss),
        active_in(ss, sid2, c2),
        c2 != cid,
    ensures
        active_in(mark_model(ss, sid, cid, active), sid2, c2),
{
    if has_session(ss, sid) && crate::sessions::is_member(ss[session_index(ss, sid)].members, cid) {
        let i = session_index(ss, sid);
        let ms = ss[i].members;
        let mi = crate::sessions::member_index(ms, cid);
        let s = SessionView { members: ms.update(mi, (cid, active)), ..ss[i] };
        let mut m2: int = mi;
        if ss[i].id == sid2 && is_active_entry(ss[i], c2) {
            let m = choose|m: int| 0 <= m < ms.len() && #[trigger] ms[m] == (c2, true);
            assert(m != mi);
            m2 = m;
            assert(s.members[m2] == ms[m]);
        }
        lemma_active_after_session_change(ss, i, s, sid2, c2, m2);
    }
}

/// Joining keeps every active membership.
proof fn lemma_active_after_join(
    ss: Seq<SessionView>,
    sid: Seq<char>,
    cid: Seq<char>,
    tiles: Seq<crate::environment::PlacedTile>,
    sid2: Seq<char>,
    c2: Seq<char>,
)
    requires
        active_in(ss, sid2, c2),
    ensures
        active_in(join_model(ss, sid, cid, tiles), sid2, c2),
{
    let (k, m) = choose|k: int, m: int|
        0 <= k < ss.len() && ss[k].id == sid2 && 0 <= m < ss[k].members.len() && #[trigger] ss[k].members[m] == (c2, true);
    let r = join_model(ss, sid, cid, tiles);
    if has_session(ss, sid) {
        let i = session_index(ss, sid);
        if k == i {
            assert(r[k].members[m] == (c2, true));
        } else {
            assert(r[k] == ss[k]);
        }
        assert(r[k].members[m] == (c2, true));
    } else {
        assert(r[k] == ss[k]);
        assert(r[k].members[m] == (c2, true));
    }
}

/// A client that joins is an active member of the session afterwards.
proof fn lemma_joined_active_in(
    ss: Seq<SessionView>,
    sid: Seq<char>,
    cid: Seq<char>,
    tiles: Seq<crate::environment::PlacedTile>,
)
    requires
        !member_of(ss, sid, cid),
    ensures
        active_in(join_model(ss, sid, cid, tiles), sid, cid),
{
    let r = join_model(ss, sid, cid, tiles);
    if has_session(ss, sid) {
        let i = session_index(ss, sid);
        let n = ss[i].members.len() as int;
        assert(r[i].members[n] == (cid, true));
    } else {
        let i = ss.len() as int;
        assert(r[i].members[0] == (cid, true));
    }
}

/// A member marked active is an active member afterwards.
proof fn lemma_marked_active_in(ss: Seq<SessionView>, sid: Seq<char>, cid: Seq<char>)
    requires
        member_of(ss, sid, cid),
    ensures
        active_in(mark_model(ss, sid, cid, true), sid, cid),
{
    let i = session_index(ss, sid);
    let ms = ss[i].members;
    let mi = crate::sessions::member_index(ms, cid);
    let s = SessionView { members: ms.update(mi, (cid, true)), ..ss[i] };
    assert(s.members[mi] == (cid, true));
    assert(crate::sessions::has_active(s.members));
    let r = mark_model(ss, sid, cid, true);
    assert(r[i] == s);
    assert(r[i].members[mi] == (cid, true));
}

/// A change that keeps every session's id and members keeps every active membership.
proof fn lemma_active_same_members(ss: Seq<SessionView>, ss2: Seq<SessionView>, sid2: Seq<char>, c2: Seq<char>)
    requires
        active_in(ss, sid2, c2),
        ss2.len() == ss.len(),
        forall|k: int| 0 <= k < ss.len() ==> (#[trigger] ss2[k]).id == ss[k].id && ss2[k].members == ss[k].members,
    ensures
        active_in(ss2, sid2, c2),
{
    let (k, m) = choose|k: int, m: int|
        0 <= k < ss.len() && ss[k].id == sid2 && 0 <= m < ss[k].members.len() && #[trigger] ss[k].members[m] == (c2, true);
    assert(ss2[k].members[m] == (c2, true));
}

/// Clients placed before stay placed: entries other than `cid`'s come from
/// the old list, memberships of other clients survive, and `cid`'s own entry
/// is placed.
proof fn lemma_placed_transfer(
    cs: Seq<(Seq<char>, Option<Seq<char>>)>,
    ss: Seq<SessionView>,
    cs2: Seq<(Seq<char>, Option<Seq<char>>)>,
    ss2: Seq<SessionView>,
    cid: Seq<char>,
)
    requires
        clients_placed(cs, ss),
        forall|i: int| 0 <= i < cs2.len() && (#[trigger] cs2[i]).0 != cid ==> exists|j: int| 0 <= j < cs.len() && #[trigger] cs[j] == cs2[i],
        forall|i: int| 0 <= i < cs2.len() && (#[trigger] cs2[i]).0 == cid && cs2[i].1 is Some ==> active_in(ss2, cs2[i].1->Some_0, cid),
        forall|sid2: Seq<char>, c2: Seq<char>| c2 != cid && #[trigger] active_in(ss, sid2, c2) ==> active_in(ss2, sid2, c2),
    ensures
        clients_placed(cs2, ss2),
{
    assert forall|i: int| 0 <= i < cs2.len() && (#[trigger] cs2[i]).1 is Some implies active_in(ss2, cs2[i].1->Some_0, cs2[i].0) by {
        if cs2[i].0 != cid {
            let j = choose|j: int| 0 <= j < cs.len() && #[trigger] cs[j] == cs2[i];
            assert(active_in(ss, cs[j].1->Some_0, cs[j].0));
        }
    }
}

proof fn lemma_placed_with_session(
    cs: Seq<(Seq<char>, Option<Seq<char>>)>,
    ss: Seq<SessionView>,
    ss2: Seq<SessionView>,
    cid: Seq<char>,
    x: Option<Seq<char>>,
)
    requires
        clients_placed(cs, ss),
        crate::clients::clients_unique(cs),
        forall|sid2: Seq<char>, c2: Seq<char>| c2 != cid && #[trigger] active_in(ss, sid2, c2) ==> active_in(ss2, sid2, c2),
        x matches Some(sid) ==> active_in(ss2, sid, cid),
    ensures
        clients_placed(with_session(cs, cid, x), ss2),
{
    let cs2 = with_session(cs, cid, x);
    assert forall|i: int| 0 <= i < cs2.len() && (#[trigger] cs2[i]).0 != cid implies exists|j: int| 0 <= j < cs.len() && #[trigger] cs[j] == cs2[i] by {
        assert(cs[i] == cs2[i]);
    }
    assert forall|i: int| 0 <= i < cs2.len() && (#[trigger] cs2[i]).0 == cid && cs2[i].1 is Some implies active_in(ss2, cs2[i].1->Some_0, cid) by {
        if crate::clients::is_connected(cs, cid) {
            let ci = crate::clients::client_index(cs, cid);
            if i != ci {
                assert(cs[i].0 != cs[ci].0);
            }
        } else {
            assert(cs[i].0 == cid);
        }
    }
    lemma_placed_transfer(cs, ss, cs2, ss2, cid);
}

proof fn lemma_placed_without(
    cs: Seq<(Seq<char>, Option<Seq<char>>)>,
    ss: Seq<SessionView>,
    ss2: Seq<SessionView>,
    cid: Seq<char>,
)
    requires
        clients_placed(cs, ss),
        crate::clients::clients_unique(cs),
        forall|sid2: Seq<char>, c2: Seq<char>| c2 != cid && #[trigger] active_in(ss, sid2, c2) ==> active_in(ss2, sid2, c2),
    ensures
        clients_placed(without_client(cs, cid), ss2),
{
    let cs2 = without_client(cs, cid);
    if crate::clients::is_connected(cs, cid) {
        let ci = crate::clients::client_index(cs, cid);
        assert forall|i: int| 0 <= i < cs2.len() implies (#[trigger] cs2[i]).0 != cid && exists|j: int| 0 <= j < cs.len() && #[trigger] cs[j] == cs2[i] by {
            let j = if i < ci { i } else { i + 1 };
            assert(cs2[i] == cs[j]);
            assert(cs[j].0 != cs[ci].0);
        }
    } else {
        assert forall|i: int| 0 <= i < cs2.len() implies (#[trigger] cs2[i]).0 != cid && exists|j: int| 0 <= j < cs.len() && #[trigger] cs[j] == cs2[i] by {
            assert(cs[i] == cs2[i]);
        }
    }
    lemma_placed_transfer(cs, ss, cs2, ss2, cid);
}

proof fn lemma_placed_push(
    cs: Seq<(Seq<char>, Option<Seq<char>>)>,
    ss: Seq<SessionView>,
    ss2: Seq<SessionView>,
    cid: Seq<char>,
    x: Option<Seq<char>>,
)
    requires
        clients_placed(cs, ss),
        forall|sid2: Seq<char>, c2: Seq<char>| c2 != cid && #[trigger] active_in(ss, sid2, c2) ==> active_in(ss2, sid2, c2),
        forall|i: int| 0 <= i < cs.len() ==> (#[trigger] cs[i]).0 != cid,
        x matches Some(sid) ==> active_in(ss2, sid, cid),
    ensures
        clients_placed(cs.push((cid, x)), ss2),
{
    let cs2 = cs.push((cid, x));
    assert forall|i: int| 0 <= i < cs2.len() && (#[trigger] cs2[i]).0 != cid implies exists|j: int| 0 <= j < cs.len() && #[trigger] cs[j] == cs2[i] by {
        assert(cs[i] == cs2[i]);
    }
    assert forall|i: int| 0 <= i < cs2.len() && (#[trigger] cs2[i]).0 == cid && cs2[i].1 is Some implies active_in(ss2, cs2[i].1->Some_0, cid) by {
        if i < cs.len() {
            assert(cs[i] == cs2[i]);
        }
    }
    lemma_placed_transfer(cs, ss, cs2, ss2, cid);
}

proof fn lemma_placed_same_members(
    cs: Seq<(Seq<char>, Option<Seq<char>>)>,
    ss: Seq<SessionView>,
    ss2: Seq<SessionView>,
)
    requires
        clients_placed(cs, ss),
        ss2.len() == ss.len(),
        forall|k: int| 0 <= k < ss.len() ==> (#[trigger] ss2[k]).id == ss[k].id && ss2[k].members == ss[k].members,
    ensures
        clients_placed(cs, ss2),
{
    assert forall|i: int| 0 <= i < cs.len() && (#[trigger] cs[i]).1 is Some implies active_in(ss2, cs[i].1->Some_0, cs[i].0) by {
        lemma_active_same_members(ss, ss2, cs[i].1->Some_0, cs[i].0);
    }
}

proof fn lemma_not_connected(cs: Seq<(Seq<char>, Option<Seq<char>>)>, cid: Seq<char>)
    requires
        !crate::clients::is_connected(cs, cid),
    ensures
        forall|i: int| 0 <= i < cs.len() ==> (#[trigger] cs[i]).0 != cid,
{
}

proof fn lemma_first_membership_member(ss: Seq<SessionView>, cid: Seq<char>)
    requires
        forall|i: int, j: int| 0 <= i < ss.len() && 0 <= j < ss.len() && i != j ==> (#[trigger] ss[i]).id != (#[trigger] ss[j]).id,
        0 <= first_membership(ss, cid) < ss.len(),
        is_member(ss[first_membership(ss, cid)].members, cid),
    ensures
        member_of(ss, ss[first_membership(ss, cid)].id, cid),
{
    let f = first_membership(ss, cid);
    let sv = ss[f].id;
    assert(ss[f].id == sv);
    assert(has_session(ss, sv));
    let j = session_index(ss, sv);
    if j != f {
        assert(ss[j].id != ss[f].id);
    }
}

/// Setting the session of a client just appended updates that last entry.
proof fn lemma_last_client_update(cs: Seq<(Seq<char>, Option<Seq<char>>)>, cid: Seq<char>, sid: Seq<char>)
    requires
        forall|i: int| 0 <= i < cs.len() ==> (#[trigger] cs[i]).0 != cid,
    ensures
        with_session(cs.push((cid, None)), cid, Some(sid)) == cs.push((cid, Some(sid))),
{
    let c1 = cs.push((cid, None));
    let n = cs.len() as int;
    assert(c1[n].0 == cid);
    assert(crate::clients::is_connected(c1, cid));
    let j = crate::clients::client_index(c1, cid);
    if j != n {
        assert(c1[j] == cs[j]);
    }
    assert(c1.update(n, (cid, Some(sid))) =~= cs.push((cid, Some(sid))));
}

/// A returning client that is made active again in its session is placed.
proof fn lemma_rejoin_placed(
    cs: Seq<(Seq<char>, Option<Seq<char>>)>,
    ss: Seq<SessionView>,
    cid: Seq<char>,
    sid: Seq<char>,
)
    requires
        clients_placed(cs, ss),
        registry_wf(ss),
        member_of(ss, sid, cid),
        forall|i: int| 0 <= i < cs.len() ==> (#[trigger] cs[i]).0 != cid,
    ensures
        clients_placed(cs.push((cid, Some(sid))), mark_model(ss, sid, cid, true)),
{
    let ss2 = mark_model(ss, sid, cid, true);
    lemma_marked_active_in(ss, sid, cid);
    assert forall|sid2: Seq<char>, c2: Seq<char>| c2 != cid && #[trigger] active_in(ss, sid2, c2) implies active_in(ss2, sid2, c2) by {
        lemma_active_after_mark(ss, sid, cid, true, sid2, c2);
    }
    lemma_placed_push(cs, ss, ss2, cid, Some(sid));
}

} // verus!
