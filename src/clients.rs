//! The registry of connected clients and the session each one is in.
use vstd::prelude::*;

verus! {

/// A connection attempt named an id that is already connected.
#[derive(Clone, Copy, Debug, PartialEq, Eq, Structural)]
pub struct IDAlreadyTaken;

/// A connected client: its id and the id of the session it is in, if any.
#[derive(Debug)]
pub struct Client {
    pub id: String,
    pub session_id: Option<String>,
}

/// Connected clients, each id at most once.
#[derive(Debug)]
pub struct ClientRegistry {
    pub clients: Vec<Client>,
}

pub open spec fn opt_view(o: Option<String>) -> Option<Seq<char>> {
    match o {
        Some(s) => Some(s@),
        None => None,
    }
}

impl View for Client {
    type V = (Seq<char>, Option<Seq<char>>);

    open spec fn view(&self) -> (Seq<char>, Option<Seq<char>>) {
        (self.id@, opt_view(self.session_id))
    }
}

impl View for ClientRegistry {
    type V = Seq<(Seq<char>, Option<Seq<char>>)>;

    open spec fn view(&self) -> Seq<(Seq<char>, Option<Seq<char>>)> {
        self.clients@.map_values(|c: Client| c@)
    }
}

pub open spec fn is_connected(cs: Seq<(Seq<char>, Option<Seq<char>>)>, id: Seq<char>) -> bool {
    exists|i: int| 0 <= i < cs.len() && (#[trigger] cs[i]).0 == id
}

pub open spec fn client_index(cs: Seq<(Seq<char>, Option<Seq<char>>)>, id: Seq<char>) -> int {
    choose|i: int| 0 <= i < cs.len() && (#[trigger] cs[i]).0 == id
}

pub open spec fn clients_unique(cs: Seq<(Seq<char>, Option<Seq<char>>)>) -> bool {
    forall|i: int, j: int| 0 <= i < cs.len() && 0 <= j < cs.len() && i != j ==> (#[trigger] cs[i]).0 != (#[trigger] cs[j]).0
}

/// The session that client `id` is in, if it is connected and in one.
pub open spec fn current_session(cs: Seq<(Seq<char>, Option<Seq<char>>)>, id: Seq<char>) -> Option<Seq<char>> {
    if is_connected(cs, id) {
        cs[client_index(cs, id)].1
    } else {
        None
    }
}

/// Client `id`, if connected, is now in `session`.
pub open spec fn with_session(
    cs: Seq<(Seq<char>, Option<Seq<char>>)>,
    id: Seq<char>,
    session: Option<Seq<char>>,
) -> Seq<(Seq<char>, Option<Seq<char>>)> {
    if is_connected(cs, id) {
        cs.update(client_index(cs, id), (id, session))
    } else {
        cs
    }
}

/// Client `id` is gone.
pub open spec fn without_client(cs: Seq<(Seq<char>, Option<Seq<char>>)>, id: Seq<char>) -> Seq<(Seq<char>, Option<Seq<char>>)> {
    if is_connected(cs, id) {
        cs.remove(client_index(cs, id))
    } else {
        cs
    }
}

fn copy_opt(o: &Option<String>) -> (r: Option<String>)
    ensures
        opt_view(r) == opt_view(*o),
{
    match o {
        Some(s) => Some(s.clone()),
        None => None,
    }
}

impl ClientRegistry {
    pub open spec fn wf(&self) -> bool {
        clients_unique(self@)
    }

    pub fn new() -> (r: ClientRegistry)
        ensures
            r@.len() == 0,
            r.wf(),
    {
        let r = ClientRegistry { clients: Vec::new() };
        proof {
            assert(r@ =~= Seq::<(Seq<char>, Option<Seq<char>>)>::empty());
        }
        r
    }

    fn find(&self, id: &String) -> (r: Option<usize>)
        requires
            self.wf(),
        ensures
            r is Some <==> is_connected(self@, id@),
            r matches Some(i) ==> i < self@.len() && i as int == client_index(self@, id@) && self@[i as int].0 == id@,
    {
        let mut i: usize = 0;
        while i < self.clients.len()
            invariant
                i <= self@.len(),
                self.wf(),
                forall|k: int| 0 <= k < i ==> self@[k].0 != id@,
            decreases self@.len() - i,
        {
            if self.clients[i].id == *id {
                proof {
                    assert(self@[i as int].0 == id@);
                    assert(is_connected(self@, id@));
                    let j = client_index(self@, id@);
                    if j != i as int {
                        assert(self@[j].0 != self@[i as int].0);
                    }
                }
                return Some(i);
            }
            i = i + 1;
        }
        proof {
            assert forall|k: int| 0 <= k < self@.len() implies (#[trigger] self@[k]).0 != id@ by {}
        }
        None
    }

    /// Whether `id` is connected.
    pub fn contains_client(&self, id: &str) -> (r: bool)
        requires
            self.wf(),
        ensures
            r == is_connected(self@, id@),
    {
        let owned = id.to_owned();
        self.find(&owned).is_some()
    }

    /// Registers a new connection; an id that is already connected is refused.
    pub fn connect(&mut self, id: &str) -> (r: Result<(), IDAlreadyTaken>)
        requires
            old(self).wf(),
        ensures
            final(self).wf(),
            r is Err <==> is_connected(old(self)@, id@),
            r is Err ==> final(self)@ == old(self)@,
            r is Ok ==> final(self)@ == old(self)@.push((id@, None)),
    {
        let owned = id.to_owned();
        match self.find(&owned) {
            Some(_) => Err(IDAlreadyTaken),
            None => {
                self.clients.push(Client { id: owned, session_id: None });
                proof {
                    let o = old(self)@;
                    let cs = self@;
                    assert(cs =~= o.push((id@, None)));
                    assert forall|a: int, b: int| 0 <= a < cs.len() && 0 <= b < cs.len() && a != b implies (#[trigger] cs[a]).0 != (#[trigger] cs[b]).0 by {
                        if a < o.len() {
                            assert(cs[a] == o[a]);
                        }
                        if b < o.len() {
                            assert(cs[b] == o[b]);
                        }
                    }
                }
                Ok(())
            },
        }
    }

    /// Forgets client `id`; returns the session it was in.
    pub fn disconnect(&mut self, id: &str) -> (r: Option<String>)
        requires
            old(self).wf(),
        ensures
            final(self).wf(),
            final(self)@ == without_client(old(self)@, id@),
            opt_view(r) == current_session(old(self)@, id@),
    {
        let owned = id.to_owned();
        match self.find(&owned) {
            Some(i) => {
                let c = self.clients.remove(i);
                proof {
                    let o = old(self)@;
                    let cs = self@;
                    assert(cs =~= o.remove(i as int));
                    assert forall|a: int, b: int| 0 <= a < cs.len() && 0 <= b < cs.len() && a != b implies (#[trigger] cs[a]).0 != (#[trigger] cs[b]).0 by {
                        assert(cs[a] == o[if a < i { a } else { a + 1 }]);
                        assert(cs[b] == o[if b < i { b } else { b + 1 }]);
                    }
                }
                c.session_id
            },
            None => None,
        }
    }

    /// The session that client `id` is in.
    pub fn session_of(&self, id: &str) -> (r: Option<String>)
        requires
            self.wf(),
        ensures
            opt_view(r) == current_session(self@, id@),
    {
        let owned = id.to_owned();
        match self.find(&owned) {
            Some(i) => copy_opt(&self.clients[i].session_id),
            None => None,
        }
    }

    /// Records that client `id`, if connected, is in `session`.
    pub fn set_session(&mut self, id: &str, session: Option<String>)
        requires
            old(self).wf(),
        ensures
            final(self).wf(),
            final(self)@ == with_session(old(self)@, id@, opt_view(session)),
    {
        let owned = id.to_owned();
        match self.find(&owned) {
            Some(i) => {
                let ghost sv = opt_view(session);
                self.clients.set(i, Client { id: owned, session_id: session });
                proof {
                    let o = old(self)@;
                    let cs = self@;
                    assert(cs =~= o.update(i as int, (id@, sv)));
                    assert forall|a: int, b: int| 0 <= a < cs.len() && 0 <= b < cs.len() && a != b implies (#[trigger] cs[a]).0 != (#[trigger] cs[b]).0 by {
                        assert(cs[a].0 == o[a].0);
                        assert(cs[b].0 == o[b].0);
                    }
                }
            },
            None => {},
        }
    }
}

} // verus!
