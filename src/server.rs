use vstd::prelude::*;
use std::collections::HashMap;

verus! {

broadcast use vstd::std_specs::hash::group_hash_axioms;

/// The identifier under which the listening socket is registered.
pub const SERVER_TOKEN: usize = 0;

/// Whom a readiness event is for.
#[derive(Debug, Clone, Copy, PartialEq, Eq, Structural)]
pub enum EventTarget {
    /// The listening socket: connections wait to be accepted.
    Listener,
    /// The connection registered under this identifier.
    Connection(usize),
}

/// Routes a readiness event by the identifier that it carries.
pub fn route(token: usize) -> (r: EventTarget)
    ensures
        token == SERVER_TOKEN ==> r == EventTarget::Listener,
        token != SERVER_TOKEN ==> r == EventTarget::Connection(token),
{
    if token == SERVER_TOKEN {
        EventTarget::Listener
    } else {
        EventTarget::Connection(token)
    }
}

/// The table of live connections, keyed by identifiers that are handed out in
/// increasing order and never reused.
pub struct FiestaHandler<C> {
    clients: HashMap<usize, C>,
    token_count: usize,
}

impl<C> FiestaHandler<C> {
    /// The live connections by identifier.
    pub closed spec fn table(&self) -> Map<usize, C> {
        self.clients@
    }

    /// The last identifier handed out (none yet: the listener's).
    pub closed spec fn issued(&self) -> usize {
        self.token_count
    }

    pub closed spec fn inv(&self) -> bool {
        forall|k: usize| #[trigger] self.clients@.contains_key(k) ==> 0 < k <= self.token_count
    }

    pub fn new() -> (r: Self)
        ensures
            r.inv(),
            r.table() == Map::<usize, C>::empty(),
            r.issued() == SERVER_TOKEN,
    {
        FiestaHandler { clients: HashMap::new(), token_count: 0 }
    }

    /// Hands out the next identifier; none once every identifier was used.
    pub fn get_next_token(&mut self) -> (r: Option<usize>)
        requires
            old(self).inv(),
        ensures
            final(self).inv(),
            final(self).table() == old(self).table(),
            old(self).issued() < usize::MAX ==> {
                &&& r == Some((old(self).issued() + 1) as usize)
                &&& final(self).issued() == old(self).issued() + 1
            },
            old(self).issued() == usize::MAX ==> r is None && final(self).issued()
                == old(self).issued(),
    {
        if self.token_count == usize::MAX {
            return None;
        }
        self.token_count = self.token_count + 1;
        Some(self.token_count)
    }

    /// The last identifier handed out.
    pub fn get_current_token(&self) -> (r: usize)
        ensures
            r == self.issued(),
    {
        self.token_count
    }

    /// Stores a freshly accepted connection under the identifier it was given.
    pub fn insert_client(&mut self, token: usize, client: C)
        requires
            old(self).inv(),
            0 < token <= old(self).issued(),
        ensures
            final(self).inv(),
            final(self).table() == old(self).table().insert(token, client),
            final(self).issued() == old(self).issued(),
    {
        self.clients.insert(token, client);
    }

    /// The live connection registered under `token`, if any.
    pub fn client(&self, token: usize) -> (r: Option<&C>)
        ensures
            r is Some <==> self.table().contains_key(token),
            r matches Some(c) ==> *c == self.table()[token],
    {
        self.clients.get(&token)
    }

    /// How many connections are live.
    pub fn connections(&self) -> (r: usize)
        ensures
            r == self.table().len(),
    {
        self.clients.len()
    }

    /// Ends the handling of one event of the connection under `token`: a
    /// connection that asked to disconnect is taken out of the table and handed
    /// back; any other stays, to be armed again.
    pub fn conclude(&mut self, token: usize, disconnect: bool) -> (r: Option<C>)
        requires
            old(self).inv(),
        ensures
            final(self).inv(),
            final(self).issued() == old(self).issued(),
            disconnect ==> {
                &&& final(self).table() == old(self).table().remove(token)
                &&& r is Some <==> old(self).table().contains_key(token)
                &&& r matches Some(c) ==> c == old(self).table()[token]
            },
            !disconnect ==> r is None && final(self).table() == old(self).table(),
    {
        if disconnect {
            self.clients.remove(&token)
        } else {
            None
        }
    }
}

} // verus!
