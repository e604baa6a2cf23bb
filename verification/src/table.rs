//! The connection table: every live token leads to exactly one stored
//! connection, and every stored connection is reached by exactly one token.

use crate::connection::{Connection, ConnectionView};
use std::collections::BTreeMap;
use vstd::prelude::*;

verus! {

/// Why a connection was not added: its token is already in the table. The
/// socket comes back to the caller.
#[derive(Debug)]
pub struct DuplicateToken<S> {
    pub token: usize,
    pub socket: S,
}

/// The connections of one reactor, found by token.
///
/// The connections are stored in a vector; a side map gives the position of
/// each token. Removal moves the last connection into the freed position and
/// corrects the one map entry that this displaces, so no position is ever
/// stale.
#[derive(Debug)]
pub struct ConnectionTable<S> {
    connections: Vec<Connection<S>>,
    connection_keys: BTreeMap<usize, usize>,
}

impl<S> View for ConnectionTable<S> {
    type V = Map<usize, ConnectionView<S>>;

    closed spec fn view(&self) -> Map<usize, ConnectionView<S>> {
        Map::new(
            |token: usize| self.connection_keys@.contains_key(token),
            |token: usize| self.connections@[self.connection_keys@[token] as int]@,
        )
    }
}

/// What holds of the contents of every table: each connection is stored
/// under its own token and is well formed.
pub open spec fn consistent<S>(connections: Map<usize, ConnectionView<S>>) -> bool {
    forall|token: usize| #[trigger]
        connections.contains_key(token) ==> connections[token].token == token
            && connections[token].wf()
}

/// One change of a table.
pub enum TableChange<S> {
    /// `add` of `socket` under `token`.
    Add { token: usize, socket: S },
    /// `remove` of `token`.
    Remove { token: usize },
}

impl<S> TableChange<S> {
    /// The contents of a table that held `before`, after this change. An
    /// addition under a token that is already there changes nothing.
    pub open spec fn apply(self, before: Map<usize, ConnectionView<S>>) -> Map<
        usize,
        ConnectionView<S>,
    > {
        match self {
            TableChange::Add { token, socket } => if before.contains_key(token) {
                before
            } else {
                before.insert(token, ConnectionView::fresh(socket, token))
            },
            TableChange::Remove { token } => before.remove(token),
        }
    }
}

/// The contents of a table that was empty and then went through `changes`,
/// first change first.
pub open spec fn contents_after<S>(changes: Seq<TableChange<S>>) -> Map<usize, ConnectionView<S>>
    decreases changes.len(),
{
    if changes.len() == 0 {
        Map::empty()
    } else {
        changes.last().apply(contents_after(changes.drop_last()))
    }
}

/// After any sequence of additions and removals, a token that is in the
/// table leads to the connection that was added under it, by an addition
/// that no later removal of the token has undone.
pub proof fn lemma_found_is_what_was_added<S>(changes: Seq<TableChange<S>>, token: usize)
    requires
        contents_after(changes).contains_key(token),
    ensures
        contents_after(changes)[token].token == token,
        exists|i: int|
            {
                &&& 0 <= i < changes.len()
                &&& #[trigger] changes[i] is Add
                &&& changes[i]->Add_token == token
                &&& contents_after(changes)[token] == ConnectionView::fresh(
                    changes[i]->socket,
                    token,
                )
                &&& forall|j: int|
                    i < j < changes.len() ==> #[trigger] changes[j] != (TableChange::<
                        S,
                    >::Remove { token })
            },
    decreases changes.len(),
{
    let before = contents_after(changes.drop_last());
    let last = changes.len() - 1;
    let fresh_here = match changes.last() {
        TableChange::Add { token: added, socket } => added == token && !before.contains_key(token),
        TableChange::Remove { token: _ } => false,
    };
    if fresh_here {
        assert(changes[last] is Add);
    } else {
        assert(before.contains_key(token));
        lemma_found_is_what_was_added(changes.drop_last(), token);
        let i = choose|i: int|
            {
                &&& 0 <= i < changes.drop_last().len()
                &&& #[trigger] changes.drop_last()[i] is Add
                &&& changes.drop_last()[i]->Add_token == token
                &&& before[token] == ConnectionView::fresh(changes.drop_last()[i]->socket, token)
                &&& forall|j: int|
                    i < j < changes.drop_last().len() ==> #[trigger] changes.drop_last()[j] != (
                    TableChange::<S>::Remove { token })
            };
        assert(changes[i] == changes.drop_last()[i]);
        assert(changes[i] is Add);
        assert forall|j: int| i < j < changes.len() implies #[trigger] changes[j] != (TableChange::<
            S,
        >::Remove { token }) by {
            if j < last {
                assert(changes[j] == changes.drop_last()[j]);
            }
        }
    }
}

impl<S> ConnectionTable<S> {
    /// The invariant of the representation: tokens and positions are in
    /// bijection.
    pub closed spec fn wf(&self) -> bool {
        &&& forall|token: usize| #[trigger]
            self.connection_keys@.contains_key(token) ==> {
                &&& self.connection_keys@[token] < self.connections@.len()
                &&& self.connections@[self.connection_keys@[token] as int]@.token == token
            }
        &&& forall|i: int|
            0 <= i < self.connections@.len() ==> {
                &&& self.connection_keys@.contains_key((#[trigger] self.connections@[i])@.token)
                &&& self.connection_keys@[self.connections@[i]@.token] == i
                &&& self.connections@[i].wf()
            }
    }

    /// The position at which the connection of `token` is stored.
    pub closed spec fn slot(&self, token: usize) -> int {
        self.connection_keys@[token] as int
    }

    /// The connection stored at position `slot`.
    pub closed spec fn stored(&self, slot: int) -> ConnectionView<S> {
        self.connections@[slot]@
    }

    /// Number of stored connections.
    pub closed spec fn slots(&self) -> int {
        self.connections@.len() as int
    }

    /// The contents of a well-formed table are consistent, and finite.
    pub proof fn lemma_wf_view(&self)
        requires
            self.wf(),
        ensures
            consistent(self@),
            self@.dom().finite(),
    {
        assert forall|token: usize| #[trigger] self@.contains_key(token) implies self@[token].token
            == token && self@[token].wf() by {
            self.connections@[self.connection_keys@[token] as int].lemma_wf_view();
        }
        assert(self@.dom() =~= self.connection_keys@.dom());
    }

    /// Table bijection: every token in the table leads to a position that
    /// holds the connection of that token, every position is reached
    /// from the token of the connection it holds, and two different tokens
    /// never lead to the same position.
    pub proof fn lemma_bijection(&self, token: usize, other: usize)
        requires
            self.wf(),
            self@.contains_key(token),
            self@.contains_key(other),
        ensures
            0 <= self.slot(token) < self.slots(),
            self.stored(self.slot(token)) == self@[token],
            self@[token].token == token,
            token != other ==> self.slot(token) != self.slot(other),
            forall|slot: int|
                0 <= slot < self.slots() ==> self@.contains_key(
                    (#[trigger] self.stored(slot)).token,
                ) && self.slot(self.stored(slot).token) == slot,
    {
    }

    /// An empty table.
    pub fn new() -> (table: Self)
        ensures
            table.wf(),
            table@ == Map::<usize, ConnectionView<S>>::empty(),
    {
        let table = ConnectionTable { connections: Vec::new(), connection_keys: BTreeMap::new() };
        assert(table@ =~= Map::<usize, ConnectionView<S>>::empty());
        table
    }

    /// Number of connections in the table.
    pub fn len(&self) -> (count: usize)
        requires
            self.wf(),
        ensures
            count == self@.len(),
    {
        assert(self@.dom() =~= self.connection_keys@.dom());
        self.connection_keys.len()
    }

    /// Whether `token` is in the table.
    pub fn contains(&self, token: usize) -> (present: bool)
        requires
            self.wf(),
        ensures
            present == self@.contains_key(token),
    {
        self.connection_keys.contains_key(&token)
    }

    /// Adds a fresh connection for `socket` under `token`. Fails, and
    /// changes nothing, if and only if the token is already in the table.
    pub fn add(&mut self, token: usize, socket: S) -> (result: Result<(), DuplicateToken<S>>)
        requires
            old(self).wf(),
        ensures
            final(self).wf(),
            final(self)@ == (TableChange::Add { token, socket }).apply(old(self)@),
            match result {
                Ok(_) => {
                    &&& !old(self)@.contains_key(token)
                    &&& final(self)@ == old(self)@.insert(
                        token,
                        ConnectionView::fresh(socket, token),
                    )
                },
                Err(e) => {
                    &&& old(self)@.contains_key(token)
                    &&& e.token == token
                    &&& e.socket == socket
                    &&& final(self)@ == old(self)@
                },
            },
    {
        if self.connection_keys.contains_key(&token) {
            return Err(DuplicateToken { token, socket });
        }
        let slot = self.connections.len();
        self.connections.push(Connection::new(socket, token));
        self.connection_keys.insert(token, slot);
        assert(self@ =~= old(self)@.insert(token, ConnectionView::fresh(socket, token)));
        Ok(())
    }

    /// Removes the connection of `token` and returns it, if there is one.
    /// Every other token leads to its own connection as before.
    pub fn remove(&mut self, token: usize) -> (removed: Option<Connection<S>>)
        requires
            old(self).wf(),
        ensures
            final(self).wf(),
            final(self)@ == old(self)@.remove(token),
            final(self)@ == (TableChange::<S>::Remove { token }).apply(old(self)@),
            match removed {
                Some(connection) => {
                    &&& old(self)@.contains_key(token)
                    &&& connection@ == old(self)@[token]
                    &&& connection@.token == token
                    &&& connection.wf()
                },
                None => !old(self)@.contains_key(token),
            },
    {
        match self.connection_keys.remove(&token) {
            None => {
                assert(self@ =~= old(self)@.remove(token));
                None
            },
            Some(slot) => {
                let connection = self.connections.swap_remove(slot);
                if slot < self.connections.len() {
                    let moved = self.connections[slot].token();
                    self.connection_keys.insert(moved, slot);
                }
                assert(self@ =~= old(self)@.remove(token));
                Some(connection)
            },
        }
    }

    /// The connection of `token`, if there is one.
    pub fn get(&self, token: usize) -> (found: Option<&Connection<S>>)
        requires
            self.wf(),
        ensures
            match found {
                Some(connection) => {
                    &&& self@.contains_key(token)
                    &&& connection@ == self@[token]
                    &&& connection@.token == token
                    &&& connection.wf()
                },
                None => !self@.contains_key(token),
            },
    {
        match self.connection_keys.get(&token) {
            None => None,
            Some(slot) => Some(&self.connections[*slot]),
        }
    }

    /// The connection of `token`, if there is one, for changing in place.
    /// The table holds whatever the caller leaves there; it stays well
    /// formed as long as that is a well-formed connection of the same token.
    pub fn get_mut(&mut self, token: usize) -> (found: Option<&mut Connection<S>>)
        requires
            old(self).wf(),
        ensures
            match found {
                Some(connection) => {
                    &&& old(self)@.contains_key(token)
                    &&& connection@ == old(self)@[token]
                    &&& connection@.token == token
                    &&& connection.wf()
                    &&& final(self)@ == old(self)@.insert(token, final(connection)@)
                    &&& final(connection).wf() && final(connection)@.token == token
                        ==> final(self).wf()
                },
                None => {
                    &&& !old(self)@.contains_key(token)
                    &&& final(self)@ == old(self)@
                    &&& final(self).wf()
                },
            },
    {
        match self.connection_keys.get(&token) {
            None => None,
            Some(found) => {
                let slot = *found;
                Some(&mut self.connections[slot])
            },
        }
    }
}

} // verus!
