use crate::did::Did;
use crate::error::Error;
use vstd::prelude::*;

verus! {

/// The table after `register(address, trans)`: the entry for `address` is `trans`.
pub open spec fn registered<T>(table: Map<Did, T>, address: Did, trans: T) -> Map<Did, T> {
    table.insert(address, trans)
}

/// What `register` hands back: the entry that the call replaced, if any.
pub open spec fn evicted<T>(table: Map<Did, T>, address: Did) -> Option<T> {
    if table.contains_key(address) {
        Some(table[address])
    } else {
        None
    }
}

/// The table after `get_or_register`: the candidate is installed only when it
/// is connected and the address has no entry yet.
pub open spec fn get_or_registered<T>(
    table: Map<Did, T>,
    address: Did,
    candidate: T,
    connected: bool,
) -> Map<Did, T> {
    if connected && !table.contains_key(address) {
        table.insert(address, candidate)
    } else {
        table
    }
}

/// The outcome of `get_or_register`: `NotConnected` for an unconnected
/// candidate, else the entry that the address holds after the call.
pub open spec fn get_or_register_outcome<T>(
    table: Map<Did, T>,
    address: Did,
    candidate: T,
    connected: bool,
) -> Result<T, Error> {
    if !connected {
        Err(Error::NotConnected)
    } else {
        Ok(get_or_registered(table, address, candidate, connected)[address])
    }
}

/// The transport registry: the table from peer address to the connection
/// that currently serves it.
///
/// `T` is the shared handle of a connection. The table is a list of pairs
/// whose addresses are unique; its meaning is the map `self@`.
pub struct Swarm<T> {
    table: Vec<(Did, T)>,
    stun_server: String,
    address: Did,
    entries: Ghost<Map<Did, T>>,
}

impl<T> View for Swarm<T> {
    type V = Map<Did, T>;

    closed spec fn view(&self) -> Map<Did, T> {
        self.entries@
    }
}

impl<T: Clone> Swarm<T> {
    /// The list and the map agree, and no address is listed twice.
    pub closed spec fn wf(&self) -> bool {
        &&& forall|i: int, j: int|
            0 <= i < j < self.table@.len() ==> #[trigger] self.table@[i].0 != #[trigger] self.table@[j].0
        &&& forall|i: int|
            0 <= i < self.table@.len() ==> {
                &&& self.entries@.contains_key(#[trigger] self.table@[i].0)
                &&& self.entries@[self.table@[i].0] == self.table@[i].1
            }
        &&& forall|k: Did|
            #[trigger] self.entries@.contains_key(k) ==> exists|i: int|
                0 <= i < self.table@.len() && #[trigger] self.table@[i].0 == k
    }

    /// The address of this node.
    pub closed spec fn spec_address(&self) -> Did {
        self.address
    }

    /// The STUN server that new connections are configured with.
    pub closed spec fn spec_stun_server(&self) -> Seq<char> {
        self.stun_server@
    }

    /// An empty registry for the node at `address`.
    pub fn new(stun: &str, address: Did) -> (r: Swarm<T>)
        ensures
            r.wf(),
            r@ == Map::<Did, T>::empty(),
            r.spec_address() == address,
            r.spec_stun_server() == stun@,
    {
        Swarm {
            table: Vec::new(),
            stun_server: stun.to_owned(),
            address,
            entries: Ghost(Map::empty()),
        }
    }

    /// The address of this node.
    pub fn address(&self) -> (r: Did)
        ensures
            r == self.spec_address(),
    {
        self.address
    }

    /// The STUN server that new connections are configured with.
    pub fn stun_server(&self) -> (r: &str)
        ensures
            r@ == self.spec_stun_server(),
    {
        self.stun_server.as_str()
    }

    /// The position of `address` in the list, if it is there.
    fn position(&self, address: &Did) -> (r: Option<usize>)
        requires
            self.wf(),
        ensures
            r is None <==> !self@.contains_key(*address),
            r matches Some(i) ==> i < self.table@.len() && self.table@[i as int].0 == *address,
    {
        let mut i: usize = 0;
        while i < self.table.len()
            invariant
                self.wf(),
                i <= self.table@.len(),
                forall|j: int| 0 <= j < i ==> #[trigger] self.table@[j].0 != *address,
            decreases self.table.len() - i,
        {
            if self.table[i].0 == *address {
                return Some(i);
            }
            i = i + 1;
        }
        proof {
            if self@.contains_key(*address) {
                let j = choose|j: int|
                    0 <= j < self.table@.len() && #[trigger] self.table@[j].0 == *address;
                assert(self.table@[j].0 == *address);
            }
        }
        None
    }

    /// The connection registered for `address`: a clone of the table's entry.
    pub fn get_transport(&self, address: &Did) -> (r: Option<T>)
        requires
            self.wf(),
        ensures
            r is Some <==> self@.contains_key(*address),
            r matches Some(t) ==> cloned(self@[*address], t),
    {
        match self.position(address) {
            Some(i) => Some(self.table[i].1.clone()),
            None => None,
        }
    }

    /// Makes `trans` the entry for `address`, and hands back the entry that it
    /// replaced, which the caller is to close without holding up the registry.
    pub fn register(&mut self, address: Did, trans: T) -> (r: Option<T>)
        requires
            old(self).wf(),
        ensures
            final(self).wf(),
            final(self)@ == registered(old(self)@, address, trans),
            r == evicted(old(self)@, address),
            final(self).spec_address() == old(self).spec_address(),
            final(self).spec_stun_server() == old(self).spec_stun_server(),
    {
        let ghost before = self@;
        let ghost old_table = self.table@;
        match self.position(&address) {
            Some(i) => {
                let ghost t = trans;
                let (_, prev) = self.table.remove(i);
                self.table.insert(i, (address, trans));
                assert(prev == before[address]);
                self.entries = Ghost(before.insert(address, t));
                proof {
                    assert forall|k: Did| #[trigger] self.entries@.contains_key(k) implies exists|j: int|
                        0 <= j < self.table@.len() && #[trigger] self.table@[j].0 == k by {
                        if k != address {
                            assert(before.contains_key(k));
                            let j = choose|j: int|
                                0 <= j < old_table.len() && #[trigger] old_table[j].0 == k;
                            assert(self.table@[j].0 == k);
                        } else {
                            assert(self.table@[i as int].0 == k);
                        }
                    }
                }
                Some(prev)
            },
            None => {
                let ghost t = trans;
                self.table.push((address, trans));
                self.entries = Ghost(before.insert(address, t));
                proof {
                    let n = self.table@.len() - 1;
                    assert forall|k: Did| #[trigger] self.entries@.contains_key(k) implies exists|j: int|
                        0 <= j < self.table@.len() && #[trigger] self.table@[j].0 == k by {
                        if k != address {
                            assert(before.contains_key(k));
                            let j = choose|j: int|
                                0 <= j < old_table.len() && #[trigger] old_table[j].0 == k;
                            assert(self.table@[j].0 == k);
                        } else {
                            assert(self.table@[n].0 == k);
                        }
                    }
                }
                None
            },
        }
    }

    /// Registers `candidate` for `address` unless the address already has an
    /// entry, and returns a clone of the entry that the address then holds.
    /// An unconnected candidate is refused with `NotConnected` and the table
    /// is left as it is.
    pub fn get_or_register(&mut self, address: Did, candidate: T, connected: bool) -> (r: Result<
        T,
        Error,
    >)
        requires
            old(self).wf(),
        ensures
            final(self).wf(),
            final(self)@ == get_or_registered(old(self)@, address, candidate, connected),
            r is Err <==> !connected,
            r matches Err(e) ==> e == Error::NotConnected,
            r matches Ok(t) ==> cloned(
                get_or_register_outcome(old(self)@, address, candidate, connected)->Ok_0,
                t,
            ),
            final(self).spec_address() == old(self).spec_address(),
            final(self).spec_stun_server() == old(self).spec_stun_server(),
    {
        if !connected {
            return Err(Error::NotConnected);
        }
        match self.position(&address) {
            Some(i) => Ok(self.table[i].1.clone()),
            None => {
                let r = candidate.clone();
                let _ = self.register(address, candidate);
                Ok(r)
            },
        }
    }

    /// The connection that a message for `address` is to be sent on, or
    /// `PeerUnreachable` when the address has no entry.
    pub fn route_message(&self, address: &Did) -> (r: Result<T, Error>)
        requires
            self.wf(),
        ensures
            r is Err <==> !self@.contains_key(*address),
            r matches Err(e) ==> e == Error::PeerUnreachable,
            r matches Ok(t) ==> cloned(self@[*address], t),
    {
        match self.get_transport(address) {
            Some(t) => Ok(t),
            None => Err(Error::PeerUnreachable),
        }
    }
}

/// Registering `c2` at an address that holds `c1` makes `c2` the entry that
/// every later lookup sees, and hands `c1` back to be closed; no other
/// address changes.
pub proof fn lemma_register_replaces<T>(table: Map<Did, T>, address: Did, c1: T, c2: T)
    requires
        table.contains_key(address),
        table[address] == c1,
    ensures
        registered(table, address, c2).contains_key(address),
        registered(table, address, c2)[address] == c2,
        c1 != c2 ==> registered(table, address, c2)[address] != c1,
        evicted(table, address) == Some(c1),
        registered(table, address, c2).dom() == table.dom(),
        forall|k: Did|
            k != address && table.contains_key(k) ==> #[trigger] registered(table, address, c2)[k]
                == table[k],
{
    assert(registered(table, address, c2).dom() =~= table.dom());
}

/// Two connected candidates that race for the same free address: the first
/// call installs its candidate, the second leaves the table as it is, and
/// both calls return the installed candidate.
pub proof fn lemma_get_or_register_race<T>(table: Map<Did, T>, address: Did, c1: T, c2: T)
    requires
        !table.contains_key(address),
    ensures
        get_or_registered(table, address, c1, true)[address] == c1,
        get_or_registered(get_or_registered(table, address, c1, true), address, c2, true)
            == get_or_registered(table, address, c1, true),
        get_or_register_outcome(table, address, c1, true) == Ok::<T, Error>(c1),
        get_or_register_outcome(get_or_registered(table, address, c1, true), address, c2, true)
            == Ok::<T, Error>(c1),
{
}

/// An unconnected candidate is always refused with `NotConnected`, and the
/// table is left as it is.
pub proof fn lemma_get_or_register_unconnected<T>(table: Map<Did, T>, address: Did, candidate: T)
    ensures
        get_or_registered(table, address, candidate, false) == table,
        get_or_register_outcome(table, address, candidate, false) == Err::<T, Error>(
            Error::NotConnected,
        ),
{
}

} // verus!
