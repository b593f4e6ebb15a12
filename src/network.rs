//! The peer registry: which nodes are known, which connections are open and
//! confirmed, and to whom each packet goes. Sockets and threads stay with
//! the caller, which performs what these functions decide.
use vstd::prelude::*;
use crate::block::Block;
use crate::page::{DataUnit, Page};
use crate::transaction::Transaction;

verus! {

/// What peers send each other.
pub enum Packet {
    KnownNode(String),
    OnConnected(u16),
    Block(Block),
    BlockRequest(u64),
    Transfer(Transaction),
    Page(Page, DataUnit),
    Ping,
}

/// What the receiving workers hand to the packet handler.
pub enum Message {
    Packet(String, Packet),
    Shutdown,
}

/// One connection: the address it was made on, and the peer's listening
/// address once the peer has announced it.
pub struct PeerConnection {
    pub address: String,
    pub public_address: Option<String>,
}

/// The addresses in a list of strings.
pub open spec fn names(s: Seq<String>) -> Set<Seq<char>> {
    Set::new(|x: Seq<char>| exists|i: int| 0 <= i < s.len() && s[i]@ == x)
}

/// Whether a list of strings holds none twice.
pub open spec fn distinct(s: Seq<String>) -> bool {
    forall|i: int, j: int| 0 <= i < j < s.len() ==> s[i]@ != s[j]@
}

/// The connection addresses of the confirmed connections, in order, less
/// the one named `except`.
pub open spec fn confirmed_except(c: Seq<PeerConnection>, except: Option<Seq<char>>) -> Seq<
    Seq<char>,
>
    decreases c.len(),
{
    if c.len() == 0 {
        Seq::empty()
    } else {
        let rest = confirmed_except(c.drop_last(), except);
        let last = c.last();
        if last.public_address is Some && except != Some(last.address@) {
            rest.push(last.address@)
        } else {
            rest
        }
    }
}

/// Whether no two connections share an address.
pub open spec fn distinct_connections(c: Seq<PeerConnection>) -> bool {
    forall|i: int, j: int| 0 <= i < j < c.len() ==> c[i].address@ != c[j].address@
}

/// The registry after closing the connection on `a`: that connection is
/// gone and its peer's listening address leaves the open set; where there
/// is none, nothing changes.
pub open spec fn closed(
    old_conns: Seq<PeerConnection>,
    old_open: Seq<String>,
    new_conns: Seq<PeerConnection>,
    new_open: Seq<String>,
    a: Seq<char>,
) -> bool {
    &&& forall|k: int| 0 <= k < new_conns.len() ==> new_conns[k].address@ != a
    &&& (forall|k: int| 0 <= k < old_conns.len() ==> old_conns[k].address@ != a) ==> new_conns
        == old_conns && new_open == old_open
    &&& forall|k: int|
        0 <= k < old_conns.len() && old_conns[k].address@ == a ==> new_conns == old_conns.remove(k)
            && names(new_open) == match old_conns[k].public_address {
            Some(p) => names(old_open).remove(p@),
            None => names(old_open),
        }
}

/// The connections after marking the one on `a` as the peer listening at
/// `public`; where there is none, nothing changes.
pub open spec fn confirmed(
    old_conns: Seq<PeerConnection>,
    new_conns: Seq<PeerConnection>,
    a: Seq<char>,
    public: Seq<char>,
) -> bool {
    &&& (forall|k: int| 0 <= k < old_conns.len() ==> old_conns[k].address@ != a) ==> new_conns
        == old_conns
    &&& forall|k: int|
        0 <= k < old_conns.len() && old_conns[k].address@ == a ==> new_conns.len()
            == old_conns.len() && new_conns[k].address == old_conns[k].address
            && new_conns[k].public_address is Some && new_conns[k].public_address->0@ == public
            && forall|m: int|
            0 <= m < old_conns.len() && m != k ==> new_conns[m] == old_conns[m]
}

/// The views of a list of strings.
pub open spec fn string_views(s: Seq<String>) -> Seq<Seq<char>> {
    s.map_values(|x: String| x@)
}

/// What became of an announced listening address.
pub enum Admission {
    /// Another connection already has this peer: the new one was closed.
    Duplicate,
    /// The peer was admitted; its address goes on to these connections.
    Accepted(Vec<String>),
}

/// The connections that an admission forwards the new address to.
pub open spec fn forwarded(r: Admission) -> Seq<String> {
    match r {
        Admission::Accepted(v) => v@,
        Admission::Duplicate => Seq::empty(),
    }
}

/// Whether a string is in a list.
pub fn contains_string(s: &Vec<String>, x: &String) -> (r: bool)
    ensures
        r == names(s@).contains(x@),
{
    let mut i: usize = 0;
    while i < s.len()
        invariant
            0 <= i <= s@.len(),
            forall|k: int| 0 <= k < i ==> s@[k]@ != x@,
        decreases s@.len() - i,
    {
        if s[i] == *x {
            assert(names(s@).contains(x@)) by {
                assert(s@[i as int]@ == x@);
            }
            return true;
        }
        i = i + 1;
    }
    false
}

/// Adds a string to a list of distinct strings; `false` where it was there.
pub fn insert_string(s: &mut Vec<String>, x: String) -> (r: bool)
    requires
        distinct(old(s)@),
    ensures
        distinct(final(s)@),
        r == !names(old(s)@).contains(x@),
        names(final(s)@) == names(old(s)@).insert(x@),
{
    if contains_string(s, &x) {
        assert(names(s@) =~= names(s@).insert(x@));
        return false;
    }
    let ghost before = s@;
    s.push(x);
    assert(names(s@) =~= names(before).insert(x@)) by {
        assert forall|y: Seq<char>| names(s@).contains(y) implies names(before).insert(y).contains(
            y,
        ) && (y == x@ || names(before).contains(y)) by {
            let i = choose|i: int| 0 <= i < s@.len() && s@[i]@ == y;
            if i < before.len() {
                assert(before[i]@ == y);
            }
        }
        assert forall|y: Seq<char>| names(before).contains(y) implies names(s@).contains(y) by {
            let i = choose|i: int| 0 <= i < before.len() && before[i]@ == y;
            assert(s@[i]@ == y);
        }
        assert(s@[before.len() as int]@ == x@);
    }
    true
}

/// Removes a string from a list of distinct strings.
pub fn remove_string(s: &mut Vec<String>, x: &String)
    requires
        distinct(old(s)@),
    ensures
        distinct(final(s)@),
        names(final(s)@) == names(old(s)@).remove(x@),
{
    let mut i: usize = 0;
    while i < s.len()
        invariant
            0 <= i <= s@.len(),
            s@ == old(s)@,
            distinct(s@),
            forall|k: int| 0 <= k < i ==> s@[k]@ != x@,
        decreases s@.len() - i,
    {
        if s[i] == *x {
            let ghost before = s@;
            s.remove(i);
            assert(before[i as int]@ == x@);
            assert forall|a: int, b: int| 0 <= a < b < s@.len() implies s@[a]@ != s@[b]@ by {
                let a2 = if a < i { a } else { a + 1 };
                let b2 = if b < i { b } else { b + 1 };
                assert(s@[a] == before[a2] && s@[b] == before[b2]);
            }
            assert(names(s@) =~= names(before).remove(x@)) by {
                assert forall|y: Seq<char>| names(s@).contains(y) implies names(before).remove(
                    x@,
                ).contains(y) by {
                    let k = choose|k: int| 0 <= k < s@.len() && s@[k]@ == y;
                    if k < i {
                        assert(before[k]@ == y);
                        assert(y != x@);
                    } else {
                        assert(before[k + 1]@ == y);
                        assert(y != x@);
                    }
                }
                assert forall|y: Seq<char>| names(before).remove(x@).contains(y) implies names(
                    s@,
                ).contains(y) by {
                    let k = choose|k: int| 0 <= k < before.len() && before[k]@ == y;
                    if k < i {
                        assert(s@[k]@ == y);
                    } else {
                        assert(k != i);
                        assert(s@[k - 1]@ == y);
                    }
                }
            }
            return;
        }
        i = i + 1;
    }
    assert(names(s@) =~= names(s@).remove(x@));
}

/// The registry of one node: its port, the nodes it knows of, the
/// listening addresses of the peers it is connected to, and its connections.
pub struct ConnectionManager {
    pub port: u16,
    pub known_nodes: Vec<String>,
    pub open_connections: Vec<String>,
    pub connections: Vec<PeerConnection>,
}

impl ConnectionManager {
    /// The sets are free of repeats.
    pub open spec fn wf(&self) -> bool {
        distinct(self.known_nodes@) && distinct(self.open_connections@) && distinct_connections(
            self.connections@,
        )
    }

    /// An empty registry for a node listening on `port`.
    pub fn new(port: u16) -> (r: ConnectionManager)
        ensures
            r.wf(),
            r.port == port,
            r.known_nodes@.len() == 0,
            r.open_connections@.len() == 0,
            r.connections@.len() == 0,
    {
        ConnectionManager {
            port,
            known_nodes: Vec::new(),
            open_connections: Vec::new(),
            connections: Vec::new(),
        }
    }

    /// The connections that a packet for every confirmed peer but `except`
    /// goes to.
    pub fn confirmed_peers_except(&self, except: Option<&String>) -> (r: Vec<String>)
        ensures
            string_views(r@) == confirmed_except(
                self.connections@,
                match except {
                    Some(e) => Some(e@),
                    None => None,
                },
            ),
    {
        let ghost ex = match except {
            Some(e) => Some(e@),
            None => None::<Seq<char>>,
        };
        let mut out: Vec<String> = Vec::new();
        let mut i: usize = 0;
        while i < self.connections.len()
            invariant
                0 <= i <= self.connections@.len(),
                ex == match except {
                    Some(e) => Some(e@),
                    None => None,
                },
                string_views(out@) == confirmed_except(self.connections@.take(i as int), ex),
            decreases self.connections@.len() - i,
        {
            let c = &self.connections[i];
            assert(self.connections@.take(i + 1).drop_last() =~= self.connections@.take(i as int));
            let excluded = match except {
                Some(e) => c.address == *e,
                None => false,
            };
            let ghost before = out@;
            if c.public_address.is_some() && !excluded {
                out.push(c.address.clone());
                assert(string_views(out@) =~= string_views(before).push(c.address@));
            }
            i = i + 1;
        }
        assert(self.connections@.take(self.connections@.len() as int) =~= self.connections@);
        out
    }

    /// The connections that a packet for every confirmed peer goes to.
    pub fn send(&self) -> (r: Vec<String>)
        ensures
            string_views(r@) == confirmed_except(self.connections@, None),
    {
        self.confirmed_peers_except(None)
    }

    /// Records a connection made on `address`, not yet confirmed; an
    /// earlier connection on the same address is replaced.
    pub fn add_client(&mut self, address: String)
        requires
            old(self).wf(),
        ensures
            final(self).wf(),
            final(self).known_nodes@ == old(self).known_nodes@,
            final(self).open_connections@ == old(self).open_connections@,
            final(self).connections@.len() >= 1,
            final(self).connections@.last().address@ == address@,
            final(self).connections@.last().public_address is None,
    {
        self.drop_connection(&address);
        let ghost before = self.connections@;
        self.connections.push(PeerConnection { address, public_address: None });
        assert forall|i: int, j: int| 0 <= i < j < self.connections@.len() implies self.connections@[i].address@
            != self.connections@[j].address@ by {
            if j == before.len() {
                assert(before[i] == self.connections@[i]);
            }
        }
    }

    /// Forgets the connection on `address`, if any, and returns it.
    fn drop_connection(&mut self, address: &String) -> (r: Option<PeerConnection>)
        requires
            distinct_connections(old(self).connections@),
        ensures
            final(self).port == old(self).port,
            final(self).known_nodes@ == old(self).known_nodes@,
            final(self).open_connections@ == old(self).open_connections@,
            distinct_connections(final(self).connections@),
            forall|k: int|
                0 <= k < final(self).connections@.len() ==> final(self).connections@[k].address@
                    != address@,
            r is None ==> final(self).connections@ == old(self).connections@ && forall|k: int|
                0 <= k < old(self).connections@.len() ==> old(self).connections@[k].address@
                    != address@,
            r is Some ==> exists|k: int|
                0 <= k < old(self).connections@.len() && old(self).connections@[k] == r->0
                    && r->0.address@ == address@ && final(self).connections@ == old(
                    self,
                ).connections@.remove(k),
    {
        let mut i: usize = 0;
        while i < self.connections.len()
            invariant
                0 <= i <= self.connections@.len(),
                self.port == old(self).port,
                self.known_nodes@ == old(self).known_nodes@,
                self.open_connections@ == old(self).open_connections@,
                self.connections@ == old(self).connections@,
                distinct_connections(self.connections@),
                forall|k: int| 0 <= k < i ==> self.connections@[k].address@ != address@,
            decreases self.connections@.len() - i,
        {
            if self.connections[i].address == *address {
                let ghost before = self.connections@;
                let c = self.connections.remove(i);
                proof {
                    assert forall|k: int| 0 <= k < self.connections@.len() implies self.connections@[k].address@
                        != address@ by {
                        assert(before[i as int].address@ == address@);
                        if k < i {
                            assert(self.connections@[k] == before[k]);
                        } else {
                            assert(self.connections@[k] == before[k + 1]);
                            assert(before[i as int].address@ != before[k + 1].address@);
                        }
                    }
                    assert forall|a: int, b: int| 0 <= a < b < self.connections@.len() implies self.connections@[a].address@
                        != self.connections@[b].address@ by {
                        let a2 = if a < i { a } else { a + 1 };
                        let b2 = if b < i { b } else { b + 1 };
                        assert(self.connections@[a] == before[a2] && self.connections@[b] == before[b2]);
                        assert(a2 < b2);
                        assert(before[a2].address@ != before[b2].address@);
                    }
                }
                return Some(c);
            }
            i = i + 1;
        }
        None
    }

    /// Closes the connection on `address`; its peer's listening address
    /// leaves the open set.
    pub fn disconnect_from(&mut self, address: &String)
        requires
            old(self).wf(),
        ensures
            final(self).wf(),
            final(self).known_nodes@ == old(self).known_nodes@,
            closed(
                old(self).connections@,
                old(self).open_connections@,
                final(self).connections@,
                final(self).open_connections@,
                address@,
            ),
    {
        let ghost old_conns = self.connections@;
        match self.drop_connection(address) {
            Some(c) => {
                proof {
                    let k = choose|k: int|
                        0 <= k < old_conns.len() && old_conns[k] == c && c.address@ == address@
                            && self.connections@ == old_conns.remove(k);
                    assert forall|m: int| 0 <= m < old_conns.len() && old_conns[m].address@ == address@ implies m == k by {
                        if m < k {
                            assert(old_conns[m].address@ != old_conns[k].address@);
                        } else if m > k {
                            assert(old_conns[k].address@ != old_conns[m].address@);
                        }
                    }
                }
                match c.public_address {
                    Some(public) => remove_string(&mut self.open_connections, &public),
                    None => {},
                }
            },
            None => {},
        }
    }

    /// Learns of a node. Where it is new and came from a peer, the address
    /// goes on to every other confirmed peer: those are returned.
    pub fn register_node(&mut self, address: &String, from: Option<&String>) -> (r: Vec<String>)
        requires
            old(self).wf(),
        ensures
            final(self).wf(),
            names(final(self).known_nodes@) == names(old(self).known_nodes@).insert(address@),
            final(self).open_connections@ == old(self).open_connections@,
            final(self).connections@ == old(self).connections@,
            !names(old(self).known_nodes@).contains(address@) && from is Some ==> string_views(r@)
                == confirmed_except(old(self).connections@, Some(from->0@)),
            names(old(self).known_nodes@).contains(address@) || from is None ==> r@.len() == 0,
    {
        let added = insert_string(&mut self.known_nodes, address.clone());
        match from {
            Some(origin) => {
                if added {
                    self.confirmed_peers_except(Some(origin))
                } else {
                    Vec::new()
                }
            },
            None => Vec::new(),
        }
    }

    /// Marks the connection on `address` as the peer listening at `public`.
    fn confirm_connection(&mut self, address: &String, public: &String)
        requires
            distinct_connections(old(self).connections@),
        ensures
            final(self).port == old(self).port,
            final(self).known_nodes@ == old(self).known_nodes@,
            final(self).open_connections@ == old(self).open_connections@,
            distinct_connections(final(self).connections@),
            confirmed(old(self).connections@, final(self).connections@, address@, public@),
    {
        let mut i: usize = 0;
        while i < self.connections.len()
            invariant
                0 <= i <= self.connections@.len(),
                self.port == old(self).port,
                self.known_nodes@ == old(self).known_nodes@,
                self.open_connections@ == old(self).open_connections@,
                self.connections@ == old(self).connections@,
                distinct_connections(self.connections@),
                forall|k: int| 0 <= k < i ==> self.connections@[k].address@ != address@,
            decreases self.connections@.len() - i,
        {
            if self.connections[i].address == *address {
                let ghost before = self.connections@;
                let c = self.connections.remove(i);
                let confirmed = PeerConnection { address: c.address, public_address: Some(public.clone()) };
                self.connections.insert(i, confirmed);
                proof {
                    assert(self.connections@ =~= before.update(i as int, confirmed));
                    assert forall|m: int| 0 <= m < before.len() && before[m].address@ == address@ implies m == i by {
                        if m > i {
                            assert(before[i as int].address@ != before[m].address@);
                        }
                    }
                    assert forall|a: int, b: int| 0 <= a < b < self.connections@.len() implies self.connections@[a].address@
                        != self.connections@[b].address@ by {
                        assert(self.connections@[a].address@ == before[a].address@);
                        assert(self.connections@[b].address@ == before[b].address@);
                        assert(before[a].address@ != before[b].address@);
                    }
                }
                return;
            }
            i = i + 1;
        }
    }

    /// A peer connected on `from` announced that it listens at `public`. The
    /// first connection to a listening address wins: a later one is closed.
    pub fn on_connected(&mut self, from: &String, public: &String) -> (r: Admission)
        requires
            old(self).wf(),
        ensures
            final(self).wf(),
            names(old(self).open_connections@).contains(public@) ==> r is Duplicate && closed(
                old(self).connections@,
                old(self).open_connections@,
                final(self).connections@,
                final(self).open_connections@,
                from@,
            ) && final(self).known_nodes@ == old(self).known_nodes@,
            !names(old(self).open_connections@).contains(public@) ==> {
                &&& r is Accepted
                &&& names(final(self).open_connections@) == names(
                    old(self).open_connections@,
                ).insert(public@)
                &&& names(final(self).known_nodes@) == names(old(self).known_nodes@).insert(public@)
                &&& confirmed(old(self).connections@, final(self).connections@, from@, public@)
                &&& !names(old(self).known_nodes@).contains(public@) ==> string_views(forwarded(r))
                    == confirmed_except(final(self).connections@, Some(from@))
                &&& names(old(self).known_nodes@).contains(public@) ==> forwarded(r).len() == 0
            },
    {
        if contains_string(&self.open_connections, public) {
            self.disconnect_from(from);
            return Admission::Duplicate;
        }
        insert_string(&mut self.open_connections, public.clone());
        self.confirm_connection(from, public);
        let forward = self.register_node(public, Some(from));
        Admission::Accepted(forward)
    }

    /// The known nodes to dial: those with no open connection, other than
    /// this node itself.
    pub fn nodes_to_dial(&self, own_address: &String) -> (r: Vec<String>)
        ensures
            forall|x: Seq<char>| names(r@).contains(x) <==> (names(self.known_nodes@).contains(x)
                && !names(self.open_connections@).contains(x) && x != own_address@),
    {
        let mut out: Vec<String> = Vec::new();
        let mut i: usize = 0;
        while i < self.known_nodes.len()
            invariant
                0 <= i <= self.known_nodes@.len(),
                forall|x: Seq<char>| names(out@).contains(x) <==> (exists|k: int|
                    0 <= k < i && self.known_nodes@[k]@ == x) && !names(
                    self.open_connections@,
                ).contains(x) && x != own_address@,
            decreases self.known_nodes@.len() - i,
        {
            let a = &self.known_nodes[i];
            let ghost before = out@;
            if !contains_string(&self.open_connections, a) && *a != *own_address {
                out.push(a.clone());
                assert forall|x: Seq<char>| names(out@).contains(x) <==> (exists|k: int|
                    0 <= k < i + 1 && self.known_nodes@[k]@ == x) && !names(
                    self.open_connections@,
                ).contains(x) && x != own_address@ by {
                    if names(out@).contains(x) {
                        let k = choose|k: int| 0 <= k < out@.len() && out@[k]@ == x;
                        if k < before.len() {
                            assert(names(before).contains(x));
                        }
                    }
                    if exists|k: int| 0 <= k < i + 1 && self.known_nodes@[k]@ == x {
                        let k = choose|k: int| 0 <= k < i + 1 && self.known_nodes@[k]@ == x;
                        if k < i {
                            if !names(self.open_connections@).contains(x) && x != own_address@ {
                                assert(exists|k: int| 0 <= k < i && self.known_nodes@[k]@ == x);
                                assert(names(before).contains(x));
                                let m = choose|m: int| 0 <= m < before.len() && before[m]@ == x;
                                assert(out@[m]@ == x);
                            }
                        } else {
                            assert(out@[before.len() as int]@ == x);
                        }
                    }
                }
            } else {
                assert forall|x: Seq<char>| names(out@).contains(x) <==> (exists|k: int|
                    0 <= k < i + 1 && self.known_nodes@[k]@ == x) && !names(
                    self.open_connections@,
                ).contains(x) && x != own_address@ by {
                    if exists|k: int| 0 <= k < i + 1 && self.known_nodes@[k]@ == x {
                        let k = choose|k: int| 0 <= k < i + 1 && self.known_nodes@[k]@ == x;
                        if k < i {
                            assert(exists|k: int| 0 <= k < i && self.known_nodes@[k]@ == x);
                        }
                    }
                }
            }
            i = i + 1;
        }
        out
    }
}

} // verus!
