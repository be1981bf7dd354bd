//! The server core: a single-threaded event dispatcher over the session
//! table, and the broadcast engine. The embedding program runs the
//! receiver and the two tickers, pushes their events into one queue,
//! and feeds them to `ServerCore::handle_event` one at a time; the
//! returned datagrams are what it must send. Serializing all mutation
//! and all sends through this one consumer is what keeps the table free
//! of concurrent mutation.

use vstd::prelude::*;

use crate::codec;
use crate::player::ClientAddr;
use crate::player::Player;
use crate::table::has_addr;
use crate::table::idx_of;
use crate::table::spec_connect;
use crate::table::spec_decay;
use crate::table::spec_update_position;
use crate::table::wf_sessions;
use crate::table::Session;
use crate::table::SessionTable;

verus! {

/// An internal event, produced by the receiver loop or one of the two
/// tickers and consumed by the dispatcher.
#[derive(Clone, Copy, PartialEq, Eq, Structural, Debug)]
pub enum Event {
    /// A decay tick, carrying the amount to subtract from every
    /// liveness counter.
    Tick(u32),
    /// A connect datagram arrived from the given address.
    NewConnection(ClientAddr),
    /// A position update arrived from the given address.
    UpdatePlayer(ClientAddr, Player),
    /// A broadcast tick: push the current snapshot to every live client.
    BroadcastPlayers,
}

/// One datagram the dispatcher asks the embedding program to send.
pub struct Outgoing {
    pub dest: ClientAddr,
    pub bytes: Vec<u8>,
}

/// The positions of every session except the one at index `i`: the
/// list carried by the broadcast to that session's address.
pub open spec fn others_of(s: Seq<Session>, i: int) -> Seq<Player> {
    s.map_values(|x: Session| x.pos).remove(i)
}

/// The broadcast to each live client excludes exactly that client's own
/// entry: in a table of `n` sessions the message built for the session
/// at index `i` lists `n - 1` positions, those of all other sessions,
/// in table order.
pub proof fn lemma_broadcast_excludes_self(s: Seq<Session>, i: int)
    requires
        0 <= i < s.len(),
    ensures
        others_of(s, i).len() == s.len() - 1,
        forall|j: int| 0 <= j < i ==> others_of(s, i)[j] == s[j].pos,
        forall|j: int| i <= j < s.len() - 1 ==> others_of(s, i)[j] == s[j + 1].pos,
{
    let ps = s.map_values(|x: Session| x.pos);
    ps.remove_ensures(i);
}

/// The server state: just the session table. The dispatcher itself is
/// stateless control logic reacting to events.
pub struct ServerCore {
    table: SessionTable,
}

impl View for ServerCore {
    type V = Seq<Session>;

    closed spec fn view(&self) -> Seq<Session> {
        self.table@
    }
}

impl ServerCore {
    /// Well-formedness of the underlying session table.
    pub open spec fn wf(&self) -> bool {
        wf_sessions(self@)
    }

    /// A server with no live sessions.
    pub fn new() -> (c: ServerCore)
        ensures
            c@ == Seq::<Session>::empty(),
            c.wf(),
    {
        ServerCore { table: SessionTable::new() }
    }

    /// Number of live sessions.
    pub fn len(&self) -> (n: usize)
        ensures
            n == self@.len(),
    {
        self.table.len()
    }

    /// True when a session for `addr` is live.
    pub fn contains(&self, addr: ClientAddr) -> (r: bool)
        ensures
            r == has_addr(self@, addr),
    {
        self.table.contains(addr)
    }

    /// The remaining liveness of the session for `addr`, if one is live.
    pub fn liveness_of(&self, addr: ClientAddr) -> (r: Option<u32>)
        requires
            self.wf(),
        ensures
            match r {
                Some(v) => has_addr(self@, addr) && v == self@[idx_of(self@, addr)].liveness,
                None => !has_addr(self@, addr),
            },
    {
        self.table.liveness_of(addr)
    }

    /// The stored position of the session for `addr`, if one is live.
    pub fn position_of(&self, addr: ClientAddr) -> (r: Option<Player>)
        requires
            self.wf(),
        ensures
            match r {
                Some(p) => has_addr(self@, addr) && p == self@[idx_of(self@, addr)].pos,
                None => !has_addr(self@, addr),
            },
    {
        self.table.position_of(addr)
    }

    /// Builds the broadcast: one datagram per live session, addressed
    /// to that session and carrying the positions of all the others in
    /// table order. An empty list is still sent: the absence of other
    /// players is itself meaningful state.
    fn broadcast(&self) -> (out: Vec<Outgoing>)
        ensures
            out@.len() == self@.len(),
            forall|i: int|
                0 <= i < out@.len() ==> (#[trigger] out@[i]).dest == self@[i].addr
                    && out@[i].bytes@ == codec::players_msg(others_of(self@, i)),
    {
        let snap = self.table.snapshot();
        let ghost pos_seq = self@.map_values(|x: Session| x.pos);
        let n = snap.len();
        let mut out: Vec<Outgoing> = Vec::new();
        let mut i: usize = 0;
        while i < n
            invariant
                0 <= i <= n,
                n == self@.len(),
                snap@ == self@.map_values(|s: Session| (s.addr, s.pos)),
                pos_seq == self@.map_values(|x: Session| x.pos),
                out@.len() == i,
                forall|k: int|
                    0 <= k < i ==> (#[trigger] out@[k]).dest == self@[k].addr && out@[k].bytes@
                        == codec::players_msg(others_of(self@, k)),
            decreases n - i,
        {
            let mut ps: Vec<Player> = Vec::new();
            proof {
                assert(ps@ =~= pos_seq.take(0));
            }
            let mut j: usize = 0;
            while j < n
                invariant
                    0 <= j <= n,
                    0 <= i < n,
                    n == self@.len(),
                    snap@ == self@.map_values(|s: Session| (s.addr, s.pos)),
                    pos_seq == self@.map_values(|x: Session| x.pos),
                    j <= i ==> ps@ == pos_seq.take(j as int),
                    j > i ==> ps@ == pos_seq.take(j as int).remove(i as int),
                decreases n - j,
            {
                if j != i {
                    ps.push(snap[j].1);
                    proof {
                        assert(snap@[j as int].1 == pos_seq[j as int]);
                        if j < i {
                            assert(ps@ =~= pos_seq.take(j + 1));
                        } else {
                            assert(ps@ =~= pos_seq.take(j + 1).remove(i as int));
                        }
                    }
                } else {
                    proof {
                        assert(pos_seq.take(i + 1).remove(i as int) =~= pos_seq.take(i as int));
                    }
                }
                j = j + 1;
            }
            proof {
                assert(pos_seq.take(n as int) =~= pos_seq);
                assert(ps@ == others_of(self@, i as int));
            }
            let bytes = codec::encode_players_msg(&ps);
            let dest = snap[i].0;
            proof {
                assert(snap@[i as int].0 == self@[i as int].addr);
            }
            out.push(Outgoing { dest, bytes });
            i = i + 1;
        }
        out
    }

    /// Dispatches one event. A tick decays the table, a connect inserts
    /// or resets a session, an update overwrites a live session's
    /// position, and a broadcast tick returns the datagrams to send;
    /// only the broadcast produces output.
    pub fn handle_event(&mut self, ev: Event) -> (out: Vec<Outgoing>)
        requires
            old(self).wf(),
        ensures
            final(self).wf(),
            match ev {
                Event::Tick(amount) => {
                    &&& final(self)@ == spec_decay(old(self)@, amount)
                    &&& out@.len() == 0
                },
                Event::NewConnection(a) => {
                    &&& final(self)@ == spec_connect(old(self)@, a)
                    &&& out@.len() == 0
                },
                Event::UpdatePlayer(a, p) => {
                    &&& final(self)@ == spec_update_position(old(self)@, a, p)
                    &&& out@.len() == 0
                },
                Event::BroadcastPlayers => {
                    &&& final(self)@ == old(self)@
                    &&& out@.len() == old(self)@.len()
                    &&& forall|i: int|
                        0 <= i < out@.len() ==> (#[trigger] out@[i]).dest == old(self)@[i].addr
                            && out@[i].bytes@ == codec::players_msg(others_of(old(self)@, i))
                },
            },
    {
        match ev {
            Event::Tick(amount) => {
                self.table.decay(amount);
                Vec::new()
            },
            Event::NewConnection(a) => {
                self.table.connect(a);
                Vec::new()
            },
            Event::UpdatePlayer(a, p) => {
                self.table.update_position(a, p);
                Vec::new()
            },
            Event::BroadcastPlayers => self.broadcast(),
        }
    }

    /// An immutable copy of all live (address, position) pairs.
    pub fn snapshot(&self) -> (r: Vec<(ClientAddr, Player)>)
        ensures
            r@ == self@.map_values(|s: Session| (s.addr, s.pos)),
    {
        self.table.snapshot()
    }
}

/// Classifies one inbound datagram from `src` as the event the receiver
/// loop emits for it: a connect token becomes a connection event, a
/// position record becomes an update event, and anything else is
/// dropped without response.
pub fn datagram_event(src: ClientAddr, buf: &[u8]) -> (r: Option<Event>)
    ensures
        match r {
            Some(ev) => match ev {
                Event::NewConnection(a) => a == src && buf@ == codec::connect_bytes(),
                Event::UpdatePlayer(a, p) => a == src && buf@ == codec::record_bytes(p),
                _ => false,
            },
            None => buf@ != codec::connect_bytes() && forall|p: Player|
                buf@ != codec::record_bytes(p),
        },
{
    match codec::parse_datagram(buf) {
        codec::Inbound::Connect => Some(Event::NewConnection(src)),
        codec::Inbound::Update(p) => Some(Event::UpdatePlayer(src, p)),
        codec::Inbound::Malformed => None,
    }
}

} // verus!
