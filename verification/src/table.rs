//! The session table: the authoritative set of live sessions, keyed by
//! client address. A connect resets a session to full liveness and the
//! origin position; position updates overwrite the stored position of
//! an existing session (an update from an unknown address is a no-op:
//! a session is created only by an explicit connect); the decay pass
//! lowers every liveness counter and evicts sessions whose counter is
//! exhausted. A well-formed table never holds two sessions for one
//! address, and never holds a session without remaining liveness.

use vstd::prelude::*;

use crate::player::ClientAddr;
use crate::player::Player;

verus! {

/// Liveness granted when a client connects, in decay units. With the decay tick
/// removing one unit per second this yields a sixty-second window.
pub const PLAYER_LIFETIME: u32 = 60;

/// One live client: its address, its remaining liveness, and the last
/// position it reported.
#[derive(Clone, Copy, PartialEq, Eq, Structural, Debug)]
pub struct Session {
    pub addr: ClientAddr,
    pub liveness: u32,
    pub pos: Player,
}

/// The session a client holds right after its connect is accepted: full liveness,
/// position at the origin.
pub open spec fn fresh_session(a: ClientAddr) -> Session {
    Session { addr: a, liveness: PLAYER_LIFETIME as u32, pos: Player::spec_origin() }
}

/// Some session in `s` has address `a`.
pub open spec fn has_addr(s: Seq<Session>, a: ClientAddr) -> bool {
    exists|i: int| 0 <= i < s.len() && (#[trigger] s[i]).addr == a
}

/// The index of the session with address `a`; unique when the table is
/// well-formed.
pub open spec fn idx_of(s: Seq<Session>, a: ClientAddr) -> int {
    choose|i: int| 0 <= i < s.len() && (#[trigger] s[i]).addr == a
}

/// Well-formedness: addresses are pairwise distinct and every session
/// has liveness left. The decay pass evicts a session in the same pass
/// that exhausts its counter, so a counter of zero is never stored.
pub open spec fn wf_sessions(s: Seq<Session>) -> bool {
    &&& forall|i: int, j: int|
        0 <= i < j < s.len() ==> (#[trigger] s[i]).addr != (#[trigger] s[j]).addr
    &&& forall|i: int| 0 <= i < s.len() ==> (#[trigger] s[i]).liveness >= 1
}

/// Connect: reset the existing session for `a`, or append a fresh one.
pub open spec fn spec_connect(s: Seq<Session>, a: ClientAddr) -> Seq<Session> {
    if has_addr(s, a) {
        s.update(idx_of(s, a), fresh_session(a))
    } else {
        s.push(fresh_session(a))
    }
}

/// Position update: overwrite the position of the session for `a`,
/// leaving its liveness alone; no session, no change.
pub open spec fn spec_update_position(s: Seq<Session>, a: ClientAddr, p: Player) -> Seq<Session> {
    if has_addr(s, a) {
        let i = idx_of(s, a);
        s.update(i, Session { addr: a, liveness: s[i].liveness, pos: p })
    } else {
        s
    }
}

/// Decay: subtract `amount` from every liveness counter, evicting the
/// sessions whose counter does not survive it, in order.
pub open spec fn spec_decay(s: Seq<Session>, amount: u32) -> Seq<Session>
    decreases s.len(),
{
    if s.len() == 0 {
        Seq::empty()
    } else {
        let rest = spec_decay(s.drop_last(), amount);
        let t = s.last();
        if t.liveness > amount {
            rest.push(Session { addr: t.addr, liveness: (t.liveness - amount) as u32, pos: t.pos })
        } else {
            rest
        }
    }
}

/// In a well-formed table the index of an address is the only index
/// holding it.
pub proof fn lemma_idx_of_unique(s: Seq<Session>, a: ClientAddr, i: int)
    requires
        wf_sessions(s),
        0 <= i < s.len(),
        s[i].addr == a,
    ensures
        has_addr(s, a),
        idx_of(s, a) == i,
{
    assert(has_addr(s, a));
    let j = idx_of(s, a);
    assert(0 <= j < s.len() && s[j].addr == a);
    if i < j {
        assert(s[i].addr != s[j].addr);
    } else if j < i {
        assert(s[j].addr != s[i].addr);
    }
}

/// A connect keeps the table well-formed and leaves exactly one fresh
/// session for the connected address; all other sessions are untouched.
pub proof fn lemma_connect_props(s: Seq<Session>, a: ClientAddr)
    requires
        wf_sessions(s),
    ensures
        wf_sessions(spec_connect(s, a)),
        has_addr(spec_connect(s, a), a),
        spec_connect(s, a)[idx_of(spec_connect(s, a), a)] == fresh_session(a),
        forall|b: ClientAddr| #[trigger] has_addr(spec_connect(s, a), b) <==> (has_addr(s, b) || b
            == a),
{
    let s1 = spec_connect(s, a);
    if has_addr(s, a) {
        let i = idx_of(s, a);
        assert(0 <= i < s.len() && s[i].addr == a);
        assert(s1 == s.update(i, fresh_session(a)));
        assert(wf_sessions(s1));
        lemma_idx_of_unique(s1, a, i);
        assert forall|b: ClientAddr| #[trigger] has_addr(s1, b) implies (has_addr(s, b) || b
            == a) by {
            let k = choose|k: int| 0 <= k < s1.len() && (#[trigger] s1[k]).addr == b;
            if k != i {
                assert(s[k].addr == b);
            }
        }
        assert forall|b: ClientAddr| has_addr(s, b) || b == a implies #[trigger] has_addr(
            s1,
            b,
        ) by {
            if b == a {
                assert(s1[i].addr == a);
            } else {
                let k = choose|k: int| 0 <= k < s.len() && (#[trigger] s[k]).addr == b;
                assert(s1[k].addr == b);
            }
        }
    } else {
        assert(s1 == s.push(fresh_session(a)));
        let n = s.len() as int;
        assert(s1[n] == fresh_session(a));
        assert forall|i: int, j: int|
            0 <= i < j < s1.len() implies (#[trigger] s1[i]).addr != (#[trigger] s1[j]).addr by {
            if j < n {
                assert(s1[i] == s[i] && s1[j] == s[j]);
            } else {
                assert(s1[i] == s[i]);
                if s[i].addr == a {
                    assert(has_addr(s, a));
                }
            }
        }
        lemma_idx_of_unique(s1, a, n);
        assert forall|b: ClientAddr| #[trigger] has_addr(s1, b) implies (has_addr(s, b) || b
            == a) by {
            let k = choose|k: int| 0 <= k < s1.len() && (#[trigger] s1[k]).addr == b;
            if k < n {
                assert(s[k].addr == b);
            }
        }
        assert forall|b: ClientAddr| has_addr(s, b) || b == a implies #[trigger] has_addr(
            s1,
            b,
        ) by {
            if b == a {
                assert(s1[n].addr == a);
            } else {
                let k = choose|k: int| 0 <= k < s.len() && (#[trigger] s[k]).addr == b;
                assert(s1[k].addr == b);
            }
        }
    }
}

/// A position update keeps the table well-formed, changes no membership
/// and no liveness, and stores the new position for the updated address.
pub proof fn lemma_update_position_props(s: Seq<Session>, a: ClientAddr, p: Player)
    requires
        wf_sessions(s),
    ensures
        wf_sessions(spec_update_position(s, a, p)),
        spec_update_position(s, a, p).len() == s.len(),
        forall|k: int|
            0 <= k < s.len() ==> (#[trigger] spec_update_position(s, a, p)[k]).addr == s[k].addr
                && spec_update_position(s, a, p)[k].liveness == s[k].liveness,
        forall|k: int|
            0 <= k < s.len() && s[k].addr != a ==> #[trigger] spec_update_position(s, a, p)[k]
                == s[k],
        has_addr(s, a) ==> spec_update_position(s, a, p)[idx_of(s, a)].pos == p,
{
    if has_addr(s, a) {
        let i = idx_of(s, a);
        assert(0 <= i < s.len() && s[i].addr == a);
        assert forall|k: int| 0 <= k < s.len() && s[k].addr != a implies #[trigger] spec_update_position(
            s,
            a,
            p,
        )[k] == s[k] by {
            assert(k != i);
        }
    }
}

/// Everything the decay pass guarantees: the result is well-formed, an
/// address survives exactly when its liveness exceeded the decay
/// amount, and a surviving session keeps its position while its
/// liveness drops by exactly the decay amount.
pub proof fn lemma_decay_props(s: Seq<Session>, amount: u32)
    requires
        wf_sessions(s),
    ensures
        wf_sessions(spec_decay(s, amount)),
        forall|a: ClientAddr| #[trigger] has_addr(spec_decay(s, amount), a) <==> (has_addr(s, a)
            && s[idx_of(s, a)].liveness > amount),
        forall|a: ClientAddr| #[trigger] has_addr(spec_decay(s, amount), a) ==> {
            let d = spec_decay(s, amount);
            &&& d[idx_of(d, a)].liveness == s[idx_of(s, a)].liveness - amount
            &&& d[idx_of(d, a)].pos == s[idx_of(s, a)].pos
        },
    decreases s.len(),
{
    let d = spec_decay(s, amount);
    if s.len() == 0 {
        assert forall|a: ClientAddr| !(#[trigger] has_addr(d, a)) by {
            if has_addr(d, a) {
                let k = choose|k: int| 0 <= k < d.len() && (#[trigger] d[k]).addr == a;
            }
        }
    } else {
        let u = s.drop_last();
        let t = s.last();
        assert(wf_sessions(u)) by {
            assert(forall|i: int| 0 <= i < u.len() ==> u[i] == s[i]);
        }
        lemma_decay_props(u, amount);
        let du = spec_decay(u, amount);
        assert(!has_addr(u, t.addr)) by {
            if has_addr(u, t.addr) {
                let k = idx_of(u, t.addr);
                assert(s[k].addr == s[s.len() - 1].addr);
            }
        }
        assert(!has_addr(du, t.addr));
        // relate membership and indexes in s to membership in u
        assert forall|a: ClientAddr|
            a != t.addr && #[trigger] has_addr(s, a) implies has_addr(u, a) && idx_of(s, a)
            == idx_of(u, a) && u[idx_of(u, a)] == s[idx_of(s, a)] by {
            let k = idx_of(s, a);
            assert(0 <= k < s.len() && s[k].addr == a);
            assert(k < u.len());
            assert(u[k].addr == a);
            lemma_idx_of_unique(u, a, k);
        }
        assert forall|a: ClientAddr| a != t.addr && #[trigger] has_addr(u, a) implies has_addr(
            s,
            a,
        ) && idx_of(s, a) == idx_of(u, a) by {
            let k = idx_of(u, a);
            assert(s[k].addr == a);
            lemma_idx_of_unique(s, a, k);
        }
        lemma_idx_of_unique(s, t.addr, s.len() - 1);
        if t.liveness > amount {
            let td = Session {
                addr: t.addr,
                liveness: (t.liveness - amount) as u32,
                pos: t.pos,
            };
            assert(d == du.push(td));
            assert(wf_sessions(d)) by {
                assert forall|i: int, j: int|
                    0 <= i < j < d.len() implies (#[trigger] d[i]).addr != (
                    #[trigger] d[j]).addr by {
                    if j < du.len() {
                        assert(d[i] == du[i] && d[j] == du[j]);
                    } else {
                        assert(d[i] == du[i]);
                        if du[i].addr == t.addr {
                            assert(has_addr(du, t.addr));
                        }
                    }
                }
                assert forall|i: int| 0 <= i < d.len() implies (#[trigger] d[i]).liveness
                    >= 1 by {
                    if i < du.len() {
                        assert(d[i] == du[i]);
                    }
                }
            }
            lemma_idx_of_unique(d, t.addr, du.len() as int);
            assert forall|a: ClientAddr| #[trigger] has_addr(d, a) implies (has_addr(s, a) && s[idx_of(s, a)].liveness > amount) by {
                let k = choose|k: int| 0 <= k < d.len() && (#[trigger] d[k]).addr == a;
                if k < du.len() {
                    assert(du[k].addr == a);
                    assert(has_addr(du, a));
                } else {
                    assert(d[k] == td);
                }
            }
            assert forall|a: ClientAddr|
                has_addr(s, a) && s[idx_of(s, a)].liveness > amount implies #[trigger] has_addr(
                d,
                a,
            ) by {
                if a == t.addr {
                    assert(d[du.len() as int].addr == a);
                } else {
                    assert(has_addr(du, a));
                    let k = idx_of(du, a);
                    assert(d[k].addr == a);
                }
            }
            assert forall|a: ClientAddr| #[trigger] has_addr(d, a) implies d[idx_of(d, a)].liveness == s[idx_of(s, a)].liveness - amount && d[idx_of(d, a)].pos == s[idx_of(s, a)].pos by {
                if a == t.addr {
                    assert(idx_of(d, a) == du.len() as int);
                } else {
                    assert(has_addr(du, a));
                    let k = idx_of(du, a);
                    assert(d[k].addr == a);
                    lemma_idx_of_unique(d, a, k);
                    assert(d[k] == du[k]);
                }
            }
        } else {
            assert(d == du);
            assert forall|a: ClientAddr| #[trigger] has_addr(d, a) implies (has_addr(s, a) && s[idx_of(s, a)].liveness > amount) by {
                assert(has_addr(du, a));
                if a == t.addr {
                    assert(false);
                }
            }
            assert forall|a: ClientAddr|
                has_addr(s, a) && s[idx_of(s, a)].liveness > amount implies #[trigger] has_addr(
                d,
                a,
            ) by {
                if a == t.addr {
                    assert(s[idx_of(s, a)].liveness <= amount);
                } else {
                    assert(has_addr(u, a) && u[idx_of(u, a)].liveness > amount);
                }
            }
            assert forall|a: ClientAddr| #[trigger] has_addr(d, a) implies d[idx_of(d, a)].liveness == s[idx_of(s, a)].liveness - amount && d[idx_of(d, a)].pos == s[idx_of(s, a)].pos by {
                assert(a != t.addr);
                assert(has_addr(u, a));
            }
        }
    }
}

/// The session table. All mutation preserves well-formedness; the
/// contracts state each operation's effect over the table's view.
pub struct SessionTable {
    sessions: Vec<Session>,
}

impl View for SessionTable {
    type V = Seq<Session>;

    closed spec fn view(&self) -> Seq<Session> {
        self.sessions@
    }
}

impl SessionTable {
    /// Well-formedness of the table: distinct addresses, positive liveness.
    pub open spec fn wf(&self) -> bool {
        wf_sessions(self@)
    }

    /// An empty table.
    pub fn new() -> (t: SessionTable)
        ensures
            t@ == Seq::<Session>::empty(),
            t.wf(),
    {
        SessionTable { sessions: Vec::new() }
    }

    /// Number of live sessions.
    pub fn len(&self) -> (n: usize)
        ensures
            n == self@.len(),
    {
        self.sessions.len()
    }

    /// The index of the session for `addr`, if one is live.
    fn find(&self, addr: ClientAddr) -> (r: Option<usize>)
        ensures
            match r {
                Some(i) => 0 <= i < self@.len() && self@[i as int].addr == addr,
                None => !has_addr(self@, addr),
            },
    {
        let n = self.sessions.len();
        let mut i: usize = 0;
        while i < n
            invariant
                0 <= i <= n,
                n == self@.len(),
                forall|k: int| 0 <= k < i ==> (#[trigger] self@[k]).addr != addr,
            decreases n - i,
        {
            let s = self.sessions[i];
            if s.addr.ip == addr.ip && s.addr.port == addr.port {
                return Some(i);
            }
            i = i + 1;
        }
        None
    }

    /// True when a session for `addr` is live.
    pub fn contains(&self, addr: ClientAddr) -> (r: bool)
        ensures
            r == has_addr(self@, addr),
    {
        self.find(addr).is_some()
    }

    /// The remaining liveness of the session for `addr`, if one is live.
    pub fn liveness_of(&self, addr: ClientAddr) -> (r: Option<u32>)
        requires
            self.wf(),
        ensures
            match r {
                Some(v) => has_addr(self@, addr) && v == self@[idx_of(self@, addr)].liveness,
                None => !has_addr(self@, addr),
            },
    {
        match self.find(addr) {
            Some(i) => {
                proof {
                    lemma_idx_of_unique(self@, addr, i as int);
                }
                Some(self.sessions[i].liveness)
            },
            None => None,
        }
    }

    /// The stored position of the session for `addr`, if one is live.
    pub fn position_of(&self, addr: ClientAddr) -> (r: Option<Player>)
        requires
            self.wf(),
        ensures
            match r {
                Some(p) => has_addr(self@, addr) && p == self@[idx_of(self@, addr)].pos,
                None => !has_addr(self@, addr),
            },
    {
        match self.find(addr) {
            Some(i) => {
                proof {
                    lemma_idx_of_unique(self@, addr, i as int);
                }
                Some(self.sessions[i].pos)
            },
            None => None,
        }
    }

    /// Connects `addr`: inserts or resets its session with full liveness
    /// and the origin position. Idempotent; never fails.
    pub fn connect(&mut self, addr: ClientAddr)
        requires
            old(self).wf(),
        ensures
            final(self).wf(),
            final(self)@ == spec_connect(old(self)@, addr),
    {
        let fresh = Session { addr, liveness: PLAYER_LIFETIME, pos: Player::origin() };
        match self.find(addr) {
            Some(i) => {
                proof {
                    lemma_idx_of_unique(self@, addr, i as int);
                }
                self.sessions.set(i, fresh);
            },
            None => {
                self.sessions.push(fresh);
            },
        }
        proof {
            lemma_connect_props(old(self)@, addr);
        }
    }

    /// Overwrites the stored position for `addr` if a session is live;
    /// an update from an unknown address changes nothing. Liveness is
    /// not refreshed: only a connect message resets it.
    pub fn update_position(&mut self, addr: ClientAddr, pos: Player)
        requires
            old(self).wf(),
        ensures
            final(self).wf(),
            final(self)@ == spec_update_position(old(self)@, addr, pos),
    {
        match self.find(addr) {
            Some(i) => {
                proof {
                    lemma_idx_of_unique(self@, addr, i as int);
                }
                let liveness = self.sessions[i].liveness;
                self.sessions.set(i, Session { addr, liveness, pos });
            },
            None => {},
        }
        proof {
            lemma_update_position_props(old(self)@, addr, pos);
        }
    }

    /// One decay pass: subtracts `amount` from every liveness counter
    /// and evicts, in the same pass, every session whose counter does
    /// not survive it.
    pub fn decay(&mut self, amount: u32)
        requires
            old(self).wf(),
        ensures
            final(self).wf(),
            final(self)@ == spec_decay(old(self)@, amount),
    {
        let n = self.sessions.len();
        let mut out: Vec<Session> = Vec::new();
        proof {
            assert(self@.take(0) =~= Seq::<Session>::empty());
        }
        let mut i: usize = 0;
        while i < n
            invariant
                0 <= i <= n,
                n == self@.len(),
                self@ == old(self)@,
                out@ == spec_decay(self@.take(i as int), amount),
            decreases n - i,
        {
            let s = self.sessions[i];
            proof {
                assert(self@.take(i + 1).drop_last() =~= self@.take(i as int));
                assert(self@.take(i + 1).last() == self@[i as int]);
            }
            if s.liveness > amount {
                out.push(Session { addr: s.addr, liveness: s.liveness - amount, pos: s.pos });
            }
            i = i + 1;
        }
        proof {
            assert(self@.take(n as int) =~= self@);
        }
        self.sessions = out;
        proof {
            lemma_decay_props(old(self)@, amount);
        }
    }

    /// An immutable copy of all live (address, position) pairs, in
    /// table order, for the broadcast engine.
    pub fn snapshot(&self) -> (r: Vec<(ClientAddr, Player)>)
        ensures
            r@ == self@.map_values(|s: Session| (s.addr, s.pos)),
    {
        let n = self.sessions.len();
        let mut out: Vec<(ClientAddr, Player)> = Vec::new();
        proof {
            assert(out@ =~= self@.take(0).map_values(|s: Session| (s.addr, s.pos)));
        }
        let mut i: usize = 0;
        while i < n
            invariant
                0 <= i <= n,
                n == self@.len(),
                out@ == self@.take(i as int).map_values(|s: Session| (s.addr, s.pos)),
            decreases n - i,
        {
            let s = self.sessions[i];
            out.push((s.addr, s.pos));
            proof {
                assert(out@ =~= self@.take(i + 1).map_values(|s: Session| (s.addr, s.pos)));
            }
            i = i + 1;
        }
        proof {
            assert(self@.take(n as int) =~= self@);
        }
        out
    }
}

/// Liveness counters are never negative and a well-formed table never
/// holds a session whose counter is exhausted: every stored counter is
/// at least one, and every operation of the table preserves this.
pub proof fn lemma_liveness_positive(s: Seq<Session>)
    requires
        wf_sessions(s),
    ensures
        forall|i: int| 0 <= i < s.len() ==> (#[trigger] s[i]).liveness > 0,
{
}

/// Connecting an address twice with no decay in between changes nothing
/// further: exactly one session for it remains, with liveness reset to
/// the full lifetime, not accumulated.
pub proof fn lemma_connect_idempotent(s: Seq<Session>, a: ClientAddr)
    requires
        wf_sessions(s),
    ensures
        spec_connect(spec_connect(s, a), a) == spec_connect(s, a),
{
    lemma_connect_props(s, a);
    let s1 = spec_connect(s, a);
    let i = idx_of(s1, a);
    assert(has_addr(s1, a));
    assert(s1[i] == fresh_session(a));
    assert(spec_connect(s1, a) == s1.update(i, fresh_session(a)));
    assert(s1.update(i, fresh_session(a)) =~= s1);
}

} // verus!
