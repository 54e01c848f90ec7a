//! The peer-list rules that accompany the node's storage layer: a small,
//! pure model of the known-peers table.  Peer addresses are carried as
//! plain 128-bit values and instants as millisecond timestamps; the
//! embedding program converts real addresses and clock readings at its
//! edge, performs the file I/O, and owns the background saver task.

use vstd::prelude::*;

use crate::seq_facts::lemma_contains_push;
use crate::seq_facts::lemma_filter_disjoint_len;
use crate::seq_facts::lemma_filter_all_true;
use crate::seq_facts::lemma_filter_elements;
use crate::seq_facts::lemma_filter_none;
use crate::seq_facts::lemma_filter_keeps_distinct_keys;
use crate::seq_facts::lemma_filter_push;

verus! {

/// The connection state of a known peer.
#[derive(Clone, Copy, PartialEq, Eq, Structural, Hash, Debug)]
pub enum PeerStatus {
    Idle,
    InHandshaking,
    InAlive,
    OutConnecting,
    OutHandshaking,
    OutAlive,
    Banned,
}

/// What the node remembers about one peer.  `ip` is the peer's address as
/// a single 128-bit value; the two instants are milliseconds since the
/// epoch, absent when the event never happened.
#[derive(Clone, Copy)]
pub struct PeerInfo {
    pub ip: u128,
    pub status: PeerStatus,
    pub last_connection: Option<i64>,
    pub last_failure: Option<i64>,
}

/// The ways reading a peers file back can fail.
#[derive(Clone, Copy, PartialEq, Eq, Structural, Debug)]
pub enum PeerLoadError {
    /// The file parsed but listed no peer at all.
    EmptyPeersFile,
    /// A listed peer carried a status that is never persisted.
    InvalidPeerStatus,
}

/// Some entry has address `a`.
pub open spec fn has_addr(s: Seq<PeerInfo>, a: u128) -> bool {
    exists|i: int| 0 <= i < s.len() && (#[trigger] s[i]).ip == a
}

/// The position of the entry with address `a` (unique when addresses are
/// distinct).
pub open spec fn index_of_addr(s: Seq<PeerInfo>, a: u128) -> int {
    choose|i: int| 0 <= i < s.len() && (#[trigger] s[i]).ip == a
}

/// No two entries share an address.
pub open spec fn distinct_addrs(s: Seq<PeerInfo>) -> bool {
    forall|i: int, j: int| 0 <= i < j < s.len() ==> (#[trigger] s[i]).ip != (#[trigger] s[j]).ip
}

/// How many entries carry status `st`.
pub open spec fn count_with_status(s: Seq<PeerInfo>, st: PeerStatus) -> nat {
    s.filter(|p: PeerInfo| p.status == st).len()
}

/// Only idle and banned peers are ever persisted or accepted back.
pub open spec fn persistable_status(st: PeerStatus) -> bool {
    st == PeerStatus::Idle || st == PeerStatus::Banned
}

/// The status a peer is written out with: a ban survives, every other
/// state resets to idle.
pub open spec fn dump_status(st: PeerStatus) -> PeerStatus {
    if st == PeerStatus::Banned {
        PeerStatus::Banned
    } else {
        PeerStatus::Idle
    }
}

/// The table `cur` knows an address exactly when the base table knew it
/// or the candidate feed supplied it.
pub open spec fn knows_exactly(cur: Seq<PeerInfo>, base: Seq<PeerInfo>, cand: Seq<u128>) -> bool {
    forall|a: u128| has_addr(cur, a) <==> (has_addr(base, a) || cand.contains(a))
}

/// Replacing semantics of reading entries in file order: a later entry for
/// an address already seen replaces the earlier one.
pub open spec fn upsert_peer(s: Seq<PeerInfo>, p: PeerInfo) -> Seq<PeerInfo> {
    if has_addr(s, p.ip) {
        s.remove(index_of_addr(s, p.ip)).push(p)
    } else {
        s.push(p)
    }
}

/// The table obtained by reading `s` front to back with `upsert_peer`.
pub open spec fn merged_peers(s: Seq<PeerInfo>) -> Seq<PeerInfo>
    decreases s.len(),
{
    if s.len() == 0 {
        Seq::<PeerInfo>::empty()
    } else {
        upsert_peer(merged_peers(s.drop_last()), s.last())
    }
}

/// The rank of a recorded instant: a recorded one ranks by its value, an
/// absent one below every recorded one.
pub open spec fn instant_rank(o: Option<i64>) -> int {
    match o {
        Option::Some(v) => v as int,
        Option::None => i64::MIN as int - 1,
    }
}

/// `a` is a strictly better connection candidate than `b`: a more recent
/// successful connection, or an equally recent one with an older failure.
pub open spec fn preferred(a: PeerInfo, b: PeerInfo) -> bool {
    instant_rank(a.last_connection) > instant_rank(b.last_connection) || (instant_rank(
        a.last_connection,
    ) == instant_rank(b.last_connection) && instant_rank(a.last_failure) < instant_rank(
        b.last_failure,
    ))
}

/// How many outgoing connection attempts may be started: the missing
/// outgoing connections, capped by the simultaneous-attempt bound, minus
/// the attempts already under way; never negative.
pub open spec fn spec_available_attempts(s: Seq<PeerInfo>, target: int, max_sim: int) -> int {
    let missing = target - count_with_status(s, PeerStatus::OutAlive);
    let capped = if missing <= max_sim {
        missing
    } else {
        max_sim
    };
    let left = capped - (count_with_status(s, PeerStatus::OutConnecting) + count_with_status(
        s,
        PeerStatus::OutHandshaking,
    ));
    if left >= 0 {
        left
    } else {
        0
    }
}

/// The preference used when trimming a status class: idle peers compare
/// by `preferred`, banned peers keep the most recently failed ones.
pub open spec fn better_candidate(by_failure: bool, a: PeerInfo, b: PeerInfo) -> bool {
    if by_failure {
        instant_rank(a.last_failure) > instant_rank(b.last_failure)
    } else {
        preferred(a, b)
    }
}

fn rank_exec(o: Option<i64>) -> (r: i128)
    ensures
        r as int == instant_rank(o),
{
    match o {
        Some(v) => v as i128,
        None => i64::MIN as i128 - 1,
    }
}

fn preferred_exec(a: &PeerInfo, b: &PeerInfo) -> (r: bool)
    ensures
        r == preferred(*a, *b),
{
    let ca = rank_exec(a.last_connection);
    let cb = rank_exec(b.last_connection);
    ca > cb || (ca == cb && rank_exec(a.last_failure) < rank_exec(b.last_failure))
}

fn better_exec(by_failure: bool, a: &PeerInfo, b: &PeerInfo) -> (r: bool)
    ensures
        r == better_candidate(by_failure, *a, *b),
{
    if by_failure {
        rank_exec(a.last_failure) > rank_exec(b.last_failure)
    } else {
        preferred_exec(a, b)
    }
}

/// The known-peers table: at most one entry per address.
pub struct PeerDatabase {
    peers: Vec<PeerInfo>,
}

impl View for PeerDatabase {
    type V = Seq<PeerInfo>;

    closed spec fn view(&self) -> Seq<PeerInfo> {
        self.peers@
    }
}

impl PeerDatabase {
    pub open spec fn wf(self) -> bool {
        distinct_addrs(self@)
    }

    /// An empty table.
    pub fn new() -> (db: PeerDatabase)
        ensures
            db.wf(),
            db@ =~= Seq::<PeerInfo>::empty(),
    {
        PeerDatabase { peers: Vec::new() }
    }

    /// The entries, for the embedding program to persist or display.
    pub fn entries(&self) -> (r: Vec<PeerInfo>)
        ensures
            r@ == self@,
    {
        let mut r: Vec<PeerInfo> = Vec::new();
        let mut i: usize = 0;
        while i < self.peers.len()
            invariant
                i <= self@.len(),
                r@ == self@.take(i as int),
            decreases self@.len() - i,
        {
            proof {
                assert(self@.take(i as int + 1) =~= self@.take(i as int).push(self@[i as int]));
            }
            r.push(self.peers[i]);
            i += 1;
        }
        proof {
            assert(self@.take(self@.len() as int) =~= self@);
        }
        r
    }

    /// The position of the entry with address `a`, if any.
    fn find_addr(&self, a: u128) -> (r: Option<usize>)
        ensures
            match r {
                Some(i) => i < self@.len() && self@[i as int].ip == a,
                None => !has_addr(self@, a),
            },
    {
        let mut i: usize = 0;
        while i < self.peers.len()
            invariant
                i <= self@.len(),
                forall|k: int| 0 <= k < i ==> (#[trigger] self@[k]).ip != a,
            decreases self@.len() - i,
        {
            if self.peers[i].ip == a {
                return Some(i);
            }
            i += 1;
        }
        None
    }

    /// How many known peers currently carry status `status`.
    pub fn count_peers_with_status(&self, status: PeerStatus) -> (n: usize)
        ensures
            n == count_with_status(self@, status),
    {
        let mut n: usize = 0;
        let mut i: usize = 0;
        while i < self.peers.len()
            invariant
                i <= self@.len(),
                n as int == count_with_status(self@.take(i as int), status),
                n <= i,
            decreases self@.len() - i,
        {
            proof {
                assert(self@.take(i as int + 1) =~= self@.take(i as int).push(self@[i as int]));
                lemma_filter_push(
                    self@.take(i as int),
                    self@[i as int],
                    |p: PeerInfo| p.status == status,
                );
            }
            if self.peers[i].status == status {
                n += 1;
            }
            i += 1;
        }
        proof {
            assert(self@.take(self@.len() as int) =~= self@);
        }
        n
    }

    /// Adds every not-yet-known candidate address as a fresh idle peer with
    /// no recorded history; known peers are left untouched.  The caller
    /// hands in only addresses it wants tracked — typically the globally
    /// routable ones, a classification the embedding program performs on
    /// the real address type.
    pub fn merge_candidate_peers(&mut self, candidates: &Vec<u128>)
        requires
            old(self).wf(),
        ensures
            final(self).wf(),
            old(self)@.len() <= final(self)@.len(),
            forall|i: int| 0 <= i < old(self)@.len() ==> final(self)@[i] == old(self)@[i],
            knows_exactly(final(self)@, old(self)@, candidates@),
            forall|k: int|
                old(self)@.len() <= k < final(self)@.len() ==> (#[trigger] final(self)@[k]).status
                    == PeerStatus::Idle && final(self)@[k].last_connection is None
                    && final(self)@[k].last_failure is None,
    {
        let ghost m0 = self@;
        let mut j: usize = 0;
        while j < candidates.len()
            invariant
                j <= candidates@.len(),
                self.wf(),
                m0.len() <= self@.len(),
                forall|i: int| 0 <= i < m0.len() ==> self@[i] == m0[i],
                knows_exactly(self@, m0, candidates@.take(j as int)),
                forall|k: int|
                    m0.len() <= k < self@.len() ==> (#[trigger] self@[k]).status
                        == PeerStatus::Idle && self@[k].last_connection is None
                        && self@[k].last_failure is None,
            decreases candidates@.len() - j,
        {
            proof {
                assert(candidates@.take(j as int + 1) =~= candidates@.take(j as int).push(
                    candidates@[j as int],
                ));
            }
            let c = candidates[j];
            let ghost before = self@;
            match self.find_addr(c) {
                Some(k) => {
                    proof {
                        assert(self@[k as int].ip == c);
                        assert(has_addr(self@, c));
                        assert forall|a: u128|
                            has_addr(self@, a) <==> (has_addr(m0, a) || candidates@.take(
                                j as int + 1,
                            ).contains(a)) by {
                            lemma_contains_push(candidates@.take(j as int), c, a);
                        }
                    }
                },
                None => {
                    self.peers.push(
                        PeerInfo {
                            ip: c,
                            status: PeerStatus::Idle,
                            last_connection: None,
                            last_failure: None,
                        },
                    );
                    proof {
                        assert(self@[self@.len() - 1].ip == c);
                        assert(has_addr(self@, c));
                        assert forall|a: u128| has_addr(self@, a) implies (has_addr(m0, a)
                            || candidates@.take(j as int + 1).contains(a)) by {
                            lemma_contains_push(candidates@.take(j as int), c, a);
                            let w = choose|w: int|
                                0 <= w < self@.len() && (#[trigger] self@[w]).ip == a;
                            if w < before.len() {
                                assert(self@[w] == before[w]);
                                assert(has_addr(before, a));
                            } else {
                                assert(self@[w] == self@[self@.len() - 1]);
                                assert(a == c);
                            }
                        }
                        assert forall|a: u128| (has_addr(m0, a) || candidates@.take(
                            j as int + 1,
                        ).contains(a)) implies has_addr(self@, a) by {
                            lemma_contains_push(candidates@.take(j as int), c, a);
                            assert(has_addr(before, a) <==> (has_addr(m0, a)
                                || candidates@.take(j as int).contains(a)));
                            if a == c {
                                assert(has_addr(self@, a));
                            } else {
                                assert(has_addr(before, a));
                                let w = choose|w: int|
                                    0 <= w < before.len() && (#[trigger] before[w]).ip == a;
                                assert(self@[w].ip == a);
                                assert(has_addr(self@, a));
                            }
                        }
                        assert(distinct_addrs(self@));
                    }
                },
            }
            proof {
                assert(knows_exactly(self@, m0, candidates@.take(j as int + 1)));
            }
            j += 1;
        }
        proof {
            assert(candidates@.take(candidates@.len() as int) =~= candidates@);
        }
    }

    /// The entries as they are written out: bans survive, every other
    /// status resets to idle, addresses and history kept as they are.
    pub fn prepare_dump(&self) -> (r: Vec<PeerInfo>)
        ensures
            r@.len() == self@.len(),
            forall|i: int|
                0 <= i < self@.len() ==> (#[trigger] r@[i]).ip == self@[i].ip && r@[i].status
                    == dump_status(self@[i].status) && r@[i].last_connection
                    == self@[i].last_connection && r@[i].last_failure == self@[i].last_failure,
    {
        let mut r: Vec<PeerInfo> = Vec::new();
        let mut i: usize = 0;
        while i < self.peers.len()
            invariant
                i <= self@.len(),
                r@.len() == i,
                forall|k: int|
                    0 <= k < i ==> (#[trigger] r@[k]).ip == self@[k].ip && r@[k].status
                        == dump_status(self@[k].status) && r@[k].last_connection
                        == self@[k].last_connection && r@[k].last_failure
                        == self@[k].last_failure,
            decreases self@.len() - i,
        {
            let p = self.peers[i];
            let st = if p.status == PeerStatus::Banned {
                PeerStatus::Banned
            } else {
                PeerStatus::Idle
            };
            r.push(
                PeerInfo {
                    ip: p.ip,
                    status: st,
                    last_connection: p.last_connection,
                    last_failure: p.last_failure,
                },
            );
            i += 1;
        }
        r
    }

    /// The `limit` most attractive peers of one status class, under the
    /// class's preference.  No peer of the class left out is strictly
    /// better than any peer returned.
    fn select_preferred(&self, status: PeerStatus, by_failure: bool, limit: usize) -> (r: Vec<
        PeerInfo,
    >)
        requires
            self.wf(),
        ensures
            r@.len() == if limit as int <= count_with_status(self@, status) {
                limit as int
            } else {
                count_with_status(self@, status) as int
            },
            forall|k: int|
                0 <= k < r@.len() ==> self@.contains(#[trigger] r@[k]) && r@[k].status == status,
            forall|k1: int, k2: int|
                0 <= k1 < k2 < r@.len() ==> (#[trigger] r@[k1]).ip != (#[trigger] r@[k2]).ip,
            forall|i: int, k: int|
                0 <= i < self@.len() && (#[trigger] self@[i]).status == status && !r@.contains(
                    self@[i],
                ) && 0 <= k < r@.len() ==> !better_candidate(by_failure, self@[i], #[trigger] r@[k]),
    {
        let mut pool: Vec<PeerInfo> = Vec::new();
        let mut i: usize = 0;
        while i < self.peers.len()
            invariant
                i <= self@.len(),
                pool@ == self@.take(i as int).filter(|p: PeerInfo| p.status == status),
            decreases self@.len() - i,
        {
            proof {
                assert(self@.take(i as int + 1) =~= self@.take(i as int).push(self@[i as int]));
                lemma_filter_push(
                    self@.take(i as int),
                    self@[i as int],
                    |p: PeerInfo| p.status == status,
                );
            }
            if self.peers[i].status == status {
                pool.push(self.peers[i]);
            }
            i += 1;
        }
        let ghost idle_total = pool@.len() as int;
        proof {
            assert(self@.take(self@.len() as int) =~= self@);
            lemma_filter_elements(self@, |p: PeerInfo| p.status == status);
            lemma_filter_keeps_distinct_keys(
                self@,
                |p: PeerInfo| p.status == status,
                |p: PeerInfo| p.ip,
            );
            assert forall|k: int| 0 <= k < pool@.len() implies self@.contains(#[trigger] pool@[k])
                && pool@[k].status == status by {
                self@.lemma_filter_pred(|p: PeerInfo| p.status == status, k);
            }
            assert forall|w: int|
                0 <= w < self@.len() && (#[trigger] self@[w]).status == status implies
                pool@.contains(self@[w]) by {
                self@.lemma_filter_contains(|p: PeerInfo| p.status == status, w);
            }
        }
        let mut chosen: Vec<PeerInfo> = Vec::new();
        while chosen.len() < limit && pool.len() > 0
            invariant
                chosen@.len() <= limit,
                chosen@.len() + pool@.len() == idle_total,
                idle_total == count_with_status(self@, status),
                forall|k: int|
                    0 <= k < pool@.len() ==> self@.contains(#[trigger] pool@[k]) && pool@[k].status
                        == status,
                forall|k: int|
                    0 <= k < chosen@.len() ==> self@.contains(#[trigger] chosen@[k])
                        && chosen@[k].status == status,
                forall|w: int|
                    0 <= w < self@.len() && (#[trigger] self@[w]).status == status
                        ==> (pool@.contains(self@[w]) || chosen@.contains(self@[w])),
                forall|a: int, b: int|
                    0 <= a < b < pool@.len() ==> (#[trigger] pool@[a]).ip != (
                    #[trigger] pool@[b]).ip,
                forall|a: int, b: int|
                    0 <= a < b < chosen@.len() ==> (#[trigger] chosen@[a]).ip != (
                    #[trigger] chosen@[b]).ip,
                forall|a: int, b: int|
                    0 <= a < pool@.len() && 0 <= b < chosen@.len() ==> (#[trigger] pool@[a]).ip
                        != (#[trigger] chosen@[b]).ip,
                forall|a: int, b: int|
                    0 <= a < pool@.len() && 0 <= b < chosen@.len() ==> !better_candidate(
                        by_failure,
                        #[trigger] pool@[a],
                        #[trigger] chosen@[b],
                    ),
            decreases pool@.len(),
        {
            let mut bi: usize = 0;
            let mut bj: usize = 1;
            while bj < pool.len()
                invariant
                    (bi as int) < (bj as int) <= pool@.len(),
                    forall|t: int|
                        0 <= t < bj ==> !better_candidate(
                            by_failure,
                            #[trigger] pool@[t],
                            pool@[bi as int],
                        ),
                decreases pool@.len() - bj,
            {
                if better_exec(by_failure, &pool[bj], &pool[bi]) {
                    proof {
                        assert forall|t: int| 0 <= t < bj implies !better_candidate(
                            by_failure,
                            #[trigger] pool@[t],
                            pool@[bj as int],
                        ) by {
                            if better_candidate(by_failure, pool@[t], pool@[bj as int]) {
                                assert(better_candidate(by_failure, pool@[t], pool@[bi as int]));
                                assert(false);
                            }
                        }
                    }
                    bi = bj;
                }
                bj += 1;
            }
            let ghost pool_before = pool@;
            let ghost chosen_before = chosen@;
            let ghost bii = bi as int;
            let best = pool.remove(bi);
            chosen.push(best);
            proof {
                assert(best == pool_before[bii]);
                assert(chosen@ == chosen_before.push(best));
                assert forall|a: int| 0 <= a < pool@.len() implies #[trigger] pool@[a] == (
                    if a < bii {
                        pool_before[a]
                    } else {
                        pool_before[a + 1]
                    }) by {}
                assert forall|w: int|
                    0 <= w < self@.len() && (#[trigger] self@[w]).status == status
                        implies (pool@.contains(self@[w]) || chosen@.contains(self@[w])) by {
                    lemma_contains_push(chosen_before, best, self@[w]);
                    if pool_before.contains(self@[w]) {
                        let a = choose|a: int|
                            0 <= a < pool_before.len() && pool_before[a] == self@[w];
                        if a == bii {
                            assert(chosen@.contains(self@[w]));
                        } else if a < bii {
                            assert(pool@[a] == self@[w]);
                            assert(pool@.contains(self@[w]));
                        } else {
                            assert(pool@[a - 1] == self@[w]);
                            assert(pool@.contains(self@[w]));
                        }
                    } else {
                        assert(chosen_before.contains(self@[w]));
                        assert(chosen@.contains(self@[w]));
                    }
                }
            }
        }
        proof {
            assert forall|i2: int, k: int|
                0 <= i2 < self@.len() && (#[trigger] self@[i2]).status == status
                    && !chosen@.contains(self@[i2]) && 0 <= k < chosen@.len() implies
                !better_candidate(by_failure, self@[i2], #[trigger] chosen@[k]) by {
                assert(pool@.contains(self@[i2]));
                let a = choose|a: int| 0 <= a < pool@.len() && pool@[a] == self@[i2];
            }
        }
        chosen
    }

    /// The idle peers to try connecting to next.  The number returned is
    /// the outgoing-connection shortfall, capped by the bound on
    /// simultaneous attempts and reduced by the attempts already under
    /// way; the peers returned are the most attractive idle ones, and no
    /// idle peer left out is strictly preferred to a returned one.
    pub fn get_connector_candidate_ips(
        &self,
        target_outgoing_connections: usize,
        max_simultaneous_outgoing_connection_attempts: usize,
    ) -> (r: Vec<PeerInfo>)
        requires
            self.wf(),
        ensures
            ({
                let avail = spec_available_attempts(
                    self@,
                    target_outgoing_connections as int,
                    max_simultaneous_outgoing_connection_attempts as int,
                );
                let idle = count_with_status(self@, PeerStatus::Idle);
                r@.len() == if avail <= idle {
                    avail
                } else {
                    idle as int
                }
            }),
            forall|k: int|
                0 <= k < r@.len() ==> self@.contains(#[trigger] r@[k]) && r@[k].status
                    == PeerStatus::Idle,
            forall|k1: int, k2: int|
                0 <= k1 < k2 < r@.len() ==> (#[trigger] r@[k1]).ip != (#[trigger] r@[k2]).ip,
            forall|i: int, k: int|
                0 <= i < self@.len() && (#[trigger] self@[i]).status == PeerStatus::Idle
                    && !r@.contains(self@[i]) && 0 <= k < r@.len() ==> !preferred(
                    self@[i],
                    #[trigger] r@[k],
                ),
    {
        let out_alive = self.count_peers_with_status(PeerStatus::OutAlive);
        let missing = if target_outgoing_connections > out_alive {
            target_outgoing_connections - out_alive
        } else {
            0
        };
        let capped = if missing <= max_simultaneous_outgoing_connection_attempts {
            missing
        } else {
            max_simultaneous_outgoing_connection_attempts
        };
        let connecting = self.count_peers_with_status(PeerStatus::OutConnecting);
        let handshaking = self.count_peers_with_status(PeerStatus::OutHandshaking);
        let total = self.peers.len();
        proof {
            let stc = PeerStatus::OutConnecting;
            let sth = PeerStatus::OutHandshaking;
            lemma_filter_disjoint_len(
                self@,
                |p: PeerInfo| p.status == stc,
                |p: PeerInfo| p.status == sth,
            );
            assert(connecting as int == self@.filter(|p: PeerInfo| p.status == stc).len());
            assert(handshaking as int == self@.filter(|p: PeerInfo| p.status == sth).len());
            assert(connecting as int + handshaking as int <= total as int);
        }
        let pending = connecting + handshaking;
        let avail = if capped > pending {
            capped - pending
        } else {
            0
        };
        self.select_preferred(PeerStatus::Idle, false, avail)
    }

    /// Trims the peer table.  When the idle peers exceed `max_idle_peers`,
    /// only the most attractive ones are kept (most recent successful
    /// connection, ties towards the oldest failure); when the banned peers
    /// exceed `max_banned_peers`, the most recently failed ones are kept.
    /// Peers in any other state are never touched.
    pub fn cleanup(&mut self, max_idle_peers: usize, max_banned_peers: usize)
        requires
            old(self).wf(),
        ensures
            final(self).wf(),
            forall|k: int|
                0 <= k < final(self)@.len() ==> old(self)@.contains(#[trigger] final(self)@[k]),
            forall|i: int|
                0 <= i < old(self)@.len() && (#[trigger] old(self)@[i]).status != PeerStatus::Idle
                    && old(self)@[i].status != PeerStatus::Banned ==> final(self)@.contains(
                    old(self)@[i],
                ),
            count_with_status(final(self)@, PeerStatus::Idle) == if max_idle_peers as int
                <= count_with_status(old(self)@, PeerStatus::Idle) {
                max_idle_peers as int
            } else {
                count_with_status(old(self)@, PeerStatus::Idle) as int
            },
            count_with_status(final(self)@, PeerStatus::Banned) == if max_banned_peers as int
                <= count_with_status(old(self)@, PeerStatus::Banned) {
                max_banned_peers as int
            } else {
                count_with_status(old(self)@, PeerStatus::Banned) as int
            },
            forall|i: int, k: int|
                0 <= i < old(self)@.len() && (#[trigger] old(self)@[i]).status == PeerStatus::Idle
                    && !final(self)@.contains(old(self)@[i]) && 0 <= k < final(self)@.len() && (
                #[trigger] final(self)@[k]).status == PeerStatus::Idle ==> !preferred(
                    old(self)@[i],
                    final(self)@[k],
                ),
            forall|i: int, k: int|
                0 <= i < old(self)@.len() && (#[trigger] old(self)@[i]).status
                    == PeerStatus::Banned && !final(self)@.contains(old(self)@[i]) && 0 <= k
                    < final(self)@.len() && (#[trigger] final(self)@[k]).status
                    == PeerStatus::Banned ==> !(instant_rank(old(self)@[i].last_failure)
                    > instant_rank(final(self)@[k].last_failure)),
    {
        let ghost m0 = self@;
        let sel_idle = self.select_preferred(PeerStatus::Idle, false, max_idle_peers);
        let mut sel_ban = self.select_preferred(PeerStatus::Banned, true, max_banned_peers);
        let mut rest: Vec<PeerInfo> = Vec::new();
        let mut i: usize = 0;
        while i < self.peers.len()
            invariant
                i <= self@.len(),
                self@ == m0,
                rest@ == m0.take(i as int).filter(
                    |p: PeerInfo| p.status != PeerStatus::Idle && p.status != PeerStatus::Banned,
                ),
            decreases self@.len() - i,
        {
            proof {
                assert(m0.take(i as int + 1) =~= m0.take(i as int).push(m0[i as int]));
                lemma_filter_push(
                    m0.take(i as int),
                    m0[i as int],
                    |p: PeerInfo| p.status != PeerStatus::Idle && p.status != PeerStatus::Banned,
                );
            }
            let p = self.peers[i];
            if !(p.status == PeerStatus::Idle) && !(p.status == PeerStatus::Banned) {
                rest.push(p);
            }
            i += 1;
        }
        let mut newv = sel_idle;
        let ghost si = newv@;
        let ghost sb = sel_ban@;
        newv.append(&mut sel_ban);
        let ghost rr = rest@;
        newv.append(&mut rest);
        self.peers = newv;
        proof {
            let other = |p: PeerInfo| p.status != PeerStatus::Idle && p.status
                != PeerStatus::Banned;
            assert(m0.take(m0.len() as int) =~= m0);
            assert(rr == m0.filter(other));
            assert(self@ == si + sb + rr);
            let ni = si.len() as int;
            let nb = sb.len() as int;
            let nr = rr.len() as int;
            lemma_filter_elements(m0, other);
            lemma_filter_keeps_distinct_keys(m0, other, |p: PeerInfo| p.ip);
            assert forall|t: int| 0 <= t < nr implies m0.contains(#[trigger] rr[t]) && other(
                rr[t],
            ) by {
                m0.lemma_filter_pred(other, t);
            }
            // index characterization of the rebuilt table
            assert forall|k: int| 0 <= k < self@.len() implies #[trigger] self@[k] == (if k < ni {
                si[k]
            } else if k < ni + nb {
                sb[k - ni]
            } else {
                rr[k - ni - nb]
            }) by {}
            // every surviving entry is one of the old entries
            assert forall|k: int| 0 <= k < self@.len() implies m0.contains(
                #[trigger] self@[k],
            ) by {}
            // counts per class
            let sti = PeerStatus::Idle;
            let stb = PeerStatus::Banned;
            let pi = |p: PeerInfo| p.status == sti;
            let pb = |p: PeerInfo| p.status == stb;
            Seq::<PeerInfo>::filter_distributes_over_add(si + sb, rr, pi);
            Seq::<PeerInfo>::filter_distributes_over_add(si, sb, pi);
            Seq::<PeerInfo>::filter_distributes_over_add(si + sb, rr, pb);
            Seq::<PeerInfo>::filter_distributes_over_add(si, sb, pb);
            lemma_filter_all_true(si, pi);
            lemma_filter_none(sb, pi);
            lemma_filter_none(rr, pi);
            lemma_filter_none(si, pb);
            lemma_filter_all_true(sb, pb);
            lemma_filter_none(rr, pb);
            assert(count_with_status(self@, sti) == si.len());
            assert(count_with_status(self@, stb) == sb.len());
            // distinct addresses across the three regions
            assert forall|a: int, b: int| 0 <= a < b < self@.len() implies (
            #[trigger] self@[a]).ip != (#[trigger] self@[b]).ip by {
                let e1 = self@[a];
                let e2 = self@[b];
                if e1.ip == e2.ip {
                    let w1 = choose|w: int| 0 <= w < m0.len() && m0[w] == e1;
                    let w2 = choose|w: int| 0 <= w < m0.len() && m0[w] == e2;
                    if w1 != w2 {
                        assert(m0[w1].ip != m0[w2].ip);
                    }
                    assert(e1 == e2);
                    // the same value cannot sit in two regions: the regions
                    // hold different statuses, and within one region the
                    // addresses are distinct
                    assert(false);
                }
            }
            // peers in other states survive
            assert forall|w: int|
                0 <= w < m0.len() && (#[trigger] m0[w]).status != PeerStatus::Idle
                    && m0[w].status != PeerStatus::Banned implies self@.contains(m0[w]) by {
                m0.lemma_filter_contains(other, w);
                let t = choose|t: int| 0 <= t < nr && rr[t] == m0[w];
                assert(self@[ni + nb + t] == m0[w]);
            }
            // the pruned classes kept only the best entries
            assert forall|w: int, k: int|
                0 <= w < m0.len() && (#[trigger] m0[w]).status == PeerStatus::Idle
                    && !self@.contains(m0[w]) && 0 <= k < self@.len() && (
                #[trigger] self@[k]).status == PeerStatus::Idle implies !preferred(
                m0[w],
                self@[k],
            ) by {
                assert(k < ni);
                if si.contains(m0[w]) {
                    let t = choose|t: int| 0 <= t < ni && si[t] == m0[w];
                    assert(self@[t] == m0[w]);
                    assert(false);
                }
                assert(!better_candidate(false, m0[w], si[k]));
            }
            assert forall|w: int, k: int|
                0 <= w < m0.len() && (#[trigger] m0[w]).status == PeerStatus::Banned
                    && !self@.contains(m0[w]) && 0 <= k < self@.len() && (
                #[trigger] self@[k]).status == PeerStatus::Banned implies !(instant_rank(
                m0[w].last_failure,
            ) > instant_rank(self@[k].last_failure)) by {
                assert(ni <= k < ni + nb);
                if sb.contains(m0[w]) {
                    let t = choose|t: int| 0 <= t < nb && sb[t] == m0[w];
                    assert(self@[ni + t] == m0[w]);
                    assert(false);
                }
                assert(!better_candidate(true, m0[w], sb[k - ni]));
            }
        }
    }

    /// Records what is now known about one peer, replacing any entry
    /// already held for the same address.
    pub fn set_peer(&mut self, p: PeerInfo)
        requires
            old(self).wf(),
        ensures
            final(self).wf(),
            final(self)@ == upsert_peer(old(self)@, p),
    {
        let ghost before = self@;
        match self.find_addr(p.ip) {
            Some(k) => {
                let _replaced = self.peers.remove(k);
                self.peers.push(p);
                proof {
                    let w = index_of_addr(before, p.ip);
                    assert(0 <= w < before.len() && before[w].ip == p.ip);
                    assert(w == k);
                    assert(self@ == upsert_peer(before, p));
                    let m1 = before.remove(k as int);
                    assert forall|a: int, b: int| 0 <= a < b < m1.len() implies (
                        #[trigger] m1[a]).ip != (#[trigger] m1[b]).ip by {}
                    assert forall|a: int| 0 <= a < m1.len() implies (#[trigger] m1[a]).ip
                        != p.ip by {}
                    assert(distinct_addrs(self@));
                }
            },
            None => {
                self.peers.push(p);
                proof {
                    assert(self@ == upsert_peer(before, p));
                    assert(distinct_addrs(self@));
                }
            },
        }
    }

    /// Accepts the entries parsed back from a peers file: every status must
    /// be one that is persisted (idle or banned), the file must name at
    /// least one peer, and a later entry for an already-seen address
    /// replaces the earlier one.
    pub fn validate_loaded(loaded: Vec<PeerInfo>) -> (r: Result<PeerDatabase, PeerLoadError>)
        ensures
            r is Ok <==> (loaded@.len() > 0 && forall|i: int|
                0 <= i < loaded@.len() ==> persistable_status((#[trigger] loaded@[i]).status)),
            r matches Ok(db) ==> db.wf() && db@ == merged_peers(loaded@),
            r matches Err(e) ==> (if exists|i: int|
                0 <= i < loaded@.len() && !persistable_status((#[trigger] loaded@[i]).status) {
                e == PeerLoadError::InvalidPeerStatus
            } else {
                e == PeerLoadError::EmptyPeersFile
            }),
    {
        if loaded.len() == 0 {
            return Err(PeerLoadError::EmptyPeersFile);
        }
        let mut db = PeerDatabase { peers: Vec::new() };
        let mut i: usize = 0;
        while i < loaded.len()
            invariant
                i <= loaded@.len(),
                db.wf(),
                db@ == merged_peers(loaded@.take(i as int)),
                forall|k: int|
                    0 <= k < i ==> persistable_status((#[trigger] loaded@[k]).status),
            decreases loaded@.len() - i,
        {
            let p = loaded[i];
            let ok = match p.status {
                PeerStatus::Idle => true,
                PeerStatus::Banned => true,
                _ => false,
            };
            if !ok {
                return Err(PeerLoadError::InvalidPeerStatus);
            }
            let ghost before = db@;
            match db.find_addr(p.ip) {
                Some(k) => {
                    let _replaced = db.peers.remove(k);
                    db.peers.push(p);
                    proof {
                        let w = index_of_addr(before, p.ip);
                        assert(0 <= w < before.len() && before[w].ip == p.ip);
                        assert(w == k);
                        assert(db@ == upsert_peer(before, p));
                        let m1 = before.remove(k as int);
                        assert forall|a: int, b: int| 0 <= a < b < m1.len() implies (
                            #[trigger] m1[a]).ip != (#[trigger] m1[b]).ip by {}
                        assert forall|a: int| 0 <= a < m1.len() implies (#[trigger] m1[a]).ip
                            != p.ip by {}
                        assert(distinct_addrs(db@));
                    }
                },
                None => {
                    db.peers.push(p);
                    proof {
                        assert(db@ == upsert_peer(before, p));
                        assert(distinct_addrs(db@));
                    }
                },
            }
            proof {
                assert(loaded@.take(i as int + 1).drop_last() =~= loaded@.take(i as int));
                assert(loaded@.take(i as int + 1).last() == loaded@[i as int]);
            }
            i += 1;
        }
        proof {
            assert(loaded@.take(loaded@.len() as int) =~= loaded@);
        }
        Ok(db)
    }
}

} // verus!
