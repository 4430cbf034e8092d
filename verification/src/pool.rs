//! The workload allocation engine: the peer registry, the power and workload
//! accounting, the two peer-selection queries, and the append-on-completion
//! interaction with the durable ledger.

use vstd::prelude::*;

use crate::database::AccessDatabase;
use crate::distribute_method::DistributeMethod;
use crate::kvlist::{
    as_map, has_key, index_of_key, keys_unique, lemma_as_map_dom, lemma_as_map_index,
    lemma_as_map_len, lemma_as_map_push, lemma_as_map_remove, lemma_sum_counts_push,
    lemma_sum_counts_remove, sum_counts,
};
use crate::power::{HashPower, Power};
use crate::workload::{remaining_units, WorkSet, Workload};

verus! {

/// The capacities carried by a registry list, in order.
pub open spec fn power_counts(s: Seq<(u64, HashPower)>) -> Seq<nat> {
    Seq::new(s.len(), |i: int| s[i].1.capacity())
}

/// The unit counts carried by a distribution list, in order.
pub open spec fn work_counts(s: Seq<(u64, WorkSet)>) -> Seq<nat> {
    Seq::new(s.len(), |i: int| s[i].1.units().len())
}

/// The power a registry map records for `k`; zero for an unknown peer.
pub open spec fn power_of(m: Map<u64, HashPower>, k: u64) -> nat {
    if m.dom().contains(k) {
        m[k].capacity()
    } else {
        0
    }
}

/// The number of units a distribution map records as assigned to `k`; zero
/// for a peer with no entry.
pub open spec fn assigned_of(m: Map<u64, WorkSet>, k: u64) -> nat {
    if m.dom().contains(k) {
        m[k].units().len()
    } else {
        0
    }
}

/// The ledger after a completion report: the finished units are merged into
/// the peer's prior record, an absent record counting as empty.
pub open spec fn ledger_after_completion(
    l: Map<u64, Seq<Seq<u8>>>,
    peer: u64,
    finished: Seq<Seq<u8>>,
) -> Map<u64, Seq<Seq<u8>>> {
    l.insert(
        peer,
        (if l.dom().contains(peer) {
            l[peer]
        } else {
            Seq::<Seq<u8>>::empty()
        }) + finished,
    )
}

/// Whether a peer holding `w1` units at capacity `c1` is more loaded,
/// relative to its own capacity, than one holding `w2` units at capacity
/// `c2`.  Ratios are compared by cross-multiplication, so a peer of zero
/// capacity holding work outranks every peer of positive capacity, and two
/// peers of zero capacity and zero work tie.
pub open spec fn busier_than(w1: nat, c1: nat, w2: nat, c2: nat) -> bool {
    w1 * c2 > w2 * c1
}

/// Cross-multiplied ratios order consistently: a peer no busier than the
/// current best stays no busier than anything that beats the best.
proof fn lemma_busier_step(qw: nat, qc: nat, bw: nat, bc: nat, cw: nat, cc: nat)
    requires
        !busier_than(qw, qc, bw, bc),
        busier_than(cw, cc, bw, bc),
    ensures
        !busier_than(qw, qc, cw, cc),
{
    assert(qw * bc <= bw * qc);
    assert(cw * bc > bw * cc);
    if bw == 0 {
        assert(bc > 0 && cw > 0) by (nonlinear_arith)
            requires
                cw * bc > bw * cc,
                bw == 0,
        ;
        assert(qw == 0) by (nonlinear_arith)
            requires
                qw * bc <= bw * qc,
                bw == 0,
                bc > 0,
        ;
        assert(qw * cc <= cw * qc) by (nonlinear_arith)
            requires
                qw == 0,
        ;
    } else {
        assert(qw * cc <= cw * qc) by (nonlinear_arith)
            requires
                qw * bc <= bw * qc,
                cw * bc > bw * cc,
                bw > 0,
        ;
    }
}

proof fn lemma_power_counts_remove(s: Seq<(u64, HashPower)>, i: int)
    requires
        0 <= i < s.len(),
    ensures
        sum_counts(power_counts(s)) == sum_counts(power_counts(s.remove(i)))
            + s[i].1.capacity(),
{
    assert(power_counts(s.remove(i)) =~= power_counts(s).remove(i));
    lemma_sum_counts_remove(power_counts(s), i);
    assert(power_counts(s)[i] == s[i].1.capacity());
}

proof fn lemma_power_counts_push(s: Seq<(u64, HashPower)>, k: u64, p: HashPower)
    ensures
        sum_counts(power_counts(s.push((k, p)))) == sum_counts(power_counts(s)) + p.capacity(),
{
    assert(power_counts(s.push((k, p))) =~= power_counts(s).push(p.capacity()));
    lemma_sum_counts_push(power_counts(s), p.capacity());
}

proof fn lemma_work_counts_remove(s: Seq<(u64, WorkSet)>, i: int)
    requires
        0 <= i < s.len(),
    ensures
        sum_counts(work_counts(s)) == sum_counts(work_counts(s.remove(i)))
            + s[i].1.units().len(),
{
    assert(work_counts(s.remove(i)) =~= work_counts(s).remove(i));
    lemma_sum_counts_remove(work_counts(s), i);
    assert(work_counts(s)[i] == s[i].1.units().len());
}

proof fn lemma_work_counts_push(s: Seq<(u64, WorkSet)>, k: u64, w: WorkSet)
    ensures
        sum_counts(work_counts(s.push((k, w)))) == sum_counts(work_counts(s))
            + w.units().len(),
{
    assert(work_counts(s.push((k, w))) =~= work_counts(s).push(w.units().len()));
    lemma_sum_counts_push(work_counts(s), w.units().len());
}

/// If every registered peer has an entry on the distribution list, the
/// registry cannot be the larger list.
proof fn lemma_busy_keys_cover(peers: Seq<(u64, HashPower)>, dist: Seq<(u64, WorkSet)>)
    requires
        keys_unique(peers),
        keys_unique(dist),
        forall|i: int| 0 <= i < peers.len() ==> has_key(dist, (#[trigger] peers[i]).0),
    ensures
        peers.len() <= dist.len(),
{
    lemma_as_map_len(peers);
    lemma_as_map_len(dist);
    lemma_as_map_dom(peers);
    lemma_as_map_dom(dist);
    assert forall|k: u64| as_map(peers).dom().contains(k) implies as_map(dist).dom().contains(
        k,
    ) by {
        assert(has_key(peers, k));
        let i = choose|i: int| 0 <= i < peers.len() && (#[trigger] peers[i]).0 == k;
        assert(0 <= i < peers.len() && peers[i].0 == k);
        assert(has_key(dist, peers[i].0));
    }
    vstd::set_lib::lemma_len_subset::<u64>(as_map(peers).dom(), as_map(dist).dom());
}

/// The allocation engine.  It exclusively owns the registry, the
/// distribution and the aggregates, holds the ledger by composition, and is
/// the only writer of all four.
pub struct MiningPool<D: AccessDatabase> {
    /// All the peers of the mining pool network, with the hash power each
    /// one joined with; it changes whenever a peer joins or leaves.
    peers: Vec<(u64, HashPower)>,
    /// The total hash power of the network: always the sum over `peers`.
    total_power: HashPower,
    /// The number of work units currently assigned and not yet completed:
    /// always the sum of the entry sizes of `current_work_distribution`.
    total_workload: usize,
    /// The work currently assigned and not yet completed, per peer.
    current_work_distribution: Vec<(u64, WorkSet)>,
    /// The way work is distributed over peers.
    #[allow(dead_code)]
    distribute_method: DistributeMethod,
    /// The durable record of the work each peer has finished.
    finished_work: D,
}

impl<D: AccessDatabase> MiningPool<D> {
    /// The peer → power map the registry stands for.
    pub closed spec fn registry(&self) -> Map<u64, HashPower> {
        as_map(self.peers@)
    }

    /// The peer → outstanding-work map the distribution stands for.
    pub closed spec fn distribution(&self) -> Map<u64, WorkSet> {
        as_map(self.current_work_distribution@)
    }

    /// The peer → completed-units map the ledger holds.
    pub closed spec fn ledger(&self) -> Map<u64, Seq<Seq<u8>>> {
        self.finished_work.contents()
    }

    /// Well-formedness: each list carries a key at most once, and each
    /// aggregate equals the sum over its list.
    pub closed spec fn wf(&self) -> bool {
        &&& keys_unique(self.peers@)
        &&& keys_unique(self.current_work_distribution@)
        &&& self.total_power.capacity() == sum_counts(power_counts(self.peers@))
        &&& self.total_workload == sum_counts(work_counts(self.current_work_distribution@))
    }

    /// A pool with no peers, no outstanding work and zero aggregates, whose
    /// ledger is opened at `location`.
    pub fn new(location: String) -> (pool: Self)
        ensures
            pool.wf(),
            pool.registry() == Map::<u64, HashPower>::empty(),
            pool.distribution() == Map::<u64, WorkSet>::empty(),
            pool.total_power().capacity() == 0,
            pool.total_workload() == 0,
    {
        let pool = MiningPool {
            peers: Vec::new(),
            total_power: HashPower::new(0),
            total_workload: 0,
            current_work_distribution: Vec::new(),
            distribute_method: DistributeMethod::Default,
            finished_work: D::open(location),
        };
        proof {
            assert(pool.registry() =~= Map::<u64, HashPower>::empty());
            assert(pool.distribution() =~= Map::<u64, WorkSet>::empty());
        }
        pool
    }

    /// The registry, as the list of peers with their powers.  On a
    /// well-formed pool the list carries each peer once, and the total power
    /// equals the sum of the powers listed: the aggregate never drifts from
    /// the registry, whatever sequence of joins and leaves produced it.
    pub fn peers_total(&self) -> (m: &Vec<(u64, HashPower)>)
        ensures
            as_map(m@) == self.registry(),
            self.wf() ==> keys_unique(m@),
            self.wf() ==> self.total_power().capacity() == sum_counts(power_counts(m@)),
    {
        &self.peers
    }

    /// The distribution, as the list of peers with their outstanding work.
    /// On a well-formed pool the list carries each peer once, and the total
    /// workload equals the sum of the listed unit counts: the aggregate
    /// never drifts from the distribution, whatever sequence of assignments
    /// and completion reports produced it.
    pub fn work_distribution(&self) -> (m: &Vec<(u64, WorkSet)>)
        ensures
            as_map(m@) == self.distribution(),
            self.wf() ==> keys_unique(m@),
            self.wf() ==> self.total_workload() == sum_counts(work_counts(m@)),
    {
        &self.current_work_distribution
    }

    /// The ledger record of what `peer` has finished so far: the stored
    /// units, or an empty workload when the peer has never reported.  An
    /// error reports a storage-layer failure; nothing is changed either way.
    pub fn finished_record(&mut self, peer: u64) -> (r: Result<WorkSet, ()>)
        requires
            old(self).wf(),
        ensures
            final(self).wf(),
            final(self).registry() == old(self).registry(),
            final(self).distribution() == old(self).distribution(),
            final(self).ledger() == old(self).ledger(),
            final(self).total_power() == old(self).total_power(),
            final(self).total_workload() == old(self).total_workload(),
            r matches Ok(v) ==> v.units() == (if old(self).ledger().dom().contains(peer) {
                old(self).ledger()[peer]
            } else {
                Seq::<Seq<u8>>::empty()
            }),
    {
        self.finished_work.get_value(peer)
    }

    /// The total hash power of the network.
    pub closed spec fn total_power(&self) -> HashPower {
        self.total_power
    }

    /// The number of work units currently assigned and not completed.
    pub closed spec fn total_workload(&self) -> usize {
        self.total_workload
    }

    /// The total hash power, as a count.
    pub fn current_total_power(&self) -> (t: usize)
        ensures
            t == self.total_power().capacity(),
    {
        self.total_power.measure()
    }

    /// The total outstanding workload, as a count.
    pub fn current_total_workload(&self) -> (t: usize)
        ensures
            t == self.total_workload(),
    {
        self.total_workload
    }

    /// What a leave leaves behind: the peer is gone from the registry and
    /// the distribution, the aggregates drop by exactly what the peer held,
    /// the ledger is untouched, and a leave for a peer the pool does not
    /// know changes nothing at all.
    pub open spec fn peer_leave_post(pre: Self, post: Self, peer: u64) -> bool {
        &&& post.wf()
        &&& post.registry() == pre.registry().remove(peer)
        &&& post.distribution() == pre.distribution().remove(peer)
        &&& post.ledger() == pre.ledger()
        &&& post.total_power().capacity() == pre.total_power().capacity() - power_of(
            pre.registry(),
            peer,
        )
        &&& post.total_workload() == pre.total_workload() - assigned_of(pre.distribution(), peer)
        &&& (!pre.registry().dom().contains(peer) && !pre.distribution().dom().contains(peer))
            ==> post == pre
    }

    /// Record that `peer` joined with `power`: the registry entry is written
    /// (replacing any prior one) and the total power is adjusted so that it
    /// stays the sum over the registry.
    pub fn when_peer_join(&mut self, peer: u64, power: HashPower)
        requires
            old(self).wf(),
            old(self).total_power().capacity() + power.capacity() <= usize::MAX,
        ensures
            final(self).wf(),
            final(self).registry() == old(self).registry().insert(peer, power),
            final(self).distribution() == old(self).distribution(),
            final(self).ledger() == old(self).ledger(),
            final(self).total_workload() == old(self).total_workload(),
            final(self).total_power().capacity() == old(self).total_power().capacity()
                + power.capacity() - power_of(old(self).registry(), peer),
    {
        match index_of_key(&self.peers, peer) {
            Some(i) => {
                proof {
                    lemma_as_map_index(self.peers@, i as int);
                    lemma_as_map_remove(self.peers@, i as int);
                    lemma_power_counts_remove(self.peers@, i as int);
                }
                let (_k, old_power) = self.peers.remove(i);
                self.total_power.sub(old_power);
            },
            None => {
                proof {
                    lemma_as_map_dom(self.peers@);
                }
            },
        }
        proof {
            lemma_as_map_push(self.peers@, peer, power);
            lemma_power_counts_push(self.peers@, peer, power);
        }
        self.peers.push((peer, power));
        self.total_power.add(power);
        proof {
            assert(self.registry() =~= old(self).registry().insert(peer, power));
        }
    }

    /// Record that `peer` left: its registry entry goes, its outstanding
    /// assignment (if any) is abandoned, and both aggregates drop by what
    /// the peer held.  A leave for an unknown peer is a silent no-op, and no
    /// ledger entry is ever created for abandoned work.
    pub fn when_peer_leave(&mut self, peer: u64)
        requires
            old(self).wf(),
        ensures
            Self::peer_leave_post(*old(self), *final(self), peer),
    {
        match index_of_key(&self.peers, peer) {
            Some(i) => {
                proof {
                    lemma_as_map_index(self.peers@, i as int);
                    lemma_as_map_remove(self.peers@, i as int);
                    lemma_power_counts_remove(self.peers@, i as int);
                }
                let (_k, old_power) = self.peers.remove(i);
                self.total_power.sub(old_power);
            },
            None => {
                proof {
                    lemma_as_map_dom(self.peers@);
                    assert(old(self).registry().remove(peer) =~= old(self).registry());
                }
            },
        }
        match index_of_key(&self.current_work_distribution, peer) {
            Some(j) => {
                proof {
                    lemma_as_map_index(self.current_work_distribution@, j as int);
                    lemma_as_map_remove(self.current_work_distribution@, j as int);
                    lemma_work_counts_remove(self.current_work_distribution@, j as int);
                }
                let (_k, old_work) = self.current_work_distribution.remove(j);
                let n = old_work.len();
                self.total_workload = self.total_workload - n;
            },
            None => {
                proof {
                    lemma_as_map_dom(self.current_work_distribution@);
                    assert(old(self).distribution().remove(peer) =~= old(self).distribution());
                }
            },
        }
    }

    /// Record that `work` is now assigned to `peer`, replacing any prior
    /// entry for that peer; the total workload is adjusted so that it stays
    /// the sum over the distribution, so a replaced entry's size leaves the
    /// aggregate as the new entry's size comes in.
    pub fn when_sign_work_to(&mut self, peer: u64, work: WorkSet)
        requires
            old(self).wf(),
            old(self).total_workload() + work.units().len() <= usize::MAX,
        ensures
            final(self).wf(),
            final(self).distribution() == old(self).distribution().insert(peer, work),
            final(self).registry() == old(self).registry(),
            final(self).ledger() == old(self).ledger(),
            final(self).total_power() == old(self).total_power(),
            final(self).total_workload() == old(self).total_workload() + work.units().len()
                - assigned_of(old(self).distribution(), peer),
    {
        let n = work.len();
        match index_of_key(&self.current_work_distribution, peer) {
            Some(i) => {
                proof {
                    lemma_as_map_index(self.current_work_distribution@, i as int);
                    lemma_as_map_remove(self.current_work_distribution@, i as int);
                    lemma_work_counts_remove(self.current_work_distribution@, i as int);
                }
                let (_k, old_work) = self.current_work_distribution.remove(i);
                let old_n = old_work.len();
                self.total_workload = self.total_workload - old_n;
            },
            None => {
                proof {
                    lemma_as_map_dom(self.current_work_distribution@);
                }
            },
        }
        proof {
            lemma_as_map_push(self.current_work_distribution@, peer, work);
            lemma_work_counts_push(self.current_work_distribution@, peer, work);
        }
        let ghost gw = work;
        self.current_work_distribution.push((peer, work));
        self.total_workload = self.total_workload + n;
        proof {
            assert(self.distribution() =~= old(self).distribution().insert(peer, gw));
        }
    }

    /// Record that `peer` finished the units of `finished`: the matching
    /// units leave the peer's outstanding assignment and the total workload,
    /// and the finished units are merged into the peer's ledger record.  A
    /// report for a peer with no outstanding assignment is discarded.  An
    /// error reports a failed ledger read or write; the in-memory
    /// bookkeeping is updated either way, and the ledger is then left as it
    /// was.
    pub fn when_peer_finish_work(&mut self, peer: u64, finished: WorkSet) -> (r: Result<(), ()>)
        requires
            old(self).wf(),
        ensures
            final(self).wf(),
            final(self).registry() == old(self).registry(),
            final(self).total_power() == old(self).total_power(),
            !old(self).distribution().dom().contains(peer) ==> r is Ok && *final(self) == *old(
                self,
            ),
            old(self).distribution().dom().contains(peer) ==> {
                &&& final(self).distribution().dom() == old(self).distribution().dom()
                &&& final(self).distribution()[peer].units() == remaining_units(
                    old(self).distribution()[peer].units(),
                    finished.units(),
                )
                &&& (forall|q: u64|
                    q != peer && old(self).distribution().dom().contains(q)
                        ==> final(self).distribution()[q] == old(self).distribution()[q])
                &&& final(self).total_workload() == old(self).total_workload() - (old(
                    self,
                ).distribution()[peer].units().len() - remaining_units(
                    old(self).distribution()[peer].units(),
                    finished.units(),
                ).len())
                &&& (r is Ok ==> final(self).ledger() == ledger_after_completion(
                    old(self).ledger(),
                    peer,
                    finished.units(),
                ))
                &&& (r is Err ==> final(self).ledger() == old(self).ledger())
            },
    {
        match index_of_key(&self.current_work_distribution, peer) {
            None => {
                proof {
                    lemma_as_map_dom(self.current_work_distribution@);
                }
                Ok(())
            },
            Some(i) => {
                proof {
                    lemma_as_map_index(self.current_work_distribution@, i as int);
                    lemma_as_map_remove(self.current_work_distribution@, i as int);
                    lemma_work_counts_remove(self.current_work_distribution@, i as int);
                }
                let (k, mut current) = self.current_work_distribution.remove(i);
                let before_n = current.len();
                current.sub(&finished);
                let after_n = current.len();
                self.total_workload = self.total_workload - (before_n - after_n);
                let ghost gcur = current;
                proof {
                    lemma_as_map_push(self.current_work_distribution@, peer, gcur);
                    lemma_work_counts_push(self.current_work_distribution@, peer, gcur);
                }
                self.current_work_distribution.push((k, current));
                proof {
                    assert(self.distribution() == old(self).distribution().remove(peer).insert(
                        peer,
                        gcur,
                    ));
                    assert(self.distribution().dom() =~= old(self).distribution().dom());
                    assert(self.distribution()[peer].units() == remaining_units(
                        old(self).distribution()[peer].units(),
                        finished.units(),
                    ));
                }
                let prior = match self.finished_work.get_value(peer) {
                    Ok(v) => v,
                    Err(_) => {
                        return Err(());
                    },
                };
                let mut merged = prior;
                merged.add(finished);
                match self.finished_work.put_value(peer, &merged) {
                    Ok(_) => {
                        proof {
                            assert(self.ledger() == ledger_after_completion(
                                old(self).ledger(),
                                peer,
                                finished.units(),
                            ));
                        }
                        Ok(())
                    },
                    Err(_) => Err(()),
                }
            },
        }
    }

    /// The number of units currently assigned to `k`; zero for a peer with
    /// no entry.
    fn assigned_count(&self, k: u64) -> (n: usize)
        requires
            self.wf(),
        ensures
            n == assigned_of(self.distribution(), k),
    {
        match index_of_key(&self.current_work_distribution, k) {
            Some(j) => {
                proof {
                    lemma_as_map_index(self.current_work_distribution@, j as int);
                }
                self.current_work_distribution[j].1.len()
            },
            None => {
                proof {
                    lemma_as_map_dom(self.current_work_distribution@);
                }
                0
            },
        }
    }

    /// One idle peer — registered, but with no entry in the distribution —
    /// of greatest power among the idle peers.  Idle peers all rank equal by
    /// their standing in the distribution, so the tie is broken by power, as
    /// intended, and among equal powers by order of standing in the
    /// registry.  Nothing is returned exactly when the registry and the
    /// distribution have the same size.
    pub fn get_peer_high_free(&self) -> (r: Option<u64>)
        requires
            self.wf(),
            self.distribution().dom().len() <= self.registry().dom().len(),
        ensures
            (r is None) <==> self.registry().dom().len() == self.distribution().dom().len(),
            r matches Some(p) ==> {
                &&& self.registry().dom().contains(p)
                &&& !self.distribution().dom().contains(p)
                &&& forall|q: u64|
                    self.registry().dom().contains(q) && !self.distribution().dom().contains(q)
                        ==> power_of(self.registry(), q) <= power_of(self.registry(), p)
            },
    {
        proof {
            lemma_as_map_len(self.peers@);
            lemma_as_map_len(self.current_work_distribution@);
        }
        if self.peers.len() == self.current_work_distribution.len() {
            return None;
        }
        let mut best: Option<usize> = None;
        let mut i: usize = 0;
        while i < self.peers.len()
            invariant
                self.wf(),
                i <= self.peers@.len(),
                match best {
                    Some(b) => b < i && !has_key(
                        self.current_work_distribution@,
                        self.peers@[b as int].0,
                    ) && (forall|j: int|
                        0 <= j < i && !has_key(
                            self.current_work_distribution@,
                            (#[trigger] self.peers@[j]).0,
                        ) ==> self.peers@[j].1.capacity() <= self.peers@[b as int].1.capacity()),
                    None => forall|j: int|
                        0 <= j < i ==> has_key(
                            self.current_work_distribution@,
                            (#[trigger] self.peers@[j]).0,
                        ),
                },
            decreases self.peers@.len() - i,
        {
            let k = self.peers[i].0;
            match index_of_key(&self.current_work_distribution, k) {
                Some(at) => {
                    proof {
                        assert(self.current_work_distribution@[at as int].0 == k);
                        assert(has_key(self.current_work_distribution@, k));
                    }
                },
                None => {
                    match best {
                        None => {
                            best = Some(i);
                        },
                        Some(b) => {
                            if self.peers[b].1.value < self.peers[i].1.value {
                                best = Some(i);
                            }
                        },
                    }
                },
            }
            i = i + 1;
        }
        match best {
            Some(b) => {
                let p = self.peers[b].0;
                proof {
                    lemma_as_map_index(self.peers@, b as int);
                    lemma_as_map_dom(self.peers@);
                    lemma_as_map_dom(self.current_work_distribution@);
                    assert forall|q: u64|
                        self.registry().dom().contains(q) && !self.distribution().dom().contains(
                            q,
                        ) implies power_of(self.registry(), q) <= power_of(
                        self.registry(),
                        p,
                    ) by {
                        assert(has_key(self.peers@, q));
                        let j = choose|j: int|
                            0 <= j < self.peers@.len() && (#[trigger] self.peers@[j]).0 == q;
                        lemma_as_map_index(self.peers@, j);
                        assert(!has_key(self.current_work_distribution@, q));
                        assert(self.peers@[j].1.capacity() <= self.peers@[b as int].1.capacity());
                    }
                }
                Some(p)
            },
            None => {
                proof {
                    lemma_as_map_dom(self.current_work_distribution@);
                    lemma_busy_keys_cover(self.peers@, self.current_work_distribution@);
                    assert(false);
                }
                None
            },
        }
    }

    /// Among all peers — every one of which must currently hold an
    /// assignment — the peer with the highest ratio of assigned unit count
    /// to power: the one most loaded relative to its own capacity.  Ratios
    /// are compared by cross-multiplication (`busier_than`), a peer with no
    /// entry counts as holding zero units, and ties are broken by order of
    /// standing in the registry.  Nothing is returned exactly when the
    /// registry is empty.
    pub fn get_peer_high_less(&self) -> (r: Option<u64>)
        requires
            self.wf(),
            self.registry().dom().len() == self.distribution().dom().len(),
        ensures
            (r is None) <==> self.registry().dom().len() == 0,
            r matches Some(p) ==> {
                &&& self.registry().dom().contains(p)
                &&& forall|q: u64|
                    #[trigger] self.registry().dom().contains(q) ==> !busier_than(
                        assigned_of(self.distribution(), q),
                        power_of(self.registry(), q),
                        assigned_of(self.distribution(), p),
                        power_of(self.registry(), p),
                    )
            },
    {
        proof {
            lemma_as_map_len(self.peers@);
            lemma_as_map_len(self.current_work_distribution@);
        }
        if self.peers.len() == 0 {
            return None;
        }
        let mut best: usize = 0;
        proof {
            lemma_as_map_index(self.peers@, 0);
        }
        let mut i: usize = 1;
        while i < self.peers.len()
            invariant
                self.wf(),
                1 <= i <= self.peers@.len(),
                best < i,
                forall|j: int|
                    0 <= j < i ==> !busier_than(
                        assigned_of(self.distribution(), (#[trigger] self.peers@[j]).0),
                        power_of(self.registry(), self.peers@[j].0),
                        assigned_of(self.distribution(), self.peers@[best as int].0),
                        power_of(self.registry(), self.peers@[best as int].0),
                    ),
            decreases self.peers@.len() - i,
        {
            proof {
                lemma_as_map_index(self.peers@, i as int);
                lemma_as_map_index(self.peers@, best as int);
            }
            let ck = self.peers[i].0;
            let cc = self.peers[i].1.value;
            let cw = self.assigned_count(ck);
            let bk = self.peers[best].0;
            let bc = self.peers[best].1.value;
            let bw = self.assigned_count(bk);
            if ratio_exceeds(cw, cc, bw, bc) {
                let ghost oldbest = best as int;
                best = i;
                proof {
                    assert forall|j: int|
                        0 <= j < i + 1 implies !busier_than(
                        assigned_of(self.distribution(), (#[trigger] self.peers@[j]).0),
                        power_of(self.registry(), self.peers@[j].0),
                        assigned_of(self.distribution(), self.peers@[best as int].0),
                        power_of(self.registry(), self.peers@[best as int].0),
                    ) by {
                        if j < i {
                            lemma_busier_step(
                                assigned_of(self.distribution(), self.peers@[j].0),
                                power_of(self.registry(), self.peers@[j].0),
                                assigned_of(self.distribution(), self.peers@[oldbest].0),
                                power_of(self.registry(), self.peers@[oldbest].0),
                                cw as nat,
                                cc as nat,
                            );
                        }
                    }
                }
            }
            i = i + 1;
        }
        let p = self.peers[best].0;
        proof {
            lemma_as_map_index(self.peers@, best as int);
            lemma_as_map_dom(self.peers@);
            assert forall|q: u64| #[trigger] self.registry().dom().contains(q) implies !busier_than(
                assigned_of(self.distribution(), q),
                power_of(self.registry(), q),
                assigned_of(self.distribution(), p),
                power_of(self.registry(), p),
            ) by {
                assert(has_key(self.peers@, q));
                let j = choose|j: int|
                    0 <= j < self.peers@.len() && (#[trigger] self.peers@[j]).0 == q;
                assert(self.peers@[j].0 == q);
            }
        }
        Some(p)
    }
}

/// The ledger accumulates: after a peer with no prior record completes the
/// units `w1` and then the units `w2`, its ledger entry holds exactly the
/// units of `w1` followed by the units of `w2` — writing and then reading
/// returns the merged record.
pub proof fn lemma_ledger_accumulation(
    l0: Map<u64, Seq<Seq<u8>>>,
    peer: u64,
    w1: Seq<Seq<u8>>,
    w2: Seq<Seq<u8>>,
)
    requires
        !l0.dom().contains(peer),
    ensures
        ledger_after_completion(ledger_after_completion(l0, peer, w1), peer, w2)[peer] == w1 + w2,
{
    let l1 = ledger_after_completion(l0, peer, w1);
    assert(l1[peer] == Seq::<Seq<u8>>::empty() + w1);
    assert(Seq::<Seq<u8>>::empty() + w1 =~= w1);
}

/// A leave is idempotent: a second leave for the same peer finds it in
/// neither the registry nor the distribution, and so changes nothing — its
/// observable effect is that of the first leave alone.
pub proof fn lemma_peer_leave_idempotent<D: AccessDatabase>(
    s0: MiningPool<D>,
    s1: MiningPool<D>,
    s2: MiningPool<D>,
    peer: u64,
)
    requires
        MiningPool::<D>::peer_leave_post(s0, s1, peer),
        MiningPool::<D>::peer_leave_post(s1, s2, peer),
    ensures
        s2 == s1,
{
    assert(!s1.registry().dom().contains(peer));
    assert(!s1.distribution().dom().contains(peer));
}

/// Whether `w1 / c1` exceeds `w2 / c2` under cross-multiplication.
fn ratio_exceeds(w1: usize, c1: usize, w2: usize, c2: usize) -> (r: bool)
    ensures
        r == busier_than(w1 as nat, c1 as nat, w2 as nat, c2 as nat),
{
    proof {
        assert((w1 as u128) * (c2 as u128) <= u128::MAX && (w2 as u128) * (c1 as u128)
            <= u128::MAX) by (nonlinear_arith)
            requires
                w1 <= 0xffff_ffff_ffff_ffff,
                c2 <= 0xffff_ffff_ffff_ffff,
                w2 <= 0xffff_ffff_ffff_ffff,
                c1 <= 0xffff_ffff_ffff_ffff,
        ;
    }
    (w1 as u128) * (c2 as u128) > (w2 as u128) * (c1 as u128)
}

} // verus!
