//! The deterministic discrete-event simulator: a virtual clock, a
//! time-ordered message queue with reproducible per-message delay, a
//! termination rule that tells "no messages in flight" apart from "still
//! making progress via timeouts", and an end-of-run consensus checker.

use vstd::prelude::*;

use crate::{
    acceptor_bound, proposer_bound, views_of, Acceptor, Address, Body, BodyV, Instant, Msg, MsgV,
    Node, Proposer,
};

verus! {

/// Hard bound on the virtual clock, against pathological nontermination.
pub const SAFETY_CAP: u64 = 100_000;

/// Ticks of quiet after which a run counts as finished.  Needs to be larger
/// than the proposers' re-prepare timeout.
pub const QUIESCENCE_WINDOW: u64 = 100;

/// The largest delay ever added to a message in flight.
pub const MAX_MSG_DELAY: u64 = 5;

// Quantiles of the exponential distribution with rate one half, scaled to
// 2^16: the chance that a sample of it, rounded down, is at most k, for k
// from 0 to 4.  Everything beyond is truncated to `MAX_MSG_DELAY`.
pub const EXP_Q0: u64 = 25787;

pub const EXP_Q1: u64 = 41426;

pub const EXP_Q2: u64 = 50913;

pub const EXP_Q3: u64 = 56667;

pub const EXP_Q4: u64 = 60156;

/// The state transition of the delay generator.
pub open spec fn mix_state(s: u64) -> u64 {
    s.wrapping_add(0x9E37_79B9_7F4A_7C15)
}

/// The output derived from a state of the delay generator.
pub open spec fn mix_out(s: u64) -> u64 {
    let z1 = (s ^ (s >> 30)).wrapping_mul(0xBF58_476D_1D33_92D9);
    let z2 = (z1 ^ (z1 >> 27)).wrapping_mul(0x94D0_49BB_1331_11EB);
    z2 ^ (z2 >> 31)
}

/// The delay drawn from one output word: an approximation of an exponential
/// distribution with rate one half, truncated to `MAX_MSG_DELAY`.
pub open spec fn delay_of(u: u64) -> u64 {
    let q = u & 0xFFFF;
    if q < EXP_Q0 {
        0
    } else if q < EXP_Q1 {
        1
    } else if q < EXP_Q2 {
        2
    } else if q < EXP_Q3 {
        3
    } else if q < EXP_Q4 {
        4
    } else {
        5
    }
}

/// A seeded, explicitly threaded generator of message delays, so that a run
/// is reproducible from its seed.
pub struct DelayRng {
    state: u64,
}

impl DelayRng {
    pub closed spec fn state_v(&self) -> u64 {
        self.state
    }

    pub fn new(seed: u64) -> (r: DelayRng)
        ensures
            r.state_v() == seed,
    {
        DelayRng { state: seed }
    }

    /// Draw one delay and advance the state.
    pub fn delay(&mut self) -> (d: u64)
        ensures
            final(self).state_v() == mix_state(old(self).state_v()),
            d == delay_of(mix_out(final(self).state_v())),
            d <= MAX_MSG_DELAY,
    {
        self.state = self.state.wrapping_add(0x9E37_79B9_7F4A_7C15);
        let s = self.state;
        let z1 = (s ^ (s >> 30)).wrapping_mul(0xBF58_476D_1D33_92D9);
        let z2 = (z1 ^ (z1 >> 27)).wrapping_mul(0x94D0_49BB_1331_11EB);
        let u = z2 ^ (z2 >> 31);
        let q = u & 0xFFFF;
        if q < EXP_Q0 {
            0
        } else if q < EXP_Q1 {
            1
        } else if q < EXP_Q2 {
            2
        } else if q < EXP_Q3 {
            3
        } else if q < EXP_Q4 {
            4
        } else {
            5
        }
    }
}

/// One line of the log kept for diagnostics of a failed run.
#[derive(Debug)]
pub enum LogEntry {
    Simulation { proposers: usize, acceptors: usize, inbox: usize },
    Tick(Instant),
    Dispatch(Msg),
}

/// Why a finished run failed the consensus check.
#[derive(Debug, PartialEq, Eq, Structural)]
pub enum CorrectnessError {
    /// The run produced a different number of responses than requests.
    ResponseCount { expected: usize, got: usize },
    /// Two responses carried different values.
    ConflictingResponses,
    /// The decided value was not among the initially requested ones.
    UnproposedValue,
}

/// Where the dispatcher may send a message: requests and acceptor answers go
/// to a proposer named by `to`; Prepare and Propose go to an acceptor named
/// by `to` and come from a proposer; responses go to the run's record.  A
/// nack in flight names a strictly higher epoch than the one it declines,
/// as every acceptor builds them — so no nack can drag a proposer's epoch
/// backwards.
pub open spec fn route_ok(m: MsgV, ps: Seq<Seq<char>>, acs: Seq<Seq<char>>) -> bool {
    crate::model::nack_well_formed(m.body) && match m.body {
        BodyV::Request(_) => ps.contains(m.header.to),
        BodyV::Promise(_, _) => ps.contains(m.header.to),
        BodyV::Accept(_) => ps.contains(m.header.to),
        BodyV::Nack(_, _) => ps.contains(m.header.to),
        BodyV::Prepare(_) => acs.contains(m.header.to) && ps.contains(m.header.from),
        BodyV::Propose(_, _) => acs.contains(m.header.to) && ps.contains(m.header.from),
        BodyV::Response(_) => true,
    }
}

/// Messages in flight are ordered by their delivery instant.
pub open spec fn sorted_by_at(s: Seq<MsgV>) -> bool {
    forall|i: int, j: int|
        0 <= i && i <= j && j < s.len() ==> (#[trigger] s[i]).header.at <= (#[trigger] s[j]).header.at
}

/// The value carried by a request or a response.
pub open spec fn carried_value(b: BodyV) -> Seq<char> {
    match b {
        BodyV::Request(v) => v,
        BodyV::Response(v) => v,
        _ => Seq::empty(),
    }
}

/// The responses among a sequence of messages, in order.
pub open spec fn responses_of(s: Seq<MsgV>) -> Seq<MsgV>
    decreases s.len(),
{
    if s.len() == 0 {
        Seq::empty()
    } else {
        let r = responses_of(s.drop_last());
        if s.last().body is Response {
            r.push(s.last())
        } else {
            r
        }
    }
}

/// At most one distinct value: every two entries agree.
pub open spec fn all_equal(s: Seq<Seq<char>>) -> bool {
    forall|i: int, j: int|
        0 <= i < s.len() && 0 <= j < s.len() ==> (#[trigger] s[i]) == (#[trigger] s[j])
}

/// The addresses keying a population of nodes.
pub open spec fn key_views<T>(s: Seq<(Address, T)>) -> Seq<Seq<char>> {
    s.map_values(|pr: (Address, T)| pr.0@)
}

/// Insert a message behind every queued message that does not have to leave
/// later: the queue stays sorted, and ties keep their insertion order.
fn insert_by_at(inbox: &mut Vec<Msg>, m: Msg)
    requires
        sorted_by_at(views_of(old(inbox)@)),
    ensures
        sorted_by_at(views_of(final(inbox)@)),
        final(inbox)@.len() == old(inbox)@.len() + 1,
        forall|j: int|
            0 <= j < final(inbox)@.len() ==> (#[trigger] final(inbox)@[j])@ == m@ || old(
                inbox,
            )@.contains(final(inbox)@[j]),
        views_of(final(inbox)@).to_multiset() == views_of(old(inbox)@).to_multiset().insert(m@),
{
    let ghost pre = inbox@;
    let mut k = inbox.len();
    while k > 0 && inbox[k - 1].header.at.0 > m.header.at.0
        invariant
            k <= inbox@.len(),
            inbox@ == pre,
            forall|j: int|
                k <= j < inbox@.len() ==> (#[trigger] inbox@[j])@.header.at > m@.header.at,
        decreases k,
    {
        k = k - 1;
    }
    inbox.insert(k, m);
    proof {
        assert forall|i: int, j: int|
            0 <= i && i <= j && j < views_of(inbox@).len() implies (#[trigger] views_of(inbox@)[i]).header.at
            <= (#[trigger] views_of(inbox@)[j]).header.at by {
            assert(views_of(inbox@)[i] == inbox@[i]@);
            assert(views_of(inbox@)[j] == inbox@[j]@);
            if i < k && j < k {
                assert(inbox@[i] == pre[i] && inbox@[j] == pre[j]);
                assert(views_of(pre)[i] == pre[i]@ && views_of(pre)[j] == pre[j]@);
            } else if i < k && j == k {
                // everything before k does not leave later than m
                if k <= pre.len() && k > 0 {
                    assert(views_of(pre)[i] == pre[i]@ && views_of(pre)[k - 1] == pre[k - 1]@);
                }
            } else if i == k && j > k {
                assert(inbox@[j] == pre[j - 1]);
            } else if i < k && j > k {
                assert(inbox@[j] == pre[j - 1]);
                assert(views_of(pre)[i] == pre[i]@ && views_of(pre)[j - 1] == pre[j - 1]@);
            } else if i == k && j == k {
            } else {
                assert(inbox@[i] == pre[i - 1] && inbox@[j] == pre[j - 1]);
                assert(views_of(pre)[i - 1] == pre[i - 1]@ && views_of(pre)[j - 1] == pre[j - 1]@);
            }
        }
        assert forall|j: int| 0 <= j < inbox@.len() implies (#[trigger] inbox@[j])@ == m@
            || pre.contains(inbox@[j]) by {
            if j < k {
                assert(inbox@[j] == pre[j]);
            } else if j > k {
                assert(inbox@[j] == pre[j - 1]);
            }
        }
        broadcast use vstd::seq_lib::group_to_multiset_ensures;

        let vo = views_of(pre);
        let vf = views_of(inbox@);
        assert(vf =~= vo.insert(k as int, m@));
        assert(vf.remove(k as int) =~= vo);
        assert(vf[k as int] == m@);
        assert(vf.to_multiset().remove(m@) =~= vo.to_multiset());
        assert(vf.contains(m@));
        assert(vf.to_multiset().count(m@) > 0);
        assert(vf.to_multiset() =~= vo.to_multiset().insert(m@));
    }
}

/// What holds of one proposer entry: the node is well formed, it sits
/// under its own address, it broadcasts only to known acceptors, and it
/// buffers only proposer-bound messages.
pub open spec fn prop_entry_ok<P: Proposer>(pr: (Address, P), acs: Seq<Seq<char>>) -> bool {
    &&& pr.1.wf()
    &&& pr.1.addr() == pr.0@
    &&& forall|j: int| 0 <= j < pr.1.peers().len() ==> acs.contains(#[trigger] pr.1.peers()[j])
    &&& forall|j: int|
        0 <= j < pr.1.pending().len() ==> proposer_bound((#[trigger] pr.1.pending()[j]).body)
            && crate::model::nack_well_formed(pr.1.pending()[j].body)
}

/// What holds of one acceptor entry: the node is well formed, it sits under
/// its own address, it broadcasts to nobody, and it buffers only Prepare and
/// Propose sent by known proposers.
pub open spec fn acc_entry_ok<A: Acceptor>(ac: (Address, A), ps: Seq<Seq<char>>) -> bool {
    &&& ac.1.wf()
    &&& ac.1.addr() == ac.0@
    &&& ac.1.peers() == Seq::<Seq<char>>::empty()
    &&& forall|j: int|
        0 <= j < ac.1.pending().len() ==> acceptor_bound((#[trigger] ac.1.pending()[j]).body)
            && ps.contains(ac.1.pending()[j].header.from)
}

/// The simulator owns the virtual clock, the global time-ordered message
/// queue, the populations of proposers and acceptors, the recorded
/// responses, and the correctness checker.  Nodes are held and visited in a
/// fixed order, so a run is reproducible.
pub struct Simulator<P: Proposer, A: Acceptor> {
    now: Instant,
    msg_delay_rng: Option<DelayRng>,
    proposers: Vec<(Address, P)>,
    acceptors: Vec<(Address, A)>,
    inbox: Vec<Msg>,
    /// Requests passed to the Simulator beforehand.  Later used to check the
    /// correctness of the simulation.
    requests: Vec<Msg>,
    responses: Vec<Msg>,
    /// The last instant at which some node emitted a message.  An empty
    /// queue alone cannot end a run, because a proposer may still make
    /// progress through its timeout; quiet beyond the quiescence window can.
    last_progress_at: Instant,
    /// Log lines collected to be printed on failure.
    pub log: Vec<LogEntry>,
}

impl<P: Proposer, A: Acceptor> Simulator<P, A> {
    pub closed spec fn now_v(&self) -> u64 {
        self.now.0
    }

    pub closed spec fn last_progress_v(&self) -> u64 {
        self.last_progress_at.0
    }

    pub closed spec fn prop_addrs(&self) -> Seq<Seq<char>> {
        key_views(self.proposers@)
    }

    pub closed spec fn acc_addrs(&self) -> Seq<Seq<char>> {
        key_views(self.acceptors@)
    }

    pub closed spec fn inbox_v(&self) -> Seq<MsgV> {
        views_of(self.inbox@)
    }

    pub closed spec fn requests_v(&self) -> Seq<MsgV> {
        views_of(self.requests@)
    }

    pub closed spec fn responses_v(&self) -> Seq<MsgV> {
        views_of(self.responses@)
    }

    pub closed spec fn rng_v(&self) -> Option<u64> {
        match self.msg_delay_rng {
            Some(r) => Some(r.state_v()),
            None => None,
        }
    }

    /// The simulator's invariant, established by `new` and kept by every
    /// tick: the clock is bounded and ahead of the last progress, every node
    /// is well formed under its address, every message in flight can be
    /// routed, the queue is sorted by delivery instant, and the records hold
    /// requests and responses only.
    pub closed spec fn wf(&self) -> bool {
        &&& self.now_v() <= SAFETY_CAP + 1
        &&& self.last_progress_v() <= self.now_v()
        &&& forall|i: int|
            0 <= i < self.proposers@.len() ==> prop_entry_ok(
                #[trigger] self.proposers@[i],
                self.acc_addrs(),
            )
        &&& forall|i: int|
            0 <= i < self.acceptors@.len() ==> acc_entry_ok(
                #[trigger] self.acceptors@[i],
                self.prop_addrs(),
            )
        &&& forall|k: int|
            0 <= k < self.inbox_v().len() ==> route_ok(
                #[trigger] self.inbox_v()[k],
                self.prop_addrs(),
                self.acc_addrs(),
            )
        &&& sorted_by_at(self.inbox_v())
        &&& forall|k: int|
            0 <= k < self.responses_v().len() ==> (#[trigger] self.responses_v()[k]).body
                is Response
        &&& forall|k: int|
            0 <= k < self.requests_v().len() ==> (#[trigger] self.requests_v()[k]).body is Request
                && carried_value(self.requests_v()[k].body).len() > 0
        &&& forall|i: int|
            0 <= i < self.proposers@.len() ==> (#[trigger] self.proposers@[i]).1.confined(
                self.request_values(),
            )
        &&& forall|i: int|
            0 <= i < self.acceptors@.len() ==> (#[trigger] self.acceptors@[i]).1.confined(
                self.request_values(),
            )
        &&& forall|k: int|
            0 <= k < self.inbox_v().len() ==> crate::body_values_in(
                (#[trigger] self.inbox_v()[k]).body,
                self.request_values(),
            )
        &&& forall|k: int|
            0 <= k < self.responses_v().len() ==> crate::body_values_in(
                (#[trigger] self.responses_v()[k]).body,
                self.request_values(),
            )
    }

    /// Build a simulator over the given populations, with the requests
    /// pre-loaded into the queue.  The populations must be well formed:
    /// every node under its own address with an empty buffer, proposers
    /// broadcasting only to given acceptors, and every request aimed at a
    /// given proposer.
    pub fn new(
        proposers: Vec<(Address, P)>,
        acceptors: Vec<(Address, A)>,
        requests: Vec<Msg>,
        msg_delay_rng: Option<DelayRng>,
    ) -> (r: Simulator<P, A>)
        requires
            forall|i: int|
                0 <= i < proposers@.len() ==> {
                    let pr = #[trigger] proposers@[i];
                    pr.1.wf() && pr.1.addr() == pr.0@ && pr.1.pending() == Seq::<MsgV>::empty()
                        && (forall|vs: Seq<Seq<char>>| #[trigger] pr.1.confined(vs)) && forall|
                        j: int,
                    |
                        0 <= j < pr.1.peers().len() ==> key_views(acceptors@).contains(
                            #[trigger] pr.1.peers()[j],
                        )
                },
            forall|i: int|
                0 <= i < acceptors@.len() ==> {
                    let ac = #[trigger] acceptors@[i];
                    ac.1.wf() && ac.1.addr() == ac.0@ && ac.1.pending() == Seq::<MsgV>::empty()
                        && ac.1.peers() == Seq::<Seq<char>>::empty() && forall|vs: Seq<Seq<char>>|
                        #[trigger] ac.1.confined(vs)
                },
            forall|k: int|
                0 <= k < requests@.len() ==> (#[trigger] requests@[k])@.body is Request
                    && carried_value(requests@[k]@.body).len() > 0 && key_views(
                    proposers@,
                ).contains(requests@[k]@.header.to),
        ensures
            r.wf(),
            r.now_v() == 0,
            r.requests_v() == views_of(requests@),
            r.responses_v() == Seq::<MsgV>::empty(),
            r.prop_addrs() == key_views(proposers@),
            r.acc_addrs() == key_views(acceptors@),
            r.rng_v() == match msg_delay_rng {
                Some(g) => Some(g.state_v()),
                None => None::<u64>,
            },
            sorted_by_at(r.inbox_v()),
            r.inbox_v().len() == requests@.len(),
            r.inbox_v().to_multiset() == views_of(requests@).to_multiset(),
    {
        let mut inbox: Vec<Msg> = Vec::new();
        proof {
            broadcast use vstd::seq_lib::group_to_multiset_ensures;

            assert(views_of(inbox@) =~= Seq::<MsgV>::empty());
            assert(views_of(requests@.take(0)) =~= Seq::<MsgV>::empty());
            assert(views_of(inbox@).to_multiset() =~= views_of(requests@.take(0)).to_multiset());
        }
        // Init the queue with the given requests, ordered by arrival.
        for k in 0..requests.len()
            invariant
                sorted_by_at(views_of(inbox@)),
                inbox@.len() == k,
                views_of(inbox@).to_multiset() == views_of(requests@.take(k as int)).to_multiset(),
                forall|j: int|
                    0 <= j < inbox@.len() ==> requests@.contains(#[trigger] inbox@[j])
                        || exists|l: int|
                        0 <= l < requests@.len() && (#[trigger] inbox@[j])@ == requests@[l]@,
                forall|k2: int|
                    0 <= k2 < requests@.len() ==> (#[trigger] requests@[k2])@.body is Request
                        && key_views(proposers@).contains(requests@[k2]@.header.to),
        {
            let m = requests[k].dup();
            let ghost mv = m@;
            insert_by_at(&mut inbox, m);
            proof {
                broadcast use vstd::seq_lib::group_to_multiset_ensures;

                assert(mv == requests@[k as int]@);
                assert(views_of(requests@.take(k + 1)) =~= views_of(requests@.take(k as int)).push(
                    mv,
                ));
                assert(views_of(inbox@).to_multiset() =~= views_of(requests@.take(k + 1))
                    .to_multiset());
            }
        }
        proof {
            assert(requests@.take(requests@.len() as int) =~= requests@);
        }
        let r = Simulator {
            now: Instant(0),
            msg_delay_rng,
            proposers,
            acceptors,
            inbox,
            requests,
            responses: Vec::new(),
            last_progress_at: Instant(0),
            log: Vec::new(),
        };
        proof {
            assert(r.responses_v() =~= Seq::<MsgV>::empty());
            assert forall|k: int| 0 <= k < r.inbox_v().len() implies route_ok(
                #[trigger] r.inbox_v()[k],
                r.prop_addrs(),
                r.acc_addrs(),
            ) by {
                assert(r.inbox_v()[k] == r.inbox@[k]@);
                if r.requests@.contains(r.inbox@[k]) {
                    let l = choose|l: int|
                        0 <= l < r.requests@.len() && r.requests@[l] == r.inbox@[k];
                    assert(r.requests@[l]@.body is Request);
                } else {
                    let l = choose|l: int|
                        0 <= l < r.requests@.len() && (r.inbox@[k])@ == r.requests@[l]@;
                    assert(r.requests@[l]@.body is Request);
                }
            }
            assert forall|i: int| 0 <= i < r.proposers@.len() implies prop_entry_ok(
                #[trigger] r.proposers@[i],
                r.acc_addrs(),
            ) by {
                assert(r.proposers@[i] == proposers@[i]);
            }
            assert forall|i: int| 0 <= i < r.acceptors@.len() implies acc_entry_ok(
                #[trigger] r.acceptors@[i],
                r.prop_addrs(),
            ) by {
                assert(r.acceptors@[i] == acceptors@[i]);
            }
            assert forall|i: int| 0 <= i < r.proposers@.len() implies (
            #[trigger] r.proposers@[i]).1.confined(r.request_values()) by {
                assert(r.proposers@[i] == proposers@[i]);
                assert(proposers@[i].1.confined(r.request_values()));
            }
            assert forall|i: int| 0 <= i < r.acceptors@.len() implies (
            #[trigger] r.acceptors@[i]).1.confined(r.request_values()) by {
                assert(r.acceptors@[i] == acceptors@[i]);
                assert(acceptors@[i].1.confined(r.request_values()));
            }
            assert forall|k: int| 0 <= k < r.inbox_v().len() implies crate::body_values_in(
                (#[trigger] r.inbox_v()[k]).body,
                r.request_values(),
            ) by {
                assert(r.inbox_v()[k] == r.inbox@[k]@);
                let l = if r.requests@.contains(r.inbox@[k]) {
                    choose|l: int| 0 <= l < r.requests@.len() && r.requests@[l] == r.inbox@[k]
                } else {
                    choose|l: int| 0 <= l < r.requests@.len() && (r.inbox@[k])@ == r.requests@[l]@
                };
                assert(r.requests_v()[l] == r.requests@[l]@);
                assert(r.inbox_v()[k] == r.requests_v()[l]);
                assert(r.request_values()[l] == carried_value(r.requests_v()[l].body));
                assert(r.requests_v()[l].body is Request);
                assert(r.request_values().contains(r.request_values()[l]));
            }
        }
        r
    }

    /// Run the simulation to quiescence: tick until no message is in flight
    /// and nothing has been emitted for longer than the quiescence window,
    /// or until the safety cap on the clock.  The requests are kept for the
    /// correctness check.
    pub fn run(&mut self) -> (r: Result<(), ()>)
        requires
            old(self).wf(),
        ensures
            final(self).wf(),
            final(self).requests_v() == old(self).requests_v(),
            r is Ok,
            old(self).responses_v().is_prefix_of(final(self).responses_v()),
            old(self).now_v() <= SAFETY_CAP ==> final(self).now_v() > old(self).now_v(),
            old(self).now_v() <= SAFETY_CAP ==> forall|k: int|
                0 <= k < final(self).inbox_v().len() ==> (#[trigger] final(self).inbox_v()[k]).header.at
                    > final(self).now_v(),
            final(self).now_v() > SAFETY_CAP || (final(self).inbox_v().len() == 0
                && final(self).now_v() - final(self).last_progress_v() > QUIESCENCE_WINDOW),
            forall|k: int|
                0 <= k < final(self).response_values().len() ==> final(self).request_values()
                    .contains(#[trigger] final(self).response_values()[k]),
    {
        self.log.push(
            LogEntry::Simulation {
                proposers: self.proposers.len(),
                acceptors: self.acceptors.len(),
                inbox: self.inbox.len(),
            },
        );
        let ghost n0 = self.now_v();
        while self.now.0 <= SAFETY_CAP
            invariant
                self.wf(),
                self.requests_v() == old(self).requests_v(),
                old(self).responses_v().is_prefix_of(self.responses_v()),
                self.now_v() >= n0,
                n0 == old(self).now_v(),
                self.now_v() > n0 ==> forall|k: int|
                    0 <= k < self.inbox_v().len() ==> (#[trigger] self.inbox_v()[k]).header.at
                        > self.now_v(),
            ensures
                self.now_v() > SAFETY_CAP || (self.inbox@.len() == 0 && self.now_v()
                    - self.last_progress_v() > QUIESCENCE_WINDOW),
                self.now_v() > n0 || n0 > SAFETY_CAP,
                self.now_v() > n0 ==> forall|k: int|
                    0 <= k < self.inbox_v().len() ==> (#[trigger] self.inbox_v()[k]).header.at
                        > self.now_v(),
            decreases SAFETY_CAP + 1 - self.now_v(),
        {
            let _ = self.tick();

            // Check if there is any progress.
            if self.inbox.len() == 0 && self.now.0 - self.last_progress_at.0 > QUIESCENCE_WINDOW {
                break;
            }
        }
        proof {
            assert forall|k: int| 0 <= k < self.response_values().len() implies self
                .request_values().contains(#[trigger] self.response_values()[k]) by {
                assert(self.response_values()[k] == carried_value(self.responses_v()[k].body));
                assert(crate::body_values_in(self.responses_v()[k].body, self.request_values()));
                assert(self.responses_v()[k].body is Response);
            }
        }
        Ok(())
    }

    /// One tick: advance the clock, deliver every due message, invite every
    /// node to process, and queue what they emitted, delayed if a delay
    /// generator is present.
    fn tick(&mut self) -> (r: Ghost<(int, int)>)
        requires
            old(self).wf(),
            old(self).now_v() <= SAFETY_CAP,
        ensures
            final(self).wf(),
            final(self).now_v() == old(self).now_v() + 1,
            final(self).requests_v() == old(self).requests_v(),
            final(self).prop_addrs() == old(self).prop_addrs(),
            final(self).acc_addrs() == old(self).acc_addrs(),
            ({
                // n messages were due and left the queue; their Responses, in
                // queue order, are all the tick recorded; a messages were
                // emitted and queued; the emissions alone are progress.
                let (n, a) = r@;
                &&& 0 <= n <= old(self).inbox_v().len()
                &&& 0 <= a
                &&& forall|j: int|
                    0 <= j < n ==> (#[trigger] old(self).inbox_v()[j]).header.at <= old(
                        self,
                    ).now_v() + 1
                &&& (n < old(self).inbox_v().len() ==> old(self).inbox_v()[n].header.at > old(
                    self,
                ).now_v() + 1)
                &&& final(self).responses_v() == old(self).responses_v() + responses_of(
                    old(self).inbox_v().take(n),
                )
                &&& final(self).inbox_v().len() == old(self).inbox_v().len() - n + a
                &&& (a > 0 ==> final(self).last_progress_v() == old(self).now_v() + 1)
                &&& (a == 0 ==> final(self).last_progress_v() == old(self).last_progress_v()
                    && final(self).inbox_v() == old(self).inbox_v().skip(n))
            }),
            forall|k: int|
                0 <= k < final(self).inbox_v().len() ==> (#[trigger] final(self).inbox_v()[k]).header.at
                    > final(self).now_v(),
    {
        self.now = self.now.plus(1);
        self.log.push(LogEntry::Tick(self.now));
        proof {
            assert(self.wf());
        }

        // Dispatch messages.
        let n = self.dispatch_msgs();

        // Have entities process messages.
        let ghost pa = self.prop_addrs();
        let ghost aa = self.acc_addrs();
        let ghost rv = self.request_values();
        let ghost resp1 = self.responses_v();
        let ghost ib1 = self.inbox_v();
        let ghost lp0 = old(self).last_progress_v();
        let ghost nv = self.now_v();
        let mut new_msgs: Vec<Msg> = Vec::new();
        let np = self.proposers.len();
        for i in 0..np
            invariant
                self.wf(),
                np == self.proposers@.len(),
                self.prop_addrs() == pa,
                self.acc_addrs() == aa,
                self.now_v() == nv,
                1 <= nv <= SAFETY_CAP + 1,
                self.last_progress_v() <= nv,
                self.requests_v() == old(self).requests_v(),
                self.request_values() == rv,
                self.responses_v() == resp1,
                self.inbox_v() == ib1,
                self.last_progress_v() == lp0,
                forall|k: int|
                    0 <= k < new_msgs@.len() ==> route_ok((#[trigger] new_msgs@[k])@, pa, aa)
                        && new_msgs@[k]@.header.at == nv + 1 && crate::body_values_in(
                        new_msgs@[k]@.body,
                        rv,
                    ),
        {
            let ghost self0 = *self;
            let ghost node0 = self.proposers@[i as int].1;
            let ghost pend0 = node0.pending();
            proof {
                assert(prop_entry_ok(self.proposers@[i as int], aa));
            }
            let mut out = self.proposers[i].1.process(self.now);
            proof {
                let node1 = self.proposers@[i as int].1;
                assert(key_views(self.proposers@) =~= pa);
                assert(node0.confined(rv));
                assert(node1.confined(rv));
                assert forall|j: int| 0 <= j < self.proposers@.len() implies (
                #[trigger] self.proposers@[j]).1.confined(self.request_values()) by {
                    if j != i {
                        assert(self.proposers@[j] == self0.proposers@[j]);
                        assert(self0.proposers@[j].1.confined(rv));
                    }
                }
                assert forall|j: int| 0 <= j < self.acceptors@.len() implies (
                #[trigger] self.acceptors@[j]).1.confined(self.request_values()) by {
                    assert(self.acceptors@[j] == self0.acceptors@[j]);
                    assert(self0.acceptors@[j].1.confined(rv));
                }
                assert forall|j: int| 0 <= j < self.proposers@.len() implies prop_entry_ok(
                    #[trigger] self.proposers@[j],
                    self.acc_addrs(),
                ) by {
                    if j != i {
                        assert(self.proposers@[j] == self0.proposers@[j]);
                        assert(prop_entry_ok(self0.proposers@[j], self0.acc_addrs()));
                    } else {
                        assert forall|l: int| 0 <= l < node1.pending().len() implies proposer_bound(
                            (#[trigger] node1.pending()[l]).body,
                        ) && crate::model::nack_well_formed(node1.pending()[l].body) by {
                            assert(pend0.contains(node1.pending()[l]));
                            let w = choose|w: int| 0 <= w < pend0.len() && pend0[w]
                                == node1.pending()[l];
                            assert(proposer_bound(pend0[w].body));
                            assert(crate::model::nack_well_formed(pend0[w].body));
                        }
                    }
                }
                assert forall|j: int| 0 <= j < self.acceptors@.len() implies acc_entry_ok(
                    #[trigger] self.acceptors@[j],
                    self.prop_addrs(),
                ) by {
                    assert(self.acceptors@[j] == self0.acceptors@[j]);
                    assert(acc_entry_ok(self0.acceptors@[j], self0.prop_addrs()));
                }
                assert forall|k: int| 0 <= k < out@.len() implies route_ok(
                    (#[trigger] out@[k])@,
                    pa,
                    aa,
                ) && out@[k]@.header.at == nv + 1 && crate::body_values_in(out@[k]@.body, rv) by {
                    assert(crate::model::nack_well_formed(out@[k]@.body));
                    assert(crate::emission_ok(out@[k]@, node0.addr(), node0.peers(), pend0, nv));
                    let mv = out@[k]@;
                    if mv.body.is_to_acceptor() && node0.peers().contains(mv.header.to) {
                        let w = choose|w: int|
                            0 <= w < node0.peers().len() && node0.peers()[w] == mv.header.to;
                        assert(aa.contains(node0.peers()[w]));
                        assert(pa[i as int] == self0.proposers@[i as int].0@);
                        assert(pa.contains(mv.header.from));
                    } else if mv.body.is_reply() {
                        let w = choose|w: int|
                            0 <= w < pend0.len() && (#[trigger] pend0[w]).body.is_to_acceptor()
                                && pend0[w].header.from == mv.header.to;
                        assert(proposer_bound(pend0[w].body));
                        assert(false);
                    }
                }
            }
            new_msgs.append(&mut out);
        }
        let na = self.acceptors.len();
        for i in 0..na
            invariant
                self.wf(),
                na == self.acceptors@.len(),
                self.prop_addrs() == pa,
                self.acc_addrs() == aa,
                self.now_v() == nv,
                1 <= nv <= SAFETY_CAP + 1,
                self.last_progress_v() <= nv,
                self.requests_v() == old(self).requests_v(),
                self.request_values() == rv,
                self.responses_v() == resp1,
                self.inbox_v() == ib1,
                self.last_progress_v() == lp0,
                forall|k: int|
                    0 <= k < new_msgs@.len() ==> route_ok((#[trigger] new_msgs@[k])@, pa, aa)
                        && new_msgs@[k]@.header.at == nv + 1 && crate::body_values_in(
                        new_msgs@[k]@.body,
                        rv,
                    ),
        {
            let ghost self0 = *self;
            let ghost node0 = self.acceptors@[i as int].1;
            let ghost pend0 = node0.pending();
            proof {
                assert(acc_entry_ok(self.acceptors@[i as int], pa));
            }
            let mut out = self.acceptors[i].1.process(self.now);
            proof {
                let node1 = self.acceptors@[i as int].1;
                assert(key_views(self.acceptors@) =~= aa);
                assert(node0.confined(rv));
                assert(node1.confined(rv));
                assert forall|j: int| 0 <= j < self.acceptors@.len() implies (
                #[trigger] self.acceptors@[j]).1.confined(self.request_values()) by {
                    if j != i {
                        assert(self.acceptors@[j] == self0.acceptors@[j]);
                        assert(self0.acceptors@[j].1.confined(rv));
                    }
                }
                assert forall|j: int| 0 <= j < self.proposers@.len() implies (
                #[trigger] self.proposers@[j]).1.confined(self.request_values()) by {
                    assert(self.proposers@[j] == self0.proposers@[j]);
                    assert(self0.proposers@[j].1.confined(rv));
                }
                assert forall|j: int| 0 <= j < self.acceptors@.len() implies acc_entry_ok(
                    #[trigger] self.acceptors@[j],
                    self.prop_addrs(),
                ) by {
                    if j != i {
                        assert(self.acceptors@[j] == self0.acceptors@[j]);
                        assert(acc_entry_ok(self0.acceptors@[j], self0.prop_addrs()));
                    } else {
                        assert forall|l: int| 0 <= l < node1.pending().len() implies acceptor_bound(
                            (#[trigger] node1.pending()[l]).body,
                        ) && pa.contains(node1.pending()[l].header.from) by {
                            assert(pend0.contains(node1.pending()[l]));
                            let w = choose|w: int| 0 <= w < pend0.len() && pend0[w]
                                == node1.pending()[l];
                            assert(acceptor_bound(pend0[w].body));
                            assert(pa.contains(pend0[w].header.from));
                        }
                    }
                }
                assert forall|j: int| 0 <= j < self.proposers@.len() implies prop_entry_ok(
                    #[trigger] self.proposers@[j],
                    self.acc_addrs(),
                ) by {
                    assert(self.proposers@[j] == self0.proposers@[j]);
                    assert(prop_entry_ok(self0.proposers@[j], self0.acc_addrs()));
                }
                assert forall|k: int| 0 <= k < out@.len() implies route_ok(
                    (#[trigger] out@[k])@,
                    pa,
                    aa,
                ) && out@[k]@.header.at == nv + 1 by {
                    assert(crate::emission_ok(out@[k]@, node0.addr(), node0.peers(), pend0, nv));
                    let mv = out@[k]@;
                    if mv.body.is_to_acceptor() && node0.peers().contains(mv.header.to) {
                        let w = choose|w: int|
                            0 <= w < node0.peers().len() && node0.peers()[w] == mv.header.to;
                        assert(false);
                    } else if mv.body.is_reply() {
                        let w = choose|w: int|
                            0 <= w < pend0.len() && (#[trigger] pend0[w]).body.is_to_acceptor()
                                && pend0[w].header.from == mv.header.to;
                        assert(pa.contains(pend0[w].header.from));
                    }
                }
            }
            new_msgs.append(&mut out);
        }

        // Producing new messages is the run's overall progress.
        let ghost a: int = new_msgs@.len() as int;
        if new_msgs.len() > 0 {
            self.last_progress_at = self.now;
        }
        proof {
            assert forall|k: int| 0 <= k < self.inbox_v().len() implies (
            #[trigger] self.inbox_v()[k]).header.at > nv by {
                assert(ib1[k].header.at > nv);
            }
        }
        // Delay the new messages if a delay generator is set, and queue them.
        while new_msgs.len() > 0
            invariant
                self.wf(),
                self.prop_addrs() == pa,
                self.acc_addrs() == aa,
                self.now_v() == nv,
                1 <= nv <= SAFETY_CAP + 1,
                self.requests_v() == old(self).requests_v(),
                self.request_values() == rv,
                self.responses_v() == resp1,
                new_msgs@.len() <= a,
                self.inbox_v().len() == ib1.len() + a - new_msgs@.len(),
                a == 0 ==> self.inbox_v() == ib1,
                self.last_progress_v() == (if a > 0 {
                    nv as u64
                } else {
                    lp0
                }),
                forall|k: int|
                    0 <= k < self.inbox_v().len() ==> (#[trigger] self.inbox_v()[k]).header.at
                        > nv,
                forall|k: int|
                    0 <= k < new_msgs@.len() ==> route_ok((#[trigger] new_msgs@[k])@, pa, aa)
                        && new_msgs@[k]@.header.at == nv + 1 && crate::body_values_in(
                        new_msgs@[k]@.body,
                        rv,
                    ),
            decreases new_msgs@.len(),
        {
            let ghost nm0 = new_msgs@;
            let mut m = new_msgs.remove(0);
            let ghost mv0 = m@;
            proof {
                assert(mv0 == nm0[0]@);
                assert forall|k: int| 0 <= k < new_msgs@.len() implies route_ok(
                    (#[trigger] new_msgs@[k])@,
                    pa,
                    aa,
                ) && new_msgs@[k]@.header.at == nv + 1 && crate::body_values_in(
                    new_msgs@[k]@.body,
                    rv,
                ) by {
                    assert(new_msgs@[k] == nm0[k + 1]);
                }
            }
            match &mut self.msg_delay_rng {
                Some(rng) => {
                    let d = rng.delay();
                    m.header.at = m.header.at.plus(d);
                },
                None => {},
            }
            proof {
                assert(route_ok(m@, pa, aa));
                assert(crate::body_values_in(m@.body, rv));
            }
            let ghost pre_inbox = self.inbox@;
            insert_by_at(&mut self.inbox, m);
            proof {
                assert forall|k: int| 0 <= k < self.inbox_v().len() implies route_ok(
                    #[trigger] self.inbox_v()[k],
                    pa,
                    aa,
                ) && crate::body_values_in(self.inbox_v()[k].body, rv)
                    && self.inbox_v()[k].header.at > nv by {
                    assert(self.inbox_v()[k] == self.inbox@[k]@);
                    if pre_inbox.contains(self.inbox@[k]) {
                        let w = choose|w: int|
                            0 <= w < pre_inbox.len() && pre_inbox[w] == self.inbox@[k];
                        assert(views_of(pre_inbox)[w] == pre_inbox[w]@);
                    }
                }
            }
        }
        proof {
            if (n@) < old(self).inbox_v().len() {
                assert(ib1 == old(self).inbox_v().skip(n@));
                assert(ib1[0] == old(self).inbox_v().skip(n@)[0]);
                assert(old(self).inbox_v()[n@] == ib1[0]);
            }
        }
        Ghost((n@, a))
    }

    /// Pop and deliver every queued message whose instant has come: the
    /// first `n` queued messages, all due, leave the queue; the Responses
    /// among them join the record, in queue order; everything left lies
    /// strictly after the clock.
    fn dispatch_msgs(&mut self) -> (n: Ghost<int>)
        requires
            old(self).wf(),
        ensures
            final(self).wf(),
            final(self).now_v() == old(self).now_v(),
            final(self).last_progress_v() == old(self).last_progress_v(),
            final(self).prop_addrs() == old(self).prop_addrs(),
            final(self).acc_addrs() == old(self).acc_addrs(),
            final(self).requests_v() == old(self).requests_v(),
            final(self).rng_v() == old(self).rng_v(),
            0 <= n@ <= old(self).inbox_v().len(),
            final(self).inbox_v() == old(self).inbox_v().skip(n@),
            final(self).inbox_v().len() == old(self).inbox_v().len() - n@,
            forall|j: int|
                0 <= j < n@ ==> (#[trigger] old(self).inbox_v()[j]).header.at <= old(self).now_v(),
            final(self).responses_v() == old(self).responses_v() + responses_of(
                old(self).inbox_v().take(n@),
            ),
            forall|k: int|
                0 <= k < final(self).inbox_v().len() ==> (#[trigger] final(self).inbox_v()[k]).header.at
                    > old(self).now_v(),
    {
        let ghost inbox0 = self.inbox_v();
        let ghost resp0 = self.responses_v();
        let ghost mut n: int = 0;
        proof {
            assert(inbox0.take(0) =~= Seq::<MsgV>::empty());
            assert(self.responses_v() =~= resp0 + responses_of(inbox0.take(0)));
        }
        loop
            invariant
                self.wf(),
                self.now_v() == old(self).now_v(),
                self.last_progress_v() == old(self).last_progress_v(),
                self.prop_addrs() == old(self).prop_addrs(),
                self.acc_addrs() == old(self).acc_addrs(),
                self.requests_v() == old(self).requests_v(),
                self.rng_v() == old(self).rng_v(),
                inbox0 == old(self).inbox_v(),
                resp0 == old(self).responses_v(),
                0 <= n <= inbox0.len(),
                self.inbox_v() == inbox0.skip(n),
                forall|j: int| 0 <= j < n ==> (#[trigger] inbox0[j]).header.at <= self.now_v(),
                self.responses_v() == resp0 + responses_of(inbox0.take(n)),
            decreases self.inbox@.len(),
        {
            if self.inbox.len() == 0 {
                proof {
                    assert(self.inbox_v().len() == 0);
                }
                return Ghost(n);
            }
            if self.inbox[0].header.at.0 > self.now.0 {
                proof {
                    assert forall|k: int|
                        0 <= k < self.inbox_v().len() implies (#[trigger] self.inbox_v()[k]).header.at
                        > old(self).now_v() by {
                        assert(self.inbox_v()[0].header.at <= self.inbox_v()[k].header.at);
                        assert(self.inbox_v()[0] == self.inbox@[0]@);
                    }
                }
                return Ghost(n);
            }
            let ghost pre_inbox = self.inbox@;
            let ghost pre_resp = self.responses_v();
            let m = self.inbox.remove(0);
            self.log.push(LogEntry::Dispatch(m.dup()));
            proof {
                assert(m == pre_inbox[0]);
                assert(views_of(pre_inbox)[0] == pre_inbox[0]@);
                assert(route_ok(m@, self.prop_addrs(), self.acc_addrs()));
                assert(crate::body_values_in(m@.body, self.request_values()));
                assert forall|k: int| 0 <= k < self.inbox_v().len() implies route_ok(
                    #[trigger] self.inbox_v()[k],
                    self.prop_addrs(),
                    self.acc_addrs(),
                ) && crate::body_values_in(self.inbox_v()[k].body, self.request_values()) by {
                    assert(self.inbox@[k] == pre_inbox[k + 1]);
                    assert(self.inbox_v()[k] == self.inbox@[k]@);
                    assert(views_of(pre_inbox)[k + 1] == pre_inbox[k + 1]@);
                }
                assert forall|i: int, j: int|
                    0 <= i && i <= j && j < self.inbox_v().len() implies (#[trigger] self.inbox_v()[i]).header.at
                    <= (#[trigger] self.inbox_v()[j]).header.at by {
                    assert(self.inbox@[i] == pre_inbox[i + 1]);
                    assert(self.inbox@[j] == pre_inbox[j + 1]);
                    assert(views_of(pre_inbox)[i + 1] == pre_inbox[i + 1]@);
                    assert(views_of(pre_inbox)[j + 1] == pre_inbox[j + 1]@);
                }
            }
            proof {
                assert forall|k: int| 0 <= k < self.inbox_v().len() implies self.inbox_v()[k]
                    == inbox0.skip(n + 1)[k] by {
                    assert(self.inbox@[k] == pre_inbox[k + 1]);
                    assert(self.inbox_v()[k] == self.inbox@[k]@);
                    assert(views_of(pre_inbox)[k + 1] == pre_inbox[k + 1]@);
                }
                assert(self.inbox_v() =~= inbox0.skip(n + 1));
                assert(inbox0[n] == views_of(pre_inbox)[0]);
                assert(inbox0[n].header.at <= self.now_v());
            }
            self.dispatch_msg(m);
            proof {
                assert(inbox0.take(n + 1).drop_last() =~= inbox0.take(n));
                assert(inbox0.take(n + 1).last() == inbox0[n]);
                assert(m@ == inbox0[n]);
                assert(self.responses_v() =~= resp0 + responses_of(inbox0.take(n + 1)));
                n = n + 1;
            }
        }
    }

    /// Deliver one message by its body: requests and acceptor answers to the
    /// proposer it names, Prepare and Propose to the acceptor it names,
    /// responses to the run's record.
    fn dispatch_msg(&mut self, m: Msg)
        requires
            old(self).wf(),
            route_ok(m@, old(self).prop_addrs(), old(self).acc_addrs()),
            crate::body_values_in(m@.body, old(self).request_values()),
        ensures
            final(self).wf(),
            final(self).now_v() == old(self).now_v(),
            final(self).last_progress_v() == old(self).last_progress_v(),
            final(self).prop_addrs() == old(self).prop_addrs(),
            final(self).acc_addrs() == old(self).acc_addrs(),
            final(self).requests_v() == old(self).requests_v(),
            final(self).inbox_v() == old(self).inbox_v(),
            final(self).rng_v() == old(self).rng_v(),
            final(self).responses_v() == if m@.body is Response {
                old(self).responses_v().push(m@)
            } else {
                old(self).responses_v()
            },
    {
        let is_response = match &m.body {
            Body::Response(_) => true,
            _ => false,
        };
        if is_response {
            let ghost pre = self.responses@;
            self.responses.push(m);
            proof {
                crate::lemma_views_of_push(pre, m);
                assert forall|k: int| 0 <= k < self.responses_v().len() implies (
                #[trigger] self.responses_v()[k]).body is Response && crate::body_values_in(
                    self.responses_v()[k].body,
                    self.request_values(),
                ) by {
                    if k < views_of(pre).len() {
                        assert(self.responses_v()[k] == views_of(pre)[k]);
                    }
                }
            }
            return;
        }
        let to_acceptor = match &m.body {
            Body::Prepare(_) | Body::Propose(_, _) => true,
            _ => false,
        };
        if to_acceptor {
            self.dispatch_msg_to_acceptor(m);
        } else {
            self.dispatch_msg_to_proposer(m);
        }
    }

    fn dispatch_msg_to_proposer(&mut self, m: Msg)
        requires
            old(self).wf(),
            proposer_bound(m@.body),
            crate::model::nack_well_formed(m@.body),
            old(self).prop_addrs().contains(m@.header.to),
            crate::body_values_in(m@.body, old(self).request_values()),
        ensures
            final(self).wf(),
            final(self).now_v() == old(self).now_v(),
            final(self).last_progress_v() == old(self).last_progress_v(),
            final(self).prop_addrs() == old(self).prop_addrs(),
            final(self).acc_addrs() == old(self).acc_addrs(),
            final(self).requests_v() == old(self).requests_v(),
            final(self).inbox_v() == old(self).inbox_v(),
            final(self).responses_v() == old(self).responses_v(),
            final(self).rng_v() == old(self).rng_v(),
    {
        let ghost mv = m@;
        let n = self.proposers.len();
        let mut i: usize = 0;
        while i < n
            invariant
                i <= n,
                n == self.proposers@.len(),
                self == old(self),
                old(self).wf(),
                proposer_bound(mv.body),
                crate::model::nack_well_formed(mv.body),
                old(self).prop_addrs().contains(mv.header.to),
                crate::body_values_in(mv.body, old(self).request_values()),
                m@ == mv,
                forall|j: int| 0 <= j < i ==> (#[trigger] self.proposers@[j]).0@ != mv.header.to,
            decreases n - i,
        {
            if self.proposers[i].0 == m.header.to {
                proof {
                    self.proposers@[i as int].1.inbound_is_proposer_bound(mv);
                }
                self.proposers[i].1.receive(m);
                proof {
                    assert(key_views(self.proposers@) =~= old(self).prop_addrs());
                    assert forall|j: int| 0 <= j < self.proposers@.len() implies prop_entry_ok(
                        #[trigger] self.proposers@[j],
                        self.acc_addrs(),
                    ) by {
                        if j != i {
                            assert(self.proposers@[j] == old(self).proposers@[j]);
                            assert(prop_entry_ok(
                                old(self).proposers@[j],
                                old(self).acc_addrs(),
                            ));
                        } else {
                            let node0 = old(self).proposers@[j].1;
                            let node1 = self.proposers@[j].1;
                            assert(prop_entry_ok(
                                old(self).proposers@[j],
                                old(self).acc_addrs(),
                            ));
                            assert(node1.pending() == node0.pending().push(mv));
                            assert forall|l: int|
                                0 <= l < node1.pending().len() implies proposer_bound(
                                (#[trigger] node1.pending()[l]).body,
                            ) && crate::model::nack_well_formed(node1.pending()[l].body) by {
                                if l < node0.pending().len() {
                                    assert(node1.pending()[l] == node0.pending()[l]);
                                }
                            }
                        }
                    }
                    assert forall|j: int| 0 <= j < self.acceptors@.len() implies acc_entry_ok(
                        #[trigger] self.acceptors@[j],
                        self.prop_addrs(),
                    ) by {
                        assert(self.acceptors@[j] == old(self).acceptors@[j]);
                        assert(acc_entry_ok(old(self).acceptors@[j], old(self).prop_addrs()));
                    }
                    assert forall|j: int| 0 <= j < self.proposers@.len() implies (
                    #[trigger] self.proposers@[j]).1.confined(self.request_values()) by {
                        if j != i {
                            assert(self.proposers@[j] == old(self).proposers@[j]);
                        }
                        assert(old(self).proposers@[j].1.confined(old(self).request_values()));
                    }
                    assert forall|j: int| 0 <= j < self.acceptors@.len() implies (
                    #[trigger] self.acceptors@[j]).1.confined(self.request_values()) by {
                        assert(self.acceptors@[j] == old(self).acceptors@[j]);
                        assert(old(self).acceptors@[j].1.confined(old(self).request_values()));
                    }
                }
                return;
            }
            i = i + 1;
        }
        proof {
            let k = choose|k: int|
                0 <= k < old(self).prop_addrs().len() && old(self).prop_addrs()[k] == mv.header.to;
            assert(key_views(self.proposers@)[k] == self.proposers@[k].0@);
            assert(false);
        }
    }

    fn dispatch_msg_to_acceptor(&mut self, m: Msg)
        requires
            old(self).wf(),
            acceptor_bound(m@.body),
            old(self).acc_addrs().contains(m@.header.to),
            old(self).prop_addrs().contains(m@.header.from),
            crate::body_values_in(m@.body, old(self).request_values()),
        ensures
            final(self).wf(),
            final(self).now_v() == old(self).now_v(),
            final(self).last_progress_v() == old(self).last_progress_v(),
            final(self).prop_addrs() == old(self).prop_addrs(),
            final(self).acc_addrs() == old(self).acc_addrs(),
            final(self).requests_v() == old(self).requests_v(),
            final(self).inbox_v() == old(self).inbox_v(),
            final(self).responses_v() == old(self).responses_v(),
            final(self).rng_v() == old(self).rng_v(),
    {
        let ghost mv = m@;
        let n = self.acceptors.len();
        let mut i: usize = 0;
        while i < n
            invariant
                i <= n,
                n == self.acceptors@.len(),
                self == old(self),
                old(self).wf(),
                acceptor_bound(mv.body),
                old(self).acc_addrs().contains(mv.header.to),
                old(self).prop_addrs().contains(mv.header.from),
                crate::body_values_in(mv.body, old(self).request_values()),
                m@ == mv,
                forall|j: int| 0 <= j < i ==> (#[trigger] self.acceptors@[j]).0@ != mv.header.to,
            decreases n - i,
        {
            if self.acceptors[i].0 == m.header.to {
                proof {
                    self.acceptors@[i as int].1.inbound_is_acceptor_bound(mv);
                }
                self.acceptors[i].1.receive(m);
                proof {
                    assert(key_views(self.acceptors@) =~= old(self).acc_addrs());
                    assert forall|j: int| 0 <= j < self.acceptors@.len() implies acc_entry_ok(
                        #[trigger] self.acceptors@[j],
                        self.prop_addrs(),
                    ) by {
                        if j != i {
                            assert(self.acceptors@[j] == old(self).acceptors@[j]);
                            assert(acc_entry_ok(old(self).acceptors@[j], old(self).prop_addrs()));
                        } else {
                            let node0 = old(self).acceptors@[j].1;
                            let node1 = self.acceptors@[j].1;
                            assert(acc_entry_ok(old(self).acceptors@[j], old(self).prop_addrs()));
                            assert(node1.pending() == node0.pending().push(mv));
                            assert forall|l: int|
                                0 <= l < node1.pending().len() implies acceptor_bound(
                                (#[trigger] node1.pending()[l]).body,
                            ) && self.prop_addrs().contains(node1.pending()[l].header.from) by {
                                if l < node0.pending().len() {
                                    assert(node1.pending()[l] == node0.pending()[l]);
                                }
                            }
                        }
                    }
                    assert forall|j: int| 0 <= j < self.proposers@.len() implies prop_entry_ok(
                        #[trigger] self.proposers@[j],
                        self.acc_addrs(),
                    ) by {
                        assert(self.proposers@[j] == old(self).proposers@[j]);
                        assert(prop_entry_ok(old(self).proposers@[j], old(self).acc_addrs()));
                    }
                    assert forall|j: int| 0 <= j < self.acceptors@.len() implies (
                    #[trigger] self.acceptors@[j]).1.confined(self.request_values()) by {
                        if j != i {
                            assert(self.acceptors@[j] == old(self).acceptors@[j]);
                        }
                        assert(old(self).acceptors@[j].1.confined(old(self).request_values()));
                    }
                    assert forall|j: int| 0 <= j < self.proposers@.len() implies (
                    #[trigger] self.proposers@[j]).1.confined(self.request_values()) by {
                        assert(self.proposers@[j] == old(self).proposers@[j]);
                        assert(old(self).proposers@[j].1.confined(old(self).request_values()));
                    }
                }
                return;
            }
            i = i + 1;
        }
        proof {
            let k = choose|k: int|
                0 <= k < old(self).acc_addrs().len() && old(self).acc_addrs()[k] == mv.header.to;
            assert(key_views(self.acceptors@)[k] == self.acceptors@[k].0@);
            assert(false);
        }
    }

    /// The values carried by the recorded responses, in order.
    pub open spec fn response_values(&self) -> Seq<Seq<char>> {
        self.responses_v().map_values(|m: MsgV| carried_value(m.body))
    }

    /// The values carried by the initial requests, in order.
    pub open spec fn request_values(&self) -> Seq<Seq<char>> {
        self.requests_v().map_values(|m: MsgV| carried_value(m.body))
    }

    /// The definition of consensus this simulator checks: every request was
    /// eventually answered, all answers decided on one value, and the
    /// decided value was initially proposed.
    pub open spec fn consensus_ok(&self) -> bool {
        &&& self.responses_v().len() == self.requests_v().len()
        &&& all_equal(self.response_values())
        &&& (self.responses_v().len() > 0 ==> self.request_values().contains(
            self.response_values()[0],
        ))
    }

    /// Check that the past simulation is within the consistency guarantees
    /// we would like to achieve, and say precisely what went wrong if not:
    /// a missing or surplus response, two responses that disagree, or a
    /// response nobody asked for.
    pub fn ensure_correctness(&self) -> (r: Result<(), CorrectnessError>)
        requires
            self.wf(),
        ensures
            r == Ok::<(), CorrectnessError>(()) <==> self.consensus_ok(),
            r == Err::<(), CorrectnessError>(
                CorrectnessError::ResponseCount {
                    expected: (self.requests_v().len() as usize),
                    got: (self.responses_v().len() as usize),
                },
            ) <==> self.responses_v().len() != self.requests_v().len(),
            r == Err::<(), CorrectnessError>(CorrectnessError::ConflictingResponses) <==> (
            self.responses_v().len() == self.requests_v().len() && !all_equal(
                self.response_values(),
            )),
            r == Err::<(), CorrectnessError>(CorrectnessError::UnproposedValue) <==> (
            self.responses_v().len() == self.requests_v().len() && all_equal(
                self.response_values(),
            ) && self.responses_v().len() > 0 && !self.request_values().contains(
                self.response_values()[0],
            )),
    {
        let expected = self.requests.len();
        let got = self.responses.len();
        if got != expected {
            return Err(CorrectnessError::ResponseCount { expected, got });
        }
        if got == 0 {
            proof {
                assert(self.response_values().len() == 0);
            }
            return Ok(());
        }
        // All responses must agree with the first one.
        for i in 1..got
            invariant
                self.wf(),
                got == self.responses@.len(),
                got == self.requests@.len(),
                got > 0,
                forall|k: int|
                    1 <= k < i ==> #[trigger] self.response_values()[k]
                        == self.response_values()[0],
        {
            proof {
                assert(self.responses_v()[0].body is Response);
                assert(self.responses_v()[i as int].body is Response);
                assert(self.responses_v()[0] == self.responses@[0]@);
                assert(self.responses_v()[i as int] == self.responses@[i as int]@);
            }
            let eq = match (&self.responses[0].body, &self.responses[i].body) {
                (Body::Response(v0), Body::Response(vi)) => v0 == vi,
                _ => {
                    proof {
                        assert(false);
                    }
                    true
                },
            };
            if !eq {
                proof {
                    assert(self.response_values()[i as int] != self.response_values()[0]);
                }
                return Err(CorrectnessError::ConflictingResponses);
            }
            proof {
                assert(self.response_values()[i as int] == self.response_values()[0]);
            }
        }
        proof {
            assert forall|k: int, l: int|
                0 <= k < self.response_values().len() && 0 <= l < self.response_values().len()
                implies (#[trigger] self.response_values()[k]) == (
            #[trigger] self.response_values()[l]) by {
                assert(k == 0 || self.response_values()[k] == self.response_values()[0]);
                assert(l == 0 || self.response_values()[l] == self.response_values()[0]);
            }
        }
        // The decided value must have been initially proposed.
        let mut found = false;
        for j in 0..expected
            invariant
                self.wf(),
                got == self.responses@.len(),
                expected == self.requests@.len(),
                got > 0,
                found <==> exists|l: int|
                    0 <= l < j && #[trigger] self.request_values()[l]
                        == self.response_values()[0],
        {
            proof {
                assert(self.responses_v()[0].body is Response);
                assert(self.requests_v()[j as int].body is Request);
                assert(self.responses_v()[0] == self.responses@[0]@);
                assert(self.requests_v()[j as int] == self.requests@[j as int]@);
            }
            let eq = match (&self.responses[0].body, &self.requests[j].body) {
                (Body::Response(v0), Body::Request(rv)) => v0 == rv,
                _ => {
                    proof {
                        assert(false);
                    }
                    false
                },
            };
            if eq {
                found = true;
                proof {
                    assert(self.request_values()[j as int] == self.response_values()[0]);
                }
            }
        }
        if !found {
            proof {
                assert(self.request_values().len() == expected);
                assert(!self.request_values().contains(self.response_values()[0]));
            }
            return Err(CorrectnessError::UnproposedValue);
        }
        proof {
            let l = choose|l: int|
                0 <= l < expected && #[trigger] self.request_values()[l]
                    == self.response_values()[0];
            assert(self.request_values().contains(self.response_values()[0]));
        }
        Ok(())
    }

    /// The virtual clock.
    pub fn get_now(&self) -> (r: Instant)
        ensures
            r.0 == self.now_v(),
    {
        self.now
    }

    /// The responses recorded so far, in arrival order.
    pub fn responses(&self) -> (r: &Vec<Msg>)
        ensures
            views_of(r@) == self.responses_v(),
    {
        &self.responses
    }

    /// The requests the simulation was built over.
    pub fn requests(&self) -> (r: &Vec<Msg>)
        ensures
            views_of(r@) == self.requests_v(),
    {
        &self.requests
    }
}

} // verus!
