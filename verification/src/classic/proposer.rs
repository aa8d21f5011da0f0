//! The classic proposer: a sequential, single-decree proposer with epoch
//! arithmetic, two-phase quorum collection, value adoption from prior
//! accepted proposals, and timeout-driven re-preparation.

use vstd::prelude::*;

use crate::model::{
    broadcast_msgs, bump, highest_accepted, lemma_prop_process_identifier, lemma_prop_process_out,
    lemma_prop_run_queue, lemma_prop_step_frame, majority, prop_process, prop_run, prop_step,
    prop_timed_out, timeout_step, PromiseV, PropCfg, PropRun, PStateV, TIMEOUT,
};
use crate::{
    accepted_view, addr_views, lemma_views_of_push, proposer_bound, views_of, Address, Body,
    BodyV, Epoch, Header, HeaderV, Instant, Msg, MsgV, Node, Value,
};

verus! {

/// A sequential proposer, handling a single request at a time.
pub struct Proposer {
    address: Address,
    pub acceptors: Vec<Address>,
    inbox: Vec<Msg>,
    epoch: Epoch,
    state: ProposerState,
}

enum ProposerState {
    Idle,
    /// Value to propose, the client being served, and promises received so
    /// far.
    Preparing { last_progress_at: Instant, value: Value, client: Address, promises: Vec<Promise> },
    Proposing { last_progress_at: Instant, value: Value, client: Address, received_accepts: usize },
}

struct Promise {
    epoch: Epoch,
    accepted: Option<(Epoch, Value)>,
}

/// The views of a sequence of collected promises.
closed spec fn promise_views(s: Seq<Promise>) -> Seq<PromiseV> {
    s.map_values(|p: Promise| PromiseV { epoch: p.epoch, accepted: accepted_view(p.accepted) })
}

/// The view of a proposer's mode.
closed spec fn pstate_view(st: ProposerState) -> PStateV {
    match st {
        ProposerState::Idle => PStateV::Idle,
        ProposerState::Preparing { last_progress_at, value, client, promises } => PStateV::Preparing {
            last: last_progress_at.0,
            value: value@,
            client: client@,
            promises: promise_views(promises@),
        },
        ProposerState::Proposing { last_progress_at, value, client, received_accepts } => PStateV::Proposing {
            last: last_progress_at.0,
            value: value@,
            client: client@,
            accepts: received_accepts as int,
        },
    }
}

impl ProposerState {
    fn last_progress_at(&self) -> (r: Option<Instant>)
        ensures
            pstate_view(*self).last_progress_at() == match r {
                Some(t) => Some(t.0),
                None => None::<u64>,
            },
    {
        match self {
            ProposerState::Idle => None,
            ProposerState::Preparing { last_progress_at, .. } => Some(*last_progress_at),
            ProposerState::Proposing { last_progress_at, .. } => Some(*last_progress_at),
        }
    }

    fn value(&self) -> (r: Option<Value>)
        ensures
            match r {
                Some(v) => pstate_view(*self).value() == Some(v@),
                None => pstate_view(*self).value() is None,
            },
    {
        match self {
            ProposerState::Idle => None,
            ProposerState::Preparing { value, .. } => Some(value.dup()),
            ProposerState::Proposing { value, .. } => Some(value.dup()),
        }
    }

    fn client(&self) -> (r: Option<Address>)
        ensures
            match r {
                Some(c) => pstate_view(*self).client() == Some(c@),
                None => pstate_view(*self).client() is None,
            },
    {
        match self {
            ProposerState::Idle => None,
            ProposerState::Preparing { client, .. } => Some(client.dup()),
            ProposerState::Proposing { client, .. } => Some(client.dup()),
        }
    }
}

impl Proposer {
    pub closed spec fn epoch_v(&self) -> Epoch {
        self.epoch
    }

    pub closed spec fn state_v(&self) -> PStateV {
        pstate_view(self.state)
    }

    pub closed spec fn pending_v(&self) -> Seq<MsgV> {
        views_of(self.inbox@)
    }

    pub closed spec fn addr_v(&self) -> Seq<char> {
        self.address@
    }

    pub closed spec fn acceptors_v(&self) -> Seq<Seq<char>> {
        addr_views(self.acceptors@)
    }

    /// What never changes: the address and the acceptor population.
    pub open spec fn cfg_v(&self) -> PropCfg {
        PropCfg { addr: self.addr_v(), acceptors: self.acceptors_v() }
    }

    /// The internal invariant: while proposing, the count of accepts stays
    /// below the quorum it is compared against.
    pub open spec fn wf_v(&self) -> bool {
        match self.state_v() {
            PStateV::Proposing { accepts, .. } => accepts < majority(self.acceptors_v().len() as int),
            _ => true,
        }
    }

    pub fn new(address: Address, initial_epoch: Epoch, acceptors: Vec<Address>) -> (r: Proposer)
        ensures
            r.addr_v() == address@,
            r.acceptors_v() == addr_views(acceptors@),
            r.epoch_v() == initial_epoch,
            r.state_v() == PStateV::Idle,
            r.pending_v() == Seq::<MsgV>::empty(),
            r.wf_v(),
            r.wf(),
            r.addr() == address@,
            r.pending() == Seq::<MsgV>::empty(),
            r.peers() == addr_views(acceptors@),
            forall|vs: Seq<Seq<char>>| #[trigger] r.confined(vs),
    {
        let r = Proposer {
            address,
            acceptors,
            inbox: Vec::new(),
            epoch: initial_epoch,
            state: ProposerState::Idle,
        };
        proof {
            assert(r.pending_v() =~= Seq::<MsgV>::empty());
        }
        r
    }

    /// Drain the buffer, handle every message in arrival order, and — only
    /// when that emitted nothing — re-prepare if the timeout has expired.
    /// The outcome is exactly `prop_process`.
    fn process(&mut self, now: Instant) -> (out: Vec<Msg>)
        requires
            old(self).wf_v(),
            now.0 < u64::MAX,
            forall|i: int|
                0 <= i < old(self).pending_v().len() ==> proposer_bound(
                    (#[trigger] old(self).pending_v()[i]).body,
                ),
        ensures
            ({
                let r = prop_process(
                    false,
                    old(self).cfg_v(),
                    old(self).epoch_v(),
                    old(self).state_v(),
                    old(self).pending_v(),
                    now.0,
                );
                &&& final(self).epoch_v() == r.epoch
                &&& final(self).state_v() == r.state
                &&& final(self).pending_v() == r.queue
                &&& views_of(out@) == r.out
            }),
            final(self).wf_v(),
            final(self).addr_v() == old(self).addr_v(),
            final(self).acceptors_v() == old(self).acceptors_v(),
    {
        let ghost cfg = self.cfg_v();
        let ghost e0 = self.epoch_v();
        let ghost st0 = self.state_v();
        let mut msgs: Vec<Msg> = Vec::new();
        core::mem::swap(&mut msgs, &mut self.inbox);
        let ghost msgs_v = views_of(msgs@);
        let mut out: Vec<Msg> = Vec::new();
        proof {
            assert(self.pending_v() =~= Seq::<MsgV>::empty());
            assert(msgs_v.take(0) =~= Seq::<MsgV>::empty());
            assert(views_of(out@) =~= Seq::<MsgV>::empty());
        }
        for i in 0..msgs.len()
            invariant
                views_of(msgs@) == msgs_v,
                forall|j: int| 0 <= j < msgs_v.len() ==> proposer_bound((#[trigger] msgs_v[j]).body),
                now.0 < u64::MAX,
                self.wf_v(),
                self.addr_v() == old(self).addr_v(),
                self.acceptors_v() == old(self).acceptors_v(),
                self.cfg_v() == cfg,
                ({
                    let r = prop_run(false, cfg, e0, st0, msgs_v.take(i as int), now.0);
                    &&& self.epoch_v() == r.epoch
                    &&& self.state_v() == r.state
                    &&& self.pending_v() == r.queue
                    &&& views_of(out@) == r.out
                }),
        {
            let ghost s_prev = PropRun {
                epoch: self.epoch_v(),
                state: self.state_v(),
                queue: self.pending_v(),
                out: views_of(out@),
            };
            let ghost prev_out = views_of(out@);
            proof {
                assert(msgs_v.take(i + 1).drop_last() =~= msgs_v.take(i as int));
                assert(msgs_v.take(i + 1).last() == msgs_v[i as int]);
                assert(msgs_v[i as int] == msgs@[i as int]@);
            }
            let mut fresh = self.process_msg(&msgs[i], now);
            proof {
                lemma_prop_step_frame(false, cfg, s_prev, msgs_v[i as int], now.0);
                lemma_prop_step_frame(
                    false,
                    cfg,
                    PropRun {
                        epoch: s_prev.epoch,
                        state: s_prev.state,
                        queue: s_prev.queue,
                        out: Seq::empty(),
                    },
                    msgs_v[i as int],
                    now.0,
                );
            }
            out.append(&mut fresh);
            proof {
                let r = prop_run(false, cfg, e0, st0, msgs_v.take(i + 1), now.0);
                assert(views_of(out@) =~= r.out);
            }
        }
        proof {
            assert(msgs_v.take(msgs@.len() as int) =~= msgs_v);
        }
        if out.len() == 0 {
            let lp = self.state.last_progress_at();
            match lp {
                Some(t) => {
                    if now.0 >= TIMEOUT && t.0 <= now.0 - TIMEOUT {
                        // We timed out - going back to preparing.
                        self.epoch = Epoch::new(
                            self.epoch.epoch.saturating_add(1),
                            self.epoch.identifier,
                        );
                        match (self.state.value(), self.state.client()) {
                            (Some(value), Some(client)) => {
                                self.state = ProposerState::Preparing {
                                    last_progress_at: now,
                                    value,
                                    client,
                                    promises: Vec::new(),
                                };
                                let body = Body::Prepare(self.epoch);
                                let bc = self.broadcast_to_acceptors(&body, now);
                                proof {
                                    assert(promise_views(Seq::<Promise>::empty())
                                        =~= Seq::<PromiseV>::empty());
                                    let r = prop_run(false, cfg, e0, st0, msgs_v, now.0);
                                    let t = timeout_step(cfg, r, now.0);
                                    assert(r.out =~= Seq::<MsgV>::empty());
                                    assert(r.out + broadcast_msgs(cfg, BodyV::Prepare(t.epoch), now.0)
                                        =~= broadcast_msgs(cfg, BodyV::Prepare(t.epoch), now.0));
                                    assert(self.state_v() == t.state);
                                    assert(views_of(bc@) == t.out);
                                }
                                return bc;
                            },
                            _ => {
                                proof {
                                    assert(false);
                                }
                            },
                        }
                    }
                },
                None => {},
            }
        }
        out
    }

    fn process_msg(&mut self, m: &Msg, now: Instant) -> (out: Vec<Msg>)
        requires
            old(self).wf_v(),
            proposer_bound(m@.body),
            now.0 < u64::MAX,
        ensures
            ({
                let s = prop_step(
                    false,
                    old(self).cfg_v(),
                    PropRun {
                        epoch: old(self).epoch_v(),
                        state: old(self).state_v(),
                        queue: old(self).pending_v(),
                        out: Seq::empty(),
                    },
                    m@,
                    now.0,
                );
                &&& final(self).epoch_v() == s.epoch
                &&& final(self).state_v() == s.state
                &&& final(self).pending_v() == s.queue
                &&& views_of(out@) == s.out
            }),
            final(self).wf_v(),
            final(self).addr_v() == old(self).addr_v(),
            final(self).acceptors_v() == old(self).acceptors_v(),
    {
        match &m.body {
            Body::Request(v) => self.process_request(&m.header, v, now),
            Body::Promise(promised_epoch, accepted) => {
                self.process_promise(*promised_epoch, accepted, now)
            },
            Body::Accept(epoch) => self.process_accept(*epoch, now),
            _ => {
                let out: Vec<Msg> = Vec::new();
                proof {
                    assert(views_of(out@) =~= Seq::<MsgV>::empty());
                }
                out
            },
        }
    }

    fn process_request(&mut self, header: &Header, value: &Value, now: Instant) -> (out: Vec<Msg>)
        requires
            old(self).wf_v(),
            now.0 < u64::MAX,
        ensures
            ({
                let s = step_request_of(old(self), header@, value@, now.0);
                &&& final(self).epoch_v() == s.epoch
                &&& final(self).state_v() == s.state
                &&& final(self).pending_v() == s.queue
                &&& views_of(out@) == s.out
            }),
            final(self).wf_v(),
            final(self).addr_v() == old(self).addr_v(),
            final(self).acceptors_v() == old(self).acceptors_v(),
    {
        match &self.state {
            ProposerState::Preparing { .. } | ProposerState::Proposing { .. } => {
                self.inbox.push(Msg { header: header.dup(), body: Body::Request(value.dup()) });
                let out: Vec<Msg> = Vec::new();
                proof {
                    assert(self.pending_v() =~= old(self).pending_v().push(
                        MsgV { header: header@, body: BodyV::Request(value@) },
                    ));
                    assert(views_of(out@) =~= Seq::<MsgV>::empty());
                }
                out
            },
            ProposerState::Idle => {
                self.state = ProposerState::Preparing {
                    last_progress_at: now,
                    value: value.dup(),
                    client: header.from.dup(),
                    promises: Vec::new(),
                };
                let body = Body::Prepare(self.epoch);
                let bc = self.broadcast_to_acceptors(&body, now);
                proof {
                    assert(promise_views(Seq::<Promise>::empty()) =~= Seq::<PromiseV>::empty());
                    assert(Seq::<MsgV>::empty() + broadcast_msgs(self.cfg_v(), body@, now.0)
                        =~= broadcast_msgs(self.cfg_v(), body@, now.0));
                }
                bc
            },
        }
    }

    fn process_promise(
        &mut self,
        promised_epoch: Epoch,
        accepted: &Option<(Epoch, Value)>,
        now: Instant,
    ) -> (out: Vec<Msg>)
        requires
            old(self).wf_v(),
            now.0 < u64::MAX,
        ensures
            ({
                let s = crate::model::step_promise(
                    old(self).cfg_v(),
                    PropRun {
                        epoch: old(self).epoch_v(),
                        state: old(self).state_v(),
                        queue: old(self).pending_v(),
                        out: Seq::empty(),
                    },
                    promised_epoch,
                    accepted_view(*accepted),
                    now.0,
                );
                &&& final(self).epoch_v() == s.epoch
                &&& final(self).state_v() == s.state
                &&& final(self).pending_v() == s.queue
                &&& views_of(out@) == s.out
            }),
            final(self).wf_v(),
            final(self).addr_v() == old(self).addr_v(),
            final(self).acceptors_v() == old(self).acceptors_v(),
    {
        let none: Vec<Msg> = Vec::new();
        proof {
            assert(views_of(none@) =~= Seq::<MsgV>::empty());
        }
        // Ignore any messages outside our current epoch.
        if promised_epoch != self.epoch {
            return none;
        }
        let mut st = ProposerState::Idle;
        core::mem::swap(&mut st, &mut self.state);
        match st {
            ProposerState::Idle | ProposerState::Proposing { .. } => {
                self.state = st;
                none
            },
            ProposerState::Preparing { value, client, mut promises, .. } => {
                let acc = match accepted {
                    Some((ae, av)) => Some((*ae, av.dup())),
                    None => None,
                };
                let ghost ps0 = promises@;
                promises.push(Promise { epoch: promised_epoch, accepted: acc });
                proof {
                    assert(self.acceptors_v().len() == self.acceptors@.len());
                    assert(promise_views(promises@) =~= promise_views(ps0).push(
                        PromiseV { epoch: promised_epoch, accepted: accepted_view(*accepted) },
                    ));
                }
                if promises.len() < self.acceptors.len() / 2 + 1 {
                    self.state = ProposerState::Preparing {
                        last_progress_at: now,
                        value,
                        client,
                        promises,
                    };
                    none
                } else {
                    let ghost promises_g = promise_views(promises@);
                    let chosen: Value = match Self::highest_of(&promises) {
                        Some((_, hv)) => hv,
                        None => value,
                    };
                    let propose_body = Body::Propose(self.epoch, chosen.dup());
                    self.state = ProposerState::Proposing {
                        last_progress_at: now,
                        value: chosen,
                        client,
                        received_accepts: 0,
                    };
                    let bc = self.broadcast_to_acceptors(&propose_body, now);
                    proof {
                        assert(Seq::<MsgV>::empty() + broadcast_msgs(
                            self.cfg_v(),
                            propose_body@,
                            now.0,
                        ) =~= broadcast_msgs(self.cfg_v(), propose_body@, now.0));
                    }
                    bc
                }
            },
        }
    }

    /// Among the collected promises, the accepted proposal with the highest
    /// epoch, if any promise reported one.
    fn highest_of(promises: &Vec<Promise>) -> (r: Option<(Epoch, Value)>)
        ensures
            accepted_view(r) == highest_accepted(promise_views(promises@)),
    {
        let mut h: Option<(Epoch, Value)> = None;
        proof {
            assert(promise_views(promises@).take(0) =~= Seq::<PromiseV>::empty());
        }
        for i in 0..promises.len()
            invariant
                accepted_view(h) == highest_accepted(promise_views(promises@).take(i as int)),
        {
            proof {
                assert(promise_views(promises@).take(i + 1).drop_last() =~= promise_views(
                    promises@,
                ).take(i as int));
                assert(promise_views(promises@).take(i + 1).last() == promise_views(promises@)[i as int]);
            }
            let replace = match (&h, &promises[i].accepted) {
                (Some((he, _)), Some((ae, _))) => !(*ae < *he),
                (Some(_), None) => false,
                (None, Some(_)) => true,
                (None, None) => false,
            };
            if replace {
                if let Some((ae, av)) = &promises[i].accepted {
                    h = Some((*ae, av.dup()));
                }
            }
        }
        proof {
            assert(promise_views(promises@).take(promises@.len() as int) =~= promise_views(
                promises@,
            ));
        }
        h
    }

    fn process_accept(&mut self, epoch: Epoch, now: Instant) -> (out: Vec<Msg>)
        requires
            old(self).wf_v(),
            now.0 < u64::MAX,
        ensures
            ({
                let s = crate::model::step_accept(
                    old(self).cfg_v(),
                    PropRun {
                        epoch: old(self).epoch_v(),
                        state: old(self).state_v(),
                        queue: old(self).pending_v(),
                        out: Seq::empty(),
                    },
                    epoch,
                    now.0,
                );
                &&& final(self).epoch_v() == s.epoch
                &&& final(self).state_v() == s.state
                &&& final(self).pending_v() == s.queue
                &&& views_of(out@) == s.out
            }),
            final(self).wf_v(),
            final(self).addr_v() == old(self).addr_v(),
            final(self).acceptors_v() == old(self).acceptors_v(),
    {
        let none: Vec<Msg> = Vec::new();
        proof {
            assert(views_of(none@) =~= Seq::<MsgV>::empty());
        }
        // Ignore any messages outside our current epoch.
        if epoch != self.epoch {
            return none;
        }
        let mut st = ProposerState::Idle;
        core::mem::swap(&mut st, &mut self.state);
        match st {
            ProposerState::Idle | ProposerState::Preparing { .. } => {
                self.state = st;
                none
            },
            ProposerState::Proposing { value, client, received_accepts, .. } => {
                proof {
                    assert(self.acceptors_v().len() == self.acceptors@.len());
                    assert((received_accepts as int) < majority(self.acceptors_v().len() as int));
                }
                let n = self.acceptors.len();
                let received_accepts = received_accepts + 1;
                if received_accepts < n / 2 + 1 {
                    self.state = ProposerState::Proposing {
                        value,
                        client,
                        received_accepts,
                        last_progress_at: now,
                    };
                    none
                } else {
                    self.epoch = Epoch::new(
                        self.epoch.epoch.saturating_add(1),
                        self.epoch.identifier,
                    );
                    self.state = ProposerState::Idle;
                    let mut out: Vec<Msg> = Vec::new();
                    out.push(
                        Msg {
                            header: Header {
                                from: self.address.dup(),
                                to: client,
                                at: now.plus(1),
                            },
                            body: Body::Response(value),
                        },
                    );
                    proof {
                        let s = crate::model::step_accept(
                            old(self).cfg_v(),
                            PropRun {
                                epoch: old(self).epoch_v(),
                                state: old(self).state_v(),
                                queue: old(self).pending_v(),
                                out: Seq::empty(),
                            },
                            epoch,
                            now.0,
                        );
                        assert(views_of(out@) =~= s.out);
                    }
                    out
                }
            },
        }
    }

    fn broadcast_to_acceptors(&self, b: &Body, now: Instant) -> (out: Vec<Msg>)
        requires
            now.0 < u64::MAX,
        ensures
            views_of(out@) == broadcast_msgs(self.cfg_v(), b@, now.0),
    {
        let mut out: Vec<Msg> = Vec::new();
        proof {
            assert(views_of(out@) =~= broadcast_msgs(self.cfg_v(), b@, now.0).take(0));
        }
        for i in 0..self.acceptors.len()
            invariant
                now.0 < u64::MAX,
                views_of(out@) == broadcast_msgs(self.cfg_v(), b@, now.0).take(i as int),
        {
            let ghost pre = out@;
            out.push(
                Msg {
                    header: Header {
                        from: self.address.dup(),
                        to: self.acceptors[i].dup(),
                        at: now.plus(1),
                    },
                    body: b.dup(),
                },
            );
            proof {
                let bm = broadcast_msgs(self.cfg_v(), b@, now.0);
                lemma_views_of_push(pre, out@[out@.len() - 1]);
                assert(out@[out@.len() - 1]@ == bm[i as int]);
                assert(views_of(out@) =~= bm.take(i + 1));
            }
        }
        proof {
            assert(broadcast_msgs(self.cfg_v(), b@, now.0).take(self.acceptors@.len() as int)
                =~= broadcast_msgs(self.cfg_v(), b@, now.0));
        }
        out
    }
}

/// `step_request` applied to a proposer about to handle a client request.
pub open spec fn step_request_of(p: &Proposer, h: HeaderV, v: Seq<char>, now: u64) -> PropRun {
    crate::model::step_request(
        p.cfg_v(),
        PropRun { epoch: p.epoch_v(), state: p.state_v(), queue: p.pending_v(), out: Seq::empty() },
        MsgV { header: h, body: BodyV::Request(v) },
        v,
        now,
    )
}

impl crate::Node for Proposer {
    type StateV = (Epoch, PStateV);

    open spec fn state(&self) -> (Epoch, PStateV) {
        (self.epoch_v(), self.state_v())
    }

    open spec fn wf(&self) -> bool {
        self.wf_v() && forall|i: int|
            0 <= i < self.pending_v().len() ==> proposer_bound((#[trigger] self.pending_v()[i]).body)
    }

    open spec fn addr(&self) -> Seq<char> {
        self.addr_v()
    }

    open spec fn pending(&self) -> Seq<MsgV> {
        self.pending_v()
    }

    open spec fn peers(&self) -> Seq<Seq<char>> {
        self.acceptors_v()
    }

    open spec fn inbound(&self, m: MsgV) -> bool {
        proposer_bound(m.body)
    }

    open spec fn confined(&self, vs: Seq<Seq<char>>) -> bool {
        crate::model::pstate_values_in(self.state_v(), vs) && forall|i: int|
            0 <= i < self.pending_v().len() ==> crate::body_values_in(
                (#[trigger] self.pending_v()[i]).body,
                vs,
            )
    }

    fn receive(&mut self, m: Msg) {
        self.inbox.push(m);
        proof {
            assert(self.pending_v() =~= old(self).pending_v().push(m@));
            assert forall|vs: Seq<Seq<char>>|
                #[trigger] old(self).confined(vs) && crate::body_values_in(m@.body, vs) implies self
                .confined(vs) by {
                assert forall|i: int|
                    0 <= i < self.pending_v().len() implies crate::body_values_in(
                    (#[trigger] self.pending_v()[i]).body,
                    vs,
                ) by {
                    if i < old(self).pending_v().len() {
                        assert(self.pending_v()[i] == old(self).pending_v()[i]);
                    }
                }
            }
        }
    }

    fn process(&mut self, now: Instant) -> (out: Vec<Msg>) {
        let ghost cfg = self.cfg_v();
        let ghost e0 = self.epoch_v();
        let ghost st0 = self.state_v();
        let ghost pending0 = self.pending_v();
        let out = self.process(now);
        proof {
            lemma_prop_process_out(false, cfg, e0, st0, pending0, now.0);
            lemma_prop_run_queue(false, cfg, e0, st0, pending0, now.0);
            let r = prop_process(false, cfg, e0, st0, pending0, now.0);
            assert forall|i: int| 0 <= i < out@.len() implies crate::emission_ok(
                (#[trigger] out@[i])@,
                old(self).addr_v(),
                old(self).acceptors_v(),
                pending0,
                now.0,
            ) by {
                assert(views_of(out@).len() == out@.len());
                assert(out@[i]@ == views_of(out@)[i]);
                assert(out@[i]@ == r.out[i]);
                assert(crate::model::prop_emission_ok(r.out[i], cfg, now.0));
            }
            assert forall|i: int| 0 <= i < self.pending_v().len() implies pending0.contains(
                #[trigger] self.pending_v()[i],
            ) by {
                assert(self.pending_v()[i] == prop_run(false, cfg, e0, st0, pending0, now.0).queue[i]);
            }
            assert forall|vs: Seq<Seq<char>>| #[trigger] old(self).confined(vs) implies self.confined(
                vs,
            ) && forall|i: int|
                0 <= i < out@.len() ==> crate::body_values_in((#[trigger] out@[i])@.body, vs) by {
                crate::model::lemma_prop_process_confined(false, cfg, e0, st0, pending0, now.0, vs);
                assert forall|i: int|
                    0 <= i < self.pending_v().len() implies crate::body_values_in(
                    (#[trigger] self.pending_v()[i]).body,
                    vs,
                ) by {
                    assert(pending0.contains(self.pending_v()[i]));
                    let w = choose|w: int| 0 <= w < pending0.len() && pending0[w]
                        == self.pending_v()[i];
                    assert(crate::body_values_in(pending0[w].body, vs));
                }
                assert forall|i: int| 0 <= i < out@.len() implies crate::body_values_in(
                    (#[trigger] out@[i])@.body,
                    vs,
                ) by {
                    assert(crate::views_of(out@).len() == out@.len());
                    assert(out@[i]@ == crate::views_of(out@)[i]);
                    assert(out@[i]@ == r.out[i]);
                }
            }
        }
        out
    }
}

impl crate::Proposer for Proposer {
    proof fn inbound_is_proposer_bound(&self, m: MsgV) {
    }
}

} // verus!
