//! The nack acceptor: promise/accept discipline with explicit negative
//! acknowledgement of stale messages.

use vstd::prelude::*;

use crate::model::{acc_out_msgs, acc_run, acc_step, AccState};
use crate::model::{
    acc_inv, acc_values_in, lemma_acc_run_confined, lemma_acc_run_inv, lemma_acc_run_monotone,
    lemma_acc_run_nacks_well_formed, lemma_acc_run_out, opt_epoch_le,
};
use crate::{acceptor_bound, Address, Body, Epoch, Header, HeaderV, Instant, Msg, MsgV, Node, Value};

verus! {

/// A passive state machine consuming Prepare and Propose, emitting Promise
/// and Accept.
pub struct Acceptor {
    address: Address,
    promised_epoch: Option<Epoch>,
    accepted: Option<(Epoch, Value)>,
    inbox: Vec<Msg>,
}

impl Acceptor {
    /// The epoch this acceptor has promised not to undercut.
    pub closed spec fn promised_v(&self) -> Option<Epoch> {
        self.promised_epoch
    }

    /// The proposal this acceptor has accepted, if any.
    pub closed spec fn accepted_v(&self) -> Option<(Epoch, Seq<char>)> {
        match self.accepted {
            Some((e, v)) => Some((e, v@)),
            None => None,
        }
    }

    /// The buffered, not yet processed messages.
    pub closed spec fn pending_v(&self) -> Seq<MsgV> {
        crate::views_of(self.inbox@)
    }

    pub closed spec fn addr_v(&self) -> Seq<char> {
        self.address@
    }

    pub open spec fn state_v(&self) -> AccState {
        AccState { promised: self.promised_v(), accepted: self.accepted_v() }
    }

    pub fn new(address: Address) -> (r: Acceptor)
        ensures
            r.addr_v() == address@,
            r.promised_v() is None,
            r.accepted_v() is None,
            r.pending_v() == Seq::<MsgV>::empty(),
            r.wf(),
            r.addr() == address@,
            r.pending() == Seq::<MsgV>::empty(),
            r.peers() == Seq::<Seq<char>>::empty(),
            forall|vs: Seq<Seq<char>>| #[trigger] r.confined(vs),
    {
        let r = Acceptor { address, promised_epoch: None, accepted: None, inbox: Vec::new() };
        proof {
            assert(r.pending_v() =~= Seq::<MsgV>::empty());
        }
        r
    }

    pub fn address(&self) -> (r: Address)
        ensures
            r@ == self.addr_v(),
    {
        self.address.dup()
    }

    /// Drain the buffer and handle every message in arrival order.  The
    /// result is exactly what `acc_run` says: the promise only ever grows,
    /// and each reply goes back one tick later to the sender that caused it.
    pub fn process(&mut self, now: Instant) -> (out: Vec<Msg>)
        requires
            now.0 < u64::MAX,
            forall|i: int|
                0 <= i < old(self).pending_v().len() ==> acceptor_bound(
                    (#[trigger] old(self).pending_v()[i]).body,
                ),
        ensures
            ({
                let r = acc_run(true, old(self).state_v(), old(self).pending_v());
                &&& final(self).promised_v() == r.st.promised
                &&& final(self).accepted_v() == r.st.accepted
                &&& crate::views_of(out@) == acc_out_msgs(
                    old(self).addr_v(),
                    now.0,
                    r.out,
                )
            }),
            final(self).pending_v() == Seq::<MsgV>::empty(),
            final(self).addr_v() == old(self).addr_v(),
            opt_epoch_le(old(self).promised_v(), final(self).promised_v()),
            acc_inv(old(self).state_v()) ==> acc_inv(final(self).state_v()),
    {
        let ghost st0 = self.state_v();
        let mut msgs: Vec<Msg> = Vec::new();
        core::mem::swap(&mut msgs, &mut self.inbox);
        let ghost msgs_v = crate::views_of(msgs@);
        let mut out: Vec<Msg> = Vec::new();
        proof {
            assert(self.pending_v() =~= Seq::<MsgV>::empty());
            assert(msgs_v.take(0) =~= Seq::<MsgV>::empty());
            assert(crate::views_of(out@) =~= acc_out_msgs(
                self.addr_v(),
                now.0,
                acc_run(true, st0, msgs_v.take(0)).out,
            ));
        }
        for i in 0..msgs.len()
            invariant
                crate::views_of(msgs@) == msgs_v,
                forall|j: int| 0 <= j < msgs_v.len() ==> acceptor_bound((#[trigger] msgs_v[j]).body),
                self.pending_v() == Seq::<MsgV>::empty(),
                self.addr_v() == old(self).addr_v(),
                now.0 < u64::MAX,
                ({
                    let r = acc_run(true, st0, msgs_v.take(i as int));
                    &&& self.promised_v() == r.st.promised
                    &&& self.accepted_v() == r.st.accepted
                    &&& crate::views_of(out@) == acc_out_msgs(self.addr_v(), now.0, r.out)
                }),
        {
            proof {
                assert(msgs_v.take(i + 1).drop_last() =~= msgs_v.take(i as int));
                assert(msgs_v.take(i + 1).last() == msgs_v[i as int]);
                assert(msgs_v[i as int] == msgs@[i as int]@);
            }
            let ghost prev_out = crate::views_of(out@);
            let reply = self.process_msg(&msgs[i], now);
            match reply {
                Some(r) => {
                    out.push(r);
                    proof {
                        assert(crate::views_of(out@) =~= prev_out.push(
                            out@[out@.len() - 1]@,
                        ));
                        assert(crate::views_of(out@) =~= acc_out_msgs(
                            self.addr_v(),
                            now.0,
                            acc_run(true, st0, msgs_v.take(i + 1)).out,
                        ));
                    }
                },
                None => {
                    proof {
                        assert(crate::views_of(out@) =~= acc_out_msgs(
                            self.addr_v(),
                            now.0,
                            acc_run(true, st0, msgs_v.take(i + 1)).out,
                        ));
                    }
                },
            }
        }
        proof {
            assert(msgs_v.take(msgs@.len() as int) =~= msgs_v);
            assert(self.pending_v() =~= Seq::<MsgV>::empty());
            lemma_acc_run_monotone(true, st0, msgs_v);
            if acc_inv(st0) {
                lemma_acc_run_inv(true, st0, msgs_v);
            }
        }
        out
    }

    /// Handle one message, as `acc_step` says.
    fn process_msg(&mut self, m: &Msg, now: Instant) -> (reply: Option<Msg>)
        requires
            now.0 < u64::MAX,
        ensures
            ({
                let s = acc_step(true, old(self).state_v(), m@.body);
                &&& final(self).promised_v() == s.st.promised
                &&& final(self).accepted_v() == s.st.accepted
                &&& final(self).addr_v() == old(self).addr_v()
                &&& final(self).pending_v() == old(self).pending_v()
                &&& match s.reply {
                    Some(b) => reply matches Some(r) && r@ == (MsgV {
                        header: HeaderV {
                            from: old(self).addr_v(),
                            to: m@.header.from,
                            at: (now.0 + 1) as u64,
                        },
                        body: b,
                    }),
                    None => reply is None,
                }
            }),
    {
        match &m.body {
            Body::Prepare(e) => {
                if let Some(p) = &self.promised_epoch {
                    if *e < *p {
                        return Some(
                            Msg {
                                header: Header {
                                    from: self.address.dup(),
                                    to: m.header.from.dup(),
                                    at: now.plus(1),
                                },
                                body: Body::Nack(*e, *p),
                            },
                        );
                    }
                }
                self.promised_epoch = Some(*e);
                let acc = match &self.accepted {
                    Some((ae, av)) => Some((*ae, av.dup())),
                    None => None,
                };
                Some(
                    Msg {
                        header: Header {
                            from: self.address.dup(),
                            to: m.header.from.dup(),
                            at: now.plus(1),
                        },
                        body: Body::Promise(*e, acc),
                    },
                )
            },
            Body::Propose(e, v) => {
                if let Some(p) = &self.promised_epoch {
                    if *e < *p {
                        return Some(
                            Msg {
                                header: Header {
                                    from: self.address.dup(),
                                    to: m.header.from.dup(),
                                    at: now.plus(1),
                                },
                                body: Body::Nack(*e, *p),
                            },
                        );
                    }
                }
                // Accepting commits the acceptor at least as far as a
                // promise would: the promise rises to the accepted epoch.
                self.promised_epoch = Some(*e);
                self.accepted = Some((*e, v.dup()));
                Some(
                    Msg {
                        header: Header {
                            from: self.address.dup(),
                            to: m.header.from.dup(),
                            at: now.plus(1),
                        },
                        body: Body::Accept(*e),
                    },
                )
            },
            _ => None,
        }
    }
}

impl crate::Node for Acceptor {
    type StateV = AccState;

    open spec fn state(&self) -> AccState {
        self.state_v()
    }

    open spec fn wf(&self) -> bool {
        acc_inv(self.state_v()) && forall|i: int|
            0 <= i < self.pending_v().len() ==> acceptor_bound((#[trigger] self.pending_v()[i]).body)
    }

    open spec fn addr(&self) -> Seq<char> {
        self.addr_v()
    }

    open spec fn pending(&self) -> Seq<MsgV> {
        self.pending_v()
    }

    open spec fn peers(&self) -> Seq<Seq<char>> {
        Seq::empty()
    }

    open spec fn inbound(&self, m: MsgV) -> bool {
        acceptor_bound(m.body)
    }

    open spec fn confined(&self, vs: Seq<Seq<char>>) -> bool {
        acc_values_in(self.state_v(), vs) && forall|i: int|
            0 <= i < self.pending_v().len() ==> crate::body_values_in(
                (#[trigger] self.pending_v()[i]).body,
                vs,
            )
    }

    fn receive(&mut self, m: Msg) {
        self.inbox.push(m);
        proof {
            assert(self.pending_v() =~= old(self).pending_v().push(m@));
            assert forall|vs: Seq<Seq<char>>|
                #[trigger] old(self).confined(vs) && crate::body_values_in(m@.body, vs) implies self
                .confined(vs) by {
                assert forall|i: int|
                    0 <= i < self.pending_v().len() implies crate::body_values_in(
                    (#[trigger] self.pending_v()[i]).body,
                    vs,
                ) by {
                    if i < old(self).pending_v().len() {
                        assert(self.pending_v()[i] == old(self).pending_v()[i]);
                    }
                }
            }
        }
    }

    fn process(&mut self, now: Instant) -> (out: Vec<Msg>) {
        let ghost st0 = self.state_v();
        let ghost pending0 = self.pending_v();
        let out = self.process(now);
        proof {
            lemma_acc_run_out(true, st0, pending0);
            lemma_acc_run_nacks_well_formed(true, st0, pending0);
            let r = acc_run(true, st0, pending0);
            assert forall|i: int| 0 <= i < out@.len() implies crate::model::nack_well_formed(
                (#[trigger] out@[i])@.body,
            ) by {
                assert(crate::views_of(out@).len() == out@.len());
                assert(out@[i]@ == crate::views_of(out@)[i]);
                assert(out@[i]@ == acc_out_msgs(old(self).addr_v(), now.0, r.out)[i]);
                assert(out@[i]@.body == r.out[i].1);
            }
            assert forall|vs: Seq<Seq<char>>| #[trigger] old(self).confined(vs) implies self.confined(
                vs,
            ) && forall|i: int|
                0 <= i < out@.len() ==> crate::body_values_in((#[trigger] out@[i])@.body, vs) by {
                lemma_acc_run_confined(true, st0, pending0, vs);
                assert(self.pending_v().len() == 0);
                assert forall|i: int| 0 <= i < out@.len() implies crate::body_values_in(
                    (#[trigger] out@[i])@.body,
                    vs,
                ) by {
                    assert(crate::views_of(out@).len() == out@.len());
                    assert(acc_out_msgs(old(self).addr_v(), now.0, r.out).len() == r.out.len());
                    assert(out@[i]@ == crate::views_of(out@)[i]);
                    assert(out@[i]@ == acc_out_msgs(old(self).addr_v(), now.0, r.out)[i]);
                    assert(out@[i]@.body == r.out[i].1);
                }
            }
            assert forall|i: int| 0 <= i < out@.len() implies crate::emission_ok(
                (#[trigger] out@[i])@,
                old(self).addr_v(),
                Seq::<Seq<char>>::empty(),
                pending0,
                now.0,
            ) by {
                assert(crate::views_of(out@).len() == out@.len());
                assert(acc_out_msgs(old(self).addr_v(), now.0, r.out).len() == r.out.len());
                assert(i < r.out.len());
                assert(out@[i]@ == crate::views_of(out@)[i]);
                assert(out@[i]@ == acc_out_msgs(old(self).addr_v(), now.0, r.out)[i]);
                let rep = r.out[i];
                assert(rep.1.is_reply() && exists|j: int|
                    0 <= j < pending0.len() && (#[trigger] pending0[j]).body.is_to_acceptor()
                        && pending0[j].header.from == rep.0);
                assert(out@[i]@.header.at == now.0 + 1);
            }
        }
        out
    }
}

impl crate::Acceptor for Acceptor {
    proof fn inbound_is_acceptor_bound(&self, m: MsgV) {
    }
}

} // verus!
