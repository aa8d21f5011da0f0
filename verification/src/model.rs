//! The mathematical model of the two node state machines.
//!
//! Both protocol variants run the same machines; a single flag selects
//! whether stale messages are rejected silently (classic) or answered with a
//! `Nack` (nack).  The executable acceptors and proposers are proved to
//! follow `acc_run` and `prop_process` exactly.

use vstd::prelude::*;

use crate::{proposer_bound, BodyV, Epoch, HeaderV, MsgV};

verus! {

/// Ticks without progress after which a proposer re-prepares.
pub const TIMEOUT: u64 = 10;

/// The number of acceptors that forms a quorum among `n`.
pub open spec fn majority(n: int) -> int {
    n / 2 + 1
}

/// The epoch a proposer moves to when it starts a fresh round: the counter
/// grows, the identifier never changes.
pub open spec fn bump(e: Epoch) -> Epoch {
    Epoch { epoch: e.epoch.saturating_add(1), identifier: e.identifier }
}

/// `a <= b` over optional epochs, with `None` below everything.
pub open spec fn opt_epoch_le(a: Option<Epoch>, b: Option<Epoch>) -> bool {
    match a {
        None => true,
        Some(ae) => match b {
            None => false,
            Some(be) => ae == be || ae.lt_spec(be),
        },
    }
}

// ------------------------------------------------------------------
// Acceptor
// ------------------------------------------------------------------

/// An acceptor's protocol state.
pub ghost struct AccState {
    pub promised: Option<Epoch>,
    pub accepted: Option<(Epoch, Seq<char>)>,
}

/// The result of handling one message: the new state and the reply body, if
/// any.
pub ghost struct AccStep {
    pub st: AccState,
    pub reply: Option<BodyV>,
}

/// An acceptor turns a message down when it has promised a strictly greater
/// epoch.  Note the strictness: at `promised == e` the acceptor re-promises
/// and re-replies, which makes Prepare idempotent.
pub open spec fn acc_refuses(promised: Option<Epoch>, e: Epoch) -> bool {
    match promised {
        Some(p) => e.lt_spec(p),
        None => false,
    }
}

/// What an acceptor answers when it refuses: silence in the classic variant,
/// a `Nack` carrying its current promise in the nack variant.
pub open spec fn acc_refusal(nack: bool, promised: Option<Epoch>, e: Epoch) -> Option<BodyV> {
    if nack {
        match promised {
            Some(p) => Some(BodyV::Nack(e, p)),
            None => None,
        }
    } else {
        None
    }
}

/// One acceptor handling step.
pub open spec fn acc_step(nack: bool, st: AccState, b: BodyV) -> AccStep {
    match b {
        BodyV::Prepare(e) => if acc_refuses(st.promised, e) {
            AccStep { st, reply: acc_refusal(nack, st.promised, e) }
        } else {
            AccStep {
                st: AccState { promised: Some(e), accepted: st.accepted },
                reply: Some(BodyV::Promise(e, st.accepted)),
            }
        },
        BodyV::Propose(e, v) => if acc_refuses(st.promised, e) {
            AccStep { st, reply: acc_refusal(nack, st.promised, e) }
        } else {
            // Accepting commits the acceptor at least as far as a promise
            // would: the promise rises to the accepted epoch, so the
            // accepted proposal never sits above the promise.
            AccStep {
                st: AccState { promised: Some(e), accepted: Some((e, v)) },
                reply: Some(BodyV::Accept(e)),
            }
        },
        _ => AccStep { st, reply: None },
    }
}

/// The result of an acceptor draining its buffer: the final state and the
/// replies, each as the destination address and the body.
pub ghost struct AccRun {
    pub st: AccState,
    pub out: Seq<(Seq<char>, BodyV)>,
}

/// An acceptor handles its buffered messages in arrival order; every reply
/// goes back to the sender of the message that caused it.
pub open spec fn acc_run(nack: bool, st: AccState, msgs: Seq<MsgV>) -> AccRun
    decreases msgs.len(),
{
    if msgs.len() == 0 {
        AccRun { st, out: Seq::empty() }
    } else {
        let prev = acc_run(nack, st, msgs.drop_last());
        let m = msgs.last();
        let s = acc_step(nack, prev.st, m.body);
        AccRun {
            st: s.st,
            out: match s.reply {
                Some(b) => prev.out.push((m.header.from, b)),
                None => prev.out,
            },
        }
    }
}

/// An acceptor never holds an accepted proposal above its promise: if it
/// has accepted at epoch `e`, it has promised at least `e`.
pub open spec fn acc_inv(st: AccState) -> bool {
    match st.accepted {
        Some((ae, _)) => match st.promised {
            Some(p) => epoch_le(ae, p),
            None => false,
        },
        None => true,
    }
}

/// One handling step keeps the accepted proposal under the promise.
pub proof fn lemma_acc_step_inv(nack: bool, st: AccState, b: BodyV)
    requires
        acc_inv(st),
    ensures
        acc_inv(acc_step(nack, st, b).st),
{
}

/// A whole run keeps the accepted proposal under the promise.
pub proof fn lemma_acc_run_inv(nack: bool, st: AccState, msgs: Seq<MsgV>)
    requires
        acc_inv(st),
    ensures
        acc_inv(acc_run(nack, st, msgs).st),
    decreases msgs.len(),
{
    if msgs.len() > 0 {
        lemma_acc_run_inv(nack, st, msgs.drop_last());
        lemma_acc_step_inv(nack, acc_run(nack, st, msgs.drop_last()).st, msgs.last().body);
    }
}

/// The messages an acceptor at `addr` sends for the replies of a run.
pub open spec fn acc_out_msgs(addr: Seq<char>, now: u64, replies: Seq<(Seq<char>, BodyV)>) -> Seq<
    MsgV,
> {
    Seq::new(
        replies.len(),
        |i: int|
            MsgV {
                header: HeaderV { from: addr, to: replies[i].0, at: (now + 1) as u64 },
                body: replies[i].1,
            },
    )
}

/// A promise never moves backwards: one step keeps `promised` non-decreasing.
pub proof fn lemma_acc_step_monotone(nack: bool, st: AccState, b: BodyV)
    ensures
        opt_epoch_le(st.promised, acc_step(nack, st, b).st.promised),
{
}

/// A promise never moves backwards over a whole run.
pub proof fn lemma_acc_run_monotone(nack: bool, st: AccState, msgs: Seq<MsgV>)
    ensures
        opt_epoch_le(st.promised, acc_run(nack, st, msgs).st.promised),
    decreases msgs.len(),
{
    if msgs.len() > 0 {
        lemma_acc_run_monotone(nack, st, msgs.drop_last());
        let prev = acc_run(nack, st, msgs.drop_last());
        lemma_acc_step_monotone(nack, prev.st, msgs.last().body);
    }
}

/// Every reply of a run answers the sender of some buffered Prepare or
/// Propose, and carries a reply body.
pub proof fn lemma_acc_run_out(nack: bool, st: AccState, msgs: Seq<MsgV>)
    ensures
        forall|k: int|
            0 <= k < acc_run(nack, st, msgs).out.len() ==> {
                let r = #[trigger] acc_run(nack, st, msgs).out[k];
                r.1.is_reply() && exists|j: int|
                    0 <= j < msgs.len() && (#[trigger] msgs[j]).body.is_to_acceptor()
                        && msgs[j].header.from == r.0
            },
    decreases msgs.len(),
{
    if msgs.len() > 0 {
        lemma_acc_run_out(nack, st, msgs.drop_last());
        let prev = acc_run(nack, st, msgs.drop_last());
        let m = msgs.last();
        let s = acc_step(nack, prev.st, m.body);
        assert forall|k: int| 0 <= k < acc_run(nack, st, msgs).out.len() implies {
            let r = #[trigger] acc_run(nack, st, msgs).out[k];
            r.1.is_reply() && exists|j: int|
                0 <= j < msgs.len() && (#[trigger] msgs[j]).body.is_to_acceptor()
                    && msgs[j].header.from == r.0
        } by {
            let r = acc_run(nack, st, msgs).out[k];
            if k < prev.out.len() {
                assert(r == prev.out[k]);
                let j = choose|j: int|
                    0 <= j < msgs.drop_last().len() && (#[trigger] msgs.drop_last()[j]).body
                        .is_to_acceptor() && msgs.drop_last()[j].header.from == r.0;
                assert(msgs[j] == msgs.drop_last()[j]);
            } else {
                assert(s.reply is Some && r == (m.header.from, s.reply.unwrap()));
                let j = msgs.len() - 1;
                assert(msgs[j].body.is_to_acceptor() && msgs[j].header.from == r.0);
            }
        }
    }
}

// ------------------------------------------------------------------
// Proposer
// ------------------------------------------------------------------

/// One collected promise: the promised epoch and what the promising acceptor
/// had already accepted, if anything.
pub ghost struct PromiseV {
    pub epoch: Epoch,
    pub accepted: Option<(Epoch, Seq<char>)>,
}

/// A proposer's mode, with the fields that belong to it.  The busy modes
/// carry the address of the client being served, so the response can go
/// back to it.
pub ghost enum PStateV {
    Idle,
    Preparing { last: u64, value: Seq<char>, client: Seq<char>, promises: Seq<PromiseV> },
    Proposing { last: u64, value: Seq<char>, client: Seq<char>, accepts: int },
}

impl PStateV {
    pub open spec fn last_progress_at(self) -> Option<u64> {
        match self {
            PStateV::Idle => None,
            PStateV::Preparing { last, .. } => Some(last),
            PStateV::Proposing { last, .. } => Some(last),
        }
    }

    pub open spec fn value(self) -> Option<Seq<char>> {
        match self {
            PStateV::Idle => None,
            PStateV::Preparing { value, .. } => Some(value),
            PStateV::Proposing { value, .. } => Some(value),
        }
    }

    /// The client being served, while busy.
    pub open spec fn client(self) -> Option<Seq<char>> {
        match self {
            PStateV::Idle => None,
            PStateV::Preparing { client, .. } => Some(client),
            PStateV::Proposing { client, .. } => Some(client),
        }
    }
}

/// What never changes about a proposer: its address and its acceptor list.
pub ghost struct PropCfg {
    pub addr: Seq<char>,
    pub acceptors: Seq<Seq<char>>,
}

/// A point in a proposer's handling of one tick: the current epoch and mode,
/// the messages put back into the buffer, and the messages emitted so far.
pub ghost struct PropRun {
    pub epoch: Epoch,
    pub state: PStateV,
    pub queue: Seq<MsgV>,
    pub out: Seq<MsgV>,
}

/// The same body broadcast to every acceptor, scheduled one tick ahead.
pub open spec fn broadcast_msgs(cfg: PropCfg, b: BodyV, now: u64) -> Seq<MsgV> {
    Seq::new(
        cfg.acceptors.len(),
        |i: int|
            MsgV {
                header: HeaderV { from: cfg.addr, to: cfg.acceptors[i], at: (now + 1) as u64 },
                body: b,
            },
    )
}

/// Among the accepted proposals reported by the collected promises, the one
/// with the highest epoch; ties cannot arise because epochs are unique.
pub open spec fn highest_accepted(ps: Seq<PromiseV>) -> Option<(Epoch, Seq<char>)>
    decreases ps.len(),
{
    if ps.len() == 0 {
        None
    } else {
        let prev = highest_accepted(ps.drop_last());
        match prev {
            Some((he, hv)) => match ps.last().accepted {
                Some((ae, av)) => if ae.lt_spec(he) {
                    Some((he, hv))
                } else {
                    Some((ae, av))
                },
                None => Some((he, hv)),
            },
            None => ps.last().accepted,
        }
    }
}

/// A client request: start preparing when idle, otherwise put the request
/// back to be served later — the proposer is sequential.
pub open spec fn step_request(cfg: PropCfg, s: PropRun, m: MsgV, v: Seq<char>, now: u64) -> PropRun {
    match s.state {
        PStateV::Idle => PropRun {
            epoch: s.epoch,
            state: PStateV::Preparing {
                last: now,
                value: v,
                client: m.header.from,
                promises: Seq::empty(),
            },
            queue: s.queue,
            out: s.out + broadcast_msgs(cfg, BodyV::Prepare(s.epoch), now),
        },
        _ => PropRun { epoch: s.epoch, state: s.state, queue: s.queue.push(m), out: s.out },
    }
}

/// A promise for the current epoch, while preparing, joins the collection;
/// on a quorum the proposer proposes the highest accepted value it heard of,
/// or its own.  Everything else is ignored.
pub open spec fn step_promise(
    cfg: PropCfg,
    s: PropRun,
    pe: Epoch,
    acc: Option<(Epoch, Seq<char>)>,
    now: u64,
) -> PropRun {
    if pe != s.epoch {
        s
    } else {
        match s.state {
            PStateV::Preparing { last, value, client, promises } => {
                let promises2 = promises.push(PromiseV { epoch: pe, accepted: acc });
                if promises2.len() < majority(cfg.acceptors.len() as int) {
                    PropRun {
                        epoch: s.epoch,
                        state: PStateV::Preparing { last: now, value, client, promises: promises2 },
                        queue: s.queue,
                        out: s.out,
                    }
                } else {
                    let chosen = match highest_accepted(promises2) {
                        Some((_, hv)) => hv,
                        None => value,
                    };
                    PropRun {
                        epoch: s.epoch,
                        state: PStateV::Proposing { last: now, value: chosen, client, accepts: 0 },
                        queue: s.queue,
                        out: s.out + broadcast_msgs(cfg, BodyV::Propose(s.epoch, chosen), now),
                    }
                }
            },
            _ => s,
        }
    }
}

/// An accept for the current epoch, while proposing, is counted; on a quorum
/// the decree is done: answer the client, go idle, move to a fresh epoch.
pub open spec fn step_accept(cfg: PropCfg, s: PropRun, e: Epoch, now: u64) -> PropRun {
    if e != s.epoch {
        s
    } else {
        match s.state {
            PStateV::Proposing { last, value, client, accepts } => {
                let accepts2 = accepts + 1;
                if accepts2 < majority(cfg.acceptors.len() as int) {
                    PropRun {
                        epoch: s.epoch,
                        state: PStateV::Proposing { last: now, value, client, accepts: accepts2 },
                        queue: s.queue,
                        out: s.out,
                    }
                } else {
                    PropRun {
                        epoch: bump(s.epoch),
                        state: PStateV::Idle,
                        queue: s.queue,
                        out: s.out.push(
                            MsgV {
                                header: HeaderV {
                                    from: cfg.addr,
                                    to: client,
                                    at: (now + 1) as u64,
                                },
                                body: BodyV::Response(value),
                            },
                        ),
                    }
                }
            },
            _ => s,
        }
    }
}

/// A nack for the current epoch, while busy, makes the proposer jump past
/// the higher epoch it was told of and re-prepare at once.  Handled by the
/// nack variant only; the classic variant never receives one.
pub open spec fn step_nack(cfg: PropCfg, s: PropRun, declined: Epoch, higher: Epoch, now: u64) -> PropRun {
    if declined != s.epoch {
        s
    } else {
        match s.state {
            PStateV::Idle => s,
            _ => {
                let e2 = Epoch {
                    epoch: higher.epoch.saturating_add(1),
                    identifier: s.epoch.identifier,
                };
                PropRun {
                    epoch: e2,
                    state: PStateV::Preparing {
                        last: now,
                        value: s.state.value().unwrap(),
                        client: s.state.client().unwrap(),
                        promises: Seq::empty(),
                    },
                    queue: s.queue,
                    out: s.out + broadcast_msgs(cfg, BodyV::Prepare(e2), now),
                }
            },
        }
    }
}

/// One proposer handling step, dispatching on the message body.
pub open spec fn prop_step(nack: bool, cfg: PropCfg, s: PropRun, m: MsgV, now: u64) -> PropRun {
    match m.body {
        BodyV::Request(v) => step_request(cfg, s, m, v, now),
        BodyV::Promise(pe, acc) => step_promise(cfg, s, pe, acc, now),
        BodyV::Accept(e) => step_accept(cfg, s, e, now),
        BodyV::Nack(e, h) => if nack {
            step_nack(cfg, s, e, h, now)
        } else {
            s
        },
        _ => s,
    }
}

/// A proposer handles its buffered messages in arrival order.
pub open spec fn prop_run(
    nack: bool,
    cfg: PropCfg,
    epoch: Epoch,
    state: PStateV,
    msgs: Seq<MsgV>,
    now: u64,
) -> PropRun
    decreases msgs.len(),
{
    if msgs.len() == 0 {
        PropRun { epoch, state, queue: Seq::empty(), out: Seq::empty() }
    } else {
        prop_step(nack, cfg, prop_run(nack, cfg, epoch, state, msgs.drop_last(), now), msgs.last(), now)
    }
}

/// A busy proposer has timed out when `TIMEOUT` or more ticks passed since
/// its last progress.  Idle never times out.
pub open spec fn prop_timed_out(state: PStateV, now: u64) -> bool {
    match state.last_progress_at() {
        None => false,
        Some(last) => now >= last + TIMEOUT,
    }
}

/// On a timeout the proposer moves to a fresh epoch and re-prepares with the
/// value it is serving.
pub open spec fn timeout_step(cfg: PropCfg, s: PropRun, now: u64) -> PropRun {
    let e2 = bump(s.epoch);
    PropRun {
        epoch: e2,
        state: PStateV::Preparing {
            last: now,
            value: s.state.value().unwrap(),
            client: s.state.client().unwrap(),
            promises: Seq::empty(),
        },
        queue: s.queue,
        out: s.out + broadcast_msgs(cfg, BodyV::Prepare(e2), now),
    }
}

/// A whole `process(now)` call: handle every buffered message, and only if
/// that emitted nothing, check the timeout.
pub open spec fn prop_process(
    nack: bool,
    cfg: PropCfg,
    epoch: Epoch,
    state: PStateV,
    msgs: Seq<MsgV>,
    now: u64,
) -> PropRun {
    let r = prop_run(nack, cfg, epoch, state, msgs, now);
    if r.out.len() == 0 && prop_timed_out(r.state, now) {
        timeout_step(cfg, r, now)
    } else {
        r
    }
}

/// One step only appends to the queue and the emissions; what it appends does
/// not depend on what was already there.
pub proof fn lemma_prop_step_frame(nack: bool, cfg: PropCfg, s: PropRun, m: MsgV, now: u64)
    ensures
        ({
            let base = prop_step(
                nack,
                cfg,
                PropRun { epoch: s.epoch, state: s.state, queue: Seq::empty(), out: Seq::empty() },
                m,
                now,
            );
            let r = prop_step(nack, cfg, s, m, now);
            r.epoch == base.epoch && r.state == base.state && r.queue == s.queue + base.queue
                && r.out == s.out + base.out
        }),
{
    let base = prop_step(
        nack,
        cfg,
        PropRun { epoch: s.epoch, state: s.state, queue: Seq::empty(), out: Seq::empty() },
        m,
        now,
    );
    let r = prop_step(nack, cfg, s, m, now);
    assert(r.queue =~= s.queue + base.queue);
    assert(r.out =~= s.out + base.out);
}

/// What stays queued over a run was among the handled messages.
pub proof fn lemma_prop_run_queue(
    nack: bool,
    cfg: PropCfg,
    epoch: Epoch,
    state: PStateV,
    msgs: Seq<MsgV>,
    now: u64,
)
    ensures
        forall|i: int|
            0 <= i < prop_run(nack, cfg, epoch, state, msgs, now).queue.len() ==> msgs.contains(
                #[trigger] prop_run(nack, cfg, epoch, state, msgs, now).queue[i],
            ),
    decreases msgs.len(),
{
    if msgs.len() > 0 {
        lemma_prop_run_queue(nack, cfg, epoch, state, msgs.drop_last(), now);
        let prev = prop_run(nack, cfg, epoch, state, msgs.drop_last(), now);
        let r = prop_run(nack, cfg, epoch, state, msgs, now);
        assert forall|i: int| 0 <= i < r.queue.len() implies msgs.contains(
            #[trigger] r.queue[i],
        ) by {
            if i < prev.queue.len() {
                assert(r.queue[i] == prev.queue[i]);
                let j = choose|j: int|
                    0 <= j < msgs.drop_last().len() && msgs.drop_last()[j] == prev.queue[i];
                assert(msgs[j] == prev.queue[i]);
            } else {
                assert(r.queue[i] == msgs.last());
                assert(msgs[msgs.len() - 1] == msgs.last());
            }
        }
    }
}

/// Every message emitted over a run is a response or a broadcast to the
/// proposer's acceptors, sent under the proposer's address one tick ahead.
pub open spec fn prop_emission_ok(m: MsgV, cfg: PropCfg, now: u64) -> bool {
    &&& m.header.from == cfg.addr
    &&& m.header.at == now + 1
    &&& (m.body is Response || (m.body.is_to_acceptor() && cfg.acceptors.contains(m.header.to)))
}

pub proof fn lemma_prop_run_out(
    nack: bool,
    cfg: PropCfg,
    epoch: Epoch,
    state: PStateV,
    msgs: Seq<MsgV>,
    now: u64,
)
    requires
        now < u64::MAX,
    ensures
        forall|i: int|
            0 <= i < prop_run(nack, cfg, epoch, state, msgs, now).out.len() ==> prop_emission_ok(
                #[trigger] prop_run(nack, cfg, epoch, state, msgs, now).out[i],
                cfg,
                now,
            ),
    decreases msgs.len(),
{
    if msgs.len() > 0 {
        lemma_prop_run_out(nack, cfg, epoch, state, msgs.drop_last(), now);
    }
}

/// Every message emitted by a whole `process(now)` call is a response or a
/// broadcast to the proposer's acceptors.
pub proof fn lemma_prop_process_out(
    nack: bool,
    cfg: PropCfg,
    epoch: Epoch,
    state: PStateV,
    msgs: Seq<MsgV>,
    now: u64,
)
    requires
        now < u64::MAX,
    ensures
        forall|i: int|
            0 <= i < prop_process(nack, cfg, epoch, state, msgs, now).out.len() ==> prop_emission_ok(
                #[trigger] prop_process(nack, cfg, epoch, state, msgs, now).out[i],
                cfg,
                now,
            ),
        prop_process(nack, cfg, epoch, state, msgs, now).queue == prop_run(
            nack,
            cfg,
            epoch,
            state,
            msgs,
            now,
        ).queue,
{
    lemma_prop_run_out(nack, cfg, epoch, state, msgs, now);
}

/// The identifier inside a proposer's epoch never changes, and every epoch
/// the proposer ever sends carries that identifier.  With identifiers unique
/// among proposers, no two proposers ever produce the same epoch.
pub open spec fn body_epoch(b: BodyV) -> Option<Epoch> {
    match b {
        BodyV::Prepare(e) => Some(e),
        BodyV::Propose(e, _) => Some(e),
        _ => None,
    }
}

pub proof fn lemma_prop_run_identifier(
    nack: bool,
    cfg: PropCfg,
    epoch: Epoch,
    state: PStateV,
    msgs: Seq<MsgV>,
    now: u64,
)
    ensures
        prop_run(nack, cfg, epoch, state, msgs, now).epoch.identifier == epoch.identifier,
        forall|i: int|
            0 <= i < prop_run(nack, cfg, epoch, state, msgs, now).out.len() ==> match body_epoch(
                (#[trigger] prop_run(nack, cfg, epoch, state, msgs, now).out[i]).body,
            ) {
                Some(e) => e.identifier == epoch.identifier,
                None => true,
            },
    decreases msgs.len(),
{
    if msgs.len() > 0 {
        lemma_prop_run_identifier(nack, cfg, epoch, state, msgs.drop_last(), now);
    }
}

/// `a <= b` over epochs.
pub open spec fn epoch_le(a: Epoch, b: Epoch) -> bool {
    a == b || a.lt_spec(b)
}

/// A nack names a strictly higher epoch than the one it declines.  This is
/// how every acceptor builds them.
pub open spec fn nack_well_formed(b: BodyV) -> bool {
    match b {
        BodyV::Nack(declined, higher) => declined.lt_spec(higher),
        _ => true,
    }
}

/// An acceptor's replies carry well-formed nacks only.
pub proof fn lemma_acc_run_nacks_well_formed(nack: bool, st: AccState, msgs: Seq<MsgV>)
    ensures
        forall|k: int|
            0 <= k < acc_run(nack, st, msgs).out.len() ==> nack_well_formed(
                (#[trigger] acc_run(nack, st, msgs).out[k]).1,
            ),
    decreases msgs.len(),
{
    if msgs.len() > 0 {
        lemma_acc_run_nacks_well_formed(nack, st, msgs.drop_last());
        let prev = acc_run(nack, st, msgs.drop_last());
        assert forall|k: int| 0 <= k < acc_run(nack, st, msgs).out.len() implies nack_well_formed(
            (#[trigger] acc_run(nack, st, msgs).out[k]).1,
        ) by {
            if k < prev.out.len() {
                assert(acc_run(nack, st, msgs).out[k] == prev.out[k]);
            }
        }
    }
}

/// A proposer's epoch never decreases across mode transitions, as long as
/// every nack handed to it names a higher epoch than the one it declines —
/// which acceptors guarantee.
pub proof fn lemma_prop_run_epoch_monotone(
    nack: bool,
    cfg: PropCfg,
    epoch: Epoch,
    state: PStateV,
    msgs: Seq<MsgV>,
    now: u64,
)
    requires
        forall|j: int| 0 <= j < msgs.len() ==> nack_well_formed((#[trigger] msgs[j]).body),
    ensures
        epoch_le(epoch, prop_run(nack, cfg, epoch, state, msgs, now).epoch),
    decreases msgs.len(),
{
    if msgs.len() > 0 {
        lemma_prop_run_epoch_monotone(nack, cfg, epoch, state, msgs.drop_last(), now);
        assert(nack_well_formed(msgs[msgs.len() - 1].body));
    }
}

/// As `lemma_prop_run_epoch_monotone`, for a whole `process(now)` call.
pub proof fn lemma_prop_process_epoch_monotone(
    nack: bool,
    cfg: PropCfg,
    epoch: Epoch,
    state: PStateV,
    msgs: Seq<MsgV>,
    now: u64,
)
    requires
        forall|j: int| 0 <= j < msgs.len() ==> nack_well_formed((#[trigger] msgs[j]).body),
    ensures
        epoch_le(epoch, prop_process(nack, cfg, epoch, state, msgs, now).epoch),
{
    lemma_prop_run_epoch_monotone(nack, cfg, epoch, state, msgs, now);
}

/// While busy, a proposer serves a value drawn from the request pool; with
/// every pool value non-empty, the value in `Preparing` and `Proposing` is
/// non-empty.  The simulator's invariant supplies both hypotheses, so the
/// rule holds of every run built over non-empty requests.
pub proof fn lemma_busy_value_nonempty(st: PStateV, vs: Seq<Seq<char>>)
    requires
        pstate_values_in(st, vs),
        forall|j: int| 0 <= j < vs.len() ==> (#[trigger] vs[j]).len() > 0,
        !(st is Idle),
    ensures
        st.value() matches Some(v) && v.len() > 0,
{
    let v = st.value().unwrap();
    assert(vs.contains(v));
    let j = choose|j: int| 0 <= j < vs.len() && vs[j] == v;
    assert(vs[j].len() > 0);
}

// ------------------------------------------------------------------
// Value provenance
// ------------------------------------------------------------------

/// Whether everything an acceptor's state holds is drawn from `vs`.
pub open spec fn acc_values_in(st: AccState, vs: Seq<Seq<char>>) -> bool {
    match st.accepted {
        Some((_, v)) => vs.contains(v),
        None => true,
    }
}

/// Whether everything a proposer's mode holds is drawn from `vs`.
pub open spec fn pstate_values_in(st: PStateV, vs: Seq<Seq<char>>) -> bool {
    match st {
        PStateV::Idle => true,
        PStateV::Preparing { value, promises, .. } => vs.contains(value) && forall|j: int|
            0 <= j < promises.len() ==> match (#[trigger] promises[j]).accepted {
                Some((_, v)) => vs.contains(v),
                None => true,
            },
        PStateV::Proposing { value, .. } => vs.contains(value),
    }
}

/// An acceptor draws no value out of thin air: handling messages whose
/// values stem from `vs`, from a state whose value stems from `vs`, it ends
/// in such a state and answers with such values only.
pub proof fn lemma_acc_run_confined(nack: bool, st: AccState, msgs: Seq<MsgV>, vs: Seq<Seq<char>>)
    requires
        acc_values_in(st, vs),
        forall|j: int| 0 <= j < msgs.len() ==> crate::body_values_in((#[trigger] msgs[j]).body, vs),
    ensures
        acc_values_in(acc_run(nack, st, msgs).st, vs),
        forall|k: int|
            0 <= k < acc_run(nack, st, msgs).out.len() ==> crate::body_values_in(
                (#[trigger] acc_run(nack, st, msgs).out[k]).1,
                vs,
            ),
    decreases msgs.len(),
{
    if msgs.len() > 0 {
        lemma_acc_run_confined(nack, st, msgs.drop_last(), vs);
        assert(crate::body_values_in(msgs[msgs.len() - 1].body, vs));
        let prev = acc_run(nack, st, msgs.drop_last());
        let s = acc_step(nack, prev.st, msgs.last().body);
        assert forall|k: int| 0 <= k < acc_run(nack, st, msgs).out.len() implies crate::body_values_in(
            (#[trigger] acc_run(nack, st, msgs).out[k]).1,
            vs,
        ) by {
            if k < prev.out.len() {
                assert(acc_run(nack, st, msgs).out[k] == prev.out[k]);
            }
        }
    }
}

/// The adopted proposal is one of the reported ones, so its value stems
/// from the same pool.
pub proof fn lemma_highest_accepted_confined(ps: Seq<PromiseV>, vs: Seq<Seq<char>>)
    requires
        forall|j: int|
            0 <= j < ps.len() ==> match (#[trigger] ps[j]).accepted {
                Some((_, v)) => vs.contains(v),
                None => true,
            },
    ensures
        match highest_accepted(ps) {
            Some((_, v)) => vs.contains(v),
            None => true,
        },
    decreases ps.len(),
{
    if ps.len() > 0 {
        lemma_highest_accepted_confined(ps.drop_last(), vs);
        assert(ps[ps.len() - 1] == ps.last());
    }
}

/// A proposer draws no value out of thin air: handling messages whose
/// values stem from `vs`, from a mode whose values stem from `vs`, it ends
/// in such a mode, requeues such messages, and emits such values only.
pub proof fn lemma_prop_run_confined(
    nack: bool,
    cfg: PropCfg,
    epoch: Epoch,
    state: PStateV,
    msgs: Seq<MsgV>,
    now: u64,
    vs: Seq<Seq<char>>,
)
    requires
        pstate_values_in(state, vs),
        forall|j: int| 0 <= j < msgs.len() ==> crate::body_values_in((#[trigger] msgs[j]).body, vs),
    ensures
        pstate_values_in(prop_run(nack, cfg, epoch, state, msgs, now).state, vs),
        forall|k: int|
            0 <= k < prop_run(nack, cfg, epoch, state, msgs, now).out.len()
                ==> crate::body_values_in(
                (#[trigger] prop_run(nack, cfg, epoch, state, msgs, now).out[k]).body,
                vs,
            ),
    decreases msgs.len(),
{
    if msgs.len() > 0 {
        lemma_prop_run_confined(nack, cfg, epoch, state, msgs.drop_last(), now, vs);
        assert(crate::body_values_in(msgs[msgs.len() - 1].body, vs));
        let prev = prop_run(nack, cfg, epoch, state, msgs.drop_last(), now);
        let m = msgs.last();
        let r = prop_run(nack, cfg, epoch, state, msgs, now);
        match m.body {
            BodyV::Promise(pe, acc) => match prev.state {
                PStateV::Preparing { promises: promises0, .. } => if pe == prev.epoch {
                    let promises2 = promises0.push(PromiseV { epoch: pe, accepted: acc });
                    assert forall|j: int| 0 <= j < promises2.len() implies match (
                    #[trigger] promises2[j]).accepted {
                        Some((_, v)) => vs.contains(v),
                        None => true,
                    } by {
                        if j < promises0.len() {
                            assert(promises2[j] == promises0[j]);
                        }
                    }
                    lemma_highest_accepted_confined(promises2, vs);
                },
                _ => {},
            },
            _ => {},
        }
        assert forall|k: int| 0 <= k < r.out.len() implies crate::body_values_in(
            (#[trigger] r.out[k]).body,
            vs,
        ) by {
            if k < prev.out.len() {
                assert(r.out[k] == prev.out[k]);
            }
        }
    }
}

/// As `lemma_prop_run_confined`, for a whole `process(now)` call.
pub proof fn lemma_prop_process_confined(
    nack: bool,
    cfg: PropCfg,
    epoch: Epoch,
    state: PStateV,
    msgs: Seq<MsgV>,
    now: u64,
    vs: Seq<Seq<char>>,
)
    requires
        pstate_values_in(state, vs),
        forall|j: int| 0 <= j < msgs.len() ==> crate::body_values_in((#[trigger] msgs[j]).body, vs),
    ensures
        pstate_values_in(prop_process(nack, cfg, epoch, state, msgs, now).state, vs),
        forall|k: int|
            0 <= k < prop_process(nack, cfg, epoch, state, msgs, now).out.len()
                ==> crate::body_values_in(
                (#[trigger] prop_process(nack, cfg, epoch, state, msgs, now).out[k]).body,
                vs,
            ),
{
    lemma_prop_run_confined(nack, cfg, epoch, state, msgs, now, vs);
    let r = prop_run(nack, cfg, epoch, state, msgs, now);
    if r.out.len() == 0 && prop_timed_out(r.state, now) {
        let t = timeout_step(cfg, r, now);
        assert forall|k: int| 0 <= k < t.out.len() implies crate::body_values_in(
            (#[trigger] t.out[k]).body,
            vs,
        ) by {
            if k < r.out.len() {
                assert(t.out[k] == r.out[k]);
            }
        }
    }
}

/// Proposer-epoch uniqueness: whatever two proposers with distinct
/// identifiers do in a tick, no Prepare or Propose of the one carries the
/// same epoch as a Prepare or Propose of the other, because every epoch a
/// proposer sends carries its own identifier.
pub proof fn lemma_epoch_uniqueness(
    nack1: bool,
    cfg1: PropCfg,
    e1: Epoch,
    st1: PStateV,
    msgs1: Seq<MsgV>,
    now1: u64,
    nack2: bool,
    cfg2: PropCfg,
    e2: Epoch,
    st2: PStateV,
    msgs2: Seq<MsgV>,
    now2: u64,
)
    requires
        e1.identifier != e2.identifier,
    ensures
        forall|i: int, j: int|
            0 <= i < prop_process(nack1, cfg1, e1, st1, msgs1, now1).out.len() && 0 <= j
                < prop_process(nack2, cfg2, e2, st2, msgs2, now2).out.len() ==> match (
            body_epoch((#[trigger] prop_process(nack1, cfg1, e1, st1, msgs1, now1).out[i]).body),
            body_epoch((#[trigger] prop_process(nack2, cfg2, e2, st2, msgs2, now2).out[j]).body),
            ) {
                (Some(a), Some(b)) => a != b,
                _ => true,
            },
        prop_process(nack1, cfg1, e1, st1, msgs1, now1).epoch.identifier == e1.identifier,
        prop_process(nack2, cfg2, e2, st2, msgs2, now2).epoch.identifier == e2.identifier,
{
    lemma_prop_process_identifier(nack1, cfg1, e1, st1, msgs1, now1);
    lemma_prop_process_identifier(nack2, cfg2, e2, st2, msgs2, now2);
}

/// Idempotence of Prepare at the promised epoch: an acceptor already at
/// `promised == e` answers `Prepare(e)` with `Promise(e, accepted)` and
/// changes nothing, so a second identical Prepare draws the identical
/// answer, with the same accepted proposal.
pub proof fn lemma_prepare_idempotent(nack: bool, e: Epoch, acc: Option<(Epoch, Seq<char>)>)
    ensures
        ({
            let st = AccState { promised: Some(e), accepted: acc };
            let s1 = acc_step(nack, st, BodyV::Prepare(e));
            let s2 = acc_step(nack, s1.st, BodyV::Prepare(e));
            &&& s1.reply == Some(BodyV::Promise(e, acc))
            &&& s1.st == st
            &&& s2.reply == Some(BodyV::Promise(e, acc))
            &&& s2.st == st
        }),
{
}

/// `a <= b` over optional accepted proposals, comparing their epochs, with
/// `None` below everything.
pub open spec fn opt_accepted_le(
    a: Option<(Epoch, Seq<char>)>,
    b: Option<(Epoch, Seq<char>)>,
) -> bool {
    match a {
        None => true,
        Some((ae, _)) => match b {
            None => false,
            Some((be, _)) => ae == be || ae.lt_spec(be),
        },
    }
}

/// While the promise stands still, the accepted proposal only moves
/// forward: any proposal accepted in the meantime sits at the promise
/// itself, which the invariant keeps at or above the old accepted epoch.
pub proof fn lemma_acc_run_accepted_monotone(nack: bool, st: AccState, msgs: Seq<MsgV>, e: Epoch)
    requires
        st.promised == Some(e),
        acc_inv(st),
    ensures
        acc_run(nack, st, msgs).st.promised == Some(e) ==> opt_accepted_le(
            st.accepted,
            acc_run(nack, st, msgs).st.accepted,
        ),
    decreases msgs.len(),
{
    if msgs.len() > 0 {
        let prev = acc_run(nack, st, msgs.drop_last());
        let fin = acc_run(nack, st, msgs).st;
        lemma_acc_run_accepted_monotone(nack, st, msgs.drop_last(), e);
        lemma_acc_run_monotone(nack, st, msgs.drop_last());
        lemma_acc_run_inv(nack, st, msgs.drop_last());
        lemma_acc_step_monotone(nack, prev.st, msgs.last().body);
        if fin.promised == Some(e) {
            // the promise never moved: it sat at `e` the whole way
            assert(prev.st.promised == Some(e));
        }
    }
}

/// Idempotence of Prepare at the promised epoch, under interference: if
/// other messages arrive between the two Prepares then — as long as the
/// promise still stands at `e` — the second Prepare is answered like the
/// first, with an accepted proposal at least as recent.  (Were the promise
/// raised past `e` in the meantime, the second Prepare would be refused, not
/// answered; the premise of the law rules that out.)
pub proof fn lemma_prepare_idempotent_under_interference(
    nack: bool,
    e: Epoch,
    st: AccState,
    mid: Seq<MsgV>,
)
    requires
        st.promised == Some(e),
        acc_inv(st),
    ensures
        ({
            let s1 = acc_step(nack, st, BodyV::Prepare(e));
            let rm = acc_run(nack, s1.st, mid);
            let s2 = acc_step(nack, rm.st, BodyV::Prepare(e));
            &&& s1.reply == Some(BodyV::Promise(e, st.accepted))
            &&& s1.st == st
            &&& (rm.st.promised == Some(e) ==> s2.reply == Some(
                BodyV::Promise(e, rm.st.accepted),
            ) && opt_accepted_le(st.accepted, rm.st.accepted))
        }),
{
    let s1 = acc_step(nack, st, BodyV::Prepare(e));
    lemma_acc_run_accepted_monotone(nack, s1.st, mid, e);
}

/// A fresh acceptor turns nothing down: a Prepare at any epoch draws a
/// Promise at once.
pub proof fn lemma_fresh_acceptor_promises(
    nack: bool,
    e: Epoch,
    acc: Option<(Epoch, Seq<char>)>,
)
    ensures
        acc_step(nack, AccState { promised: None, accepted: acc }, BodyV::Prepare(e)).reply
            == Some(BodyV::Promise(e, acc)),
        acc_step(nack, AccState { promised: None, accepted: acc }, BodyV::Prepare(e)).st.promised
            == Some(e),
{
}

/// With a single acceptor the quorum is one: the very first promise for the
/// current epoch moves a preparing proposer straight to proposing, with a
/// Propose broadcast.
pub proof fn lemma_single_acceptor_quorum(
    cfg: PropCfg,
    s: PropRun,
    pe: Epoch,
    acc: Option<(Epoch, Seq<char>)>,
    now: u64,
)
    requires
        cfg.acceptors.len() == 1,
        pe == s.epoch,
        s.state matches PStateV::Preparing { promises, .. } && promises.len() == 0,
    ensures
        majority(1) == 1,
        step_promise(cfg, s, pe, acc, now).state is Proposing,
        step_promise(cfg, s, pe, acc, now).out.len() == s.out.len() + 1,
{
    let r = step_promise(cfg, s, pe, acc, now);
    assert(r.out =~= s.out + broadcast_msgs(
        cfg,
        BodyV::Propose(s.epoch, r.state.value().unwrap()),
        now,
    ));
}

/// As `lemma_prop_run_identifier`, for a whole `process(now)` call.
pub proof fn lemma_prop_process_identifier(
    nack: bool,
    cfg: PropCfg,
    epoch: Epoch,
    state: PStateV,
    msgs: Seq<MsgV>,
    now: u64,
)
    ensures
        prop_process(nack, cfg, epoch, state, msgs, now).epoch.identifier == epoch.identifier,
        forall|i: int|
            0 <= i < prop_process(nack, cfg, epoch, state, msgs, now).out.len() ==> match body_epoch(
                (#[trigger] prop_process(nack, cfg, epoch, state, msgs, now).out[i]).body,
            ) {
                Some(e) => e.identifier == epoch.identifier,
                None => true,
            },
{
    lemma_prop_run_identifier(nack, cfg, epoch, state, msgs, now);
}

} // verus!
