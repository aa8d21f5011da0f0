//! A deterministic, discrete-event simulator for single-decree Paxos.
//!
//! Proposers and acceptors exchange messages through a virtual network; a
//! simulator owns the clock and the message queue and checks, at the end of a
//! run, that the protocol reached consensus.  Two protocol variants share the
//! framework: `classic` Paxos, whose acceptors reject stale messages silently,
//! and `nack` Paxos, whose acceptors answer them with an explicit negative
//! acknowledgement.

use vstd::prelude::*;

pub mod classic;
pub mod model;
pub mod nack;
pub mod simulator;

verus! {

/// Address names a node (or a client) on the virtual network.
#[derive(Debug)]
pub struct Address(String);

impl View for Address {
    type V = Seq<char>;

    closed spec fn view(&self) -> Seq<char> {
        self.0@
    }
}

impl Address {
    pub fn new(a: &str) -> (r: Address)
        ensures
            r@ == a@,
    {
        Address(a.to_owned())
    }

    /// An explicit copy; the view is preserved.
    pub fn dup(&self) -> (r: Address)
        ensures
            r@ == self@,
    {
        Address(self.0.clone())
    }
}

impl PartialEq for Address {
    fn eq(&self, other: &Address) -> (r: bool) {
        self.0 == other.0
    }
}

impl vstd::std_specs::cmp::PartialEqSpecImpl for Address {
    open spec fn obeys_eq_spec() -> bool {
        true
    }

    open spec fn eq_spec(&self, other: &Address) -> bool {
        self@ == other@
    }
}

/// Value is a client proposal: an opaque, equality-comparable byte sequence.
#[derive(Debug)]
pub struct Value(String);

impl View for Value {
    type V = Seq<char>;

    closed spec fn view(&self) -> Seq<char> {
        self.0@
    }
}

impl Value {
    pub fn new(v: &str) -> (r: Value)
        ensures
            r@ == v@,
    {
        Value(v.to_owned())
    }

    /// An explicit copy; the view is preserved.
    pub fn dup(&self) -> (r: Value)
        ensures
            r@ == self@,
    {
        Value(self.0.clone())
    }
}

impl PartialEq for Value {
    fn eq(&self, other: &Value) -> (r: bool) {
        self.0 == other.0
    }
}

impl vstd::std_specs::cmp::PartialEqSpecImpl for Value {
    open spec fn obeys_eq_spec() -> bool {
        true
    }

    open spec fn eq_spec(&self, other: &Value) -> bool {
        self@ == other@
    }
}

/// Instant is a point of monotonic virtual time.
#[derive(Clone, Copy, Debug, PartialEq, Eq, Structural)]
pub struct Instant(pub u64);

impl Instant {
    pub fn plus(self, d: u64) -> (r: Instant)
        requires
            self.0 + d <= u64::MAX,
        ensures
            r.0 == self.0 + d,
    {
        Instant(self.0 + d)
    }
}

/// Epoch is a ballot identifier: an increasing counter paired with a
/// proposer-specific identifier that partitions the global epoch set among
/// proposers, so that epochs form a total order with no ties.
#[derive(Clone, Copy, Debug, PartialEq, Eq, Structural)]
pub struct Epoch {
    pub epoch: u32,
    pub identifier: u32,
}

impl Epoch {
    pub fn new(epoch: u32, identifier: u32) -> (r: Epoch)
        ensures
            r == (Epoch { epoch, identifier }),
    {
        Epoch { epoch, identifier }
    }

    /// Lexicographic order on `(epoch, identifier)`.
    pub open spec fn lt_spec(self, other: Epoch) -> bool {
        self.epoch < other.epoch || (self.epoch == other.epoch && self.identifier
            < other.identifier)
    }
}

impl PartialOrd for Epoch {
    fn partial_cmp(&self, other: &Epoch) -> (r: Option<core::cmp::Ordering>) {
        if self.epoch < other.epoch {
            Some(core::cmp::Ordering::Less)
        } else if self.epoch > other.epoch {
            Some(core::cmp::Ordering::Greater)
        } else if self.identifier < other.identifier {
            Some(core::cmp::Ordering::Less)
        } else if self.identifier > other.identifier {
            Some(core::cmp::Ordering::Greater)
        } else {
            Some(core::cmp::Ordering::Equal)
        }
    }
}

impl vstd::std_specs::cmp::PartialOrdSpecImpl for Epoch {
    open spec fn obeys_partial_cmp_spec() -> bool {
        true
    }

    open spec fn partial_cmp_spec(&self, other: &Epoch) -> Option<core::cmp::Ordering> {
        if self.lt_spec(*other) {
            Some(core::cmp::Ordering::Less)
        } else if other.lt_spec(*self) {
            Some(core::cmp::Ordering::Greater)
        } else {
            Some(core::cmp::Ordering::Equal)
        }
    }
}

/// Header routes a message: sender, destination, and the earliest instant at
/// which the message may be delivered.
#[derive(Debug)]
pub struct Header {
    pub from: Address,
    pub to: Address,
    pub at: Instant,
}

/// The protocol messages of both variants.  `Nack` is emitted by the nack
/// variant only; classic acceptors reject stale messages silently.
#[derive(Debug)]
pub enum Body {
    /// Request by an end-user.
    Request(Value),
    /// Response by a proposer to an end-user.
    Response(Value),
    Prepare(Epoch),
    /// Promised epoch, accepted epoch, accepted value.
    Promise(Epoch, Option<(Epoch, Value)>),
    Propose(Epoch, Value),
    Accept(Epoch),
    /// Negative acknowledgment of either a Prepare or a Propose, sent by an
    /// acceptor to a proposer.  The first epoch is the declined one, the
    /// second is the highest one the acceptor has seen.
    Nack(Epoch, Epoch),
}

#[derive(Debug)]
pub struct Msg {
    pub header: Header,
    pub body: Body,
}

/// The mathematical value of a `Header`.
pub ghost struct HeaderV {
    pub from: Seq<char>,
    pub to: Seq<char>,
    pub at: u64,
}

/// The mathematical value of a `Body`.
pub ghost enum BodyV {
    Request(Seq<char>),
    Response(Seq<char>),
    Prepare(Epoch),
    Promise(Epoch, Option<(Epoch, Seq<char>)>),
    Propose(Epoch, Seq<char>),
    Accept(Epoch),
    Nack(Epoch, Epoch),
}

/// The mathematical value of a `Msg`.
pub ghost struct MsgV {
    pub header: HeaderV,
    pub body: BodyV,
}

impl View for Header {
    type V = HeaderV;

    open spec fn view(&self) -> HeaderV {
        HeaderV { from: self.from@, to: self.to@, at: self.at.0 }
    }
}

impl View for Body {
    type V = BodyV;

    open spec fn view(&self) -> BodyV {
        match self {
            Body::Request(v) => BodyV::Request(v@),
            Body::Response(v) => BodyV::Response(v@),
            Body::Prepare(e) => BodyV::Prepare(*e),
            Body::Promise(e, a) => BodyV::Promise(
                *e,
                match a {
                    Some((ae, av)) => Some((*ae, av@)),
                    None => None,
                },
            ),
            Body::Propose(e, v) => BodyV::Propose(*e, v@),
            Body::Accept(e) => BodyV::Accept(*e),
            Body::Nack(e, h) => BodyV::Nack(*e, *h),
        }
    }
}

impl View for Msg {
    type V = MsgV;

    open spec fn view(&self) -> MsgV {
        MsgV { header: self.header@, body: self.body@ }
    }
}

impl Header {
    /// An explicit copy; the view is preserved.
    pub fn dup(&self) -> (r: Header)
        ensures
            r@ == self@,
    {
        Header { from: self.from.dup(), to: self.to.dup(), at: self.at }
    }
}

impl Body {
    /// An explicit copy; the view is preserved.
    pub fn dup(&self) -> (r: Body)
        ensures
            r@ == self@,
    {
        match self {
            Body::Request(v) => Body::Request(v.dup()),
            Body::Response(v) => Body::Response(v.dup()),
            Body::Prepare(e) => Body::Prepare(*e),
            Body::Promise(e, a) => Body::Promise(
                *e,
                match a {
                    Some((ae, av)) => Some((*ae, av.dup())),
                    None => None,
                },
            ),
            Body::Propose(e, v) => Body::Propose(*e, v.dup()),
            Body::Accept(e) => Body::Accept(*e),
            Body::Nack(e, h) => Body::Nack(*e, *h),
        }
    }
}

impl Msg {
    /// An explicit copy; the view is preserved.
    pub fn dup(&self) -> (r: Msg)
        ensures
            r@ == self@,
    {
        Msg { header: self.header.dup(), body: self.body.dup() }
    }
}

impl BodyV {
    /// Messages that the dispatcher routes to an acceptor.
    pub open spec fn is_to_acceptor(self) -> bool {
        self is Prepare || self is Propose
    }

    /// An acceptor's answers, routed back to a proposer.
    pub open spec fn is_reply(self) -> bool {
        self is Promise || self is Accept || self is Nack
    }
}

/// The views of a sequence of messages.
pub open spec fn views_of(s: Seq<Msg>) -> Seq<MsgV> {
    s.map_values(|m: Msg| m@)
}

pub proof fn lemma_views_of_push(a: Seq<Msg>, m: Msg)
    ensures
        views_of(a.push(m)) == views_of(a).push(m@),
{
    assert(views_of(a.push(m)) =~= views_of(a).push(m@));
}

/// The views of a sequence of addresses.
pub open spec fn addr_views(s: Seq<Address>) -> Seq<Seq<char>> {
    s.map_values(|a: Address| a@)
}

/// The view of an optional accepted proposal.
pub open spec fn accepted_view(a: Option<(Epoch, Value)>) -> Option<(Epoch, Seq<char>)> {
    match a {
        Some((e, v)) => Some((e, v@)),
        None => None,
    }
}

/// Whether every value the body carries is drawn from `vs`.  Bodies that
/// carry no value qualify trivially.
pub open spec fn body_values_in(b: BodyV, vs: Seq<Seq<char>>) -> bool {
    match b {
        BodyV::Request(v) => vs.contains(v),
        BodyV::Response(v) => vs.contains(v),
        BodyV::Propose(_, v) => vs.contains(v),
        BodyV::Promise(_, a) => match a {
            Some((_, v)) => vs.contains(v),
            None => true,
        },
        _ => true,
    }
}

/// The message bodies a proposer may be handed.
pub open spec fn proposer_bound(b: BodyV) -> bool {
    b is Request || b.is_reply()
}

/// The message bodies an acceptor may be handed.
pub open spec fn acceptor_bound(b: BodyV) -> bool {
    b.is_to_acceptor()
}

/// What holds of every message a node emits from `process(now)`: it is sent
/// under the node's own address, one tick in the future, and is either a
/// response to a client, a broadcast to the node's known acceptors, or an
/// answer to the sender of a buffered Prepare or Propose.
pub open spec fn emission_ok(
    m: MsgV,
    from: Seq<char>,
    peers: Seq<Seq<char>>,
    inbox: Seq<MsgV>,
    now: u64,
) -> bool {
    &&& m.header.from == from
    &&& m.header.at == now + 1
    &&& {
        ||| m.body is Response
        ||| (m.body.is_to_acceptor() && peers.contains(m.header.to))
        ||| (m.body.is_reply() && exists|j: int|
            0 <= j < inbox.len() && (#[trigger] inbox[j]).body.is_to_acceptor()
                && inbox[j].header.from == m.header.to)
    }
}

/// Node is a networked logical entity: a proposer or an acceptor.
pub trait Node {
    /// The mathematical value of the node's protocol state.
    type StateV;

    /// The node's protocol state, which only `process` may advance.
    spec fn state(&self) -> Self::StateV;

    /// The node's internal invariant, established by its constructor.
    spec fn wf(&self) -> bool;

    /// The node's own address.
    spec fn addr(&self) -> Seq<char>;

    /// The buffered, not yet processed messages.
    spec fn pending(&self) -> Seq<MsgV>;

    /// The addresses the node broadcasts to: the acceptor population for a
    /// proposer, nothing for an acceptor.
    spec fn peers(&self) -> Seq<Seq<char>>;

    /// The messages that may be handed to this node.
    spec fn inbound(&self, m: MsgV) -> bool;

    /// Whether every value the node holds — in its mode and in its buffer —
    /// is drawn from `vs`.
    spec fn confined(&self, vs: Seq<Seq<char>>) -> bool;

    /// Receive adds the given message to the incoming-messages buffer.  It is
    /// *not* allowed to do any kind of processing.
    fn receive(&mut self, m: Msg)
        requires
            old(self).wf(),
            old(self).inbound(m@),
        ensures
            final(self).wf(),
            final(self).state() == old(self).state(),
            final(self).pending() == old(self).pending().push(m@),
            final(self).addr() == old(self).addr(),
            final(self).peers() == old(self).peers(),
            forall|x: MsgV| final(self).inbound(x) == old(self).inbound(x),
            forall|vs: Seq<Seq<char>>|
                #[trigger] old(self).confined(vs) && body_values_in(m@.body, vs) ==> final(self).confined(vs),
    ;

    /// Drain the buffer, advance the state, and emit outbound messages, every
    /// one of them scheduled for `now + 1`.  Whatever stays buffered was
    /// already buffered before the call.
    fn process(&mut self, now: Instant) -> (out: Vec<Msg>)
        requires
            old(self).wf(),
            now.0 < u64::MAX,
        ensures
            final(self).wf(),
            final(self).addr() == old(self).addr(),
            final(self).peers() == old(self).peers(),
            forall|x: MsgV| final(self).inbound(x) == old(self).inbound(x),
            forall|i: int|
                0 <= i < final(self).pending().len() ==> old(self).pending().contains(
                    #[trigger] final(self).pending()[i],
                ),
            forall|i: int|
                0 <= i < out@.len() ==> emission_ok(
                    (#[trigger] out@[i])@,
                    old(self).addr(),
                    old(self).peers(),
                    old(self).pending(),
                    now.0,
                ),
            forall|vs: Seq<Seq<char>>|
                #[trigger] old(self).confined(vs) ==> final(self).confined(vs) && forall|i: int|
                    0 <= i < out@.len() ==> body_values_in((#[trigger] out@[i])@.body, vs),
            forall|i: int|
                0 <= i < out@.len() ==> crate::model::nack_well_formed((#[trigger] out@[i])@.body),
    ;
}

/// A proposer accepts client requests and acceptor answers.
pub trait Proposer: Node {
    proof fn inbound_is_proposer_bound(&self, m: MsgV)
        ensures
            self.inbound(m) == proposer_bound(m.body),
    ;
}

/// An acceptor accepts Prepare and Propose.
pub trait Acceptor: Node {
    proof fn inbound_is_acceptor_bound(&self, m: MsgV)
        ensures
            self.inbound(m) == acceptor_bound(m.body),
    ;
}

} // verus!
