use paxos_simulator::simulator::{CorrectnessError, DelayRng, LogEntry, Simulator};
use paxos_simulator::{classic, nack};
use paxos_simulator::{Acceptor, Address, Body, Epoch, Header, Instant, Msg, Node, Proposer, Value};

fn classic_simulator(
    n_proposers: u32,
    n_acceptors: u32,
    requests: Vec<(u64, u32)>,
    seed: Option<u64>,
) -> Simulator<classic::Proposer, classic::Acceptor> {
    let mut acceptors: Vec<(Address, classic::Acceptor)> = Vec::new();
    let mut acceptor_addrs: Vec<Address> = Vec::new();
    for i in 0..n_acceptors {
        let name = format!("a{}", i);
        acceptor_addrs.push(Address::new(&name));
        acceptors.push((
            Address::new(&name),
            classic::Acceptor::new(Address::new(&name)),
        ));
    }
    let mut proposers: Vec<(Address, classic::Proposer)> = Vec::new();
    for i in 0..n_proposers {
        let name = format!("p{}", i);
        let mut peers: Vec<Address> = Vec::new();
        for a in &acceptor_addrs {
            peers.push(a.dup());
        }
        proposers.push((
            Address::new(&name),
            classic::Proposer::new(Address::new(&name), Epoch::new(0, i), peers),
        ));
    }
    let mut reqs: Vec<Msg> = Vec::new();
    for (i, (at, p)) in requests.iter().enumerate() {
        reqs.push(Msg {
            header: Header {
                from: Address::new("u1"),
                to: Address::new(&format!("p{}", p)),
                at: Instant(*at),
            },
            body: Body::Request(Value::new(&format!("v{}", i))),
        });
    }
    Simulator::new(proposers, acceptors, reqs, seed.map(DelayRng::new))
}

fn nack_simulator(
    n_proposers: u32,
    n_acceptors: u32,
    requests: Vec<(u64, u32)>,
    seed: Option<u64>,
) -> Simulator<nack::Proposer, nack::Acceptor> {
    let mut acceptors: Vec<(Address, nack::Acceptor)> = Vec::new();
    let mut acceptor_addrs: Vec<Address> = Vec::new();
    for i in 0..n_acceptors {
        let name = format!("a{}", i);
        acceptor_addrs.push(Address::new(&name));
        acceptors.push((Address::new(&name), nack::Acceptor::new(Address::new(&name))));
    }
    let mut proposers: Vec<(Address, nack::Proposer)> = Vec::new();
    for i in 0..n_proposers {
        let name = format!("p{}", i);
        let mut peers: Vec<Address> = Vec::new();
        for a in &acceptor_addrs {
            peers.push(a.dup());
        }
        proposers.push((
            Address::new(&name),
            nack::Proposer::new(Address::new(&name), Epoch::new(0, i), peers),
        ));
    }
    let mut reqs: Vec<Msg> = Vec::new();
    for (i, (at, p)) in requests.iter().enumerate() {
        reqs.push(Msg {
            header: Header {
                from: Address::new("u1"),
                to: Address::new(&format!("p{}", p)),
                at: Instant(*at),
            },
            body: Body::Request(Value::new(&format!("v{}", i))),
        });
    }
    Simulator::new(proposers, acceptors, reqs, seed.map(DelayRng::new))
}

fn response_values<P: Proposer, A: Acceptor>(s: &Simulator<P, A>) -> Vec<Value> {
    let mut out: Vec<Value> = Vec::new();
    for m in s.responses() {
        match &m.body {
            Body::Response(v) => out.push(v.dup()),
            _ => panic!("a recorded response must carry a Response body"),
        }
    }
    out
}

#[test]
fn it_works() {
    assert_eq!(2 + 2, 4);
}

#[test]
fn single_proposer_three_acceptors_one_request() {
    let mut s = classic_simulator(1, 3, vec![(1, 0)], None);
    s.run().unwrap();
    s.ensure_correctness().unwrap();
}

#[test]
fn two_proposer_three_acceptors_two_request() {
    let mut s = classic_simulator(2, 3, vec![(1, 0), (2, 1)], None);
    s.run().unwrap();
    s.ensure_correctness().unwrap();
}

#[test]
fn regression_1() {
    let request_instants = vec![
        10, 64, 10, 64, 64, 10, 64, 10, 64, 10, 64, 64, 10, 10, 10, 10, 64, 6, 64,
    ];
    let mut requests: Vec<(u64, u32)> = Vec::new();
    for i in &request_instants {
        requests.push((*i, 0));
    }

    let mut s = classic_simulator(1, 3, requests, Some(0));
    s.run().unwrap();

    match s.ensure_correctness() {
        Ok(()) => {}
        Err(e) => {
            for l in s.log.iter() {
                println!("{:?}", l);
            }
            panic!("{:?}", e);
        }
    }
}

#[test]
fn single_run_decides_the_requested_value() {
    let mut s = classic_simulator(1, 3, vec![(1, 0)], None);
    s.run().unwrap();
    s.ensure_correctness().unwrap();
    let values = response_values(&s);
    assert_eq!(values.len(), 1);
    assert!(values[0] == Value::new("v0"));
    // the response goes back to the client that asked
    assert!(s.responses()[0].header.to == Address::new("u1"));
}

#[test]
fn two_proposers_agree_on_one_of_the_requested_values() {
    let mut s = classic_simulator(2, 3, vec![(1, 0), (2, 1)], None);
    s.run().unwrap();
    s.ensure_correctness().unwrap();
    let values = response_values(&s);
    assert_eq!(values.len(), 2);
    assert!(values[0] == values[1]);
    assert!(values[0] == Value::new("v0") || values[0] == Value::new("v1"));
}

#[test]
fn nack_variant_single_proposer_three_acceptors_one_request() {
    let mut s = nack_simulator(1, 3, vec![(1, 0)], None);
    s.run().unwrap();
    s.ensure_correctness().unwrap();
    let values = response_values(&s);
    assert_eq!(values.len(), 1);
    assert!(values[0] == Value::new("v0"));
}

#[test]
fn nack_variant_matches_classic_workload() {
    let requests = vec![(1, 0), (2, 1), (5, 0), (9, 1)];
    let mut c = classic_simulator(2, 3, requests.clone(), Some(7));
    c.run().unwrap();
    c.ensure_correctness().unwrap();
    let classic_duration = c.get_now();

    let mut n = nack_simulator(2, 3, requests, Some(7));
    n.run().unwrap();
    n.ensure_correctness().unwrap();
    let nack_duration = n.get_now();

    println!("classic: {:?}, nack: {:?}", classic_duration, nack_duration);
}

#[test]
fn same_seed_same_run() {
    let requests = vec![(1, 0), (3, 1), (4, 2), (20, 0), (21, 1)];
    let mut a = classic_simulator(3, 5, requests.clone(), Some(42));
    a.run().unwrap();
    a.ensure_correctness().unwrap();
    let mut b = classic_simulator(3, 5, requests, Some(42));
    b.run().unwrap();
    b.ensure_correctness().unwrap();

    assert_eq!(a.get_now().0, b.get_now().0);
    let va = response_values(&a);
    let vb = response_values(&b);
    assert_eq!(va.len(), vb.len());
    for i in 0..va.len() {
        assert!(va[i] == vb[i]);
    }
}

#[test]
fn requests_at_instant_zero_are_served_sequentially() {
    let mut s = classic_simulator(1, 3, vec![(0, 0), (0, 0), (0, 0)], None);
    s.run().unwrap();
    s.ensure_correctness().unwrap();
    let values = response_values(&s);
    assert_eq!(values.len(), 3);
    for v in &values {
        assert!(*v == Value::new("v0"));
    }
}

#[test]
fn single_acceptor_majority_is_one() {
    let mut s = classic_simulator(1, 1, vec![(1, 0)], None);
    s.run().unwrap();
    s.ensure_correctness().unwrap();
    let values = response_values(&s);
    assert_eq!(values.len(), 1);
    assert!(values[0] == Value::new("v0"));
}

#[test]
fn delay_stress_many_requests() {
    let mut requests: Vec<(u64, u32)> = Vec::new();
    let mut rng = DelayRng::new(13);
    for i in 0..100u64 {
        // spread arrivals over [0, 200] using the library's own generator
        let spread = (rng.delay() * 40 + i) % 200;
        requests.push((spread, (i % 5) as u32));
    }
    let mut s = classic_simulator(5, 5, requests, Some(99));
    s.run().unwrap();
    s.ensure_correctness().unwrap();
    assert_eq!(response_values(&s).len(), 100);
    assert!(s.get_now().0 <= 100_000);
}

#[test]
fn prepare_epochs_never_collide_between_proposers() {
    let mut requests: Vec<(u64, u32)> = Vec::new();
    for p in 0..10u32 {
        requests.push((1, p));
    }
    let mut s = classic_simulator(10, 3, requests, Some(3));
    s.run().unwrap();
    s.ensure_correctness().unwrap();

    // Every dispatched Prepare epoch must name a single sender.
    let mut seen: Vec<(Epoch, Address)> = Vec::new();
    for l in s.log.iter() {
        if let LogEntry::Dispatch(m) = l {
            if let Body::Prepare(e) = &m.body {
                for (e2, from2) in &seen {
                    if e2 == e {
                        assert!(*from2 == m.header.from);
                    }
                }
                seen.push((*e, m.header.from.dup()));
            }
        }
    }
}

#[test]
fn zero_acceptors_cannot_answer() {
    let mut s = classic_simulator(1, 0, vec![(1, 0)], None);
    s.run().unwrap();
    assert_eq!(
        s.ensure_correctness(),
        Err(CorrectnessError::ResponseCount { expected: 1, got: 0 })
    );
}

#[test]
fn unrun_simulation_reports_missing_responses() {
    let s = classic_simulator(1, 3, vec![(1, 0), (2, 0)], None);
    assert_eq!(
        s.ensure_correctness(),
        Err(CorrectnessError::ResponseCount { expected: 2, got: 0 })
    );
}

#[test]
fn empty_workload_is_trivially_correct() {
    let mut s = classic_simulator(1, 3, vec![], None);
    s.run().unwrap();
    s.ensure_correctness().unwrap();
    assert_eq!(response_values(&s).len(), 0);
}

#[test]
fn classic_acceptor_repromises_at_equal_epoch() {
    let mut a = classic::Acceptor::new(Address::new("a0"));
    let prepare = |e: Epoch| Msg {
        header: Header { from: Address::new("p0"), to: Address::new("a0"), at: Instant(1) },
        body: Body::Prepare(e),
    };
    a.receive(prepare(Epoch::new(2, 0)));
    let out1 = a.process(Instant(1));
    assert_eq!(out1.len(), 1);
    match &out1[0].body {
        Body::Promise(e, acc) => {
            assert!(*e == Epoch::new(2, 0));
            assert!(acc.is_none());
        }
        _ => panic!("expected a promise"),
    }
    // The identical Prepare draws the identical answer.
    a.receive(prepare(Epoch::new(2, 0)));
    let out2 = a.process(Instant(2));
    assert_eq!(out2.len(), 1);
    match &out2[0].body {
        Body::Promise(e, acc) => {
            assert!(*e == Epoch::new(2, 0));
            assert!(acc.is_none());
        }
        _ => panic!("expected a promise"),
    }
    // A stale Prepare is ignored silently.
    a.receive(prepare(Epoch::new(1, 0)));
    let out3 = a.process(Instant(3));
    assert_eq!(out3.len(), 0);
}

#[test]
fn nack_acceptor_rejects_stale_prepare_explicitly() {
    let mut a = nack::Acceptor::new(Address::new("a0"));
    let prepare = |e: Epoch| Msg {
        header: Header { from: Address::new("p0"), to: Address::new("a0"), at: Instant(1) },
        body: Body::Prepare(e),
    };
    a.receive(prepare(Epoch::new(2, 0)));
    let out1 = a.process(Instant(1));
    assert_eq!(out1.len(), 1);
    assert!(matches!(out1[0].body, Body::Promise(_, _)));

    a.receive(prepare(Epoch::new(1, 0)));
    let out2 = a.process(Instant(2));
    assert_eq!(out2.len(), 1);
    match &out2[0].body {
        Body::Nack(declined, highest) => {
            assert!(*declined == Epoch::new(1, 0));
            assert!(*highest == Epoch::new(2, 0));
        }
        _ => panic!("expected a nack"),
    }
}

#[test]
fn acceptor_accepts_and_reports_prior_proposal() {
    let mut a = classic::Acceptor::new(Address::new("a0"));
    let hdr = || Header { from: Address::new("p0"), to: Address::new("a0"), at: Instant(1) };
    a.receive(Msg { header: hdr(), body: Body::Propose(Epoch::new(1, 0), Value::new("x")) });
    let out1 = a.process(Instant(1));
    assert_eq!(out1.len(), 1);
    match &out1[0].body {
        Body::Accept(e) => assert!(*e == Epoch::new(1, 0)),
        _ => panic!("expected an accept"),
    }
    // A later Prepare learns of the accepted proposal.
    a.receive(Msg { header: hdr(), body: Body::Prepare(Epoch::new(3, 1)) });
    let out2 = a.process(Instant(2));
    assert_eq!(out2.len(), 1);
    match &out2[0].body {
        Body::Promise(e, acc) => {
            assert!(*e == Epoch::new(3, 1));
            match acc {
                Some((ae, av)) => {
                    assert!(*ae == Epoch::new(1, 0));
                    assert!(*av == Value::new("x"));
                }
                None => panic!("the accepted proposal must be reported"),
            }
        }
        _ => panic!("expected a promise"),
    }
}

#[test]
fn acceptor_promise_never_goes_back() {
    let mut a = classic::Acceptor::new(Address::new("a0"));
    let prepare = |e: Epoch| Msg {
        header: Header { from: Address::new("p0"), to: Address::new("a0"), at: Instant(1) },
        body: Body::Prepare(e),
    };
    a.receive(prepare(Epoch::new(5, 0)));
    assert_eq!(a.process(Instant(1)).len(), 1);
    // a stale Prepare draws nothing; the promise stands
    a.receive(prepare(Epoch::new(3, 0)));
    assert_eq!(a.process(Instant(2)).len(), 0);
    // the standing promise still answers
    a.receive(prepare(Epoch::new(5, 0)));
    let out = a.process(Instant(3));
    assert_eq!(out.len(), 1);
    assert!(matches!(out[0].body, Body::Promise(e, _) if e == Epoch::new(5, 0)));
    // and a higher Prepare moves it up
    a.receive(prepare(Epoch::new(7, 1)));
    let out = a.process(Instant(4));
    assert!(matches!(out[0].body, Body::Promise(e, _) if e == Epoch::new(7, 1)));
}

#[test]
fn classic_proposer_runs_a_full_round_and_adopts_prior_value() {
    let acc_names = ["a0", "a1", "a2"];
    let mut peers: Vec<Address> = Vec::new();
    for n in &acc_names {
        peers.push(Address::new(n));
    }
    let mut p = classic::Proposer::new(Address::new("p0"), Epoch::new(0, 0), peers);
    let from = |n: &str| Header { from: Address::new(n), to: Address::new("p0"), at: Instant(1) };

    p.receive(Msg { header: from("u1"), body: Body::Request(Value::new("x")) });
    let out = p.process(Instant(1));
    assert_eq!(out.len(), 3);
    for m in &out {
        assert!(matches!(m.body, Body::Prepare(e) if e == Epoch::new(0, 0)));
    }

    // One promise is short of the quorum of two.
    p.receive(Msg { header: from("a0"), body: Body::Promise(Epoch::new(0, 0), None) });
    assert_eq!(p.process(Instant(2)).len(), 0);

    // The quorum promise reports an accepted proposal; its value is adopted.
    p.receive(Msg {
        header: from("a1"),
        body: Body::Promise(Epoch::new(0, 0), Some((Epoch::new(0, 9), Value::new("y")))),
    });
    let out = p.process(Instant(3));
    assert_eq!(out.len(), 3);
    for m in &out {
        match &m.body {
            Body::Propose(e, v) => {
                assert!(*e == Epoch::new(0, 0));
                assert!(*v == Value::new("y"));
            }
            _ => panic!("expected a propose"),
        }
    }

    // Two accepts make the quorum; the adopted value is answered.
    p.receive(Msg { header: from("a0"), body: Body::Accept(Epoch::new(0, 0)) });
    assert_eq!(p.process(Instant(4)).len(), 0);
    p.receive(Msg { header: from("a1"), body: Body::Accept(Epoch::new(0, 0)) });
    let out = p.process(Instant(5));
    assert_eq!(out.len(), 1);
    match &out[0].body {
        Body::Response(v) => assert!(*v == Value::new("y")),
        _ => panic!("expected a response"),
    }
    // addressed to the client that sent the request
    assert!(out[0].header.to == Address::new("u1"));
}

#[test]
fn accepting_raises_the_promise() {
    let mut a = classic::Acceptor::new(Address::new("a0"));
    let hdr = || Header { from: Address::new("p0"), to: Address::new("a0"), at: Instant(1) };
    // an accepted proposal commits the acceptor as far as a promise would
    a.receive(Msg { header: hdr(), body: Body::Propose(Epoch::new(5, 0), Value::new("x")) });
    let out = a.process(Instant(1));
    assert_eq!(out.len(), 1);
    assert!(matches!(out[0].body, Body::Accept(e) if e == Epoch::new(5, 0)));
    // so an older Prepare is now turned down
    a.receive(Msg { header: hdr(), body: Body::Prepare(Epoch::new(3, 0)) });
    assert_eq!(a.process(Instant(2)).len(), 0);
    // while a Prepare at the promise is answered, reporting the proposal
    a.receive(Msg { header: hdr(), body: Body::Prepare(Epoch::new(5, 0)) });
    let out = a.process(Instant(3));
    assert_eq!(out.len(), 1);
    match &out[0].body {
        Body::Promise(e, acc) => {
            assert!(*e == Epoch::new(5, 0));
            match acc {
                Some((ae, av)) => {
                    assert!(*ae == Epoch::new(5, 0));
                    assert!(*av == Value::new("x"));
                }
                None => panic!("the accepted proposal must be reported"),
            }
        }
        _ => panic!("expected a promise"),
    }
}

#[test]
fn classic_proposer_reprepares_after_timeout() {
    let mut p = classic::Proposer::new(
        Address::new("p0"),
        Epoch::new(0, 0),
        vec![Address::new("a0"), Address::new("a1"), Address::new("a2")],
    );
    p.receive(Msg {
        header: Header { from: Address::new("u1"), to: Address::new("p0"), at: Instant(1) },
        body: Body::Request(Value::new("x")),
    });
    let out = p.process(Instant(1));
    assert_eq!(out.len(), 3);
    // within the timeout nothing happens
    assert_eq!(p.process(Instant(5)).len(), 0);
    // past it, the proposer re-prepares at the next epoch
    let retry = p.process(Instant(11));
    assert_eq!(retry.len(), 3);
    for m in &retry {
        assert!(matches!(m.body, Body::Prepare(e) if e == Epoch::new(1, 0)));
    }
}

#[test]
fn nack_proposer_restarts_on_rejection() {
    let mut p = nack::Proposer::new(
        Address::new("p0"),
        Epoch::new(0, 0),
        vec![Address::new("a0"), Address::new("a1"), Address::new("a2")],
    );
    p.receive(Msg {
        header: Header { from: Address::new("u1"), to: Address::new("p0"), at: Instant(1) },
        body: Body::Request(Value::new("x")),
    });
    let out = p.process(Instant(1));
    assert_eq!(out.len(), 3);
    assert!(matches!(out[0].body, Body::Prepare(e) if e == Epoch::new(0, 0)));

    // An explicit rejection naming a higher epoch triggers an immediate
    // re-prepare just past it - no timeout needed.
    p.receive(Msg {
        header: Header { from: Address::new("a0"), to: Address::new("p0"), at: Instant(2) },
        body: Body::Nack(Epoch::new(0, 0), Epoch::new(7, 1)),
    });
    let retry = p.process(Instant(2));
    assert_eq!(retry.len(), 3);
    for m in &retry {
        assert!(matches!(m.body, Body::Prepare(e) if e == Epoch::new(8, 0)));
    }
}

#[test]
fn delays_are_reproducible_and_capped() {
    let mut a = DelayRng::new(5);
    let mut b = DelayRng::new(5);
    let mut c = DelayRng::new(6);
    let mut any_difference = false;
    for _ in 0..64 {
        let da = a.delay();
        let db = b.delay();
        let dc = c.delay();
        assert_eq!(da, db);
        assert!(da <= 5);
        assert!(dc <= 5);
        if da != dc {
            any_difference = true;
        }
    }
    assert!(any_difference);
}

#[test]
fn epochs_order_lexicographically() {
    assert!(Epoch::new(0, 1) < Epoch::new(1, 0));
    assert!(Epoch::new(1, 0) < Epoch::new(1, 1));
    assert!(Epoch::new(2, 0) > Epoch::new(1, 9));
    assert!(Epoch::new(1, 1) == Epoch::new(1, 1));
    assert!(Epoch::new(1, 1) != Epoch::new(1, 2));
}

#[test]
fn bodies_tell_requests_and_responses_apart() {
    let req = classic::Body::Request(Value::new("a"));
    let resp = classic::Body::Response(Value::new("b"));
    let prep = classic::Body::Prepare(Epoch::new(0, 0));
    assert!(req.is_request() == Some(Value::new("a")));
    assert!(req.is_response().is_none());
    assert!(resp.is_response() == Some(Value::new("b")));
    assert!(resp.is_request().is_none());
    assert!(prep.is_request().is_none() && prep.is_response().is_none());

    let nreq = nack::Body::Request(Value::new("c"));
    let nnack = nack::Body::Nack(Epoch::new(0, 0), Epoch::new(1, 0));
    assert!(nreq.is_request() == Some(Value::new("c")));
    assert!(nnack.is_request().is_none() && nnack.is_response().is_none());
}
