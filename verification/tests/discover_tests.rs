use proxy_discover::addr::{Address, Endpoint};
use proxy_discover::discover::{BackoffState, Change, Discover, Event, Need, Step, Update};

fn addr(d: u8) -> Address {
    Address::v4(127, 0, 0, d, 80)
}

fn ep(a: Address, meta: u64) -> Endpoint {
    Endpoint { addr: a, meta }
}

/// Drives a fresh driver through its first connect onto a live resolution.
fn connect(d: &mut Discover) {
    assert_eq!(d.poll(Event::MakerReady), Step::Await(Need::Connect));
    assert_eq!(d.poll(Event::ConnectReady), Step::Await(Need::Update));
    assert_eq!(d.poll(Event::Pending), Step::Await(Need::Build));
    assert_eq!(d.poll(Event::Pending), Step::Idle);
}

/// One full turn with nothing ready anywhere.
fn idle_turn(d: &mut Discover) -> Step {
    assert_eq!(d.poll(Event::Pending), Step::Await(Need::Build));
    d.poll(Event::Pending)
}

/// Feeds one resolver update after a quiet start-of-turn.
fn feed(d: &mut Discover, u: Update) -> Step {
    assert_eq!(d.poll(Event::MakerReady), Step::Await(Need::Update));
    d.poll(Event::UpdateReady(u))
}

/// Reports one build completion after a quiet start-of-turn.
fn complete(d: &mut Discover, a: Address, svc: u64) -> Step {
    assert_eq!(d.poll(Event::MakerReady), Step::Await(Need::Update));
    assert_eq!(d.poll(Event::Pending), Step::Await(Need::Build));
    d.poll(Event::BuildReady(a, svc))
}

#[test]
fn inserts_delivered_out_of_order() {
    let mut discover = Discover::new(0);
    connect(&mut discover);
    assert_eq!(idle_turn(&mut discover), Step::Idle, "ready without updates");

    let addr0 = addr(1);
    assert_eq!(
        feed(&mut discover, Update::Add(vec![(addr0, ep(addr0, 0))])),
        Step::Await(Need::MakerReady),
        "ready without service being made"
    );
    assert_eq!(discover.futures_len(), 1, "must be only one pending make");
    assert_eq!(discover.cancelations_len(), 1, "no pending cancelation");

    let addr1 = addr(2);
    assert_eq!(
        feed(&mut discover, Update::Add(vec![(addr1, ep(addr1, 1))])),
        Step::Await(Need::MakerReady),
        "update must be sent"
    );
    assert_eq!(discover.futures_len(), 2, "must be only one pending make");
    assert_eq!(discover.cancelations_len(), 2, "no pending cancelation");

    // the second endpoint's build finishes first
    match complete(&mut discover, addr1, 1) {
        Step::Emit(Change::Insert(a, svc)) => {
            assert_eq!(a, addr1);
            assert_eq!(svc, 1, "make must receive service");
        }
        Step::Emit(Change::Remove(_)) => panic!("unexpected remove"),
        s => panic!("not processed: {:?}", s),
    }
    assert_eq!(discover.futures_len(), 1, "must be only one pending make");
    assert_eq!(discover.cancelations_len(), 1, "no pending cancelation");

    match complete(&mut discover, addr0, 0) {
        Step::Emit(Change::Insert(a, svc)) => {
            assert_eq!(a, addr0);
            assert_eq!(svc, 0, "make must receive service");
        }
        Step::Emit(Change::Remove(_)) => panic!("unexpected remove"),
        s => panic!("not processed: {:?}", s),
    }
    assert_eq!(discover.futures_len(), 0, "futures remain");
    assert_eq!(discover.cancelations_len(), 0, "cancelation remains");
}

#[test]
fn overwriting_insert_cancels_original() {
    let mut discover = Discover::new(0);
    connect(&mut discover);
    assert_eq!(idle_turn(&mut discover), Step::Idle, "ready without updates");

    let a = addr(1);
    assert_eq!(
        feed(&mut discover, Update::Add(vec![(a, ep(a, 0))])),
        Step::Await(Need::MakerReady),
        "ready without service being made"
    );
    assert_eq!(discover.futures_len(), 1, "must be only one pending make");
    assert_eq!(discover.cancelations_len(), 1, "no pending cancelation");

    // a second add for the same address cancels the first build
    assert_eq!(
        feed(&mut discover, Update::Add(vec![(a, ep(a, 1))])),
        Step::Await(Need::MakerReady),
        "update must be sent"
    );
    // the canceled build is reaped on the next build-poll turn; the first
    // build's cancellation signal has fired (its receiver is gone)
    assert_eq!(idle_turn(&mut discover), Step::Idle, "receiver must have been dropped");
    assert_eq!(discover.futures_len(), 1, "must be only one pending make");
    assert_eq!(discover.cancelations_len(), 1, "no pending cancelation");

    // exactly one insert is emitted, from the second build
    match complete(&mut discover, a, 1) {
        Step::Emit(Change::Insert(got, svc)) => {
            assert_eq!(got, a);
            assert_eq!(svc, 1, "make must receive service");
        }
        Step::Emit(Change::Remove(_)) => panic!("unexpected remove"),
        s => panic!("not processed: {:?}", s),
    }
    assert_eq!(discover.cancelations_len(), 0, "cancelation remains");
}

#[test]
fn cancelation_of_pending_service() {
    let mut discover = Discover::new(0);
    connect(&mut discover);
    assert_eq!(idle_turn(&mut discover), Step::Idle, "ready without updates");

    let a = addr(1);
    assert_eq!(
        feed(&mut discover, Update::Add(vec![(a, ep(a, 0))])),
        Step::Await(Need::MakerReady),
        "ready without service being made"
    );
    assert_eq!(discover.cancelations_len(), 1, "no pending cancelation");

    assert_eq!(feed(&mut discover, Update::Remove(vec![a])), Step::Await(Need::Removal));
    match discover.poll(Event::Run) {
        Step::Emit(Change::Remove(got)) => assert_eq!(got, a),
        Step::Emit(Change::Insert(..)) => panic!("unexpected insert"),
        s => panic!("remove not processed: {:?}", s),
    }
    assert_eq!(discover.cancelations_len(), 0, "cancelation remains");

    // the canceled build never surfaces
    assert_eq!(idle_turn(&mut discover), Step::Idle);
    assert_eq!(discover.futures_len(), 0);
}

#[test]
fn reconnect_reconciliation_fresh_add() {
    let a1 = addr(1);
    let a2 = addr(2);
    let a3 = addr(3);
    let mut discover = Discover::new(0);
    connect(&mut discover);

    // pre-disconnect state: a1 and a2 live
    assert_eq!(
        feed(&mut discover, Update::Add(vec![(a1, ep(a1, 1)), (a2, ep(a2, 2))])),
        Step::Await(Need::MakerReady)
    );
    assert_eq!(complete(&mut discover, a1, 10), Step::Emit(Change::Insert(a1, 10)));
    assert_eq!(complete(&mut discover, a2, 20), Step::Emit(Change::Insert(a2, 20)));
    assert_eq!(discover.streak(), 0);

    // the resolution is lost; the driver backs off and reconnects
    assert_eq!(discover.poll(Event::MakerReady), Step::Await(Need::Update));
    assert_eq!(discover.poll(Event::UpdateFailed), Step::Await(Need::Timer));
    assert_eq!(discover.streak(), 1);
    assert_eq!(discover.poll(Event::TimerFired), Step::Await(Need::Connect));
    assert_eq!(discover.poll(Event::ConnectReady), Step::Await(Need::Update));

    // fresh first update retains a2 and brings a3: only a1 is stale
    assert_eq!(
        discover.poll(Event::UpdateReady(Update::Add(vec![(a2, ep(a2, 22)), (a3, ep(a3, 3))]))),
        Step::Await(Need::Removal)
    );
    assert_eq!(discover.poll(Event::Run), Step::Emit(Change::Remove(a1)));
    // the requeued add applies once the stale removals have drained
    assert_eq!(discover.poll(Event::MakerReady), Step::Await(Need::MakerReady));
    // the backoff delay was reset by the successful reconnect
    assert_eq!(discover.streak(), 0);

    assert_eq!(complete(&mut discover, a2, 220), Step::Emit(Change::Insert(a2, 220)));
    assert_eq!(complete(&mut discover, a3, 30), Step::Emit(Change::Insert(a3, 30)));
    assert_eq!(discover.futures_len(), 0);
    assert_eq!(discover.cancelations_len(), 0);
}

#[test]
fn reconnect_reconciliation_fresh_remove() {
    let a1 = addr(1);
    let a2 = addr(2);
    let mut discover = Discover::new(0);
    connect(&mut discover);

    assert_eq!(
        feed(&mut discover, Update::Add(vec![(a1, ep(a1, 1)), (a2, ep(a2, 2))])),
        Step::Await(Need::MakerReady)
    );
    assert_eq!(complete(&mut discover, a1, 10), Step::Emit(Change::Insert(a1, 10)));
    assert_eq!(complete(&mut discover, a2, 20), Step::Emit(Change::Insert(a2, 20)));

    assert_eq!(discover.poll(Event::MakerReady), Step::Await(Need::Update));
    assert_eq!(discover.poll(Event::UpdateFailed), Step::Await(Need::Timer));
    assert_eq!(discover.poll(Event::TimerFired), Step::Await(Need::Connect));
    assert_eq!(discover.poll(Event::ConnectReady), Step::Await(Need::Update));

    // the fresh resolution removes a2; the stale a1 is merged in, and both
    // removals surface, each exactly once
    assert_eq!(
        discover.poll(Event::UpdateReady(Update::Remove(vec![a2]))),
        Step::Await(Need::Removal)
    );
    let mut removed = Vec::new();
    match discover.poll(Event::Run) {
        Step::Emit(Change::Remove(a)) => removed.push(a),
        s => panic!("unexpected step: {:?}", s),
    }
    match discover.poll(Event::Run) {
        Step::Emit(Change::Remove(a)) => removed.push(a),
        s => panic!("unexpected step: {:?}", s),
    }
    assert_eq!(discover.removals_len(), 0);
    assert!(removed.contains(&a1), "stale address must be removed");
    assert!(removed.contains(&a2), "fresh removal must be surfaced");
    assert_eq!(removed.len(), 2);
}

#[test]
fn backoff_streak_grows_until_reconnect() {
    let mut discover = Discover::new(0);
    assert_eq!(discover.poll(Event::MakerReady), Step::Await(Need::Connect));
    assert_eq!(discover.poll(Event::ConnectFailed), Step::Await(Need::Timer));
    assert_eq!(discover.streak(), 1);
    assert_eq!(discover.poll(Event::TimerFired), Step::Await(Need::Connect));
    assert_eq!(discover.poll(Event::ConnectFailed), Step::Await(Need::Timer));
    assert_eq!(discover.streak(), 2);
    assert_eq!(discover.poll(Event::TimerFired), Step::Await(Need::Connect));
    // with no prior endpoints, a successful connect resets the delay at once
    assert_eq!(discover.poll(Event::ConnectReady), Step::Await(Need::Update));
    assert_eq!(discover.streak(), 0);
}

#[test]
fn empty_and_does_not_exist_are_surfaced() {
    let mut discover = Discover::new(0);
    connect(&mut discover);
    assert_eq!(feed(&mut discover, Update::Empty), Step::Gone(false));
    assert_eq!(feed(&mut discover, Update::DoesNotExist), Step::Gone(true));
}

#[test]
fn maker_and_build_failures_are_fatal() {
    let mut discover = Discover::new(0);
    connect(&mut discover);
    assert_eq!(feed(&mut discover, Update::Add(vec![(addr(1), ep(addr(1), 0))])), Step::Await(Need::MakerReady));
    assert_eq!(discover.poll(Event::MakerReady), Step::Await(Need::Update));
    assert_eq!(discover.poll(Event::Pending), Step::Await(Need::Build));
    assert_eq!(discover.poll(Event::BuildFailed), Step::Fail);

    let mut other = Discover::new(1);
    connect(&mut other);
    assert_eq!(other.poll(Event::Pending), Step::Await(Need::Build));
    assert_eq!(other.poll(Event::Pending), Step::Idle);
    assert_eq!(other.poll(Event::MakerFailed), Step::Fail);
}

#[test]
fn with_resolution_starts_connected() {
    let mut discover = Discover::new(0).with_resolution();
    // the first turn goes straight to the resolution, no connect phase
    assert_eq!(discover.poll(Event::MakerReady), Step::Await(Need::Update));
    assert_eq!(
        discover.poll(Event::UpdateReady(Update::Add(vec![(addr(1), ep(addr(1), 0))]))),
        Step::Await(Need::MakerReady)
    );
    assert_eq!(discover.futures_len(), 1);
}

#[test]
fn with_backoff_keeps_state() {
    let discover = Discover::new(0).with_backoff(BackoffState { streak: 3 });
    assert_eq!(discover.streak(), 3);
}

#[test]
fn empty_update_lists_are_quiet() {
    let mut discover = Discover::new(0);
    connect(&mut discover);
    assert_eq!(feed(&mut discover, Update::Add(vec![])), Step::Await(Need::MakerReady));
    assert_eq!(discover.futures_len(), 0);
    assert_eq!(feed(&mut discover, Update::Remove(vec![])), Step::Await(Need::MakerReady));
    assert_eq!(discover.removals_len(), 0);
}

#[test]
fn reconnect_with_identical_set_removes_nothing() {
    let a1 = addr(1);
    let a2 = addr(2);
    let mut discover = Discover::new(0);
    connect(&mut discover);
    assert_eq!(
        feed(&mut discover, Update::Add(vec![(a1, ep(a1, 1)), (a2, ep(a2, 2))])),
        Step::Await(Need::MakerReady)
    );
    assert_eq!(complete(&mut discover, a1, 10), Step::Emit(Change::Insert(a1, 10)));
    assert_eq!(complete(&mut discover, a2, 20), Step::Emit(Change::Insert(a2, 20)));

    assert_eq!(discover.poll(Event::MakerReady), Step::Await(Need::Update));
    assert_eq!(discover.poll(Event::UpdateFailed), Step::Await(Need::Timer));
    assert_eq!(discover.poll(Event::TimerFired), Step::Await(Need::Connect));
    assert_eq!(discover.poll(Event::ConnectReady), Step::Await(Need::Update));

    // every pre-disconnect address is retained: no stale removal is queued
    assert_eq!(
        discover.poll(Event::UpdateReady(Update::Add(vec![(a1, ep(a1, 11)), (a2, ep(a2, 22))]))),
        Step::Await(Need::MakerReady)
    );
    assert_eq!(discover.removals_len(), 0);
    assert_eq!(discover.poll(Event::MakerReady), Step::Await(Need::MakerReady));
    assert_eq!(complete(&mut discover, a1, 110), Step::Emit(Change::Insert(a1, 110)));
    assert_eq!(complete(&mut discover, a2, 220), Step::Emit(Change::Insert(a2, 220)));
}
