use proxy_discover::addr::{Address, Endpoint};
use proxy_discover::buffer::{Buffer, DaemonStep};
use proxy_discover::discover::{Change, Discover, Event, Need, Step, Update};

fn addr(d: u8) -> Address {
    Address::v4(127, 0, 0, d, 80)
}

fn ep(a: Address, meta: u64) -> Endpoint {
    Endpoint { addr: a, meta }
}

/// A driver holding two queued removals: two changes ready back-to-back.
fn driver_with_two_changes(a1: Address, a2: Address) -> Discover {
    let mut d = Discover::new(9);
    assert_eq!(d.poll(Event::MakerReady), Step::Await(Need::Connect));
    assert_eq!(d.poll(Event::ConnectReady), Step::Await(Need::Update));
    assert_eq!(
        d.poll(Event::UpdateReady(Update::Add(vec![(a1, ep(a1, 1)), (a2, ep(a2, 2))]))),
        Step::Await(Need::MakerReady)
    );
    assert_eq!(d.poll(Event::MakerReady), Step::Await(Need::Update));
    assert_eq!(d.poll(Event::UpdateReady(Update::Remove(vec![a1, a2]))), Step::Await(Need::Removal));
    d
}

#[test]
fn backpressure_holds_driver_still() {
    let a1 = addr(1);
    let a2 = addr(2);
    let buffer = Buffer::new(1);
    let fut = buffer.call(9);
    let (mut daemon, _handle) = fut.poll(driver_with_two_changes(a1, a2));

    // the first change goes into the channel
    match daemon.poll_step(false, Event::Run) {
        DaemonStep::Sent(Change::Remove(a)) => assert_eq!(a, a2),
        s => panic!("first change not sent: {:?}", s),
    }
    assert_eq!(daemon.queued_len(), 1);

    // capacity 1 and one queued change: the task must not advance the driver
    assert_eq!(daemon.poll_step(false, Event::Run), DaemonStep::Full);
    assert_eq!(daemon.poll_step(false, Event::Run), DaemonStep::Full);
    assert_eq!(daemon.queued_len(), 1);

    // once the consumer reads, the second change flows, in order
    assert_eq!(daemon.recv(), Some(Change::Remove(a2)));
    match daemon.poll_step(false, Event::Run) {
        DaemonStep::Sent(Change::Remove(a)) => assert_eq!(a, a1),
        s => panic!("second change not sent: {:?}", s),
    }
    assert_eq!(daemon.recv(), Some(Change::Remove(a1)));
    assert_eq!(daemon.recv(), None);
}

#[test]
fn consumer_drop_exits_cleanly() {
    let a1 = addr(1);
    let a2 = addr(2);
    let buffer = Buffer::new(4);
    let fut = buffer.call(3);
    let (mut daemon, handle) = fut.poll(driver_with_two_changes(a1, a2));
    drop(handle);
    assert_eq!(daemon.poll_step(true, Event::Run), DaemonStep::Exited);
    // nothing was sent: the task exited before advancing the driver
    assert_eq!(daemon.queued_len(), 0);
}

#[test]
fn driver_failure_closes_the_stream() {
    let buffer = Buffer::new(4);
    let fut = buffer.call(3);
    let mut d = Discover::new(3);
    assert_eq!(d.poll(Event::MakerReady), Step::Await(Need::Connect));
    assert_eq!(d.poll(Event::ConnectReady), Step::Await(Need::Update));
    assert_eq!(d.poll(Event::Pending), Step::Await(Need::Build));
    let (mut daemon, _handle) = fut.poll(d);
    assert_eq!(daemon.poll_step(false, Event::BuildFailed), DaemonStep::Ended);
}
