//! The resolution driver: a reconnecting state machine that turns raw
//! resolver updates into an ordered stream of changes, building one service
//! per endpoint through the build set.
//!
//! The asynchronous collaborators (the resolver, the endpoint maker, the
//! backoff timer, the build futures) live with the caller. The driver is the
//! decision core: each call of [`Discover::poll`] consumes one answer from
//! whichever collaborator the driver was waiting on and advances the machine,
//! emitting at most one change. The full transition relation is the contract
//! ([`poll_rel`]); the laws at the bottom of the module are proved from it.

use vstd::prelude::*;

use crate::addr::{Address, Endpoint};
use crate::imap::{
    imap_drain_keys, imap_insert, imap_is_empty, imap_new, imap_seq, imap_swap_remove, keys_of,
    lemma_spec_imap_insert_unique, lemma_spec_imap_swap_remove_unique, seq_contains_key,
    spec_imap_insert, spec_imap_swap_remove, unique_keys, ActiveMap,
};
use crate::make::MakeFutures;

verus! {

/// A built service, as the pipeline hands it through: an opaque token chosen
/// by the endpoint maker.
pub type Service = u64;

/// A raw resolver update.
#[derive(Clone, Debug)]
pub enum Update {
    /// These endpoints exist (now or additionally).
    Add(Vec<(Address, Endpoint)>),
    /// These addresses are gone.
    Remove(Vec<Address>),
    /// The name exists but has no endpoints.
    Empty,
    /// The name is unknown.
    DoesNotExist,
}

/// The output alphabet of the pipeline.
#[derive(Clone, Copy, Debug, PartialEq, Eq, Structural)]
pub enum Change {
    Insert(Address, Service),
    Remove(Address),
}

/// Where the reconnecting machine stands.
#[derive(Clone, Copy, Debug, PartialEq, Eq, Structural)]
pub enum Phase {
    /// No resolution; a connect must be started.
    Disconnected,
    /// Waiting for the resolve future.
    Connecting,
    /// Fresh resolution in hand; the first update is still owed.
    Connected,
    /// Holding a requeued first update while stale removals drain.
    Reconcile,
    /// Forwarding updates.
    Resolving,
    /// Waiting for the backoff timer.
    Backoff,
}

/// Which part of a scheduling turn the driver is in.
#[derive(Clone, Copy, Debug, PartialEq, Eq, Structural)]
pub enum Gate {
    /// Start of a turn: removals drain first, then the maker is checked.
    Start,
    /// Waiting on the resolution side (connect, update, or timer).
    Resolution,
    /// Waiting on the build futures.
    Builds,
}

/// What the driver needs answered before it can advance.
#[derive(Clone, Copy, Debug, PartialEq, Eq, Structural)]
pub enum Need {
    /// Call `poll` again with `Event::Run` to collect a queued removal.
    Removal,
    /// Is the endpoint maker ready to accept a build?
    MakerReady,
    /// Has the resolve future finished?
    Connect,
    /// Has the resolution yielded its next update?
    Update,
    /// Has the backoff timer fired?
    Timer,
    /// Has any build future finished?
    Build,
}

/// One answer from the environment, matching the driver's current need.
#[derive(Clone, Debug)]
pub enum Event {
    /// No outside answer needed.
    Run,
    MakerReady,
    MakerFailed,
    ConnectReady,
    ConnectFailed,
    UpdateReady(Update),
    UpdateFailed,
    TimerFired,
    /// A pending build finished with this service.
    BuildReady(Address, Service),
    BuildFailed,
    /// Whatever was awaited is not ready.
    Pending,
}

/// What one call of `poll` produced.
#[derive(Clone, Copy, Debug, PartialEq, Eq, Structural)]
pub enum Step {
    /// Deliver this change to the consumer.
    Emit(Change),
    /// Nothing to deliver; answer this need next.
    Await(Need),
    /// A full turn found nothing ready.
    Idle,
    /// Fatal maker or build error; the pipeline terminates.
    Fail,
    /// The name is empty (`false`) or does not exist (`true`).
    Gone(bool),
}

/// The backoff policy's state: how many consecutive failures since the last
/// reset. A delay is derived from it by the caller; `reset` is modeled by the
/// driver zeroing it on every successful reconnect.
#[derive(Clone, Copy, Debug, PartialEq, Eq, Structural)]
pub struct BackoffState {
    pub streak: u32,
}

/// The set of addresses a change history leaves live: inserts add, removes
/// delete.
pub open spec fn live_of(h: Seq<Change>) -> Set<Address>
    decreases h.len(),
{
    if h.len() == 0 {
        Set::empty()
    } else {
        match h.last() {
            Change::Insert(a, _) => live_of(h.drop_last()).insert(a),
            Change::Remove(a) => live_of(h.drop_last()).remove(a),
        }
    }
}

pub open spec fn count_inserts(h: Seq<Change>, a: Address) -> nat
    decreases h.len(),
{
    if h.len() == 0 {
        0
    } else {
        count_inserts(h.drop_last(), a) + match h.last() {
            Change::Insert(b, _) => if b == a {
                1nat
            } else {
                0nat
            },
            Change::Remove(_) => 0nat,
        }
    }
}

pub open spec fn count_removes(h: Seq<Change>, a: Address) -> nat
    decreases h.len(),
{
    if h.len() == 0 {
        0
    } else {
        count_removes(h.drop_last(), a) + match h.last() {
            Change::Remove(b) => if b == a {
                1nat
            } else {
                0nat
            },
            Change::Insert(_, _) => 0nat,
        }
    }
}

/// At every prefix of the history, at most one more insert than removes has
/// been emitted for each address.
pub open spec fn prefix_balanced(h: Seq<Change>) -> bool {
    forall|n: int, a: Address|
        0 <= n <= h.len() ==> #[trigger] count_inserts(h.take(n), a) <= count_removes(h.take(n), a)
            + 1
}

/// Left-to-right insertion of an add list into an entry sequence.
pub open spec fn insert_all(
    s: Seq<(Address, Endpoint)>,
    l: Seq<(Address, Endpoint)>,
) -> Seq<(Address, Endpoint)>
    decreases l.len(),
{
    if l.len() == 0 {
        s
    } else {
        spec_imap_insert(insert_all(s, l.drop_last()), l.last().0, l.last().1)
    }
}

/// Left-to-right removal of a list of addresses from an entry sequence.
pub open spec fn remove_all(s: Seq<(Address, Endpoint)>, l: Seq<Address>) -> Seq<
    (Address, Endpoint),
>
    decreases l.len(),
{
    if l.len() == 0 {
        s
    } else {
        spec_imap_swap_remove(remove_all(s, l.drop_last()), l.last())
    }
}

/// The driver. It owns the state machine, the build set, the pending-removal
/// queue and the active-endpoint map; the resolution stream, the maker and
/// the timers stay with the caller, which answers the driver's needs.
pub struct Discover {
    target: u64,
    phase: Phase,
    queued: Option<Update>,
    make_futures: MakeFutures,
    pending_removals: Vec<Address>,
    active_endpoints: ActiveMap,
    backoff: BackoffState,
    gate: Gate,
    hist: Ghost<Seq<Change>>,
    known: Ghost<Set<Address>>,
}

impl Discover {
    /// Every change emitted so far, in order.
    pub closed spec fn history(&self) -> Seq<Change> {
        self.hist@
    }

    /// The consumer's view: inserted and not yet removed.
    pub open spec fn live(&self) -> Set<Address> {
        live_of(self.history())
    }

    /// The active-endpoint map's entries, in insertion order.
    pub closed spec fn active_seq(&self) -> Seq<(Address, Endpoint)> {
        imap_seq(self.active_endpoints)
    }

    /// Addresses whose build is in flight and not canceled.
    pub closed spec fn pending_builds(&self) -> Set<Address> {
        self.make_futures.pending()
    }

    pub closed spec fn make_slots_len(&self) -> nat {
        self.make_futures.slots_seq().len()
    }

    pub closed spec fn cancels_set(&self) -> Set<Address> {
        self.make_futures.cancels_seq().to_set()
    }

    /// Removals accepted but not yet emitted (drained back to front).
    pub closed spec fn removals_seq(&self) -> Seq<Address> {
        self.pending_removals@
    }

    pub closed spec fn phase_of(&self) -> Phase {
        self.phase
    }

    pub closed spec fn gate_of(&self) -> Gate {
        self.gate
    }

    pub closed spec fn queued_update(&self) -> Option<Update> {
        self.queued
    }

    pub closed spec fn backoff_streak(&self) -> u32 {
        self.backoff.streak
    }

    pub closed spec fn target_tok(&self) -> u64 {
        self.target
    }

    /// Every address the resolver has ever named in an accepted `Add`.
    pub closed spec fn known_set(&self) -> Set<Address> {
        self.known@
    }

    /// Well-formedness, preserved by every step.
    pub open spec fn wf(&self) -> bool {
        &&& self.make_inv()
        &&& unique_keys(self.active_seq())
        &&& (self.phase_of() is Resolving ==> self.backoff_streak() == 0)
        &&& (self.queued_update() is Some <==> self.phase_of() is Reconcile)
        &&& (self.phase_of() is Reconcile ==> self.active_seq().len() == 0 && !(
        self.queued_update()->0 is Remove))
        &&& (self.gate_of() is Resolution ==> self.removals_seq().len() == 0 && (self.phase_of()
            is Connecting || self.phase_of() is Connected || self.phase_of() is Resolving
            || self.phase_of() is Backoff))
    }

    pub closed spec fn make_inv(&self) -> bool {
        self.make_futures.inv()
    }

    /// Which events answer the driver's current need.
    pub open spec fn expects(&self, e: Event) -> bool {
        match self.gate_of() {
            Gate::Start => {
                if self.removals_seq().len() > 0 {
                    e is Run
                } else {
                    e is MakerReady || e is MakerFailed || e is Pending
                }
            },
            Gate::Resolution => {
                match self.phase_of() {
                    Phase::Connecting => e is ConnectReady || e is ConnectFailed || e is Pending,
                    Phase::Connected | Phase::Resolving => e is UpdateReady || e is UpdateFailed
                        || e is Pending,
                    Phase::Backoff => e is TimerFired || e is Pending,
                    _ => false,
                }
            },
            Gate::Builds => {
                match e {
                    Event::BuildReady(a, _) => self.pending_builds().contains(a),
                    Event::BuildFailed | Event::Pending => true,
                    _ => false,
                }
            },
        }
    }
}

/// The need `poll` hands back when a turn restarts.
pub open spec fn restart_need(removals: Seq<Address>) -> Need {
    if removals.len() > 0 {
        Need::Removal
    } else {
        Need::MakerReady
    }
}

/// One failure more on the backoff streak, saturating.
pub open spec fn bumped(streak: u32) -> u32 {
    if streak < 0xffff_ffffu32 {
        (streak + 1) as u32
    } else {
        streak
    }
}

/// Everything `poll` never touches in one step: the target.
pub open spec fn same_core(pre: Discover, post: Discover) -> bool {
    post.target_tok() == pre.target_tok()
}

/// The driver is entirely unchanged.
pub open spec fn unchanged(pre: Discover, post: Discover) -> bool {
    &&& post.phase_of() == pre.phase_of()
    &&& post.gate_of() == pre.gate_of()
    &&& post.queued_update() == pre.queued_update()
    &&& post.active_seq() == pre.active_seq()
    &&& post.removals_seq() == pre.removals_seq()
    &&& post.pending_builds() == pre.pending_builds()
    &&& post.make_slots_len() == pre.make_slots_len()
    &&& post.history() == pre.history()
    &&& post.known_set() == pre.known_set()
    &&& post.backoff_streak() == pre.backoff_streak()
}

/// Unchanged except which part of the turn the driver stands in.
pub open spec fn unchanged_but_gate(pre: Discover, post: Discover, g: Gate) -> bool {
    &&& post.phase_of() == pre.phase_of()
    &&& post.gate_of() == g
    &&& post.queued_update() == pre.queued_update()
    &&& post.active_seq() == pre.active_seq()
    &&& post.removals_seq() == pre.removals_seq()
    &&& post.pending_builds() == pre.pending_builds()
    &&& post.make_slots_len() == pre.make_slots_len()
    &&& post.history() == pre.history()
    &&& post.known_set() == pre.known_set()
    &&& post.backoff_streak() == pre.backoff_streak()
}

/// The machine moved to `Backoff` after a failure: the streak is bumped, the
/// rest is untouched.
pub open spec fn failed_rel(pre: Discover, post: Discover, r: Step) -> bool {
    &&& post.phase_of() is Backoff
    &&& post.gate_of() is Resolution
    &&& post.queued_update() is None
    &&& post.active_seq() == pre.active_seq()
    &&& post.removals_seq() == pre.removals_seq()
    &&& post.pending_builds() == pre.pending_builds()
    &&& post.make_slots_len() == pre.make_slots_len()
    &&& post.history() == pre.history()
    &&& post.known_set() == pre.known_set()
    &&& post.backoff_streak() == bumped(pre.backoff_streak())
    &&& r == Step::Await(Need::Timer)
}

/// Handling of an update while `Resolving` (and of the first update of a
/// fresh resolution that found no prior state).
pub open spec fn handle_rel(pre: Discover, u: Update, post: Discover, r: Step) -> bool {
    match u {
        Update::Add(l) => {
            &&& post.phase_of() is Resolving
            &&& post.gate_of() is Start
            &&& post.queued_update() is None
            &&& post.active_seq() == insert_all(pre.active_seq(), l@)
            &&& post.removals_seq() == pre.removals_seq()
            &&& post.pending_builds() == pre.pending_builds().union(keys_of(l@).to_set())
            &&& post.make_slots_len() == pre.make_slots_len() + l@.len()
            &&& post.history() == pre.history()
            &&& post.known_set() == pre.known_set().union(keys_of(l@).to_set())
            &&& post.backoff_streak() == 0
            &&& r == Step::Await(restart_need(pre.removals_seq()))
        },
        Update::Remove(l) => {
            &&& post.phase_of() is Resolving
            &&& post.gate_of() is Start
            &&& post.queued_update() is None
            &&& post.active_seq() == remove_all(pre.active_seq(), l@)
            &&& post.removals_seq() == pre.removals_seq() + l@
            &&& post.pending_builds() == pre.pending_builds()
            &&& post.make_slots_len() == pre.make_slots_len()
            &&& post.history() == pre.history()
            &&& post.known_set() == pre.known_set()
            &&& post.backoff_streak() == 0
            &&& r == Step::Await(restart_need(pre.removals_seq() + l@))
        },
        Update::Empty => {
            &&& post.phase_of() is Resolving
            &&& post.gate_of() is Start
            &&& post.queued_update() is None
            &&& post.active_seq() == pre.active_seq()
            &&& post.removals_seq() == pre.removals_seq()
            &&& post.pending_builds() == pre.pending_builds()
            &&& post.make_slots_len() == pre.make_slots_len()
            &&& post.history() == pre.history()
            &&& post.known_set() == pre.known_set()
            &&& post.backoff_streak() == 0
            &&& r == Step::Gone(false)
        },
        Update::DoesNotExist => {
            &&& post.phase_of() is Resolving
            &&& post.gate_of() is Start
            &&& post.queued_update() is None
            &&& post.active_seq() == pre.active_seq()
            &&& post.removals_seq() == pre.removals_seq()
            &&& post.pending_builds() == pre.pending_builds()
            &&& post.make_slots_len() == pre.make_slots_len()
            &&& post.history() == pre.history()
            &&& post.known_set() == pre.known_set()
            &&& post.backoff_streak() == 0
            &&& r == Step::Gone(true)
        },
    }
}

/// Reconciliation of the first post-reconnect update against a non-empty
/// active map: stale addresses are queued for removal first; an `Add` is
/// requeued verbatim, a `Remove` is merged with the stale set.
pub open spec fn reconcile_rel(pre: Discover, u: Update, post: Discover, r: Step) -> bool {
    match u {
        Update::Add(l) => {
            let remaining = remove_all(pre.active_seq(), keys_of(l@));
            &&& post.phase_of() is Reconcile
            &&& post.gate_of() is Start
            &&& post.queued_update() == Some(Update::Add(l))
            &&& post.active_seq().len() == 0
            &&& post.removals_seq() == pre.removals_seq() + keys_of(remaining)
            &&& post.pending_builds() == pre.pending_builds()
            &&& post.make_slots_len() == pre.make_slots_len()
            &&& post.history() == pre.history()
            &&& post.known_set() == pre.known_set().union(keys_of(l@).to_set())
            &&& post.backoff_streak() == pre.backoff_streak()
            &&& r == Step::Await(restart_need(post.removals_seq()))
        },
        Update::Remove(l) => {
            &&& post.phase_of() is Resolving
            &&& post.gate_of() is Start
            &&& post.queued_update() is None
            &&& post.active_seq().len() == 0
            &&& post.removals_seq() == pre.removals_seq() + l@ + keys_of(
                remove_all(pre.active_seq(), l@),
            )
            &&& post.pending_builds() == pre.pending_builds()
            &&& post.make_slots_len() == pre.make_slots_len()
            &&& post.history() == pre.history()
            &&& post.known_set() == pre.known_set()
            &&& post.backoff_streak() == 0
            &&& r == Step::Await(restart_need(post.removals_seq()))
        },
        _ => {
            &&& post.phase_of() is Reconcile
            &&& post.gate_of() is Start
            &&& post.queued_update() == Some(u)
            &&& post.active_seq().len() == 0
            &&& post.removals_seq() == pre.removals_seq() + keys_of(pre.active_seq())
            &&& post.pending_builds() == pre.pending_builds()
            &&& post.make_slots_len() == pre.make_slots_len()
            &&& post.history() == pre.history()
            &&& post.known_set() == pre.known_set()
            &&& post.backoff_streak() == pre.backoff_streak()
            &&& r == Step::Await(restart_need(post.removals_seq()))
        },
    }
}

/// The full transition relation of one `poll` call.
pub open spec fn poll_rel(pre: Discover, e: Event, post: Discover, r: Step) -> bool {
    match pre.gate_of() {
        Gate::Start => {
            if pre.removals_seq().len() > 0 {
                // drain one queued removal; its build, if pending, is canceled
                let a = pre.removals_seq().last();
                &&& post.phase_of() == pre.phase_of()
                &&& post.gate_of() is Start
                &&& post.queued_update() == pre.queued_update()
                &&& post.active_seq() == pre.active_seq()
                &&& post.removals_seq() == pre.removals_seq().drop_last()
                &&& post.pending_builds() == pre.pending_builds().remove(a)
                &&& post.make_slots_len() == pre.make_slots_len()
                &&& post.history() == pre.history().push(Change::Remove(a))
                &&& post.known_set() == pre.known_set()
                &&& post.backoff_streak() == pre.backoff_streak()
                &&& r == Step::Emit(Change::Remove(a))
            } else {
                match e {
                    Event::MakerFailed => unchanged(pre, post) && r == Step::Fail,
                    Event::Pending => unchanged_but_gate(pre, post, Gate::Builds) && r
                        == Step::Await(Need::Build),
                    Event::MakerReady => {
                        match pre.phase_of() {
                            Phase::Disconnected => {
                                &&& post.phase_of() is Connecting
                                &&& post.gate_of() is Resolution
                                &&& post.queued_update() == pre.queued_update()
                                &&& post.active_seq() == pre.active_seq()
                                &&& post.removals_seq() == pre.removals_seq()
                                &&& post.pending_builds() == pre.pending_builds()
                                &&& post.make_slots_len() == pre.make_slots_len()
                                &&& post.history() == pre.history()
                                &&& post.known_set() == pre.known_set()
                                &&& post.backoff_streak() == pre.backoff_streak()
                                &&& r == Step::Await(Need::Connect)
                            },
                            Phase::Connecting => {
                                &&& unchanged_but_gate(pre, post, Gate::Resolution)
                                &&& r == Step::Await(Need::Connect)
                            },
                            Phase::Connected => {
                                if pre.active_seq().len() == 0 {
                                    &&& post.phase_of() is Resolving
                                    &&& post.gate_of() is Resolution
                                    &&& post.queued_update() == pre.queued_update()
                                    &&& post.active_seq() == pre.active_seq()
                                    &&& post.removals_seq() == pre.removals_seq()
                                    &&& post.pending_builds() == pre.pending_builds()
                                    &&& post.make_slots_len() == pre.make_slots_len()
                                    &&& post.history() == pre.history()
                                    &&& post.known_set() == pre.known_set()
                                    &&& post.backoff_streak() == 0
                                    &&& r == Step::Await(Need::Update)
                                } else {
                                    &&& unchanged_but_gate(pre, post, Gate::Resolution)
                                    &&& r == Step::Await(Need::Update)
                                }
                            },
                            Phase::Resolving => {
                                &&& unchanged_but_gate(pre, post, Gate::Resolution)
                                &&& r == Step::Await(Need::Update)
                            },
                            Phase::Backoff => {
                                &&& unchanged_but_gate(pre, post, Gate::Resolution)
                                &&& r == Step::Await(Need::Timer)
                            },
                            Phase::Reconcile => {
                                // the stale removals have drained; the held
                                // update now applies to an empty active map
                                handle_rel(pre, pre.queued_update()->0, post, r)
                            },
                        }
                    },
                    _ => false,
                }
            }
        },
        Gate::Resolution => {
            match pre.phase_of() {
                Phase::Connecting => {
                    match e {
                        Event::ConnectReady => {
                            if pre.active_seq().len() == 0 {
                                &&& post.phase_of() is Resolving
                                &&& post.backoff_streak() == 0
                                &&& post.gate_of() is Resolution
                                &&& post.queued_update() == pre.queued_update()
                                &&& post.active_seq() == pre.active_seq()
                                &&& post.removals_seq() == pre.removals_seq()
                                &&& post.pending_builds() == pre.pending_builds()
                                &&& post.make_slots_len() == pre.make_slots_len()
                                &&& post.history() == pre.history()
                                &&& post.known_set() == pre.known_set()
                                &&& r == Step::Await(Need::Update)
                            } else {
                                &&& post.phase_of() is Connected
                                &&& post.backoff_streak() == pre.backoff_streak()
                                &&& post.gate_of() is Resolution
                                &&& post.queued_update() == pre.queued_update()
                                &&& post.active_seq() == pre.active_seq()
                                &&& post.removals_seq() == pre.removals_seq()
                                &&& post.pending_builds() == pre.pending_builds()
                                &&& post.make_slots_len() == pre.make_slots_len()
                                &&& post.history() == pre.history()
                                &&& post.known_set() == pre.known_set()
                                &&& r == Step::Await(Need::Update)
                            }
                        },
                        Event::ConnectFailed => failed_rel(pre, post, r),
                        Event::Pending => unchanged_but_gate(pre, post, Gate::Builds) && r
                            == Step::Await(Need::Build),
                        _ => false,
                    }
                },
                Phase::Connected | Phase::Resolving => {
                    match e {
                        Event::UpdateReady(u) => {
                            if pre.phase_of() is Connected && pre.active_seq().len() > 0 {
                                reconcile_rel(pre, u, post, r)
                            } else {
                                handle_rel(pre, u, post, r)
                            }
                        },
                        Event::UpdateFailed => failed_rel(pre, post, r),
                        Event::Pending => unchanged_but_gate(pre, post, Gate::Builds) && r
                            == Step::Await(Need::Build),
                        _ => false,
                    }
                },
                Phase::Backoff => {
                    match e {
                        Event::TimerFired => {
                            &&& post.phase_of() is Connecting
                            &&& post.gate_of() is Resolution
                            &&& post.queued_update() == pre.queued_update()
                            &&& post.active_seq() == pre.active_seq()
                            &&& post.removals_seq() == pre.removals_seq()
                            &&& post.pending_builds() == pre.pending_builds()
                            &&& post.make_slots_len() == pre.make_slots_len()
                            &&& post.history() == pre.history()
                            &&& post.known_set() == pre.known_set()
                            &&& post.backoff_streak() == pre.backoff_streak()
                            &&& r == Step::Await(Need::Connect)
                        },
                        Event::Pending => unchanged_but_gate(pre, post, Gate::Builds) && r
                            == Step::Await(Need::Build),
                        _ => false,
                    }
                },
                _ => false,
            }
        },
        Gate::Builds => {
            match e {
                Event::BuildReady(a, s) => {
                    &&& post.phase_of() == pre.phase_of()
                    &&& post.gate_of() is Start
                    &&& post.queued_update() == pre.queued_update()
                    &&& post.active_seq() == pre.active_seq()
                    &&& post.removals_seq() == pre.removals_seq()
                    &&& post.pending_builds() == pre.pending_builds().remove(a)
                    &&& post.history() == pre.history().push(Change::Insert(a, s))
                    &&& post.known_set() == pre.known_set()
                    &&& post.backoff_streak() == pre.backoff_streak()
                    &&& r == Step::Emit(Change::Insert(a, s))
                },
                Event::Pending => {
                    &&& post.phase_of() == pre.phase_of()
                    &&& post.gate_of() is Start
                    &&& post.queued_update() == pre.queued_update()
                    &&& post.active_seq() == pre.active_seq()
                    &&& post.removals_seq() == pre.removals_seq()
                    &&& post.pending_builds() == pre.pending_builds()
                    &&& post.history() == pre.history()
                    &&& post.known_set() == pre.known_set()
                    &&& post.backoff_streak() == pre.backoff_streak()
                    &&& r == Step::Idle
                },
                Event::BuildFailed => {
                    &&& unchanged_but_gate(pre, post, Gate::Start)
                    &&& r == Step::Fail
                },
                _ => false,
            }
        },
    }
}

/// Key membership in the entry sequence and in its key set agree.
pub proof fn lemma_key_set_bridge(s: Seq<(Address, Endpoint)>)
    ensures
        forall|a: Address| keys_of(s).to_set().contains(a) <==> seq_contains_key(s, a),
{
    assert forall|a: Address| keys_of(s).to_set().contains(a) implies seq_contains_key(s, a) by {
        let i = choose|i: int| 0 <= i < keys_of(s).len() && keys_of(s)[i] == a;
        assert(s[i].0 == a);
    }
    assert forall|a: Address| seq_contains_key(s, a) implies keys_of(s).to_set().contains(a) by {
        let i = choose|i: int| 0 <= i < s.len() && s[i].0 == a;
        assert(keys_of(s)[i] == a);
    }
}

/// Every entry after a bulk removal was an entry before.
pub proof fn lemma_remove_all_entries(s: Seq<(Address, Endpoint)>, ks: Seq<Address>)
    ensures
        forall|i: int| 0 <= i < remove_all(s, ks).len() ==> s.contains(#[trigger] remove_all(s, ks)[i]),
    decreases ks.len(),
{
    if ks.len() > 0 {
        lemma_remove_all_entries(s, ks.drop_last());
        let t = remove_all(s, ks.drop_last());
        let res = remove_all(s, ks);
        assert forall|i: int| 0 <= i < res.len() implies s.contains(#[trigger] res[i]) by {
            if seq_contains_key(t, ks.last()) {
                let ix = crate::imap::key_index(t, ks.last());
                assert(res == t.update(ix, t.last()).drop_last());
                assert(res[i] == if i == ix {
                    t.last()
                } else {
                    t[i]
                });
                if i == ix {
                    assert(t[t.len() - 1] == res[i]);
                    assert(s.contains(t[t.len() - 1]));
                } else {
                    assert(s.contains(t[i]));
                }
            } else {
                assert(res[i] == t[i]);
                assert(s.contains(t[i]));
            }
        }
    }
}

/// Every key after a bulk insertion was a key before, or comes from the list.
pub proof fn lemma_insert_all_keys(s: Seq<(Address, Endpoint)>, l: Seq<(Address, Endpoint)>)
    ensures
        forall|i: int|
            0 <= i < insert_all(s, l).len() ==> seq_contains_key(
                s,
                (#[trigger] insert_all(s, l)[i]).0,
            ) || keys_of(l).to_set().contains(insert_all(s, l)[i].0),
    decreases l.len(),
{
    if l.len() > 0 {
        lemma_insert_all_keys(s, l.drop_last());
        let t = insert_all(s, l.drop_last());
        let res = insert_all(s, l);
        let k = l.last().0;
        assert(keys_of(l)[l.len() - 1] == k);
        assert(keys_of(l).to_set().contains(k));
        assert forall|j: Address|
            keys_of(l.drop_last()).to_set().contains(j) implies keys_of(l).to_set().contains(
            j,
        ) by {
            let m = choose|m: int|
                0 <= m < keys_of(l.drop_last()).len() && keys_of(l.drop_last())[m] == j;
            assert(keys_of(l)[m] == j);
        }
        assert forall|i: int| 0 <= i < res.len() implies seq_contains_key(
            s,
            (#[trigger] res[i]).0,
        ) || keys_of(l).to_set().contains(res[i].0) by {
            if seq_contains_key(t, k) {
                assert(res[i] == if t[i].0 == k {
                    (k, l.last().1)
                } else {
                    t[i]
                });
            } else {
                if i < t.len() {
                    assert(res[i] == t[i]);
                } else {
                    assert(res[i] == (k, l.last().1));
                }
            }
        }
    }
}

/// Bulk removal removes exactly the listed keys (when keys are unique): the
/// remaining key set is the old key set minus the removed addresses.
pub proof fn lemma_remove_all_key_set(s: Seq<(Address, Endpoint)>, ks: Seq<Address>)
    requires
        unique_keys(s),
    ensures
        unique_keys(remove_all(s, ks)),
        keys_of(remove_all(s, ks)).to_set() == keys_of(s).to_set().difference(ks.to_set()),
    decreases ks.len(),
{
    lemma_key_set_bridge(s);
    if ks.len() == 0 {
        assert(keys_of(remove_all(s, ks)).to_set() =~= keys_of(s).to_set().difference(
            ks.to_set(),
        ));
    } else {
        lemma_remove_all_key_set(s, ks.drop_last());
        let t = remove_all(s, ks.drop_last());
        let res = remove_all(s, ks);
        let k = ks.last();
        lemma_key_set_bridge(t);
        lemma_key_set_bridge(res);
        lemma_spec_imap_swap_remove_unique(t, k);
        assert(ks =~= ks.drop_last().push(k));
        ks.drop_last().lemma_push_to_set_commute(k);
        assert(ks.to_set() == ks.drop_last().to_set().insert(k));
        assert forall|a: Address| keys_of(res).to_set().contains(a) implies keys_of(
            s,
        ).to_set().difference(ks.to_set()).contains(a) by {
            assert(seq_contains_key(res, a));
            if a == k {
                if seq_contains_key(t, k) {
                    assert(!seq_contains_key(res, k));
                    assert(false);
                } else {
                    assert(res == t);
                    assert(seq_contains_key(t, k));
                    assert(false);
                }
            } else {
                assert(seq_contains_key(t, a));
            }
        }
        assert forall|a: Address|
            keys_of(s).to_set().difference(ks.to_set()).contains(a) implies keys_of(
            res,
        ).to_set().contains(a) by {
            assert(seq_contains_key(t, a));
            assert(a != k);
            assert(seq_contains_key(res, a));
        }
        assert(keys_of(res).to_set() =~= keys_of(s).to_set().difference(ks.to_set()));
    }
}

/// A step that leaves the history alone, does not grow the build set, and
/// keeps (or drops) the held update preserves the balance discipline.
proof fn lemma_balanced_same(pre: Discover, post: Discover)
    requires
        pre.balanced(),
        post.history() == pre.history(),
        post.pending_builds().subset_of(pre.pending_builds()),
        post.queued_update() == pre.queued_update() || post.queued_update() is None,
    ensures
        post.balanced(),
{
    assert(post.live() == pre.live());
    assert(prefix_balanced(post.history())) by {
        assert forall|n: int, a2: Address| 0 <= n <= post.history().len() implies #[trigger]
            count_inserts(post.history().take(n), a2) <= count_removes(
            post.history().take(n),
            a2,
        ) + 1 by {
            assert(count_inserts(pre.history().take(n), a2) <= count_removes(
                pre.history().take(n),
                a2,
            ) + 1);
        }
    }
    assert forall|a2: Address| !post.live().contains(a2) implies count_inserts(
        post.history(),
        a2,
    ) <= count_removes(post.history(), a2) by {
        assert(!pre.live().contains(a2));
        assert(count_inserts(pre.history(), a2) <= count_removes(pre.history(), a2));
    }
    assert forall|a: Address| post.pending_builds().contains(a) implies !post.live().contains(
        a,
    ) by {
        assert(pre.pending_builds().contains(a));
    }
    if post.queued_update() == pre.queued_update() {
        match post.queued_update() {
            Some(u) => {
                match u {
                    Update::Add(l) => {
                        assert forall|k: int| 0 <= k < l@.len() implies !post.live().contains(
                            (#[trigger] l@[k]).0,
                        ) && !post.pending_builds().contains(l@[k].0) by {
                            assert(!pre.live().contains(l@[k].0));
                            assert(!pre.pending_builds().contains(l@[k].0));
                        }
                    },
                    _ => {},
                }
            },
            None => {},
        }
    }
}

/// One driver step preserves the consumer-facing balance discipline, as long
/// as the resolver's adds are fresh (`event_fresh`). Together with
/// `lemma_history_balanced` this is the at-most-one-live-service law.
pub proof fn lemma_step_preserves_balance(pre: Discover, e: Event, post: Discover, r: Step)
    requires
        pre.wf(),
        pre.expects(e),
        poll_rel(pre, e, post, r),
        pre.balanced(),
        pre.event_fresh(e),
    ensures
        post.balanced(),
{
    let h = pre.history();
    assert(h.take(h.len() as int) =~= h);
    match pre.gate_of() {
        Gate::Start => {
            if pre.removals_seq().len() > 0 {
                let a = pre.removals_seq().last();
                let c = Change::Remove(a);
                lemma_hist_push(h, c);
                let h2 = post.history();
                assert(h2 == h.push(c));
                assert(post.live() == pre.live().remove(a));
                assert forall|n: int, a2: Address| 0 <= n <= h2.len() implies #[trigger]
                    count_inserts(h2.take(n), a2) <= count_removes(h2.take(n), a2) + 1 by {
                    if n <= h.len() {
                        assert(h2.take(n) == h.take(n));
                        assert(count_inserts(h.take(n), a2) <= count_removes(h.take(n), a2) + 1);
                    } else {
                        assert(h2.take(n) =~= h2);
                        assert(count_inserts(h, a2) <= count_removes(h, a2) + 1);
                    }
                }
                assert forall|a2: Address| !post.live().contains(a2) implies count_inserts(
                    h2,
                    a2,
                ) <= count_removes(h2, a2) by {
                    if a2 == a {
                        assert(count_inserts(h, a2) <= count_removes(h, a2) + 1);
                    } else {
                        assert(!pre.live().contains(a2));
                        assert(count_inserts(h, a2) <= count_removes(h, a2));
                    }
                }
                assert forall|b: Address| post.pending_builds().contains(b) implies !post.live()
                    .contains(b) by {
                    assert(pre.pending_builds().contains(b));
                    assert(!pre.live().contains(b));
                }
                match post.queued_update() {
                    Some(u) => {
                        match u {
                            Update::Add(l) => {
                                assert forall|k: int| 0 <= k < l@.len() implies !post.live()
                                    .contains((#[trigger] l@[k]).0) && !post.pending_builds()
                                    .contains(l@[k].0) by {
                                    assert(!pre.live().contains(l@[k].0));
                                    assert(!pre.pending_builds().contains(l@[k].0));
                                }
                            },
                            _ => {},
                        }
                    },
                    None => {},
                }
            } else {
                match e {
                    Event::MakerReady => {
                        match pre.phase_of() {
                            Phase::Reconcile => {
                                let u = pre.queued_update()->0;
                                lemma_handle_preserves_balance(pre, u, post, r);
                            },
                            _ => {
                                lemma_balanced_same(pre, post);
                            },
                        }
                    },
                    _ => {
                        lemma_balanced_same(pre, post);
                    },
                }
            }
        },
        Gate::Resolution => {
            match pre.phase_of() {
                Phase::Connected | Phase::Resolving => {
                    match e {
                        Event::UpdateReady(u) => {
                            if pre.phase_of() is Connected && pre.active_seq().len() > 0 {
                                // the add is held; the strong freshness covers
                                // both the live set and the pending builds
                                assert(post.history() == pre.history());
                                assert(post.live() == pre.live());
                                assert(post.pending_builds() == pre.pending_builds());
                                assert(prefix_balanced(post.history())) by {
                                    assert forall|n: int, a2: Address|
                                        0 <= n <= post.history().len() implies #[trigger]
                                        count_inserts(post.history().take(n), a2)
                                            <= count_removes(post.history().take(n), a2) + 1 by {
                                        assert(count_inserts(pre.history().take(n), a2)
                                            <= count_removes(pre.history().take(n), a2) + 1);
                                    }
                                }
                                assert forall|a2: Address|
                                    !post.live().contains(a2) implies count_inserts(
                                    post.history(),
                                    a2,
                                ) <= count_removes(post.history(), a2) by {
                                    assert(!pre.live().contains(a2));
                                    assert(count_inserts(pre.history(), a2) <= count_removes(
                                        pre.history(),
                                        a2,
                                    ));
                                }
                                assert forall|b: Address|
                                    post.pending_builds().contains(b) implies !post.live()
                                    .contains(b) by {
                                    assert(pre.pending_builds().contains(b));
                                }
                            } else {
                                lemma_handle_preserves_balance(pre, u, post, r);
                            }
                        },
                        _ => {
                            lemma_balanced_same(pre, post);
                        },
                    }
                },
                _ => {
                    lemma_balanced_same(pre, post);
                },
            }
        },
        Gate::Builds => {
            match e {
                Event::BuildReady(a, s) => {
                    let c = Change::Insert(a, s);
                    lemma_hist_push(h, c);
                    let h2 = post.history();
                    assert(h2 == h.push(c));
                    assert(post.live() == pre.live().insert(a));
                    assert(pre.pending_builds().contains(a));
                    assert(!pre.live().contains(a));
                    assert(count_inserts(h, a) <= count_removes(h, a));
                    assert forall|n: int, a2: Address| 0 <= n <= h2.len() implies #[trigger]
                        count_inserts(h2.take(n), a2) <= count_removes(h2.take(n), a2) + 1 by {
                        if n <= h.len() {
                            assert(h2.take(n) == h.take(n));
                            assert(count_inserts(h.take(n), a2) <= count_removes(h.take(n), a2)
                                + 1);
                        } else {
                            assert(h2.take(n) =~= h2);
                            if a2 != a {
                                assert(count_inserts(h, a2) <= count_removes(h, a2) + 1);
                            }
                        }
                    }
                    assert forall|a2: Address| !post.live().contains(a2) implies count_inserts(
                        h2,
                        a2,
                    ) <= count_removes(h2, a2) by {
                        assert(a2 != a);
                        assert(!pre.live().contains(a2));
                        assert(count_inserts(h, a2) <= count_removes(h, a2));
                    }
                    assert forall|b: Address| post.pending_builds().contains(b) implies !post.live()
                        .contains(b) by {
                        assert(pre.pending_builds().contains(b));
                        assert(b != a);
                        assert(!pre.live().contains(b));
                    }
                    match post.queued_update() {
                        Some(u) => {
                            match u {
                                Update::Add(l) => {
                                    assert forall|k: int| 0 <= k < l@.len() implies !post.live()
                                        .contains((#[trigger] l@[k]).0) && !post.pending_builds()
                                        .contains(l@[k].0) by {
                                        assert(!pre.live().contains(l@[k].0));
                                        assert(!pre.pending_builds().contains(l@[k].0));
                                        assert(l@[k].0 != a);
                                    }
                                },
                                _ => {},
                            }
                        },
                        None => {},
                    }
                },
                _ => {
                    lemma_balanced_same(pre, post);
                },
            }
        },
    }
}

/// Handling an update whose adds are fresh preserves the balance discipline.
proof fn lemma_handle_preserves_balance(pre: Discover, u: Update, post: Discover, r: Step)
    requires
        pre.balanced(),
        handle_rel(pre, u, post, r),
        match u {
            Update::Add(l) => forall|k: int|
                0 <= k < l@.len() ==> !pre.live().contains((#[trigger] l@[k]).0),
            _ => true,
        },
    ensures
        post.balanced(),
{
    assert(post.history() == pre.history());
    assert(post.live() == pre.live());
    assert(prefix_balanced(post.history())) by {
        assert forall|n: int, a2: Address| 0 <= n <= post.history().len() implies #[trigger]
            count_inserts(post.history().take(n), a2) <= count_removes(
            post.history().take(n),
            a2,
        ) + 1 by {
            assert(count_inserts(pre.history().take(n), a2) <= count_removes(
                pre.history().take(n),
                a2,
            ) + 1);
        }
    }
    assert forall|a2: Address| !post.live().contains(a2) implies count_inserts(
        post.history(),
        a2,
    ) <= count_removes(post.history(), a2) by {
        assert(!pre.live().contains(a2));
        assert(count_inserts(pre.history(), a2) <= count_removes(pre.history(), a2));
    }
    match u {
        Update::Add(l) => {
            assert forall|a: Address| post.pending_builds().contains(a) implies !post.live()
                .contains(a) by {
                if pre.pending_builds().contains(a) {
                } else {
                    assert(keys_of(l@).to_set().contains(a));
                    let k = choose|k: int| 0 <= k < keys_of(l@).len() && keys_of(l@)[k] == a;
                    assert(l@[k].0 == a);
                }
            }
        },
        _ => {
            assert(post.pending_builds() == pre.pending_builds());
            assert forall|a: Address| post.pending_builds().contains(a) implies !post.live()
                .contains(a) by {
                assert(pre.pending_builds().contains(a));
            }
        },
    }
}

/// The at-most-one-live-service law: at every prefix of the change history,
/// no address has seen more than one insert beyond its removes.
pub proof fn lemma_history_balanced(d: Discover, n: int, a: Address)
    requires
        d.balanced(),
        0 <= n <= d.history().len(),
    ensures
        count_inserts(d.history().take(n), a) <= count_removes(d.history().take(n), a) + 1,
{
}

/// One driver step preserves the no-gratuitous-removes discipline, as long
/// as the resolver removes only addresses it has added (`event_known`).
pub proof fn lemma_step_preserves_remove_discipline(
    pre: Discover,
    e: Event,
    post: Discover,
    r: Step,
)
    requires
        pre.wf(),
        pre.expects(e),
        poll_rel(pre, e, post, r),
        pre.removes_tracked(),
        pre.event_known(e),
    ensures
        post.removes_tracked(),
{
    let h = pre.history();
    match pre.gate_of() {
        Gate::Start => {
            if pre.removals_seq().len() > 0 {
                let a = pre.removals_seq().last();
                let h2 = post.history();
                assert(h2 == h.push(Change::Remove(a)));
                assert(pre.known_set().contains(a));
                assert forall|n: int| 0 <= n < h2.len() implies match #[trigger] h2[n] {
                    Change::Remove(b) => post.known_set().contains(b),
                    Change::Insert(_, _) => true,
                } by {
                    if n < h.len() {
                        assert(h2[n] == h[n]);
                    }
                }
                assert forall|k: int| 0 <= k < post.removals_seq().len() implies post.known_set()
                    .contains(#[trigger] post.removals_seq()[k]) by {
                    assert(post.removals_seq()[k] == pre.removals_seq()[k]);
                }
            } else {
                match e {
                    Event::MakerReady => {
                        match pre.phase_of() {
                            Phase::Reconcile => {
                                let u = pre.queued_update()->0;
                                lemma_handle_preserves_remove_discipline(pre, u, post, r);
                            },
                            _ => {},
                        }
                    },
                    _ => {},
                }
            }
        },
        Gate::Resolution => {
            match pre.phase_of() {
                Phase::Connected | Phase::Resolving => {
                    match e {
                        Event::UpdateReady(u) => {
                            if pre.phase_of() is Connected && pre.active_seq().len() > 0 {
                                lemma_reconcile_preserves_remove_discipline(pre, u, post, r);
                            } else {
                                lemma_handle_preserves_remove_discipline(pre, u, post, r);
                            }
                        },
                        _ => {},
                    }
                },
                _ => {},
            }
        },
        Gate::Builds => {
            match e {
                Event::BuildReady(a, s) => {
                    let h2 = post.history();
                    assert(h2 == h.push(Change::Insert(a, s)));
                    assert forall|n: int| 0 <= n < h2.len() implies match #[trigger] h2[n] {
                        Change::Remove(b) => post.known_set().contains(b),
                        Change::Insert(_, _) => true,
                    } by {
                        if n < h.len() {
                            assert(h2[n] == h[n]);
                        }
                    }
                },
                _ => {},
            }
        },
    }
}

proof fn lemma_handle_preserves_remove_discipline(pre: Discover, u: Update, post: Discover, r: Step)
    requires
        pre.removes_tracked(),
        handle_rel(pre, u, post, r),
        match u {
            Update::Remove(l) => forall|k: int|
                0 <= k < l@.len() ==> pre.known_set().contains(#[trigger] l@[k]),
            _ => true,
        },
    ensures
        post.removes_tracked(),
{
    match u {
        Update::Add(l) => {
            lemma_insert_all_keys(pre.active_seq(), l@);
            assert forall|k: int| 0 <= k < post.active_seq().len() implies post.known_set()
                .contains((#[trigger] post.active_seq()[k]).0) by {
                if seq_contains_key(pre.active_seq(), post.active_seq()[k].0) {
                    let m = choose|m: int|
                        0 <= m < pre.active_seq().len() && pre.active_seq()[m].0
                            == post.active_seq()[k].0;
                    assert(pre.known_set().contains(pre.active_seq()[m].0));
                } else {
                    assert(keys_of(l@).to_set().contains(post.active_seq()[k].0));
                }
            }
        },
        Update::Remove(l) => {
            lemma_remove_all_entries(pre.active_seq(), l@);
            assert forall|k: int| 0 <= k < post.active_seq().len() implies post.known_set()
                .contains((#[trigger] post.active_seq()[k]).0) by {
                assert(pre.active_seq().contains(post.active_seq()[k]));
                let m = choose|m: int|
                    0 <= m < pre.active_seq().len() && pre.active_seq()[m] == post.active_seq()[k];
                assert(pre.known_set().contains(pre.active_seq()[m].0));
            }
            assert forall|k: int| 0 <= k < post.removals_seq().len() implies post.known_set()
                .contains(#[trigger] post.removals_seq()[k]) by {
                if k < pre.removals_seq().len() {
                    assert(post.removals_seq()[k] == pre.removals_seq()[k]);
                } else {
                    assert(post.removals_seq()[k] == l@[k - pre.removals_seq().len()]);
                }
            }
        },
        _ => {},
    }
}

proof fn lemma_reconcile_preserves_remove_discipline(
    pre: Discover,
    u: Update,
    post: Discover,
    r: Step,
)
    requires
        pre.removes_tracked(),
        reconcile_rel(pre, u, post, r),
        match u {
            Update::Remove(l) => forall|k: int|
                0 <= k < l@.len() ==> pre.known_set().contains(#[trigger] l@[k]),
            _ => true,
        },
    ensures
        post.removes_tracked(),
{
    match u {
        Update::Add(l) => {
            let remaining = remove_all(pre.active_seq(), keys_of(l@));
            lemma_remove_all_entries(pre.active_seq(), keys_of(l@));
            assert forall|k: int| 0 <= k < post.removals_seq().len() implies post.known_set()
                .contains(#[trigger] post.removals_seq()[k]) by {
                if k < pre.removals_seq().len() {
                    assert(post.removals_seq()[k] == pre.removals_seq()[k]);
                } else {
                    let j = k - pre.removals_seq().len();
                    assert(post.removals_seq()[k] == keys_of(remaining)[j]);
                    assert(keys_of(remaining)[j] == remaining[j].0);
                    assert(pre.active_seq().contains(remaining[j]));
                    let m = choose|m: int|
                        0 <= m < pre.active_seq().len() && pre.active_seq()[m] == remaining[j];
                    assert(pre.known_set().contains(pre.active_seq()[m].0));
                }
            }
        },
        Update::Remove(l) => {
            let remaining = remove_all(pre.active_seq(), l@);
            lemma_remove_all_entries(pre.active_seq(), l@);
            assert forall|k: int| 0 <= k < post.removals_seq().len() implies post.known_set()
                .contains(#[trigger] post.removals_seq()[k]) by {
                if k < pre.removals_seq().len() {
                    assert(post.removals_seq()[k] == pre.removals_seq()[k]);
                } else if k < pre.removals_seq().len() + l@.len() {
                    assert(post.removals_seq()[k] == l@[k - pre.removals_seq().len()]);
                } else {
                    let j = k - pre.removals_seq().len() - l@.len();
                    assert(post.removals_seq()[k] == keys_of(remaining)[j]);
                    assert(keys_of(remaining)[j] == remaining[j].0);
                    assert(pre.active_seq().contains(remaining[j]));
                    let m = choose|m: int|
                        0 <= m < pre.active_seq().len() && pre.active_seq()[m] == remaining[j];
                    assert(pre.known_set().contains(pre.active_seq()[m].0));
                }
            }
        },
        _ => {
            assert forall|k: int| 0 <= k < post.removals_seq().len() implies post.known_set()
                .contains(#[trigger] post.removals_seq()[k]) by {
                if k < pre.removals_seq().len() {
                    assert(post.removals_seq()[k] == pre.removals_seq()[k]);
                } else {
                    let j = k - pre.removals_seq().len();
                    assert(post.removals_seq()[k] == keys_of(pre.active_seq())[j]);
                    assert(pre.known_set().contains(pre.active_seq()[j].0));
                }
            }
        },
    }
}

/// The no-gratuitous-removes law: every address a `Remove` was emitted for
/// had been accepted from the resolver in an `Add`.
pub proof fn lemma_removes_only_known(d: Discover, n: int)
    requires
        d.removes_tracked(),
        0 <= n < d.history().len(),
        d.history()[n] is Remove,
    ensures
        d.known_set().contains(d.history()[n]->Remove_0),
{
}

/// The reconnect-convergence law, on the sets reconciliation manipulates:
/// whatever view the consumer held within the stale map, removing the stale
/// addresses that are not fresh and inserting the fresh ones leaves exactly
/// the fresh address set. `reconcile_rel` queues precisely the stale-minus-
/// fresh removals (`lemma_remove_all_key_set`) and requeues the fresh add.
pub proof fn lemma_reconcile_converges(view: Set<Address>, stale: Set<Address>, fresh: Set<Address>)
    requires
        view.subset_of(stale),
    ensures
        view.difference(stale.difference(fresh)).union(fresh) == fresh,
{
    assert(view.difference(stale.difference(fresh)).union(fresh) =~= fresh);
}

/// The backoff-reset law: whenever the driver is forwarding updates from a
/// live resolution, the failure streak has been reset.
pub proof fn lemma_backoff_reset_when_resolving(d: Discover)
    requires
        d.wf(),
        d.phase_of() is Resolving,
    ensures
        d.backoff_streak() == 0,
{
}

/// The build-set law: cancellation entries are exactly the pending builds —
/// the addresses with an accepted add and no insert or cancellation yet —
/// and each signal fires at most once (a fired slot is never pending again).
pub proof fn lemma_cancel_entries_match_builds(d: Discover)
    requires
        d.wf(),
    ensures
        d.cancels_set() == d.pending_builds(),
        d.cancels_len() == d.pending_builds().len(),
{
    d.lemma_make_parts();
}

impl Discover {
    proof fn lemma_make_parts(&self)
        requires
            self.wf(),
        ensures
            self.cancels_set() == self.pending_builds(),
            self.cancels_len() == self.pending_builds().len(),
    {
        self.make_futures.lemma_cancelations_match_pending();
    }
}

impl Discover {
    /// The consumer-facing discipline the driver maintains: the history never
    /// carries a second insert for a live address, pending builds are never
    /// for live addresses, and a held reconciliation add is fresh.
    pub open spec fn balanced(&self) -> bool {
        &&& prefix_balanced(self.history())
        &&& forall|a: Address|
            !self.live().contains(a) ==> count_inserts(self.history(), a) <= count_removes(
                self.history(),
                a,
            )
        &&& forall|a: Address| self.pending_builds().contains(a) ==> !self.live().contains(a)
        &&& match self.queued_update() {
            Some(Update::Add(l)) => forall|k: int|
                0 <= k < l@.len() ==> !self.live().contains((#[trigger] l@[k]).0)
                    && !self.pending_builds().contains(l@[k].0),
            _ => true,
        }
    }

    /// The freshness the resolver owes for the balance discipline to carry:
    /// an `Add` never names an address whose service is live; during
    /// reconciliation, also none whose build is still in flight.
    pub open spec fn event_fresh(&self, e: Event) -> bool {
        match e {
            Event::UpdateReady(u) => match u {
                Update::Add(l) => {
                    if self.gate_of() is Resolution && self.phase_of() is Connected
                        && self.active_seq().len() > 0 {
                        forall|k: int|
                            0 <= k < l@.len() ==> !self.live().contains((#[trigger] l@[k]).0)
                                && !self.pending_builds().contains(l@[k].0)
                    } else {
                        forall|k: int|
                            0 <= k < l@.len() ==> !self.live().contains((#[trigger] l@[k]).0)
                    }
                },
                _ => true,
            },
            _ => true,
        }
    }

    /// No gratuitous removes: every address in the history's removes, in the
    /// removal queue, and in the active map was accepted from the resolver.
    pub open spec fn removes_tracked(&self) -> bool {
        &&& forall|n: int|
            0 <= n < self.history().len() ==> match #[trigger] self.history()[n] {
                Change::Remove(a) => self.known_set().contains(a),
                Change::Insert(_, _) => true,
            }
        &&& forall|k: int|
            0 <= k < self.removals_seq().len() ==> self.known_set().contains(
                #[trigger] self.removals_seq()[k],
            )
        &&& forall|k: int|
            0 <= k < self.active_seq().len() ==> self.known_set().contains(
                (#[trigger] self.active_seq()[k]).0,
            )
    }

    /// What the resolver owes for the remove discipline: a `Remove` names
    /// only addresses it has added before.
    pub open spec fn event_known(&self, e: Event) -> bool {
        match e {
            Event::UpdateReady(u) => match u {
                Update::Remove(l) => forall|k: int|
                    0 <= k < l@.len() ==> self.known_set().contains(#[trigger] l@[k]),
                _ => true,
            },
            _ => true,
        }
    }
}

/// Appending one change to a history: how the counts, the live set and the
/// prefixes move.
pub proof fn lemma_hist_push(h: Seq<Change>, c: Change)
    ensures
        forall|a: Address| #[trigger] count_inserts(h.push(c), a) == count_inserts(h, a) + (
        match c {
            Change::Insert(b, _) => if b == a {
                1nat
            } else {
                0nat
            },
            Change::Remove(_) => 0nat,
        }),
        forall|a: Address| #[trigger] count_removes(h.push(c), a) == count_removes(h, a) + (
        match c {
            Change::Remove(b) => if b == a {
                1nat
            } else {
                0nat
            },
            Change::Insert(_, _) => 0nat,
        }),
        live_of(h.push(c)) == (match c {
            Change::Insert(b, _) => live_of(h).insert(b),
            Change::Remove(b) => live_of(h).remove(b),
        }),
        forall|n: int| 0 <= n <= h.len() ==> #[trigger] h.push(c).take(n) == h.take(n),
{
    assert(h.push(c).drop_last() =~= h);
    assert(h.push(c).last() == c);
    assert forall|n: int| 0 <= n <= h.len() implies #[trigger] h.push(c).take(n) == h.take(n) by {
        assert(h.push(c).take(n) =~= h.take(n));
    }
}

impl Discover {
    /// A fresh driver for a target: disconnected, with nothing in flight.
    pub fn new(target: u64) -> (r: Discover)
        ensures
            r.wf(),
            r.phase_of() is Disconnected,
            r.gate_of() is Start,
            r.queued_update() is None,
            r.active_seq() == Seq::<(Address, Endpoint)>::empty(),
            r.removals_seq() == Seq::<Address>::empty(),
            r.pending_builds() == Set::<Address>::empty(),
            r.make_slots_len() == 0,
            r.history() == Seq::<Change>::empty(),
            r.known_set() == Set::<Address>::empty(),
            r.backoff_streak() == 0,
            r.target_tok() == target,
    {
        Discover {
            target,
            phase: Phase::Disconnected,
            queued: None,
            make_futures: MakeFutures::new(),
            pending_removals: Vec::new(),
            active_endpoints: imap_new(),
            backoff: BackoffState { streak: 0 },
            gate: Gate::Start,
            hist: Ghost(Seq::empty()),
            known: Ghost(Set::empty()),
        }
    }

    /// Replaces the backoff policy state.
    pub fn with_backoff(self, backoff: BackoffState) -> (r: Discover)
        requires
            self.phase_of() is Resolving ==> backoff.streak == 0,
        ensures
            r.backoff_streak() == backoff.streak,
            r.phase_of() == self.phase_of(),
            r.gate_of() == self.gate_of(),
            r.queued_update() == self.queued_update(),
            r.active_seq() == self.active_seq(),
            r.removals_seq() == self.removals_seq(),
            r.pending_builds() == self.pending_builds(),
            r.make_slots_len() == self.make_slots_len(),
            r.history() == self.history(),
            r.known_set() == self.known_set(),
            r.target_tok() == self.target_tok(),
            self.wf() ==> r.wf(),
    {
        Discover { backoff, ..self }
    }

    /// Starts from an already-obtained resolution: the machine stands in
    /// `Connected`, owing the first update.
    pub fn with_resolution(self) -> (r: Discover)
        requires
            self.phase_of() is Disconnected,
        ensures
            r.phase_of() is Connected,
            r.gate_of() == self.gate_of(),
            r.queued_update() == self.queued_update(),
            r.active_seq() == self.active_seq(),
            r.removals_seq() == self.removals_seq(),
            r.pending_builds() == self.pending_builds(),
            r.make_slots_len() == self.make_slots_len(),
            r.history() == self.history(),
            r.known_set() == self.known_set(),
            r.backoff_streak() == self.backoff_streak(),
            r.target_tok() == self.target_tok(),
            self.wf() ==> r.wf(),
    {
        Discover { phase: Phase::Connected, ..self }
    }

    /// The number of build futures held (reaped or not).
    pub fn futures_len(&self) -> (r: usize)
        ensures
            r == self.make_slots_len(),
    {
        self.make_futures.futures_len()
    }

    pub closed spec fn cancels_len(&self) -> nat {
        self.make_futures.cancels_seq().len()
    }

    /// The number of live cancellation entries.
    pub fn cancelations_len(&self) -> (r: usize)
        ensures
            r == self.cancels_len(),
    {
        self.make_futures.cancelations_len()
    }

    /// The backoff policy's failure streak.
    pub fn streak(&self) -> (r: u32)
        ensures
            r == self.backoff_streak(),
    {
        self.backoff.streak
    }

    /// The number of removals accepted but not yet emitted.
    pub fn removals_len(&self) -> (r: usize)
        ensures
            r == self.removals_seq().len(),
    {
        self.pending_removals.len()
    }

    fn apply_add(&mut self, l: &Vec<(Address, Endpoint)>)
        requires
            old(self).make_inv(),
            unique_keys(old(self).active_seq()),
        ensures
            final(self).make_inv(),
            unique_keys(final(self).active_seq()),
            final(self).active_seq() == insert_all(old(self).active_seq(), l@),
            final(self).pending_builds() == old(self).pending_builds().union(
                keys_of(l@).to_set(),
            ),
            final(self).make_slots_len() == old(self).make_slots_len() + l@.len(),
            final(self).known_set() == old(self).known_set().union(keys_of(l@).to_set()),
            final(self).phase_of() == old(self).phase_of(),
            final(self).gate_of() == old(self).gate_of(),
            final(self).queued_update() == old(self).queued_update(),
            final(self).removals_seq() == old(self).removals_seq(),
            final(self).history() == old(self).history(),
            final(self).backoff_streak() == old(self).backoff_streak(),
            final(self).target_tok() == old(self).target_tok(),
    {
        let mut i: usize = 0;
        while i < l.len()
            invariant
                0 <= i <= l@.len(),
                self.make_futures.inv(),
                unique_keys(imap_seq(self.active_endpoints)),
                imap_seq(self.active_endpoints) == insert_all(
                    old(self).active_seq(),
                    l@.take(i as int),
                ),
                self.make_futures.pending() == old(self).pending_builds().union(
                    keys_of(l@.take(i as int)).to_set(),
                ),
                self.make_futures.slots_seq().len() == old(self).make_slots_len() + i,
                self.pending_removals@ == old(self).removals_seq(),
                self.phase == old(self).phase_of(),
                self.gate == old(self).gate_of(),
                self.queued == old(self).queued_update(),
                self.hist@ == old(self).history(),
                self.known@ == old(self).known_set(),
                self.backoff.streak == old(self).backoff_streak(),
                self.target == old(self).target_tok(),
            decreases l@.len() - i,
        {
            let pair = l[i];
            let ghost pre_active = imap_seq(self.active_endpoints);
            let ghost pre_pending = self.make_futures.pending();
            self.make_futures.push(pair.0);
            let _prior = imap_insert(&mut self.active_endpoints, pair.0, pair.1);
            proof {
                lemma_spec_imap_insert_unique(pre_active, pair.0, pair.1);
                assert(l@.take(i + 1 as int).drop_last() =~= l@.take(i as int));
                assert(l@.take(i + 1 as int).last() == l@[i as int]);
                assert(imap_seq(self.active_endpoints) == insert_all(
                    old(self).active_seq(),
                    l@.take(i + 1 as int),
                ));
                assert(keys_of(l@.take(i + 1 as int)) =~= keys_of(l@.take(i as int)).push(
                    l@[i as int].0,
                ));
                keys_of(l@.take(i as int)).lemma_push_to_set_commute(l@[i as int].0);
                assert(keys_of(l@.take(i + 1 as int)).to_set() =~= keys_of(
                    l@.take(i as int),
                ).to_set().insert(l@[i as int].0));
                assert(self.make_futures.pending() =~= old(self).pending_builds().union(
                    keys_of(l@.take(i + 1 as int)).to_set(),
                ));
            }
            i = i + 1;
        }
        proof {
            assert(l@.take(l@.len() as int) =~= l@);
        }
        self.known = Ghost(self.known@.union(keys_of(l@).to_set()));
    }

    fn apply_remove(&mut self, l: &Vec<Address>)
        requires
            old(self).make_inv(),
            unique_keys(old(self).active_seq()),
        ensures
            final(self).make_inv(),
            unique_keys(final(self).active_seq()),
            final(self).active_seq() == remove_all(old(self).active_seq(), l@),
            final(self).removals_seq() == old(self).removals_seq() + l@,
            final(self).pending_builds() == old(self).pending_builds(),
            final(self).make_slots_len() == old(self).make_slots_len(),
            final(self).known_set() == old(self).known_set(),
            final(self).phase_of() == old(self).phase_of(),
            final(self).gate_of() == old(self).gate_of(),
            final(self).queued_update() == old(self).queued_update(),
            final(self).history() == old(self).history(),
            final(self).backoff_streak() == old(self).backoff_streak(),
            final(self).target_tok() == old(self).target_tok(),
    {
        let mut i: usize = 0;
        while i < l.len()
            invariant
                0 <= i <= l@.len(),
                self.make_futures == old(self).make_futures,
                self.make_futures.inv(),
                unique_keys(imap_seq(self.active_endpoints)),
                imap_seq(self.active_endpoints) == remove_all(
                    old(self).active_seq(),
                    l@.take(i as int),
                ),
                self.pending_removals@ == old(self).removals_seq() + l@.take(i as int),
                self.phase == old(self).phase_of(),
                self.gate == old(self).gate_of(),
                self.queued == old(self).queued_update(),
                self.hist@ == old(self).history(),
                self.known@ == old(self).known_set(),
                self.backoff.streak == old(self).backoff_streak(),
                self.target == old(self).target_tok(),
            decreases l@.len() - i,
        {
            let a = l[i];
            let ghost pre_active = imap_seq(self.active_endpoints);
            let _prior = imap_swap_remove(&mut self.active_endpoints, &a);
            self.pending_removals.push(a);
            proof {
                lemma_spec_imap_swap_remove_unique(pre_active, a);
                assert(l@.take(i + 1 as int).drop_last() =~= l@.take(i as int));
                assert(l@.take(i + 1 as int).last() == l@[i as int]);
                assert(self.pending_removals@ =~= old(self).removals_seq() + l@.take(
                    i + 1 as int,
                ));
            }
            i = i + 1;
        }
        proof {
            assert(l@.take(l@.len() as int) =~= l@);
        }
    }

    fn extend_removals(&mut self, l: Vec<Address>)
        ensures
            final(self).removals_seq() == old(self).removals_seq() + l@,
            final(self).make_inv() == old(self).make_inv(),
            final(self).active_seq() == old(self).active_seq(),
            final(self).pending_builds() == old(self).pending_builds(),
            final(self).make_slots_len() == old(self).make_slots_len(),
            final(self).known_set() == old(self).known_set(),
            final(self).phase_of() == old(self).phase_of(),
            final(self).gate_of() == old(self).gate_of(),
            final(self).queued_update() == old(self).queued_update(),
            final(self).history() == old(self).history(),
            final(self).backoff_streak() == old(self).backoff_streak(),
            final(self).target_tok() == old(self).target_tok(),
            final(self).cancels_len() == old(self).cancels_len(),
    {
        let mut i: usize = 0;
        while i < l.len()
            invariant
                0 <= i <= l@.len(),
                self.make_futures == old(self).make_futures,
                self.active_endpoints == old(self).active_endpoints,
                self.pending_removals@ == old(self).removals_seq() + l@.take(i as int),
                self.phase == old(self).phase_of(),
                self.gate == old(self).gate_of(),
                self.queued == old(self).queued_update(),
                self.hist@ == old(self).history(),
                self.known@ == old(self).known_set(),
                self.backoff.streak == old(self).backoff_streak(),
                self.target == old(self).target_tok(),
            decreases l@.len() - i,
        {
            let a = l[i];
            self.pending_removals.push(a);
            proof {
                assert(self.pending_removals@ =~= old(self).removals_seq() + l@.take(
                    i + 1 as int,
                ));
            }
            i = i + 1;
        }
        proof {
            assert(l@.take(l@.len() as int) =~= l@);
        }
    }

    fn restart_step(&self) -> (r: Step)
        ensures
            r == Step::Await(restart_need(self.removals_seq())),
    {
        if self.pending_removals.len() > 0 {
            Step::Await(Need::Removal)
        } else {
            Step::Await(Need::MakerReady)
        }
    }

    fn handle_update(&mut self, u: Update) -> (r: Step)
        requires
            old(self).make_inv(),
            unique_keys(old(self).active_seq()),
        ensures
            handle_rel(*old(self), u, *final(self), r),
            final(self).make_inv(),
            unique_keys(final(self).active_seq()),
            final(self).target_tok() == old(self).target_tok(),
    {
        match u {
            Update::Add(l) => {
                self.apply_add(&l);
                self.phase = Phase::Resolving;
                self.backoff = BackoffState { streak: 0 };
                self.gate = Gate::Start;
                self.queued = None;
                self.restart_step()
            },
            Update::Remove(l) => {
                self.apply_remove(&l);
                self.phase = Phase::Resolving;
                self.backoff = BackoffState { streak: 0 };
                self.gate = Gate::Start;
                self.queued = None;
                self.restart_step()
            },
            Update::Empty => {
                self.phase = Phase::Resolving;
                self.backoff = BackoffState { streak: 0 };
                self.gate = Gate::Start;
                self.queued = None;
                Step::Gone(false)
            },
            Update::DoesNotExist => {
                self.phase = Phase::Resolving;
                self.backoff = BackoffState { streak: 0 };
                self.gate = Gate::Start;
                self.queued = None;
                Step::Gone(true)
            },
        }
    }

    fn reconcile_update(&mut self, u: Update) -> (r: Step)
        requires
            old(self).make_inv(),
            unique_keys(old(self).active_seq()),
        ensures
            reconcile_rel(*old(self), u, *final(self), r),
            final(self).make_inv(),
            unique_keys(final(self).active_seq()),
            final(self).target_tok() == old(self).target_tok(),
    {
        match u {
            Update::Add(l) => {
                // retained addresses leave the stale set; the add itself is
                // requeued and applies once the removals have drained
                let mut i: usize = 0;
                while i < l.len()
                    invariant
                        0 <= i <= l@.len(),
                        self.make_futures == old(self).make_futures,
                        self.make_futures.inv(),
                        unique_keys(imap_seq(self.active_endpoints)),
                        imap_seq(self.active_endpoints) == remove_all(
                            old(self).active_seq(),
                            keys_of(l@).take(i as int),
                        ),
                        self.pending_removals@ == old(self).removals_seq(),
                        self.phase == old(self).phase_of(),
                        self.gate == old(self).gate_of(),
                        self.queued == old(self).queued_update(),
                        self.hist@ == old(self).history(),
                        self.known@ == old(self).known_set(),
                        self.backoff.streak == old(self).backoff_streak(),
                        self.target == old(self).target_tok(),
                    decreases l@.len() - i,
                {
                    let pair = l[i];
                    let ghost pre_active = imap_seq(self.active_endpoints);
                    let _prior = imap_swap_remove(&mut self.active_endpoints, &pair.0);
                    proof {
                        lemma_spec_imap_swap_remove_unique(pre_active, pair.0);
                        assert(keys_of(l@).take(i + 1 as int).drop_last() =~= keys_of(l@).take(
                            i as int,
                        ));
                        assert(keys_of(l@).take(i + 1 as int).last() == l@[i as int].0);
                    }
                    i = i + 1;
                }
                proof {
                    assert(keys_of(l@).take(l@.len() as int) =~= keys_of(l@));
                }
                let stale = imap_drain_keys(&mut self.active_endpoints);
                self.extend_removals(stale);
                self.known = Ghost(self.known@.union(keys_of(l@).to_set()));
                self.queued = Some(Update::Add(l));
                self.phase = Phase::Reconcile;
                self.gate = Gate::Start;
                self.restart_step()
            },
            Update::Remove(l) => {
                // the fresh removals merge with the stale addresses they do
                // not already name, a set union
                self.apply_remove(&l);
                let stale = imap_drain_keys(&mut self.active_endpoints);
                self.extend_removals(stale);
                self.phase = Phase::Resolving;
                self.backoff = BackoffState { streak: 0 };
                self.gate = Gate::Start;
                self.queued = None;
                self.restart_step()
            },
            Update::Empty => {
                let stale = imap_drain_keys(&mut self.active_endpoints);
                self.extend_removals(stale);
                self.queued = Some(Update::Empty);
                self.phase = Phase::Reconcile;
                self.gate = Gate::Start;
                self.restart_step()
            },
            Update::DoesNotExist => {
                let stale = imap_drain_keys(&mut self.active_endpoints);
                self.extend_removals(stale);
                self.queued = Some(Update::DoesNotExist);
                self.phase = Phase::Reconcile;
                self.gate = Gate::Start;
                self.restart_step()
            },
        }
    }

    /// One step of the driver. `e` answers the need the previous step handed
    /// back; the returned step says what was produced and what to answer
    /// next. The transition relation `poll_rel` is the full contract.
    pub fn poll(&mut self, e: Event) -> (r: Step)
        requires
            old(self).wf(),
            old(self).expects(e),
        ensures
            final(self).wf(),
            poll_rel(*old(self), e, *final(self), r),
            same_core(*old(self), *final(self)),
    {
        match self.gate {
            Gate::Start => {
                if self.pending_removals.len() > 0 {
                    let popped = self.pending_removals.pop();
                    match popped {
                        Some(a) => {
                            self.make_futures.remove(&a);
                            proof {
                                self.hist@ = self.hist@.push(Change::Remove(a));
                            }
                            Step::Emit(Change::Remove(a))
                        },
                        None => {
                            proof {
                                assert(false);
                            }
                            Step::Idle
                        },
                    }
                } else {
                    match e {
                        Event::MakerFailed => Step::Fail,
                        Event::Pending => {
                            self.gate = Gate::Builds;
                            Step::Await(Need::Build)
                        },
                        Event::MakerReady => {
                            match self.phase {
                                Phase::Disconnected => {
                                    self.phase = Phase::Connecting;
                                    self.gate = Gate::Resolution;
                                    Step::Await(Need::Connect)
                                },
                                Phase::Connecting => {
                                    self.gate = Gate::Resolution;
                                    Step::Await(Need::Connect)
                                },
                                Phase::Connected => {
                                    if imap_is_empty(&self.active_endpoints) {
                                        self.phase = Phase::Resolving;
                                        self.backoff = BackoffState { streak: 0 };
                                    }
                                    self.gate = Gate::Resolution;
                                    Step::Await(Need::Update)
                                },
                                Phase::Resolving => {
                                    self.gate = Gate::Resolution;
                                    Step::Await(Need::Update)
                                },
                                Phase::Backoff => {
                                    self.gate = Gate::Resolution;
                                    Step::Await(Need::Timer)
                                },
                                Phase::Reconcile => {
                                    let q = self.queued.take();
                                    match q {
                                        Some(u) => self.handle_update(u),
                                        None => {
                                            proof {
                                                assert(false);
                                            }
                                            Step::Idle
                                        },
                                    }
                                },
                            }
                        },
                        _ => {
                            proof {
                                assert(false);
                            }
                            Step::Idle
                        },
                    }
                }
            },
            Gate::Resolution => {
                match self.phase {
                    Phase::Connecting => {
                        match e {
                            Event::ConnectReady => {
                                if imap_is_empty(&self.active_endpoints) {
                                    self.phase = Phase::Resolving;
                                    self.backoff = BackoffState { streak: 0 };
                                } else {
                                    self.phase = Phase::Connected;
                                }
                                Step::Await(Need::Update)
                            },
                            Event::ConnectFailed => {
                                self.phase = Phase::Backoff;
                                self.backoff = BackoffState {
                                    streak: if self.backoff.streak < 0xffff_ffffu32 {
                                        self.backoff.streak + 1
                                    } else {
                                        self.backoff.streak
                                    },
                                };
                                Step::Await(Need::Timer)
                            },
                            Event::Pending => {
                                self.gate = Gate::Builds;
                                Step::Await(Need::Build)
                            },
                            _ => {
                                proof {
                                    assert(false);
                                }
                                Step::Idle
                            },
                        }
                    },
                    Phase::Connected | Phase::Resolving => {
                        match e {
                            Event::UpdateReady(u) => {
                                let reconciling = match self.phase {
                                    Phase::Connected => !imap_is_empty(&self.active_endpoints),
                                    _ => false,
                                };
                                if reconciling {
                                    self.reconcile_update(u)
                                } else {
                                    self.handle_update(u)
                                }
                            },
                            Event::UpdateFailed => {
                                self.phase = Phase::Backoff;
                                self.queued = None;
                                self.backoff = BackoffState {
                                    streak: if self.backoff.streak < 0xffff_ffffu32 {
                                        self.backoff.streak + 1
                                    } else {
                                        self.backoff.streak
                                    },
                                };
                                Step::Await(Need::Timer)
                            },
                            Event::Pending => {
                                self.gate = Gate::Builds;
                                Step::Await(Need::Build)
                            },
                            _ => {
                                proof {
                                    assert(false);
                                }
                                Step::Idle
                            },
                        }
                    },
                    Phase::Backoff => {
                        match e {
                            Event::TimerFired => {
                                self.phase = Phase::Connecting;
                                Step::Await(Need::Connect)
                            },
                            Event::Pending => {
                                self.gate = Gate::Builds;
                                Step::Await(Need::Build)
                            },
                            _ => {
                                proof {
                                    assert(false);
                                }
                                Step::Idle
                            },
                        }
                    },
                    _ => {
                        proof {
                            assert(false);
                        }
                        Step::Idle
                    },
                }
            },
            Gate::Builds => {
                match e {
                    Event::BuildReady(a, s) => {
                        let _got = self.make_futures.poll(Some((a, s)));
                        self.gate = Gate::Start;
                        proof {
                            self.hist@ = self.hist@.push(Change::Insert(a, s));
                        }
                        Step::Emit(Change::Insert(a, s))
                    },
                    Event::Pending => {
                        let _got = self.make_futures.poll(None);
                        self.gate = Gate::Start;
                        Step::Idle
                    },
                    Event::BuildFailed => {
                        self.gate = Gate::Start;
                        Step::Fail
                    },
                    _ => {
                        proof {
                            assert(false);
                        }
                        Step::Idle
                    },
                }
            },
        }
    }
}

} // verus!
