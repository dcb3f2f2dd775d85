//! The build set: one in-flight service build per address, each paired with a
//! cancellation signal.
//!
//! The asynchronous build futures themselves live with the caller that drives
//! the pipeline; here each of them is a slot recording its address and whether
//! its cancellation signal has fired. A slot whose signal fired is reaped on
//! the next poll, before any completion is accepted, so overwritten or removed
//! builds never surface. The standing invariant couples the two halves: there
//! is a cancellation entry for an address exactly when a build for that
//! address is still pending.

use vstd::prelude::*;

use crate::addr::Address;

verus! {

/// One in-flight build: its address, and whether its cancellation signal has
/// already fired.
#[derive(Clone, Copy, Debug, PartialEq, Eq, Structural)]
pub struct BuildSlot {
    pub addr: Address,
    pub canceled: bool,
}

/// The set of in-flight builds with their cancellation entries.
#[derive(Debug)]
pub struct MakeFutures {
    slots: Vec<BuildSlot>,
    cancels: Vec<Address>,
}

/// The addresses of builds that are still pending (not canceled).
pub open spec fn pending_set(slots: Seq<BuildSlot>) -> Set<Address> {
    Set::new(
        |a: Address|
            exists|i: int| 0 <= i < slots.len() && !slots[i].canceled && slots[i].addr == a,
    )
}

/// Filtering by a predicate that admits only pending slots keeps addresses
/// pairwise distinct, when pending slots were pairwise distinct to begin with.
proof fn lemma_filter_keeps_unique_pending(s: Seq<BuildSlot>, pred: spec_fn(BuildSlot) -> bool)
    requires
        forall|i: int, j: int|
            0 <= i < s.len() && 0 <= j < s.len() && i != j && !s[i].canceled && !s[j].canceled
                ==> s[i].addr != s[j].addr,
        forall|b: BuildSlot| pred(b) ==> !b.canceled,
    ensures
        forall|i: int, j: int|
            0 <= i < s.filter(pred).len() && 0 <= j < s.filter(pred).len() && i != j ==> (
            #[trigger] s.filter(pred)[i]).addr != (#[trigger] s.filter(pred)[j]).addr,
    decreases s.len(),
{
    reveal(Seq::filter);
    if s.len() == 0 {
    } else {
        let sub = s.drop_last();
        lemma_filter_keeps_unique_pending(sub, pred);
        let f = s.filter(pred);
        let fs = sub.filter(pred);
        if pred(s.last()) {
            assert(f == fs.push(s.last()));
            assert forall|k: int| 0 <= k < fs.len() implies (#[trigger] fs[k]).addr != s.last().addr by {
                assert(fs.contains(fs[k]));
                sub.lemma_filter_contains_rev(pred, fs[k]);
                let m = choose|m: int| 0 <= m < sub.len() && sub[m] == fs[k];
                assert(s[m] == fs[k]);
                assert(pred(fs[k]));
                assert(!s[m].canceled && !s[s.len() - 1].canceled);
                assert(s[m].addr != s[s.len() - 1].addr);
            }
            assert forall|i: int, j: int|
                0 <= i < f.len() && 0 <= j < f.len() && i != j implies (#[trigger] f[i]).addr != (
            #[trigger] f[j]).addr by {
                if i < fs.len() && j < fs.len() {
                    assert(fs[i].addr != fs[j].addr);
                } else if i < fs.len() {
                    assert(f[j] == s.last());
                } else {
                    assert(f[i] == s.last());
                }
            }
        } else {
            assert(f == fs);
        }
    }
}

impl MakeFutures {
    pub closed spec fn slots_seq(&self) -> Seq<BuildSlot> {
        self.slots@
    }

    pub closed spec fn cancels_seq(&self) -> Seq<Address> {
        self.cancels@
    }

    /// The addresses with a pending build.
    pub closed spec fn pending(&self) -> Set<Address> {
        pending_set(self.slots@)
    }

    /// Well-formedness: at most one pending build per address, no duplicate
    /// cancellation entries, and a cancellation entry exactly for each
    /// pending build.
    pub closed spec fn inv(&self) -> bool {
        &&& forall|i: int, j: int|
            0 <= i < self.slots@.len() && 0 <= j < self.slots@.len() && i != j
                && !self.slots@[i].canceled && !self.slots@[j].canceled ==> self.slots@[i].addr
                != self.slots@[j].addr
        &&& self.cancels@.no_duplicates()
        &&& forall|a: Address| self.cancels@.contains(a) <==> self.pending().contains(a)
    }

    pub fn new() -> (r: MakeFutures)
        ensures
            r.inv(),
            r.slots_seq() == Seq::<BuildSlot>::empty(),
            r.cancels_seq() == Seq::<Address>::empty(),
            r.pending() == Set::<Address>::empty(),
    {
        let r = MakeFutures { slots: Vec::new(), cancels: Vec::new() };
        proof {
            assert(r.pending() =~= Set::<Address>::empty());
        }
        r
    }

    /// The number of build futures held, reaped or not.
    pub fn futures_len(&self) -> (r: usize)
        ensures
            r == self.slots_seq().len(),
    {
        self.slots.len()
    }

    /// The number of live cancellation entries.
    pub fn cancelations_len(&self) -> (r: usize)
        ensures
            r == self.cancels_seq().len(),
    {
        self.cancels.len()
    }

    fn find_pending(&self, addr: &Address) -> (r: Option<usize>)
        ensures
            match r {
                Some(i) => 0 <= i < self.slots@.len() && !self.slots@[i as int].canceled
                    && self.slots@[i as int].addr == *addr,
                None => !self.pending().contains(*addr),
            },
    {
        let mut i: usize = 0;
        while i < self.slots.len()
            invariant
                0 <= i <= self.slots@.len(),
                forall|j: int|
                    0 <= j < i ==> !(!self.slots@[j].canceled && self.slots@[j].addr == *addr),
            decreases self.slots@.len() - i,
        {
            if !self.slots[i].canceled && self.slots[i].addr == *addr {
                return Some(i);
            }
            i = i + 1;
        }
        None
    }

    fn drop_cancel_entry(&mut self, addr: &Address)
        requires
            old(self).cancels@.no_duplicates(),
        ensures
            final(self).slots@ == old(self).slots@,
            final(self).cancels@.to_set() == old(self).cancels@.to_set().remove(*addr),
            final(self).cancels@.no_duplicates(),
    {
        let ghost pre = self.cancels@;
        let mut i: usize = 0;
        while i < self.cancels.len()
            invariant
                self.cancels@ == pre,
                pre == old(self).cancels@,
                self.slots@ == old(self).slots@,
                pre.no_duplicates(),
                0 <= i <= pre.len(),
                forall|j: int| 0 <= j < i ==> pre[j] != *addr,
            decreases pre.len() - i,
        {
            if self.cancels[i] == *addr {
                // mirrors the swap-removal the original's ordered map performs
                let last = self.cancels.len() - 1;
                let moved = self.cancels[last];
                self.cancels.set(i, moved);
                self.cancels.pop();
                proof {
                    let post = self.cancels@;
                    assert(post =~= pre.update(i as int, pre.last()).drop_last());
                    assert forall|a: Address| post.to_set().contains(a) implies pre.to_set()
                        .remove(*addr).contains(a) by {
                        let k = choose|k: int| 0 <= k < post.len() && post[k] == a;
                        assert(pre.contains(a));
                        if a == *addr {
                            assert(pre[i as int] == *addr);
                            if k == i {
                                assert(post[k] == pre.last());
                                if pre.last() == *addr {
                                    assert(pre[pre.len() - 1] == *addr);
                                    if i as int != pre.len() - 1 {
                                        assert(pre[i as int] != pre[pre.len() - 1]);
                                        assert(false);
                                    }
                                    assert(false);
                                }
                            } else {
                                assert(pre[k] == a);
                                assert(pre[k] != pre[i as int]);
                                assert(false);
                            }
                        }
                    }
                    assert forall|a: Address| pre.to_set().remove(*addr).contains(a) implies post
                        .to_set().contains(a) by {
                        let k = choose|k: int| 0 <= k < pre.len() && pre[k] == a;
                        if k == pre.len() - 1 {
                            if i < pre.len() - 1 {
                                assert(post[i as int] == a);
                            }
                        } else if k != i {
                            assert(post[k] == a);
                        }
                    }
                    assert(post.to_set() =~= pre.to_set().remove(*addr));
                    assert(post.no_duplicates());
                }
                return ;
            }
            i = i + 1;
        }
        proof {
            assert(!pre.contains(*addr));
            assert(self.cancels@.to_set() =~= pre.to_set().remove(*addr));
        }
    }

    /// Registers a new pending build for `addr`. If a pending build for
    /// `addr` already exists, its cancellation signal is fired first and the
    /// new build replaces it; a signal fires only when it had not fired.
    pub fn push(&mut self, addr: Address)
        requires
            old(self).inv(),
        ensures
            final(self).inv(),
            final(self).pending() == old(self).pending().insert(addr),
            final(self).slots_seq().len() == old(self).slots_seq().len() + 1,
            final(self).slots_seq().last() == (BuildSlot { addr, canceled: false }),
            forall|i: int|
                0 <= i < old(self).slots_seq().len() ==> (#[trigger] final(self).slots_seq()[i]).addr
                    == old(self).slots_seq()[i].addr && (final(self).slots_seq()[i].canceled <==> (
                old(self).slots_seq()[i].canceled || old(self).slots_seq()[i].addr == addr)),
            final(self).cancels_seq().to_set() == old(self).cancels_seq().to_set().insert(addr),
    {
        let found = self.find_pending(&addr);
        match found {
            Some(i) => {
                // fire the prior build's cancellation; its entry is reused
                self.slots.set(i, BuildSlot { addr, canceled: true });
            },
            None => {
                self.cancels.push(addr);
            },
        }
        self.slots.push(BuildSlot { addr, canceled: false });
        proof {
            let pre = old(self).slots@;
            let post = self.slots@;
            assert forall|i: int| 0 <= i < pre.len() implies (#[trigger] post[i]).addr == pre[i].addr
                && (post[i].canceled <==> (pre[i].canceled || pre[i].addr == addr)) by {
                if pre[i].addr == addr && !pre[i].canceled {
                    match found {
                        Some(j) => {
                            assert(!pre[j as int].canceled && pre[j as int].addr == addr);
                            assert(j == i);
                        },
                        None => {
                            assert(old(self).pending().contains(addr));
                            assert(false);
                        },
                    }
                }
            }
            assert(post[pre.len() as int] == (BuildSlot { addr, canceled: false }));
            assert forall|a: Address| #[trigger]
                self.pending().contains(a) implies old(self).pending().insert(addr).contains(
                a,
            ) by {
                let i = choose|i: int|
                    0 <= i < post.len() && !post[i].canceled && post[i].addr == a;
                if i < pre.len() {
                    assert(!pre[i].canceled && pre[i].addr == a);
                }
            }
            assert forall|a: Address|
                old(self).pending().insert(addr).contains(a) implies #[trigger] self.pending()
                .contains(a) by {
                if a == addr {
                    assert(!post[pre.len() as int].canceled && post[pre.len() as int].addr == a);
                } else {
                    let i = choose|i: int|
                        0 <= i < pre.len() && !pre[i].canceled && pre[i].addr == a;
                    assert(!post[i].canceled && post[i].addr == a);
                }
            }
            assert(self.pending() =~= old(self).pending().insert(addr));
            // the one pending build per address is kept
            assert forall|i: int, j: int|
                0 <= i < post.len() && 0 <= j < post.len() && i != j && !post[i].canceled
                    && !post[j].canceled implies post[i].addr != post[j].addr by {
                if i < pre.len() && j < pre.len() {
                    assert(!pre[i].canceled && !pre[j].canceled);
                } else if i < pre.len() {
                    assert(!(pre[i].canceled || pre[i].addr == addr));
                } else if j < pre.len() {
                    assert(!(pre[j].canceled || pre[j].addr == addr));
                }
            }
            // cancellation entries gain exactly `addr`
            match found {
                Some(_) => {
                    assert(old(self).pending().contains(addr));
                    assert(old(self).cancels@.contains(addr));
                    assert(self.cancels@.to_set() =~= old(self).cancels@.to_set().insert(addr));
                },
                None => {
                    assert(self.cancels@ == old(self).cancels@.push(addr));
                    assert forall|a: Address| #[trigger]
                        self.cancels@.contains(a) implies old(self).cancels@.to_set().insert(
                        addr,
                    ).contains(a) by {
                        let k = choose|k: int| 0 <= k < self.cancels@.len() && self.cancels@[k] == a;
                        if k < old(self).cancels@.len() {
                            assert(old(self).cancels@[k] == a);
                        }
                    }
                    assert forall|a: Address|
                        old(self).cancels@.to_set().insert(addr).contains(a) implies #[trigger]
                        self.cancels@.contains(a) by {
                        if a == addr {
                            assert(self.cancels@[self.cancels@.len() - 1] == a);
                        } else {
                            let k = choose|k: int|
                                0 <= k < old(self).cancels@.len() && old(self).cancels@[k] == a;
                            assert(self.cancels@[k] == a);
                        }
                    }
                    assert(self.cancels@.to_set() =~= old(self).cancels@.to_set().insert(addr));
                    assert(!old(self).pending().contains(addr));
                    assert(!old(self).cancels@.contains(addr));
                    assert(self.cancels@.no_duplicates());
                },
            }
            assert forall|a: Address| #[trigger] self.cancels@.contains(a) implies self.pending()
                .contains(a) by {
                if a != addr {
                    assert(old(self).cancels@.to_set().insert(addr).contains(a));
                    assert(old(self).cancels@.contains(a));
                    assert(old(self).pending().contains(a));
                }
            }
            assert forall|a: Address| self.pending().contains(a) implies #[trigger] self.cancels@
                .contains(a) by {
                assert(self.cancels@.to_set().contains(a) == self.cancels@.contains(a));
                if a != addr {
                    assert(old(self).pending().insert(addr).contains(a));
                    assert(old(self).cancels@.contains(a));
                }
            }
        }
    }

    /// Fires the cancellation signal for `addr`, if a build for it is
    /// pending, and forgets its registration.
    pub fn remove(&mut self, addr: &Address)
        requires
            old(self).inv(),
        ensures
            final(self).inv(),
            final(self).pending() == old(self).pending().remove(*addr),
            final(self).slots_seq().len() == old(self).slots_seq().len(),
            forall|i: int|
                0 <= i < old(self).slots_seq().len() ==> (#[trigger] final(self).slots_seq()[i]).addr
                    == old(self).slots_seq()[i].addr && (final(self).slots_seq()[i].canceled <==> (
                old(self).slots_seq()[i].canceled || old(self).slots_seq()[i].addr == *addr)),
            final(self).cancels_seq().to_set() == old(self).cancels_seq().to_set().remove(*addr),
    {
        let found = self.find_pending(addr);
        match found {
            Some(i) => {
                let a = self.slots[i].addr;
                self.slots.set(i, BuildSlot { addr: a, canceled: true });
            },
            None => {},
        }
        self.drop_cancel_entry(addr);
        proof {
            let pre = old(self).slots@;
            let post = self.slots@;
            assert forall|i: int| 0 <= i < pre.len() implies (#[trigger] post[i]).addr == pre[i].addr
                && (post[i].canceled <==> (pre[i].canceled || pre[i].addr == *addr)) by {
                if pre[i].addr == *addr && !pre[i].canceled {
                    let j = choose|j: int|
                        0 <= j < pre.len() && !pre[j].canceled && pre[j].addr == *addr;
                    assert(j == i);
                }
            }
            assert forall|a: Address| #[trigger]
                self.pending().contains(a) implies old(self).pending().remove(*addr).contains(
                a,
            ) by {
                let i = choose|i: int|
                    0 <= i < post.len() && !post[i].canceled && post[i].addr == a;
                assert(!pre[i].canceled && pre[i].addr == a);
            }
            assert forall|a: Address|
                old(self).pending().remove(*addr).contains(a) implies #[trigger] self.pending()
                .contains(a) by {
                let i = choose|i: int|
                    0 <= i < pre.len() && !pre[i].canceled && pre[i].addr == a;
                assert(!post[i].canceled && post[i].addr == a);
            }
            assert(self.pending() =~= old(self).pending().remove(*addr));
            assert forall|i: int, j: int|
                0 <= i < post.len() && 0 <= j < post.len() && i != j && !post[i].canceled
                    && !post[j].canceled implies post[i].addr != post[j].addr by {
                assert(!pre[i].canceled && !pre[j].canceled);
            }
            assert forall|a: Address| #[trigger] self.cancels@.contains(a) implies self.pending()
                .contains(a) by {
                assert(self.cancels@.to_set().contains(a));
                assert(old(self).cancels@.contains(a) && a != *addr);
                assert(old(self).pending().contains(a));
            }
            assert forall|a: Address| self.pending().contains(a) implies #[trigger] self.cancels@
                .contains(a) by {
                assert(old(self).pending().remove(*addr).contains(a));
                assert(old(self).cancels@.contains(a) && a != *addr);
                assert(self.cancels@.to_set().contains(a));
            }
        }
    }

    /// One scheduling turn over the build futures. Slots whose cancellation
    /// signal fired are reaped first, before any completion is accepted, so a
    /// canceled build never surfaces. `completed` reports which pending build
    /// (if any) the caller's futures finished this turn; its service is
    /// handed back with its address, and its cancellation entry is dropped
    /// with it.
    pub fn poll(&mut self, completed: Option<(Address, u64)>) -> (r: Option<(Address, u64)>)
        requires
            old(self).inv(),
            completed is Some ==> old(self).pending().contains((completed->0).0),
        ensures
            final(self).inv(),
            r == completed,
            forall|i: int|
                0 <= i < final(self).slots_seq().len() ==> !(#[trigger] final(self).slots_seq()[i]).canceled,
            match completed {
                None => {
                    &&& final(self).slots_seq() == old(self).slots_seq().filter(
                        |b: BuildSlot| !b.canceled,
                    )
                    &&& final(self).pending() == old(self).pending()
                    &&& final(self).cancels_seq() == old(self).cancels_seq()
                },
                Some((a, _s)) => {
                    &&& final(self).slots_seq() == old(self).slots_seq().filter(
                        |b: BuildSlot| !b.canceled && b.addr != a,
                    )
                    &&& final(self).pending() == old(self).pending().remove(a)
                    &&& final(self).cancels_seq().to_set() == old(self).cancels_seq().to_set()
                        .remove(a)
                },
            },
    {
        let ghost pre = self.slots@;
        let ghost pred: spec_fn(BuildSlot) -> bool = match completed {
            None => |b: BuildSlot| !b.canceled,
            Some((a, _s)) => |b: BuildSlot| !b.canceled && b.addr != a,
        };
        let mut kept: Vec<BuildSlot> = Vec::new();
        let mut i: usize = 0;
        while i < self.slots.len()
            invariant
                self.slots@ == pre,
                0 <= i <= pre.len(),
                kept@ == pre.take(i as int).filter(pred),
                match completed {
                    None => pred == (|b: BuildSlot| !b.canceled),
                    Some((a, _s)) => pred == (|b: BuildSlot| !b.canceled && b.addr != a),
                },
            decreases pre.len() - i,
        {
            let slot = self.slots[i];
            let keep = match completed {
                None => !slot.canceled,
                Some((a, _s)) => !slot.canceled && !(slot.addr == a),
            };
            if keep {
                kept.push(slot);
            }
            proof {
                reveal(Seq::filter);
                assert(pre.take(i + 1 as int).drop_last() =~= pre.take(i as int));
                assert(pre.take(i + 1 as int).last() == pre[i as int]);
                assert(kept@ == pre.take(i + 1 as int).filter(pred));
            }
            i = i + 1;
        }
        proof {
            assert(pre.take(pre.len() as int) =~= pre);
        }
        self.slots = kept;
        match completed {
            None => {},
            Some((a, _s)) => {
                self.drop_cancel_entry(&a);
            },
        }
        proof {
            broadcast use vstd::seq_lib::group_filter_ensures;

            let post = self.slots@;
            assert forall|a: Address| #[trigger]
                self.pending().contains(a) implies pending_set(pre).contains(a) by {
                let i = choose|i: int|
                    0 <= i < post.len() && !post[i].canceled && post[i].addr == a;
                let j = choose|j: int| 0 <= j < pre.len() && pre[j] == post[i];
                assert(pre.contains(post[i])) by {
                    assert(pre.filter(pred).contains(post[i]));
                    pre.lemma_filter_contains_rev(pred, post[i]);
                }
            }
            match completed {
                None => {
                    assert forall|a: Address|
                        pending_set(pre).contains(a) implies #[trigger] self.pending().contains(
                        a,
                    ) by {
                        let i = choose|i: int|
                            0 <= i < pre.len() && !pre[i].canceled && pre[i].addr == a;
                        pre.lemma_filter_contains(pred, i);
                        let k = choose|k: int| 0 <= k < post.len() && post[k] == pre[i];
                        assert(!post[k].canceled && post[k].addr == a);
                    }
                    assert(self.pending() =~= pending_set(pre));
                },
                Some((c, _s)) => {
                    assert forall|a: Address|
                        pending_set(pre).remove(c).contains(a) implies #[trigger] self.pending()
                        .contains(a) by {
                        let i = choose|i: int|
                            0 <= i < pre.len() && !pre[i].canceled && pre[i].addr == a;
                        pre.lemma_filter_contains(pred, i);
                        let k = choose|k: int| 0 <= k < post.len() && post[k] == pre[i];
                        assert(!post[k].canceled && post[k].addr == a);
                    }
                    assert forall|a: Address| #[trigger]
                        self.pending().contains(a) implies pending_set(pre).remove(c).contains(
                        a,
                    ) by {
                        let i = choose|i: int|
                            0 <= i < post.len() && !post[i].canceled && post[i].addr == a;
                        assert(pre.filter(pred).contains(post[i]));
                        pre.lemma_filter_contains_rev(pred, post[i]);
                        assert(pred(post[i]));
                    }
                    assert(self.pending() =~= pending_set(pre).remove(c));
                },
            }
            assert forall|b: BuildSlot| pred(b) implies !b.canceled by {}
            lemma_filter_keeps_unique_pending(pre, pred);
            assert(post == pre.filter(pred));
            assert forall|a: Address| #[trigger] self.cancels@.contains(a) implies self.pending()
                .contains(a) by {
                assert(self.cancels@.to_set().contains(a));
                match completed {
                    None => {
                        assert(old(self).pending().contains(a));
                    },
                    Some((c, _s)) => {
                        assert(old(self).cancels@.contains(a) && a != c);
                        assert(old(self).pending().contains(a));
                    },
                }
            }
            assert forall|a: Address| self.pending().contains(a) implies #[trigger] self.cancels@
                .contains(a) by {
                match completed {
                    None => {
                        assert(old(self).pending().contains(a));
                    },
                    Some((c, _s)) => {
                        assert(old(self).pending().remove(c).contains(a));
                        assert(old(self).cancels@.contains(a) && a != c);
                        assert(self.cancels@.to_set().contains(a));
                    },
                }
            }
        }
        completed
    }

    /// Pending cancellation entries are exactly the pending build futures,
    /// and there is at most one pending build per address.
    pub proof fn lemma_cancelations_match_pending(&self)
        requires
            self.inv(),
        ensures
            self.cancels_seq().to_set() == self.pending(),
            self.cancels_seq().no_duplicates(),
            self.cancels_seq().len() == self.pending().len(),
    {
        assert(self.cancels_seq().to_set() =~= self.pending());
        self.cancels_seq().unique_seq_to_set();
    }
}

} // verus!
