//! The active-endpoint map: an insertion-ordered map from address to endpoint,
//! backed by `indexmap::IndexMap`.
//!
//! The map's contents are abstracted as a sequence of key-value pairs in
//! insertion order, named by `imap_seq`. Every operation the driver uses is a
//! trusted wrapper whose contract states, over that sequence, what the crate's
//! documentation promises. Key uniqueness is not assumed: it is proved from
//! the contracts (`lemma_spec_imap_insert_unique` and friends).

use vstd::prelude::*;

use crate::addr::{Address, Endpoint};

verus! {

#[verifier::external_type_specification]
#[verifier::external_body]
#[verifier::reject_recursive_types(K)]
#[verifier::reject_recursive_types(V)]
#[verifier::reject_recursive_types(S)]
pub struct ExIndexMap<K, V, S>(indexmap::IndexMap<K, V, S>);

/// The insertion-ordered map the driver keeps its active endpoints in.
pub type ActiveMap = indexmap::IndexMap<Address, Endpoint, std::collections::hash_map::RandomState>;

/// What an `ActiveMap` holds: its key-value pairs in insertion order.
pub uninterp spec fn imap_seq(m: ActiveMap) -> Seq<(Address, Endpoint)>;

/// The keys of an entry sequence, in order.
pub open spec fn keys_of(s: Seq<(Address, Endpoint)>) -> Seq<Address> {
    s.map_values(|p: (Address, Endpoint)| p.0)
}

pub open spec fn seq_contains_key(s: Seq<(Address, Endpoint)>, a: Address) -> bool {
    exists|i: int| 0 <= i < s.len() && s[i].0 == a
}

/// The index of the entry with key `a` (unambiguous when keys are unique).
pub open spec fn key_index(s: Seq<(Address, Endpoint)>, a: Address) -> int {
    choose|i: int| 0 <= i < s.len() && s[i].0 == a
}

pub open spec fn unique_keys(s: Seq<(Address, Endpoint)>) -> bool {
    forall|i: int, j: int|
        0 <= i < s.len() && 0 <= j < s.len() && i != j ==> s[i].0 != s[j].0
}

/// `IndexMap::insert`: an existing key keeps its place and has its value
/// replaced; a new key is appended last.
pub open spec fn spec_imap_insert(
    s: Seq<(Address, Endpoint)>,
    k: Address,
    v: Endpoint,
) -> Seq<(Address, Endpoint)> {
    if seq_contains_key(s, k) {
        s.map(|_i: int, p: (Address, Endpoint)| if p.0 == k { (k, v) } else { p })
    } else {
        s.push((k, v))
    }
}

/// `IndexMap::swap_remove`: the entry is swapped with the last one and popped.
pub open spec fn spec_imap_swap_remove(
    s: Seq<(Address, Endpoint)>,
    k: Address,
) -> Seq<(Address, Endpoint)> {
    if seq_contains_key(s, k) {
        s.update(key_index(s, k), s.last()).drop_last()
    } else {
        s
    }
}

/// Relies on `IndexMap::new`: the new map is empty.
#[verifier::external_body]
pub(crate) fn imap_new() -> (r: ActiveMap)
    ensures
        imap_seq(r) == Seq::<(Address, Endpoint)>::empty(),
{
    indexmap::IndexMap::new()
}

/// Relies on `IndexMap::is_empty`.
#[verifier::external_body]
pub(crate) fn imap_is_empty(m: &ActiveMap) -> (r: bool)
    ensures
        r == (imap_seq(*m).len() == 0),
{
    m.is_empty()
}

/// Relies on `IndexMap::insert`: an existing key keeps its place in the order
/// and its value is replaced (the old value is returned); a new key is
/// appended last and `None` is returned.
#[verifier::external_body]
pub(crate) fn imap_insert(m: &mut ActiveMap, k: Address, v: Endpoint) -> (r: Option<Endpoint>)
    ensures
        imap_seq(*final(m)) == spec_imap_insert(imap_seq(*old(m)), k, v),
        r is Some <==> seq_contains_key(imap_seq(*old(m)), k),
        r is Some ==> r->0 == imap_seq(*old(m))[key_index(imap_seq(*old(m)), k)].1,
{
    m.insert(k, v)
}

/// Relies on `IndexMap::swap_remove`: the entry for `k`, if present, is
/// swapped with the last entry and popped, and its value returned.
#[verifier::external_body]
pub(crate) fn imap_swap_remove(m: &mut ActiveMap, k: &Address) -> (r: Option<Endpoint>)
    ensures
        imap_seq(*final(m)) == spec_imap_swap_remove(imap_seq(*old(m)), *k),
        r is Some <==> seq_contains_key(imap_seq(*old(m)), *k),
        r is Some ==> r->0 == imap_seq(*old(m))[key_index(imap_seq(*old(m)), *k)].1,
{
    m.swap_remove(k)
}

/// Relies on `IndexMap::drain(..)`: every entry leaves the map, in insertion
/// order; only the keys are kept.
#[verifier::external_body]
pub(crate) fn imap_drain_keys(m: &mut ActiveMap) -> (r: Vec<Address>)
    ensures
        r@ == keys_of(imap_seq(*old(m))),
        imap_seq(*final(m)) == Seq::<(Address, Endpoint)>::empty(),
{
    m.drain(..).map(|(a, _)| a).collect()
}

/// Inserting preserves key uniqueness.
pub proof fn lemma_spec_imap_insert_unique(s: Seq<(Address, Endpoint)>, k: Address, v: Endpoint)
    requires
        unique_keys(s),
    ensures
        unique_keys(spec_imap_insert(s, k, v)),
{
    if seq_contains_key(s, k) {
        let t = s.map(|_i: int, p: (Address, Endpoint)| if p.0 == k { (k, v) } else { p });
        assert forall|i: int, j: int|
            0 <= i < t.len() && 0 <= j < t.len() && i != j implies t[i].0 != t[j].0 by {
            assert(s[i].0 != s[j].0);
        }
    } else {
        let t = s.push((k, v));
        assert forall|i: int, j: int|
            0 <= i < t.len() && 0 <= j < t.len() && i != j implies t[i].0 != t[j].0 by {
            if i < s.len() && j < s.len() {
                assert(s[i].0 != s[j].0);
            } else if i < s.len() {
                assert(!(s[i].0 == k));
            } else {
                assert(!(s[j].0 == k));
            }
        }
    }
}

/// Swap-removal preserves key uniqueness.
pub proof fn lemma_spec_imap_swap_remove_unique(s: Seq<(Address, Endpoint)>, k: Address)
    requires
        unique_keys(s),
    ensures
        unique_keys(spec_imap_swap_remove(s, k)),
        seq_contains_key(s, k) ==> !seq_contains_key(spec_imap_swap_remove(s, k), k),
        forall|a: Address|
            a != k ==> (seq_contains_key(spec_imap_swap_remove(s, k), a) == seq_contains_key(
                s,
                a,
            )),
{
    if seq_contains_key(s, k) {
        let ix = key_index(s, k);
        let t = s.update(ix, s.last()).drop_last();
        assert forall|i: int, j: int|
            0 <= i < t.len() && 0 <= j < t.len() && i != j implies t[i].0 != t[j].0 by {
            assert(t[i] == if i == ix {
                s.last()
            } else {
                s[i]
            });
            assert(t[j] == if j == ix {
                s.last()
            } else {
                s[j]
            });
        }
        assert forall|i: int| 0 <= i < t.len() implies t[i].0 != k by {
            assert(t[i] == if i == ix {
                s.last()
            } else {
                s[i]
            });
            if i == ix {
                assert(s.last().0 != k || s.len() - 1 == ix);
            }
        }
        assert forall|a: Address| a != k && seq_contains_key(s, a) implies seq_contains_key(
            t,
            a,
        ) by {
            let i = choose|i: int| 0 <= i < s.len() && s[i].0 == a;
            if i == s.len() - 1 {
                // the last entry moved to the removed slot
                assert(ix < s.len() - 1);
                assert(t[ix].0 == a);
            } else if i == ix {
                assert(false);
            } else {
                assert(t[i].0 == a);
            }
        }
        assert forall|a: Address| seq_contains_key(t, a) implies seq_contains_key(s, a) by {
            let i = choose|i: int| 0 <= i < t.len() && t[i].0 == a;
            assert(t[i] == if i == ix {
                s.last()
            } else {
                s[i]
            });
        }
    }
}

} // verus!
