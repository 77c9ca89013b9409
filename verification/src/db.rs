//! The shared database state: key/value entries, the TTL index, the pub/sub
//! channel registry, and the shutdown flag.
//!
//! One value of [`Db`] is the state a server guards with a mutex; every
//! operation is a short, total function, so a caller can run it inside a
//! critical section that never suspends.

use vstd::prelude::*;

use crate::bulk::bytes_clone;
use crate::bulk::bytes_view;
use crate::bytes_equal;

verus! {

/// A stored value.
pub struct Entry {
    /// Insertion id, unique per entry, disambiguating the TTL index.
    pub id: u64,
    /// The stored bytes.
    pub data: bytes::Bytes,
    /// The instant the entry expires, in milliseconds, if any.
    pub expires_at: Option<u64>,
}

/// The mathematical value of an entry.
pub struct EntryModel {
    pub id: u64,
    pub data: Seq<u8>,
    pub expires_at: Option<u64>,
}

/// The model of a stored entry.
pub open spec fn entry_model(e: Entry) -> EntryModel {
    EntryModel { id: e.id, data: bytes_view(e.data), expires_at: e.expires_at }
}

/// One element of the TTL index.
pub struct Expiration {
    /// The expiration instant, in milliseconds.
    pub when: u64,
    /// The insertion id of the entry this element belongs to.
    pub id: u64,
    /// The key of that entry.
    pub key: Vec<u8>,
}

/// Strict order on TTL index positions: by instant, ties broken by id.
pub open spec fn exp_lt(w1: u64, i1: u64, w2: u64, i2: u64) -> bool {
    w1 < w2 || (w1 == w2 && i1 < i2)
}

// ---------------------------------------------------------------------------
// Association lists and their map views.
// ---------------------------------------------------------------------------

/// No two elements share a key.
pub open spec fn keys_unique(s: Seq<(Vec<u8>, Entry)>) -> bool {
    forall|i: int, j: int|
        0 <= i < j < s.len() ==> (#[trigger] s[i]).0@ != (#[trigger] s[j]).0@
}

/// Some element holds this key.
pub open spec fn has_key(s: Seq<(Vec<u8>, Entry)>, k: Seq<u8>) -> bool {
    exists|i: int| 0 <= i < s.len() && (#[trigger] s[i]).0@ == k
}

/// The key/value mapping an association list denotes.
pub open spec fn kv_map(s: Seq<(Vec<u8>, Entry)>) -> Map<Seq<u8>, EntryModel>
    decreases s.len(),
{
    if s.len() == 0 {
        Map::empty()
    } else {
        kv_map(s.drop_last()).insert(s.last().0@, entry_model(s.last().1))
    }
}

/// The map holds exactly the listed keys.
pub proof fn lemma_kv_dom(s: Seq<(Vec<u8>, Entry)>)
    ensures
        forall|k: Seq<u8>| #[trigger] kv_map(s).dom().contains(k) <==> has_key(s, k),
    decreases s.len(),
{
    if s.len() > 0 {
        lemma_kv_dom(s.drop_last());
        assert forall|k: Seq<u8>| #[trigger] kv_map(s).dom().contains(k) implies has_key(s, k) by {
            if k == s.last().0@ {
                assert(s[s.len() - 1].0@ == k);
            } else {
                assert(kv_map(s.drop_last()).dom().contains(k));
                assert(has_key(s.drop_last(), k));
                let i = choose|i: int|
                    0 <= i < s.drop_last().len() && (#[trigger] s.drop_last()[i]).0@ == k;
                assert(s[i].0@ == k);
            }
        }
        assert forall|k: Seq<u8>| has_key(s, k) implies #[trigger] kv_map(s).dom().contains(k) by {
            let i = choose|i: int| 0 <= i < s.len() && (#[trigger] s[i]).0@ == k;
            if i < s.len() - 1 {
                assert(s.drop_last()[i].0@ == k);
                assert(has_key(s.drop_last(), k));
                assert(kv_map(s.drop_last()).dom().contains(k));
            } else {
                assert(k == s.last().0@);
            }
        }
    }
}

/// With unique keys, each listed element is what the map holds at its key.
pub proof fn lemma_kv_at(s: Seq<(Vec<u8>, Entry)>, i: int)
    requires
        keys_unique(s),
        0 <= i < s.len(),
    ensures
        kv_map(s).dom().contains(s[i].0@),
        kv_map(s)[s[i].0@] == entry_model(s[i].1),
    decreases s.len(),
{
    lemma_kv_dom(s);
    if i == s.len() - 1 {
    } else {
        assert(s.drop_last()[i] == s[i]);
        lemma_kv_at(s.drop_last(), i);
        assert(s[i].0@ != s.last().0@);
    }
}

/// Updating the element that holds a key updates the map at that key.
pub proof fn lemma_kv_update(s: Seq<(Vec<u8>, Entry)>, p: int, kv: (Vec<u8>, Entry))
    requires
        keys_unique(s),
        0 <= p < s.len(),
        s[p].0@ == kv.0@,
    ensures
        kv_map(s.update(p, kv)) == kv_map(s).insert(kv.0@, entry_model(kv.1)),
        keys_unique(s.update(p, kv)),
    decreases s.len(),
{
    let t = s.update(p, kv);
    assert(keys_unique(t)) by {
        assert(forall|i: int| 0 <= i < t.len() ==> (#[trigger] t[i]).0@ == s[i].0@);
    }
    if p == s.len() - 1 {
        assert(t.drop_last() =~= s.drop_last());
        assert(t.last() == kv);
        assert(kv_map(t) =~= kv_map(s).insert(kv.0@, entry_model(kv.1)));
    } else {
        assert(t.drop_last() =~= s.drop_last().update(p, kv));
        assert(t.last() == s.last());
        assert(s.drop_last()[p] == s[p]);
        lemma_kv_update(s.drop_last(), p, kv);
        assert(s.last().0@ != kv.0@);
        assert(kv_map(t) =~= kv_map(s).insert(kv.0@, entry_model(kv.1)));
    }
}

/// Appending an element with a fresh key inserts it into the map.
pub proof fn lemma_kv_push(s: Seq<(Vec<u8>, Entry)>, kv: (Vec<u8>, Entry))
    requires
        keys_unique(s),
        !has_key(s, kv.0@),
    ensures
        kv_map(s.push(kv)) == kv_map(s).insert(kv.0@, entry_model(kv.1)),
        keys_unique(s.push(kv)),
{
    let t = s.push(kv);
    assert(t.drop_last() =~= s);
    assert(t.last() == kv);
    assert(keys_unique(t)) by {
        assert forall|i: int, j: int|
            0 <= i < j < t.len() implies (#[trigger] t[i]).0@ != (#[trigger] t[j]).0@ by {
            if j == t.len() - 1 {
                assert(t[i] == s[i]);
                if t[i].0@ == kv.0@ {
                    assert(has_key(s, kv.0@));
                }
            } else {
                assert(t[i] == s[i] && t[j] == s[j]);
            }
        }
    }
}

/// Removing the element that holds a key removes that key from the map.
pub proof fn lemma_kv_remove(s: Seq<(Vec<u8>, Entry)>, p: int)
    requires
        keys_unique(s),
        0 <= p < s.len(),
    ensures
        kv_map(s.remove(p)) == kv_map(s).remove(s[p].0@),
        keys_unique(s.remove(p)),
    decreases s.len(),
{
    let t = s.remove(p);
    assert(keys_unique(t)) by {
        assert forall|i: int, j: int|
            0 <= i < j < t.len() implies (#[trigger] t[i]).0@ != (#[trigger] t[j]).0@ by {
            let i0 = if i < p { i } else { i + 1 };
            let j0 = if j < p { j } else { j + 1 };
            assert(t[i] == s[i0] && t[j] == s[j0]);
        }
    }
    if p == s.len() - 1 {
        assert(t =~= s.drop_last());
        lemma_kv_dom(s.drop_last());
        assert(!has_key(s.drop_last(), s[p].0@)) by {
            if has_key(s.drop_last(), s[p].0@) {
                let i = choose|i: int|
                    0 <= i < s.drop_last().len() && (#[trigger] s.drop_last()[i]).0@ == s[p].0@;
                assert(s[i].0@ == s[p].0@);
            }
        }
        assert(kv_map(t) =~= kv_map(s).remove(s[p].0@));
    } else {
        assert(t.drop_last() =~= s.drop_last().remove(p));
        assert(t.last() == s.last());
        assert(s.drop_last()[p] == s[p]);
        lemma_kv_remove(s.drop_last(), p);
        assert(s.last().0@ != s[p].0@);
        assert(kv_map(t) =~= kv_map(s).remove(s[p].0@));
    }
}

// ---------------------------------------------------------------------------
// The TTL index as a sorted sequence, and its map view.
// ---------------------------------------------------------------------------

/// The index is strictly ascending by (instant, id).
pub open spec fn exp_sorted(s: Seq<Expiration>) -> bool {
    forall|i: int, j: int|
        0 <= i < j < s.len() ==> exp_lt(
            (#[trigger] s[i]).when,
            s[i].id,
            (#[trigger] s[j]).when,
            s[j].id,
        )
}

/// Some element carries this (instant, id) pair.
pub open spec fn has_pair(s: Seq<Expiration>, w: u64, id: u64) -> bool {
    exists|i: int| 0 <= i < s.len() && (#[trigger] s[i]).when == w && s[i].id == id
}

/// The mapping from (instant, id) to key that the index denotes.
pub open spec fn exp_map(s: Seq<Expiration>) -> Map<(u64, u64), Seq<u8>>
    decreases s.len(),
{
    if s.len() == 0 {
        Map::empty()
    } else {
        exp_map(s.drop_last()).insert((s.last().when, s.last().id), s.last().key@)
    }
}

/// No two elements share a pair.
pub open spec fn pairs_unique(s: Seq<Expiration>) -> bool {
    forall|i: int, j: int|
        0 <= i < j < s.len() ==> !((#[trigger] s[i]).when == (#[trigger] s[j]).when && s[i].id
            == s[j].id)
}

/// A sorted index has no repeated pair.
pub proof fn lemma_exp_sorted_unique(s: Seq<Expiration>)
    requires
        exp_sorted(s),
    ensures
        pairs_unique(s),
{
}

/// The map holds exactly the listed pairs.
pub proof fn lemma_exp_dom(s: Seq<Expiration>)
    ensures
        forall|w: u64, id: u64| #[trigger]
            exp_map(s).dom().contains((w, id)) <==> has_pair(s, w, id),
    decreases s.len(),
{
    if s.len() > 0 {
        lemma_exp_dom(s.drop_last());
        assert forall|w: u64, id: u64| #[trigger]
            exp_map(s).dom().contains((w, id)) implies has_pair(s, w, id) by {
            if w == s.last().when && id == s.last().id {
                assert(s[s.len() - 1].when == w && s[s.len() - 1].id == id);
            } else {
                assert(exp_map(s.drop_last()).dom().contains((w, id)));
                assert(has_pair(s.drop_last(), w, id));
                let i = choose|i: int|
                    0 <= i < s.drop_last().len() && (#[trigger] s.drop_last()[i]).when == w
                        && s.drop_last()[i].id == id;
                assert(s[i].when == w && s[i].id == id);
            }
        }
        assert forall|w: u64, id: u64| has_pair(s, w, id) implies #[trigger]
            exp_map(s).dom().contains((w, id)) by {
            let i = choose|i: int|
                0 <= i < s.len() && (#[trigger] s[i]).when == w && s[i].id == id;
            if i < s.len() - 1 {
                assert(s.drop_last()[i].when == w && s.drop_last()[i].id == id);
                assert(has_pair(s.drop_last(), w, id));
                assert(exp_map(s.drop_last()).dom().contains((w, id)));
            }
        }
    }
}

/// With unique pairs, each listed element is what the map holds at its pair.
pub proof fn lemma_exp_at(s: Seq<Expiration>, i: int)
    requires
        pairs_unique(s),
        0 <= i < s.len(),
    ensures
        exp_map(s).dom().contains((s[i].when, s[i].id)),
        exp_map(s)[(s[i].when, s[i].id)] == s[i].key@,
    decreases s.len(),
{
    lemma_exp_dom(s);
    if i < s.len() - 1 {
        assert(s.drop_last()[i] == s[i]);
        lemma_exp_at(s.drop_last(), i);
        assert(!(s[i].when == s.last().when && s[i].id == s.last().id));
    }
}

/// Appending an element with a fresh pair inserts it into the map.
pub proof fn lemma_exp_push(s: Seq<Expiration>, e: Expiration)
    requires
        !has_pair(s, e.when, e.id),
    ensures
        exp_map(s.push(e)) == exp_map(s).insert((e.when, e.id), e.key@),
{
    let t = s.push(e);
    assert(t.drop_last() =~= s);
    assert(t.last() == e);
}

/// Inserting an element with a fresh pair, anywhere, inserts it into the map.
pub proof fn lemma_exp_insert(s: Seq<Expiration>, p: int, e: Expiration)
    requires
        0 <= p <= s.len(),
        !has_pair(s, e.when, e.id),
    ensures
        exp_map(s.insert(p, e)) == exp_map(s).insert((e.when, e.id), e.key@),
    decreases s.len(),
{
    let t = s.insert(p, e);
    if p == s.len() {
        assert(t =~= s.push(e));
        lemma_exp_push(s, e);
    } else {
        assert(t.last() == s.last());
        assert(t.drop_last() =~= s.drop_last().insert(p, e));
        assert(!has_pair(s.drop_last(), e.when, e.id)) by {
            if has_pair(s.drop_last(), e.when, e.id) {
                let i = choose|i: int|
                    0 <= i < s.drop_last().len() && (#[trigger] s.drop_last()[i]).when == e.when
                        && s.drop_last()[i].id == e.id;
                assert(s[i].when == e.when && s[i].id == e.id);
            }
        }
        lemma_exp_insert(s.drop_last(), p, e);
        assert(!(s.last().when == e.when && s.last().id == e.id)) by {
            if s.last().when == e.when && s.last().id == e.id {
                assert(s[s.len() - 1].when == e.when && s[s.len() - 1].id == e.id);
            }
        }
        assert(exp_map(t) =~= exp_map(s).insert((e.when, e.id), e.key@));
    }
}

/// Removing an element removes its pair from the map.
pub proof fn lemma_exp_remove(s: Seq<Expiration>, p: int)
    requires
        pairs_unique(s),
        0 <= p < s.len(),
    ensures
        exp_map(s.remove(p)) == exp_map(s).remove((s[p].when, s[p].id)),
        pairs_unique(s.remove(p)),
    decreases s.len(),
{
    let t = s.remove(p);
    assert(pairs_unique(t)) by {
        assert forall|i: int, j: int|
            0 <= i < j < t.len() implies !((#[trigger] t[i]).when == (#[trigger] t[j]).when
            && t[i].id == t[j].id) by {
            let i0 = if i < p { i } else { i + 1 };
            let j0 = if j < p { j } else { j + 1 };
            assert(t[i] == s[i0] && t[j] == s[j0]);
        }
    }
    if p == s.len() - 1 {
        assert(t =~= s.drop_last());
        lemma_exp_dom(s.drop_last());
        assert(!has_pair(s.drop_last(), s[p].when, s[p].id)) by {
            if has_pair(s.drop_last(), s[p].when, s[p].id) {
                let i = choose|i: int|
                    0 <= i < s.drop_last().len() && (#[trigger] s.drop_last()[i]).when == s[p].when
                        && s.drop_last()[i].id == s[p].id;
                assert(s[i].when == s[p].when && s[i].id == s[p].id);
            }
        }
        assert(exp_map(t) =~= exp_map(s).remove((s[p].when, s[p].id)));
    } else {
        assert(t.drop_last() =~= s.drop_last().remove(p));
        assert(t.last() == s.last());
        assert(s.drop_last()[p] == s[p]);
        lemma_exp_remove(s.drop_last(), p);
        assert(!(s.last().when == s[p].when && s.last().id == s[p].id));
        assert(exp_map(t) =~= exp_map(s).remove((s[p].when, s[p].id)));
    }
}

// ---------------------------------------------------------------------------
// The pub/sub channel registry: channel name to live subscription count.
// ---------------------------------------------------------------------------

/// No two registry elements share a channel name.
pub open spec fn ch_keys_unique(s: Seq<(Vec<u8>, u64)>) -> bool {
    forall|i: int, j: int|
        0 <= i < j < s.len() ==> (#[trigger] s[i]).0@ != (#[trigger] s[j]).0@
}

/// Some registry element holds this channel.
pub open spec fn ch_has_key(s: Seq<(Vec<u8>, u64)>, k: Seq<u8>) -> bool {
    exists|i: int| 0 <= i < s.len() && (#[trigger] s[i]).0@ == k
}

/// The channel-to-count mapping the registry denotes.
pub open spec fn ch_map(s: Seq<(Vec<u8>, u64)>) -> Map<Seq<u8>, u64>
    decreases s.len(),
{
    if s.len() == 0 {
        Map::empty()
    } else {
        ch_map(s.drop_last()).insert(s.last().0@, s.last().1)
    }
}

/// The registry map holds exactly the listed channels.
pub proof fn lemma_ch_dom(s: Seq<(Vec<u8>, u64)>)
    ensures
        forall|k: Seq<u8>| #[trigger] ch_map(s).dom().contains(k) <==> ch_has_key(s, k),
    decreases s.len(),
{
    if s.len() > 0 {
        lemma_ch_dom(s.drop_last());
        assert forall|k: Seq<u8>| #[trigger] ch_map(s).dom().contains(k) implies ch_has_key(
            s,
            k,
        ) by {
            if k == s.last().0@ {
                assert(s[s.len() - 1].0@ == k);
            } else {
                assert(ch_map(s.drop_last()).dom().contains(k));
                assert(ch_has_key(s.drop_last(), k));
                let i = choose|i: int|
                    0 <= i < s.drop_last().len() && (#[trigger] s.drop_last()[i]).0@ == k;
                assert(s[i].0@ == k);
            }
        }
        assert forall|k: Seq<u8>| ch_has_key(s, k) implies #[trigger] ch_map(s).dom().contains(
            k,
        ) by {
            let i = choose|i: int| 0 <= i < s.len() && (#[trigger] s[i]).0@ == k;
            if i < s.len() - 1 {
                assert(s.drop_last()[i].0@ == k);
                assert(ch_has_key(s.drop_last(), k));
                assert(ch_map(s.drop_last()).dom().contains(k));
            } else {
                assert(k == s.last().0@);
            }
        }
    }
}

/// With unique channels, each listed count is what the map holds.
pub proof fn lemma_ch_at(s: Seq<(Vec<u8>, u64)>, i: int)
    requires
        ch_keys_unique(s),
        0 <= i < s.len(),
    ensures
        ch_map(s).dom().contains(s[i].0@),
        ch_map(s)[s[i].0@] == s[i].1,
    decreases s.len(),
{
    lemma_ch_dom(s);
    if i < s.len() - 1 {
        assert(s.drop_last()[i] == s[i]);
        lemma_ch_at(s.drop_last(), i);
        assert(s[i].0@ != s.last().0@);
    }
}

/// Updating the element that holds a channel updates the map at it.
pub proof fn lemma_ch_update(s: Seq<(Vec<u8>, u64)>, p: int, kv: (Vec<u8>, u64))
    requires
        ch_keys_unique(s),
        0 <= p < s.len(),
        s[p].0@ == kv.0@,
    ensures
        ch_map(s.update(p, kv)) == ch_map(s).insert(kv.0@, kv.1),
        ch_keys_unique(s.update(p, kv)),
    decreases s.len(),
{
    let t = s.update(p, kv);
    assert(ch_keys_unique(t)) by {
        assert(forall|i: int| 0 <= i < t.len() ==> (#[trigger] t[i]).0@ == s[i].0@);
    }
    if p == s.len() - 1 {
        assert(t.drop_last() =~= s.drop_last());
        assert(t.last() == kv);
        assert(ch_map(t) =~= ch_map(s).insert(kv.0@, kv.1));
    } else {
        assert(t.drop_last() =~= s.drop_last().update(p, kv));
        assert(t.last() == s.last());
        assert(s.drop_last()[p] == s[p]);
        lemma_ch_update(s.drop_last(), p, kv);
        assert(s.last().0@ != kv.0@);
        assert(ch_map(t) =~= ch_map(s).insert(kv.0@, kv.1));
    }
}

/// Appending an element with a fresh channel inserts it into the map.
pub proof fn lemma_ch_push(s: Seq<(Vec<u8>, u64)>, kv: (Vec<u8>, u64))
    requires
        ch_keys_unique(s),
        !ch_has_key(s, kv.0@),
    ensures
        ch_map(s.push(kv)) == ch_map(s).insert(kv.0@, kv.1),
        ch_keys_unique(s.push(kv)),
{
    let t = s.push(kv);
    assert(t.drop_last() =~= s);
    assert(t.last() == kv);
    assert(ch_keys_unique(t)) by {
        assert forall|i: int, j: int|
            0 <= i < j < t.len() implies (#[trigger] t[i]).0@ != (#[trigger] t[j]).0@ by {
            if j == t.len() - 1 {
                assert(t[i] == s[i]);
                if t[i].0@ == kv.0@ {
                    assert(ch_has_key(s, kv.0@));
                }
            } else {
                assert(t[i] == s[i] && t[j] == s[j]);
            }
        }
    }
}

/// Drop the index element carrying this pair, if it is there.
#[verifier::loop_isolation(false)]
fn ttl_remove(exps: &mut Vec<Expiration>, w: u64, id: u64)
    requires
        exp_sorted(old(exps)@),
    ensures
        exp_sorted(final(exps)@),
        exp_map(final(exps)@) == exp_map(old(exps)@).remove((w, id)),
{
    proof {
        lemma_exp_sorted_unique(exps@);
        lemma_exp_dom(exps@);
    }
    let mut i: usize = 0;
    while i < exps.len()
        invariant
            exps@ == old(exps)@,
            0 <= i <= exps@.len(),
            forall|j: int|
                0 <= j < i ==> !((#[trigger] exps@[j]).when == w && exps@[j].id == id),
        decreases exps@.len() - i,
    {
        if exps[i].when == w && exps[i].id == id {
            let ghost before = exps@;
            exps.remove(i);
            proof {
                lemma_exp_sorted_unique(before);
                lemma_exp_remove(before, i as int);
                assert(exp_sorted(exps@)) by {
                    assert forall|a: int, b: int|
                        0 <= a < b < exps@.len() implies exp_lt(
                        (#[trigger] exps@[a]).when,
                        exps@[a].id,
                        (#[trigger] exps@[b]).when,
                        exps@[b].id,
                    ) by {
                        let a0 = if a < i { a } else { a + 1 };
                        let b0 = if b < i { b } else { b + 1 };
                        assert(exps@[a] == before[a0] && exps@[b] == before[b0]);
                    }
                }
            }
            return ;
        }
        i = i + 1;
    }
    proof {
        assert(!has_pair(exps@, w, id));
        assert(!exp_map(exps@).dom().contains((w, id)));
        assert(exp_map(exps@).remove((w, id)) =~= exp_map(exps@));
    }
}

/// Place a fresh index element at its sorted position.
#[verifier::loop_isolation(false)]
fn ttl_insert(exps: &mut Vec<Expiration>, w: u64, id: u64, key: Vec<u8>)
    requires
        exp_sorted(old(exps)@),
        !has_pair(old(exps)@, w, id),
    ensures
        exp_sorted(final(exps)@),
        exp_map(final(exps)@) == exp_map(old(exps)@).insert((w, id), key@),
{
    let ghost e = Expiration { when: w, id, key: key };
    let mut p: usize = 0;
    while p < exps.len() && !(exp_before(w, id, exps[p].when, exps[p].id))
        invariant
            0 <= p <= exps@.len(),
            forall|j: int|
                0 <= j < p ==> exp_lt((#[trigger] exps@[j]).when, exps@[j].id, w, id),
        decreases exps@.len() - p,
    {
        proof {
            // The pair under the cursor is not ours, so it sorts before us.
            assert(exps@[p as int].when == w && exps@[p as int].id == id ==> has_pair(
                exps@,
                w,
                id,
            ));
        }
        p = p + 1;
    }
    let ghost before = exps@;
    let elem = Expiration { when: w, id, key };
    exps.insert(p, elem);
    proof {
        lemma_exp_insert(before, p as int, elem);
        assert(exp_sorted(exps@)) by {
            assert forall|a: int, b: int|
                0 <= a < b < exps@.len() implies exp_lt(
                (#[trigger] exps@[a]).when,
                exps@[a].id,
                (#[trigger] exps@[b]).when,
                exps@[b].id,
            ) by {
                if a < p && b == p {
                    assert(exps@[a] == before[a]);
                } else if a == p && b > p {
                    assert(exps@[b] == before[b - 1]);
                    if p < before.len() {
                        assert(before[p as int] == exps@[p + 1]);
                    }
                } else {
                    let a0 = if a < p { a } else { a - 1 };
                    let b0 = if b < p { b } else { b - 1 };
                    assert(exps@[a] == before[a0] && exps@[b] == before[b0]);
                }
            }
        }
    }
}

/// Exec comparison mirroring [`exp_lt`].
fn exp_before(w1: u64, i1: u64, w2: u64, i2: u64) -> (r: bool)
    ensures
        r == exp_lt(w1, i1, w2, i2),
{
    w1 < w2 || (w1 == w2 && i1 < i2)
}

/// The keys of a mapping whose entries are due at or before `now`.
pub open spec fn expired_keys(m: Map<Seq<u8>, EntryModel>, now: u64) -> Set<Seq<u8>> {
    Set::new(
        |k: Seq<u8>|
            m.dom().contains(k) && m[k].expires_at is Some && m[k].expires_at->0 <= now,
    )
}

/// The index positions due at or before `now`.
pub open spec fn due_pairs(now: u64) -> Set<(u64, u64)> {
    Set::new(|p: (u64, u64)| p.0 <= now)
}

/// The TTL index after the element of a replaced entry is dropped: if the map
/// holds `k` with a TTL, that entry's index element goes; otherwise nothing
/// changes.
pub open spec fn ttl_after_drop(
    m: Map<Seq<u8>, EntryModel>,
    t: Map<(u64, u64), Seq<u8>>,
    k: Seq<u8>,
) -> Map<(u64, u64), Seq<u8>> {
    if m.dom().contains(k) && m[k].expires_at is Some {
        t.remove((m[k].expires_at->0, m[k].id))
    } else {
        t
    }
}

/// What a store does to the key/value mapping.
pub open spec fn set_effect_kv(
    m: Map<Seq<u8>, EntryModel>,
    k: Seq<u8>,
    id: u64,
    v: Seq<u8>,
    when: Option<u64>,
) -> Map<Seq<u8>, EntryModel> {
    m.insert(k, EntryModel { id, data: v, expires_at: when })
}

/// What a store does to the TTL index: the replaced entry's element goes and,
/// with a TTL, one element for the fresh id arrives.
pub open spec fn set_effect_ttl(
    m: Map<Seq<u8>, EntryModel>,
    t: Map<(u64, u64), Seq<u8>>,
    k: Seq<u8>,
    id: u64,
    when: Option<u64>,
) -> Map<(u64, u64), Seq<u8>> {
    match when {
        Some(w) => ttl_after_drop(m, t, k).insert((w, id), k),
        None => ttl_after_drop(m, t, k),
    }
}

/// The key/value mapping after the expiry sweep at `now`.
pub open spec fn swept(m: Map<Seq<u8>, EntryModel>, now: u64) -> Map<Seq<u8>, EntryModel> {
    m.remove_keys(expired_keys(m, now))
}

// ---------------------------------------------------------------------------
// The database itself.
// ---------------------------------------------------------------------------

/// `a + b`, stopping at the top of the range.
pub open spec fn sat_add(a: u64, b: u64) -> u64 {
    if a + b > u64::MAX {
        u64::MAX
    } else {
        (a + b) as u64
    }
}

/// The database state. A server guards one value of this under a mutex
/// shared by every connection and by the expiry worker.
pub struct Db {
    entries: Vec<(Vec<u8>, Entry)>,
    expirations: Vec<Expiration>,
    pub_sub: Vec<(Vec<u8>, u64)>,
    next_id: u64,
    shutdown_flag: bool,
}

impl View for Db {
    type V = Map<Seq<u8>, EntryModel>;

    /// The key/value mapping held.
    closed spec fn view(&self) -> Map<Seq<u8>, EntryModel> {
        kv_map(self.entries@)
    }
}

impl Db {
    /// The TTL index: (instant, id) to key.
    pub closed spec fn ttl(&self) -> Map<(u64, u64), Seq<u8>> {
        exp_map(self.expirations@)
    }

    /// The pub/sub registry: channel to live subscription count.
    pub closed spec fn channels(&self) -> Map<Seq<u8>, u64> {
        ch_map(self.pub_sub@)
    }

    /// The id the next insertion will take.
    pub closed spec fn insertion_counter(&self) -> u64 {
        self.next_id
    }

    /// The earliest scheduled expiration instant.
    pub closed spec fn spec_next_expiration(&self) -> Option<u64> {
        if self.expirations@.len() == 0 {
            None
        } else {
            Some(self.expirations@[0].when)
        }
    }

    /// Whether shutdown has been requested.
    pub closed spec fn shutdown_requested(&self) -> bool {
        self.shutdown_flag
    }

    /// The state invariant: keys unique, insertion ids unique and below the
    /// counter, the TTL index strictly sorted, and entries and index elements
    /// in exact correspondence — every entry with a TTL has exactly one index
    /// element, and every index element belongs to such an entry.
    pub closed spec fn wf(&self) -> bool {
        &&& keys_unique(self.entries@)
        &&& exp_sorted(self.expirations@)
        &&& ch_keys_unique(self.pub_sub@)
        &&& forall|k: Seq<u8>| #[trigger]
            self@.dom().contains(k) ==> self@[k].id < self.next_id
        &&& forall|k1: Seq<u8>, k2: Seq<u8>|
            #![trigger self@.dom().contains(k1), self@.dom().contains(k2)]
            self@.dom().contains(k1) && self@.dom().contains(k2) && k1 != k2 ==> self@[k1].id
                != self@[k2].id
        &&& forall|k: Seq<u8>| #[trigger]
            self@.dom().contains(k) ==> match self@[k].expires_at {
                Some(w) => self.ttl().dom().contains((w, self@[k].id)) && self.ttl()[
                    (w, self@[k].id)
                ] == k,
                None => true,
            }
        &&& forall|p: (u64, u64)| #[trigger]
            self.ttl().dom().contains(p) ==> self@.dom().contains(self.ttl()[p]) && self@[
                self.ttl()[p]
            ].id == p.1 && self@[self.ttl()[p]].expires_at == Some(p.0)
    }

    /// A fresh, empty database.
    pub fn new() -> (db: Db)
        ensures
            db.wf(),
            db@ == Map::<Seq<u8>, EntryModel>::empty(),
            db.ttl() == Map::<(u64, u64), Seq<u8>>::empty(),
            db.channels() == Map::<Seq<u8>, u64>::empty(),
            db.insertion_counter() == 0,
            !db.shutdown_requested(),
            db.spec_next_expiration() is None,
    {
        Db {
            entries: Vec::new(),
            expirations: Vec::new(),
            pub_sub: Vec::new(),
            next_id: 0,
            shutdown_flag: false,
        }
    }

    /// Where the entry with this key sits, if anywhere.
    fn find_entry(&self, key: &Vec<u8>) -> (r: Option<usize>)
        ensures
            match r {
                Some(i) => i < self.entries@.len() && self.entries@[i as int].0@ == key@,
                None => !has_key(self.entries@, key@),
            },
    {
        let mut i: usize = 0;
        while i < self.entries.len()
            invariant
                0 <= i <= self.entries@.len(),
                forall|j: int| 0 <= j < i ==> (#[trigger] self.entries@[j]).0@ != key@,
            decreases self.entries@.len() - i,
        {
            if bytes_equal(&self.entries[i].0, key) {
                return Some(i);
            }
            i = i + 1;
        }
        None
    }

    /// Look a key up; a hit hands back a cheap clone of the stored bytes.
    /// The TTL index is not consulted and not changed.
    pub fn get(&self, key: &Vec<u8>) -> (r: Option<bytes::Bytes>)
        requires
            self.wf(),
        ensures
            match r {
                Some(b) => self@.dom().contains(key@) && bytes_view(b) == self@[key@].data,
                None => !self@.dom().contains(key@),
            },
    {
        proof {
            lemma_kv_dom(self.entries@);
        }
        match self.find_entry(key) {
            Some(i) => {
                proof {
                    lemma_kv_at(self.entries@, i as int);
                }
                Some(bytes_clone(&self.entries[i].1.data))
            },
            None => None,
        }
    }

    /// The earliest scheduled expiration instant, if any.
    pub fn next_expiration(&self) -> (r: Option<u64>)
        ensures
            r == self.spec_next_expiration(),
    {
        if self.expirations.len() == 0 {
            None
        } else {
            Some(self.expirations[0].when)
        }
    }

    /// The id the next insertion will take.
    pub fn insertion_count(&self) -> (r: u64)
        ensures
            r == self.insertion_counter(),
    {
        self.next_id
    }

    /// Record that shutdown was requested; the caller then wakes the expiry
    /// worker so it can exit.
    pub fn request_shutdown(&mut self)
        requires
            old(self).wf(),
        ensures
            final(self).wf(),
            final(self).shutdown_requested(),
            final(self)@ == old(self)@,
            final(self).ttl() == old(self).ttl(),
            final(self).channels() == old(self).channels(),
            final(self).spec_next_expiration() == old(self).spec_next_expiration(),
            final(self).insertion_counter() == old(self).insertion_counter(),
    {
        self.shutdown_flag = true;
    }

    /// Whether shutdown was requested.
    pub fn is_shutdown(&self) -> (r: bool)
        ensures
            r == self.shutdown_requested(),
    {
        self.shutdown_flag
    }

    /// Where the registry element for this channel sits, if anywhere.
    fn find_channel(&self, channel: &Vec<u8>) -> (r: Option<usize>)
        ensures
            match r {
                Some(i) => i < self.pub_sub@.len() && self.pub_sub@[i as int].0@ == channel@,
                None => !ch_has_key(self.pub_sub@, channel@),
            },
    {
        let mut i: usize = 0;
        while i < self.pub_sub.len()
            invariant
                0 <= i <= self.pub_sub@.len(),
                forall|j: int| 0 <= j < i ==> (#[trigger] self.pub_sub@[j]).0@ != channel@,
            decreases self.pub_sub@.len() - i,
        {
            if bytes_equal(&self.pub_sub[i].0, channel) {
                return Some(i);
            }
            i = i + 1;
        }
        None
    }

    /// Record one more subscription to a channel, creating the channel on
    /// first use, and return the new count.
    pub fn subscribe(&mut self, channel: Vec<u8>) -> (count: u64)
        requires
            old(self).wf(),
        ensures
            final(self).wf(),
            count == if old(self).channels().dom().contains(channel@) {
                sat_add(old(self).channels()[channel@], 1)
            } else {
                1u64
            },
            final(self).channels() == old(self).channels().insert(channel@, count),
            final(self)@ == old(self)@,
            final(self).ttl() == old(self).ttl(),
            final(self).insertion_counter() == old(self).insertion_counter(),
            final(self).spec_next_expiration() == old(self).spec_next_expiration(),
            final(self).shutdown_requested() == old(self).shutdown_requested(),
    {
        match self.find_channel(&channel) {
            Some(i) => {
                proof {
                    lemma_ch_dom(self.pub_sub@);
                    lemma_ch_at(self.pub_sub@, i as int);
                }
                let prev = self.pub_sub[i].1;
                let count = if prev == u64::MAX {
                    u64::MAX
                } else {
                    prev + 1
                };
                let ghost before = self.pub_sub@;
                self.pub_sub.set(i, (channel, count));
                proof {
                    lemma_ch_update(before, i as int, (final(self).pub_sub@[i as int].0, count));
                }
                count
            },
            None => {
                proof {
                    lemma_ch_dom(self.pub_sub@);
                }
                let ghost before = self.pub_sub@;
                let ghost chv = channel@;
                self.pub_sub.push((channel, 1));
                proof {
                    lemma_ch_push(before, (final(self).pub_sub@.last().0, 1u64));
                }
                1
            },
        }
    }

    /// Record that one subscription to a channel ended.
    pub fn unsubscribe(&mut self, channel: &Vec<u8>)
        requires
            old(self).wf(),
        ensures
            final(self).wf(),
            final(self).channels() == if old(self).channels().dom().contains(channel@) {
                old(self).channels().insert(
                    channel@,
                    if old(self).channels()[channel@] > 0 {
                        (old(self).channels()[channel@] - 1) as u64
                    } else {
                        0u64
                    },
                )
            } else {
                old(self).channels()
            },
            final(self)@ == old(self)@,
            final(self).ttl() == old(self).ttl(),
            final(self).insertion_counter() == old(self).insertion_counter(),
            final(self).spec_next_expiration() == old(self).spec_next_expiration(),
            final(self).shutdown_requested() == old(self).shutdown_requested(),
    {
        match self.find_channel(channel) {
            Some(i) => {
                proof {
                    lemma_ch_dom(self.pub_sub@);
                    lemma_ch_at(self.pub_sub@, i as int);
                }
                let prev = self.pub_sub[i].1;
                let count = if prev > 0 {
                    prev - 1
                } else {
                    0
                };
                let name = vstd::slice::slice_to_vec(self.pub_sub[i].0.as_slice());
                let ghost before = self.pub_sub@;
                self.pub_sub.set(i, (name, count));
                proof {
                    lemma_ch_update(before, i as int, (final(self).pub_sub@[i as int].0, count));
                }
            },
            None => {
                proof {
                    lemma_ch_dom(self.pub_sub@);
                }
            },
        }
    }

    /// Insert or replace a key. A fresh insertion id is assigned; if the
    /// replaced entry carried a TTL its old index element is dropped; if an
    /// expiration is given the instant `now + expire` (stopping at the top of
    /// the range) is indexed under the new id. The returned flag says whether
    /// the expiry worker must be woken: the new instant precedes every
    /// previously scheduled one.
    pub fn set(
        &mut self,
        key: Vec<u8>,
        value: bytes::Bytes,
        expire: Option<u64>,
        now: u64,
    ) -> (notify: bool)
        requires
            old(self).wf(),
            old(self).insertion_counter() < u64::MAX,
        ensures
            final(self).wf(),
            final(self)@ == set_effect_kv(
                old(self)@,
                key@,
                old(self).insertion_counter(),
                bytes_view(value),
                match expire {
                    Some(d) => Some(sat_add(now, d)),
                    None => None,
                },
            ),
            final(self).ttl() == set_effect_ttl(
                old(self)@,
                old(self).ttl(),
                key@,
                old(self).insertion_counter(),
                match expire {
                    Some(d) => Some(sat_add(now, d)),
                    None => None,
                },
            ),
            notify == match expire {
                Some(d) => match old(self).spec_next_expiration() {
                    Some(first) => first > sat_add(now, d),
                    None => true,
                },
                None => false,
            },
            final(self).insertion_counter() == old(self).insertion_counter() + 1,
            final(self).channels() == old(self).channels(),
            final(self).shutdown_requested() == old(self).shutdown_requested(),
    {
        let id = self.next_id;
        self.next_id = self.next_id + 1;

        // Work out the absolute instant, the wake-up flag, and a copy of the
        // key for the index, before touching the state.
        let mut notify = false;
        let mut scheduled: Option<(u64, Vec<u8>)> = None;
        match expire {
            Some(d) => {
                let w = if d > u64::MAX - now {
                    u64::MAX
                } else {
                    now + d
                };
                notify = match self.next_expiration() {
                    Some(first) => first > w,
                    None => true,
                };
                scheduled = Some((w, crate::copy_bytes(&key)));
            },
            None => {},
        }
        let when_opt: Option<u64> = match &scheduled {
            Some(pair) => Some(pair.0),
            None => None,
        };

        // Replace or insert the entry; a replaced entry's stale index element
        // goes first.
        let ghost om: Map<Seq<u8>, EntryModel> = kv_map(self.entries@);
        let ghost ot: Map<(u64, u64), Seq<u8>> = exp_map(self.expirations@);
        let ghost kview: Seq<u8> = key@;
        let ghost base: Map<(u64, u64), Seq<u8>> = ttl_after_drop(om, ot, kview);
        let ghost dview: Seq<u8> = bytes_view(value);
        proof {
            lemma_kv_dom(self.entries@);
        }
        match self.find_entry(&key) {
            Some(i) => {
                proof {
                    lemma_kv_at(self.entries@, i as int);
                }
                let prev_id = self.entries[i].1.id;
                match self.entries[i].1.expires_at {
                    Some(w0) => {
                        ttl_remove(&mut self.expirations, w0, prev_id);
                    },
                    None => {},
                }
                assert(exp_map(self.expirations@) == base);
                let ghost before_entries = self.entries@;
                self.entries.set(i, (key, Entry { id, data: value, expires_at: when_opt }));
                proof {
                    lemma_kv_update(
                        before_entries,
                        i as int,
                        (self.entries@[i as int].0, self.entries@[i as int].1),
                    );
                }
                assert(kv_map(self.entries@) == om.insert(
                    kview,
                    EntryModel { id, data: dview, expires_at: when_opt },
                ));
            },
            None => {
                let ghost before_entries = self.entries@;
                self.entries.push((key, Entry { id, data: value, expires_at: when_opt }));
                proof {
                    lemma_kv_push(
                        before_entries,
                        (self.entries@.last().0, self.entries@.last().1),
                    );
                }
                assert(exp_map(self.expirations@) == base);
                assert(kv_map(self.entries@) == om.insert(
                    kview,
                    EntryModel { id, data: dview, expires_at: when_opt },
                ));
            },
        }

        // Schedule the new expiration under the fresh id.
        match scheduled {
            Some(pair) => {
                proof {
                    assert(!has_pair(self.expirations@, pair.0, id)) by {
                        if has_pair(self.expirations@, pair.0, id) {
                            let j = choose|j: int|
                                0 <= j < self.expirations@.len() && (#[trigger] self
                                    .expirations@[j]).when == pair.0 && self.expirations@[j].id
                                    == id;
                            lemma_exp_sorted_unique(self.expirations@);
                            lemma_exp_at(self.expirations@, j);
                            // The pair sits in the old index, so it belongs to
                            // an old entry, whose id is below the fresh one.
                            assert(ot.dom().contains((pair.0, id)));
                        }
                    }
                }
                ttl_insert(&mut self.expirations, pair.0, id, pair.1);
            },
            None => {},
        }

        // The links between entries and index hold again.
        proof {
            self.lemma_set_restores_wf(*old(self), kview, id, dview, when_opt);
        }
        notify
    }

    /// After `set` rewrites the maps, the invariant holds again.
    proof fn lemma_set_restores_wf(
        &self,
        prev: Db,
        k: Seq<u8>,
        id: u64,
        data: Seq<u8>,
        when_opt: Option<u64>,
    )
        requires
            prev.wf(),
            id == prev.insertion_counter(),
            self.insertion_counter() == id + 1,
            keys_unique(self.entries@),
            exp_sorted(self.expirations@),
            ch_keys_unique(self.pub_sub@),
            self@ == prev@.insert(k, EntryModel { id, data, expires_at: when_opt }),
            self.ttl() == match when_opt {
                Some(w) => ttl_after_drop(prev@, prev.ttl(), k).insert((w, id), k),
                None => ttl_after_drop(prev@, prev.ttl(), k),
            },
        ensures
            self.wf(),
    {
        let om = prev@;
        let ot = prev.ttl();
        let base = ttl_after_drop(om, ot, k);

        // Insertion ids stay below the advanced counter and stay unique.
        assert forall|k0: Seq<u8>| #[trigger]
            self@.dom().contains(k0) implies self@[k0].id < self.insertion_counter() by {
            if k0 != k {
                assert(om.dom().contains(k0));
            }
        }
        assert forall|k1: Seq<u8>, k2: Seq<u8>|
            self@.dom().contains(k1) && self@.dom().contains(k2) && k1 != k2 implies self@[
            k1
        ].id != self@[k2].id by {
            if k1 != k && k2 != k {
                assert(om.dom().contains(k1) && om.dom().contains(k2));
            } else if k1 == k {
                assert(om.dom().contains(k2) && om[k2].id < id);
            } else {
                assert(om.dom().contains(k1) && om[k1].id < id);
            }
        }

        // Every entry with a TTL still has its index element.
        assert forall|k0: Seq<u8>| #[trigger]
            self@.dom().contains(k0) && self@[k0].expires_at is Some implies self.ttl().dom()
            .contains((self@[k0].expires_at->0, self@[k0].id)) && self.ttl()[
            (self@[k0].expires_at->0, self@[k0].id)
        ] == k0 by {
            if k0 == k {
                assert(when_opt is Some);
            } else {
                assert(om.dom().contains(k0) && om[k0] == self@[k0]);
                let w0 = om[k0].expires_at->0;
                let p = (w0, om[k0].id);
                assert(ot.dom().contains(p) && ot[p] == k0);
                // The dropped element belonged to the replaced entry at `k`,
                // whose id differs from this entry's.
                if om.dom().contains(k) && om[k].expires_at is Some {
                    assert(om[k0].id != om[k].id);
                }
                assert(base.dom().contains(p) && base[p] == k0);
                if when_opt is Some {
                    assert(om[k0].id < id);
                }
            }
        }

        // Every index element still belongs to an entry with that TTL.
        assert forall|p: (u64, u64)| #[trigger]
            self.ttl().dom().contains(p) implies self@.dom().contains(self.ttl()[p])
            && self@[self.ttl()[p]].id == p.1 && self@[self.ttl()[p]].expires_at == Some(
            p.0,
        ) by {
            if when_opt is Some && p == (when_opt->0, id) {
                assert(self.ttl()[p] == k);
            } else {
                assert(base.dom().contains(p) && base[p] == self.ttl()[p]);
                assert(ot.dom().contains(p) && ot[p] == base[p]);
                let k1 = ot[p];
                assert(om.dom().contains(k1) && om[k1].id == p.1 && om[k1].expires_at
                    == Some(p.0));
                // That entry is not the replaced one: the replaced entry's
                // element was dropped from the base.
                assert(k1 != k) by {
                    if k1 == k {
                        assert(om.dom().contains(k) && om[k].expires_at is Some);
                        assert(p == (om[k].expires_at->0, om[k].id));
                        assert(!base.dom().contains(p));
                    }
                }
                assert(self@[k1] == om[k1]);
            }
        }
    }

    /// Walk the TTL index from the earliest instant, dropping every entry due
    /// at or before `now`, and hand back the instant the worker should next
    /// wake at, if any is scheduled.
    #[verifier::loop_isolation(false)]
    pub fn purge_expired(&mut self, now: u64) -> (next: Option<u64>)
        requires
            old(self).wf(),
        ensures
            final(self).wf(),
            next == final(self).spec_next_expiration(),
            next matches Some(w) ==> w > now,
            final(self)@ == swept(old(self)@, now),
            final(self).ttl() == old(self).ttl().remove_keys(due_pairs(now)),
            final(self).channels() == old(self).channels(),
            final(self).insertion_counter() == old(self).insertion_counter(),
            final(self).shutdown_requested() == old(self).shutdown_requested(),
    {
        while self.expirations.len() > 0
            invariant
                self.wf(),
                self.next_id == old(self).next_id,
                self.pub_sub@ == old(self).pub_sub@,
                self.shutdown_flag == old(self).shutdown_flag,
                forall|k: Seq<u8>| #[trigger]
                    self@.dom().contains(k) ==> old(self)@.dom().contains(k) && old(
                        self,
                    )@[k] == self@[k],
                forall|k: Seq<u8>| #[trigger]
                    old(self)@.dom().contains(k) ==> self@.dom().contains(k) || (old(
                        self,
                    )@[k].expires_at is Some && old(self)@[k].expires_at->0 <= now),
                forall|p: (u64, u64)| #[trigger]
                    self.ttl().dom().contains(p) ==> old(self).ttl().dom().contains(p)
                        && old(self).ttl()[p] == self.ttl()[p],
                forall|p: (u64, u64)| #[trigger]
                    old(self).ttl().dom().contains(p) ==> self.ttl().dom().contains(p)
                        || p.0 <= now,
            decreases self.expirations@.len(),
        {
            let w = self.expirations[0].when;
            if w > now {
                proof {
                    self.lemma_purge_done(*old(self), now);
                }
                return Some(w);
            }
            let eid = self.expirations[0].id;
            let key = crate::copy_bytes(&self.expirations[0].key);
            proof {
                lemma_exp_sorted_unique(self.expirations@);
                lemma_exp_at(self.expirations@, 0);
                lemma_kv_dom(self.entries@);
            }
            // The index element belongs to an entry with this key.
            assert(self@.dom().contains(key@) && self@[key@].id == eid
                && self@[key@].expires_at == Some(w));
            let found = self.find_entry(&key);
            let i = match found {
                Some(i) => i,
                None => {
                    proof {
                        assert(false);
                    }
                    0
                },
            };
            proof {
                lemma_kv_at(self.entries@, i as int);
            }
            let ghost mid_kv: Map<Seq<u8>, EntryModel> = self@;
            let ghost mid_ttl: Map<(u64, u64), Seq<u8>> = self.ttl();
            let ghost before_entries = self.entries@;
            self.entries.remove(i);
            proof {
                lemma_kv_remove(before_entries, i as int);
            }
            let ghost before_exps = self.expirations@;
            self.expirations.remove(0);
            proof {
                lemma_exp_remove(before_exps, 0);
                assert(exp_sorted(self.expirations@)) by {
                    assert forall|a: int, b: int|
                        0 <= a < b < self.expirations@.len() implies exp_lt(
                        (#[trigger] self.expirations@[a]).when,
                        self.expirations@[a].id,
                        (#[trigger] self.expirations@[b]).when,
                        self.expirations@[b].id,
                    ) by {
                        assert(self.expirations@[a] == before_exps[a + 1]
                            && self.expirations@[b] == before_exps[b + 1]);
                    }
                }
                self.lemma_purge_step_restores_wf(mid_kv, mid_ttl, key@, w, eid);
            }
        }
        proof {
            self.lemma_purge_done(*old(self), now);
        }
        None
    }

    /// Dropping one expired entry together with its index element keeps the
    /// links intact.
    proof fn lemma_purge_step_restores_wf(
        &self,
        mid_kv: Map<Seq<u8>, EntryModel>,
        mid_ttl: Map<(u64, u64), Seq<u8>>,
        k: Seq<u8>,
        w: u64,
        eid: u64,
    )
        requires
            keys_unique(self.entries@),
            exp_sorted(self.expirations@),
            ch_keys_unique(self.pub_sub@),
            mid_kv.dom().contains(k),
            mid_kv[k].id == eid,
            mid_kv[k].expires_at == Some(w),
            self@ == mid_kv.remove(k),
            self.ttl() == mid_ttl.remove((w, eid)),
            forall|k0: Seq<u8>| #[trigger]
                mid_kv.dom().contains(k0) ==> mid_kv[k0].id < self.insertion_counter(),
            forall|k1: Seq<u8>, k2: Seq<u8>|
                #![trigger mid_kv.dom().contains(k1), mid_kv.dom().contains(k2)]
                mid_kv.dom().contains(k1) && mid_kv.dom().contains(k2) && k1 != k2
                    ==> mid_kv[k1].id != mid_kv[k2].id,
            forall|k0: Seq<u8>| #[trigger]
                mid_kv.dom().contains(k0) ==> match mid_kv[k0].expires_at {
                    Some(w0) => mid_ttl.dom().contains((w0, mid_kv[k0].id)) && mid_ttl[
                        (w0, mid_kv[k0].id)
                    ] == k0,
                    None => true,
                },
            forall|p: (u64, u64)| #[trigger]
                mid_ttl.dom().contains(p) ==> mid_kv.dom().contains(mid_ttl[p]) && mid_kv[
                    mid_ttl[p]
                ].id == p.1 && mid_kv[mid_ttl[p]].expires_at == Some(p.0),
        ensures
            self.wf(),
    {
        assert forall|k0: Seq<u8>| #[trigger]
            self@.dom().contains(k0) && self@[k0].expires_at is Some implies self.ttl().dom()
            .contains((self@[k0].expires_at->0, self@[k0].id)) && self.ttl()[
            (self@[k0].expires_at->0, self@[k0].id)
        ] == k0 by {
            assert(k0 != k && mid_kv.dom().contains(k0) && mid_kv[k0] == self@[k0]);
            let p = (self@[k0].expires_at->0, self@[k0].id);
            assert(mid_ttl.dom().contains(p) && mid_ttl[p] == k0);
            assert(self@[k0].id != eid);
        }
        assert forall|p: (u64, u64)| #[trigger]
            self.ttl().dom().contains(p) implies self@.dom().contains(self.ttl()[p])
            && self@[self.ttl()[p]].id == p.1 && self@[self.ttl()[p]].expires_at == Some(
            p.0,
        ) by {
            assert(p != (w, eid));
            assert(mid_ttl.dom().contains(p));
            let k1 = mid_ttl[p];
            assert(mid_kv.dom().contains(k1) && mid_kv[k1].id == p.1
                && mid_kv[k1].expires_at == Some(p.0));
            assert(k1 != k) by {
                if k1 == k {
                    assert(p.1 == eid && p.0 == w);
                }
            }
        }
    }

    /// When no scheduled instant is due any more, exactly the due entries and
    /// index elements are gone.
    proof fn lemma_purge_done(&self, prev: Db, now: u64)
        requires
            self.wf(),
            match self.spec_next_expiration() {
                Some(w) => w > now,
                None => true,
            },
            forall|k: Seq<u8>| #[trigger]
                self@.dom().contains(k) ==> prev@.dom().contains(k) && prev@[k] == self@[k],
            forall|k: Seq<u8>| #[trigger]
                prev@.dom().contains(k) ==> self@.dom().contains(k) || (prev@[k].expires_at
                    is Some && prev@[k].expires_at->0 <= now),
            forall|p: (u64, u64)| #[trigger]
                self.ttl().dom().contains(p) ==> prev.ttl().dom().contains(p) && prev.ttl()[p]
                    == self.ttl()[p],
            forall|p: (u64, u64)| #[trigger]
                prev.ttl().dom().contains(p) ==> self.ttl().dom().contains(p) || p.0 <= now,
        ensures
            self@ == prev@.remove_keys(expired_keys(prev@, now)),
            self.ttl() == prev.ttl().remove_keys(due_pairs(now)),
    {
        // No pair at or before `now` is left in the index.
        assert forall|p: (u64, u64)| #[trigger]
            self.ttl().dom().contains(p) implies p.0 > now by {
            lemma_exp_dom(self.expirations@);
            assert(has_pair(self.expirations@, p.0, p.1));
            let j = choose|j: int|
                0 <= j < self.expirations@.len() && (#[trigger] self.expirations@[j]).when
                    == p.0 && self.expirations@[j].id == p.1;
            if j > 0 {
                assert(exp_lt(
                    self.expirations@[0].when,
                    self.expirations@[0].id,
                    self.expirations@[j].when,
                    self.expirations@[j].id,
                ));
            }
        }
        // So no entry due at or before `now` is left either.
        assert forall|k: Seq<u8>| #[trigger]
            self@.dom().contains(k) implies !(self@[k].expires_at is Some
            && self@[k].expires_at->0 <= now) by {
            if self@[k].expires_at is Some {
                let p = (self@[k].expires_at->0, self@[k].id);
                assert(self.ttl().dom().contains(p));
            }
        }
        assert(self@ =~= prev@.remove_keys(expired_keys(prev@, now)));
        assert(self.ttl() =~= prev.ttl().remove_keys(due_pairs(now)));
    }

    /// How many live subscriptions a publish to this channel reaches.
    pub fn publish(&self, channel: &Vec<u8>) -> (n: u64)
        requires
            self.wf(),
        ensures
            n == if self.channels().dom().contains(channel@) {
                self.channels()[channel@]
            } else {
                0u64
            },
    {
        proof {
            lemma_ch_dom(self.pub_sub@);
        }
        match self.find_channel(channel) {
            Some(i) => {
                proof {
                    lemma_ch_at(self.pub_sub@, i as int);
                }
                self.pub_sub[i].1
            },
            None => 0,
        }
    }
}

// ---------------------------------------------------------------------------
// Laws.
// ---------------------------------------------------------------------------

/// Round trip. Storing value `v` under key `k` with a TTL ending at `when`
/// yields a mapping in which, at any instant `t` short of `when`, the expiry
/// sweep keeps the entry and a lookup yields `v`; at any instant at or past
/// `when`, the sweep removes it and a lookup yields nothing.
pub proof fn law_ttl_round_trip(
    m: Map<Seq<u8>, EntryModel>,
    k: Seq<u8>,
    v: Seq<u8>,
    id: u64,
    when: u64,
    t: u64,
)
    ensures
        t < when ==> swept(set_effect_kv(m, k, id, v, Some(when)), t).dom().contains(k)
            && swept(set_effect_kv(m, k, id, v, Some(when)), t)[k].data == v,
        t >= when ==> !swept(set_effect_kv(m, k, id, v, Some(when)), t).dom().contains(k),
{
    let m2 = set_effect_kv(m, k, id, v, Some(when));
    assert(m2[k].data == v);
    if t < when {
        assert(!expired_keys(m2, t).contains(k));
    } else {
        assert(expired_keys(m2, t).contains(k));
    }
}

/// Idempotence. Storing the same key and value twice leaves the value stored
/// once, and the TTL index holds exactly one element for the key — the second
/// store's — or none when no TTL was given. The preconditions are what the
/// invariant grants: index elements for `k` all match the stored entry, and
/// the two insertion ids are fresh and distinct.
pub proof fn law_set_idempotent(
    m: Map<Seq<u8>, EntryModel>,
    t: Map<(u64, u64), Seq<u8>>,
    k: Seq<u8>,
    v: Seq<u8>,
    id1: u64,
    id2: u64,
    when: Option<u64>,
)
    requires
        id1 != id2,
        forall|p: (u64, u64)| #[trigger]
            t.dom().contains(p) && t[p] == k ==> m.dom().contains(k) && m[k].expires_at
                is Some && p == (m[k].expires_at->0, m[k].id),
        forall|p: (u64, u64)| #[trigger] t.dom().contains(p) ==> p.1 != id1 && p.1 != id2,
    ensures
        set_effect_kv(set_effect_kv(m, k, id1, v, when), k, id2, v, when)[k].data == v,
        set_effect_kv(set_effect_kv(m, k, id1, v, when), k, id2, v, when).dom().contains(k),
        ({
            let t2 = set_effect_ttl(
                set_effect_kv(m, k, id1, v, when),
                set_effect_ttl(m, t, k, id1, when),
                k,
                id2,
                when,
            );
            match when {
                Some(w) => forall|p: (u64, u64)|
                    #[trigger] t2.dom().contains(p) && t2[p] == k <==> p == (w, id2),
                None => forall|p: (u64, u64)|
                    !(#[trigger] t2.dom().contains(p) && t2[p] == k),
            }
        }),
{
    let m1 = set_effect_kv(m, k, id1, v, when);
    let t1 = set_effect_ttl(m, t, k, id1, when);
    let t2 = set_effect_ttl(m1, t1, k, id2, when);
    match when {
        Some(w) => {
            assert(t1 == ttl_after_drop(m, t, k).insert((w, id1), k));
            assert(t2 == t1.remove((w, id1)).insert((w, id2), k));
            assert forall|p: (u64, u64)| #[trigger]
                t2.dom().contains(p) && t2[p] == k implies p == (w, id2) by {
                if p != (w, id2) {
                    assert(t1.dom().contains(p) && p != (w, id1));
                    assert(ttl_after_drop(m, t, k).dom().contains(p));
                    assert(t.dom().contains(p) && t[p] == k);
                }
            }
        },
        None => {
            assert forall|p: (u64, u64)|
                !(#[trigger] t2.dom().contains(p) && t2[p] == k) by {
                if t2.dom().contains(p) && t2[p] == k {
                    assert(t1.dom().contains(p) && t1[p] == k);
                    assert(t.dom().contains(p) && t[p] == k);
                    assert(m1.dom().contains(k) && m1[k].expires_at is None);
                }
            }
        },
    }
}

/// The published wake instant is the least scheduled one: it is absent
/// exactly when the index is empty, it is attained by some index element,
/// and no element is due earlier.
pub proof fn lemma_next_expiration_is_min(db: Db)
    requires
        db.wf(),
    ensures
        db.spec_next_expiration() is None ==> db.ttl() == Map::<(u64, u64), Seq<u8>>::empty(),
        db.spec_next_expiration() matches Some(w) ==> exists|p: (u64, u64)| #[trigger]
            db.ttl().dom().contains(p) && p.0 == w,
        forall|p: (u64, u64)| #[trigger]
            db.ttl().dom().contains(p) ==> (db.spec_next_expiration() matches Some(w) && w
                <= p.0),
{
    let xs = db.expirations@;
    lemma_exp_dom(xs);
    if xs.len() == 0 {
        assert(db.ttl() =~= Map::<(u64, u64), Seq<u8>>::empty());
    } else {
        lemma_exp_sorted_unique(xs);
        lemma_exp_at(xs, 0);
        assert(db.ttl().dom().contains((xs[0].when, xs[0].id)));
        assert forall|p: (u64, u64)| #[trigger]
            db.ttl().dom().contains(p) implies (db.spec_next_expiration() matches Some(w)
            && w <= p.0) by {
            assert(has_pair(xs, p.0, p.1));
            let j = choose|j: int|
                0 <= j < xs.len() && (#[trigger] xs[j]).when == p.0 && xs[j].id == p.1;
            if j > 0 {
                assert(exp_lt(xs[0].when, xs[0].id, xs[j].when, xs[j].id));
            }
        }
    }
}

/// Insertion ids are fresh: every stored id, and the id of every TTL index
/// element, is below the insertion counter, so the counter's value is taken
/// by no entry.
pub proof fn lemma_ids_below_counter(db: Db)
    requires
        db.wf(),
    ensures
        forall|k: Seq<u8>| #[trigger]
            db@.dom().contains(k) ==> db@[k].id < db.insertion_counter(),
        forall|p: (u64, u64)| #[trigger]
            db.ttl().dom().contains(p) ==> p.1 < db.insertion_counter(),
{
}

/// TTL index consistency. In a well-formed state, every stored entry with a
/// TTL has exactly one index element — the one at its (instant, id), carrying
/// its key — and every index element points back at exactly such an entry.
pub proof fn law_ttl_index_consistency(db: Db)
    requires
        db.wf(),
    ensures
        forall|k: Seq<u8>| #[trigger]
            db@.dom().contains(k) && db@[k].expires_at is Some ==> db.ttl().dom().contains(
                (db@[k].expires_at->0, db@[k].id),
            ) && db.ttl()[(db@[k].expires_at->0, db@[k].id)] == k,
        forall|p: (u64, u64)| #[trigger]
            db.ttl().dom().contains(p) ==> db@.dom().contains(db.ttl()[p]) && p == (
                db@[db.ttl()[p]].expires_at->0,
                db@[db.ttl()[p]].id,
            ) && db@[db.ttl()[p]].expires_at == Some(p.0),
{
}

} // verus!
