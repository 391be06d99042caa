//! The session registry: the single serialized owner of the membership
//! directory.
//!
//! The directory maps each key (an opaque byte string) to the set of
//! subscribers currently watching it; every subscriber owns one bounded
//! delivery channel. All mutation happens through [`Registry::apply`], the
//! body of the control loop that serializes every request: registration
//! assigns a fresh id, enters it under its key and broadcasts the new
//! occupancy count to every member of that key; unregistration removes the
//! id, deletes the key once empty and broadcasts the shrunken count to the
//! remaining members. A full delivery channel drops the update for that one
//! subscriber and never stalls the loop.

use vstd::prelude::*;

use crate::channel::offer;
use crate::channel::offer_spec;
use crate::channel::poll;
use crate::channel::CHANNEL_CAPACITY;

verus! {

/// One active registration as the directory records it: the subscriber id,
/// the key it watches, and the send side of its bounded delivery channel.
struct Subscriber {
    id: u64,
    key: Vec<u8>,
    queue: Vec<u64>,
}

/// A capability for one active registration. It is handed out by a
/// successful registration and consumed — by move — by the one legal
/// unregistration, so a registration can be closed at most once.
pub struct Handle {
    id: u64,
    key: Vec<u8>,
}

impl Handle {
    /// The process-unique id this registration was assigned.
    pub closed spec fn spec_id(&self) -> u64 {
        self.id
    }

    /// The key this registration watches.
    pub closed spec fn spec_key(&self) -> Seq<u8> {
        self.key@
    }

    /// The id, for callers outside the crate.
    pub fn id(&self) -> (r: u64)
        ensures
            r == self.spec_id(),
    {
        self.id
    }

    /// The key, for callers outside the crate.
    pub fn key(&self) -> (r: &Vec<u8>)
        ensures
            r@ == self.spec_key(),
    {
        &self.key
    }
}

/// A control-queue message: what the serialized loop is asked to do.
pub enum Request {
    /// Enter a new subscriber under `key`.
    Register { key: Vec<u8> },
    /// Remove the registration the handle stands for; consumes the handle.
    Unregister { handle: Handle },
    /// Close the control loop; later requests are ignored.
    Stop,
}

/// What one control-loop iteration did.
pub enum Applied {
    /// A subscriber was entered; `count` went out to every member of its key.
    Registered { handle: Handle, count: u64 },
    /// A subscriber was removed; `remaining` members stayed under its key.
    Unregistered { remaining: u64 },
    /// The request could not be served: the loop is closed, or the
    /// registration was already gone (a double unregister, logged and
    /// non-fatal in the running system).
    Ignored,
    /// The loop shut down.
    Stopped,
}

/// The membership directory and the state of its control loop.
pub struct Registry {
    subs: Vec<Subscriber>,
    next_id: u64,
    open: bool,
}

// ---------------------------------------------------------------------------
// The mathematical model: who is registered, under which key, with what
// pending updates.
// ---------------------------------------------------------------------------

spec fn chan_in(s: Seq<Subscriber>, id: u64) -> bool {
    exists|i: int| 0 <= i < s.len() && s[i].id == id
}

spec fn idx_in(s: Seq<Subscriber>, id: u64) -> int {
    choose|i: int| 0 <= i < s.len() && s[i].id == id
}

spec fn distinct_ids(s: Seq<Subscriber>) -> bool {
    forall|i: int, j: int| 0 <= i < j < s.len() ==> s[i].id != s[j].id
}

spec fn ids_bounded(s: Seq<Subscriber>, bound: u64) -> bool {
    forall|i: int| 0 <= i < s.len() ==> 1 <= #[trigger] s[i].id && s[i].id <= bound
}

/// How many subscribers of `s` watch key `k`.
spec fn count_key(s: Seq<Subscriber>, k: Seq<u8>) -> nat
    decreases s.len(),
{
    if s.len() == 0 {
        0
    } else {
        count_key(s.drop_last(), k) + if s.last().key@ == k {
            1nat
        } else {
            0nat
        }
    }
}

impl Registry {
    /// Whether the control loop still serves requests.
    pub closed spec fn is_open(&self) -> bool {
        self.open
    }

    /// The most recently assigned subscriber id; ids count up from 1.
    pub closed spec fn last_id(&self) -> u64 {
        self.next_id
    }

    /// Total number of active subscribers, over all keys.
    pub closed spec fn active(&self) -> nat {
        self.subs@.len()
    }

    /// Whether `id` has a delivery channel, i.e. is currently registered.
    pub closed spec fn has_chan(&self, id: u64) -> bool {
        chan_in(self.subs@, id)
    }

    /// The pending updates in `id`'s delivery channel, oldest first.
    pub closed spec fn queue_of(&self, id: u64) -> Seq<u64> {
        self.subs@[idx_in(self.subs@, id)].queue@
    }

    /// The key `id` is registered under.
    pub closed spec fn key_of(&self, id: u64) -> Seq<u8> {
        self.subs@[idx_in(self.subs@, id)].key@
    }

    /// Whether `id` is a member of `key`'s set. A subscriber belongs to
    /// exactly one key, so distinct keys share no members.
    pub open spec fn is_member(&self, key: Seq<u8>, id: u64) -> bool {
        self.has_chan(id) && self.key_of(id) == key
    }

    /// The occupancy count of `key`: how many subscribers watch it.
    pub closed spec fn count_of(&self, key: Seq<u8>) -> nat {
        count_key(self.subs@, key)
    }

    /// Whether the directory holds an entry for `key`. An entry exists
    /// exactly while its member set is non-empty.
    pub open spec fn has_key(&self, key: Seq<u8>) -> bool {
        self.count_of(key) > 0
    }

    /// The directory's invariant: subscriber ids are pairwise distinct and
    /// were all assigned by the registry (between 1 and the last id given
    /// out), so a fresh id never collides.
    pub closed spec fn wf(&self) -> bool {
        distinct_ids(self.subs@) && ids_bounded(self.subs@, self.next_id)
    }
}

// ---------------------------------------------------------------------------
// Lemmas about the model.
// ---------------------------------------------------------------------------

proof fn lemma_idx(s: Seq<Subscriber>, id: u64, i: int)
    requires
        distinct_ids(s),
        0 <= i < s.len(),
        s[i].id == id,
    ensures
        chan_in(s, id),
        idx_in(s, id) == i,
{
    assert(chan_in(s, id));
    let j = idx_in(s, id);
    assert(0 <= j < s.len() && s[j].id == id);
    if i < j {
        assert(s[i].id != s[j].id);
    } else if j < i {
        assert(s[j].id != s[i].id);
    }
}

proof fn lemma_count_le_len(s: Seq<Subscriber>, k: Seq<u8>)
    ensures
        count_key(s, k) <= s.len(),
    decreases s.len(),
{
    if s.len() > 0 {
        lemma_count_le_len(s.drop_last(), k);
    }
}

proof fn lemma_count_take_step(s: Seq<Subscriber>, k: Seq<u8>, i: int)
    requires
        0 <= i < s.len(),
    ensures
        count_key(s.take(i + 1), k) == count_key(s.take(i), k) + if s[i].key@ == k {
            1nat
        } else {
            0nat
        },
{
    assert(s.take(i + 1).drop_last() =~= s.take(i));
    assert(s.take(i + 1).last() == s[i]);
}

proof fn lemma_count_take_all(s: Seq<Subscriber>, k: Seq<u8>)
    ensures
        count_key(s.take(s.len() as int), k) == count_key(s, k),
{
    assert(s.take(s.len() as int) =~= s);
}

proof fn lemma_count_pointwise(s1: Seq<Subscriber>, s2: Seq<Subscriber>, k: Seq<u8>)
    requires
        s1.len() == s2.len(),
        forall|i: int| 0 <= i < s1.len() ==> s1[i].key@ == #[trigger] s2[i].key@,
    ensures
        count_key(s1, k) == count_key(s2, k),
    decreases s1.len(),
{
    if s1.len() > 0 {
        assert forall|i: int|
            0 <= i < s1.drop_last().len() implies s1.drop_last()[i].key@
            == #[trigger] s2.drop_last()[i].key@ by {
            assert(s1.drop_last()[i] == s1[i]);
            assert(s2.drop_last()[i] == s2[i]);
        }
        lemma_count_pointwise(s1.drop_last(), s2.drop_last(), k);
    }
}

proof fn lemma_count_remove(s: Seq<Subscriber>, k: Seq<u8>, i: int)
    requires
        0 <= i < s.len(),
    ensures
        count_key(s, k) == count_key(s.remove(i), k) + if s[i].key@ == k {
            1nat
        } else {
            0nat
        },
    decreases s.len(),
{
    if i == s.len() - 1 {
        assert(s.remove(i) =~= s.drop_last());
    } else {
        assert(s.remove(i).drop_last() =~= s.drop_last().remove(i));
        assert(s.remove(i).last() == s.last());
        lemma_count_remove(s.drop_last(), k, i);
    }
}

// ---------------------------------------------------------------------------
// Executable helpers.
// ---------------------------------------------------------------------------

/// Exact-match equality of two keys, byte for byte.
fn key_eq(a: &Vec<u8>, b: &Vec<u8>) -> (r: bool)
    ensures
        r <==> a@ == b@,
{
    if a.len() != b.len() {
        return false;
    }
    let mut i: usize = 0;
    while i < a.len()
        invariant
            i <= a@.len(),
            a@.len() == b@.len(),
            forall|j: int| 0 <= j < i ==> a@[j] == b@[j],
        decreases a@.len() - i,
    {
        if a[i] != b[i] {
            return false;
        }
        i = i + 1;
    }
    proof {
        assert(a@ =~= b@);
    }
    true
}

/// A private copy of a key, so the directory and a handle can each own one.
fn copy_key(a: &Vec<u8>) -> (r: Vec<u8>)
    ensures
        r@ == a@,
{
    let mut r: Vec<u8> = Vec::new();
    let mut i: usize = 0;
    while i < a.len()
        invariant
            i <= a@.len(),
            r@ == a@.take(i as int),
        decreases a@.len() - i,
    {
        r.push(a[i]);
        proof {
            assert(r@ =~= a@.take(i + 1 as int));
        }
        i = i + 1;
    }
    proof {
        assert(a@.take(a@.len() as int) =~= a@);
    }
    r
}

/// How many subscribers currently watch `key`.
fn count_matching(subs: &Vec<Subscriber>, key: &Vec<u8>) -> (n: usize)
    ensures
        n == count_key(subs@, key@),
{
    let mut n: usize = 0;
    let mut i: usize = 0;
    while i < subs.len()
        invariant
            i <= subs@.len(),
            n <= i,
            n == count_key(subs@.take(i as int), key@),
        decreases subs@.len() - i,
    {
        proof {
            lemma_count_take_step(subs@, key@, i as int);
        }
        if key_eq(&subs[i].key, key) {
            n = n + 1;
        }
        i = i + 1;
    }
    proof {
        lemma_count_take_all(subs@, key@);
    }
    n
}

/// The index of `id`'s channel, if it is registered.
fn find_by_id(subs: &Vec<Subscriber>, id: u64) -> (r: Option<usize>)
    ensures
        match r {
            Some(i) => i < subs@.len() && subs@[i as int].id == id,
            None => !chan_in(subs@, id),
        },
{
    let mut i: usize = 0;
    while i < subs.len()
        invariant
            i <= subs@.len(),
            forall|j: int| 0 <= j < i ==> subs@[j].id != id,
        decreases subs@.len() - i,
    {
        if subs[i].id == id {
            return Some(i);
        }
        i = i + 1;
    }
    None
}

/// One fan-out pass: attempt delivery of `v` to every member of `key`.
/// Each member's channel takes the value if it has room and drops it
/// otherwise; one full channel never affects another member's delivery.
/// Nobody else's channel is touched, and ids and keys stay as they were.
fn fan_out(subs: &mut Vec<Subscriber>, key: &Vec<u8>, v: u64)
    ensures
        final(subs)@.len() == old(subs)@.len(),
        forall|i: int|
            0 <= i < old(subs)@.len() ==> {
                &&& final(subs)@[i].id == old(subs)@[i].id
                &&& final(subs)@[i].key@ == old(subs)@[i].key@
                &&& final(subs)@[i].queue@ == (if old(subs)@[i].key@ == key@ {
                    offer_spec(old(subs)@[i].queue@, v)
                } else {
                    old(subs)@[i].queue@
                })
            },
{
    let mut i: usize = 0;
    while i < subs.len()
        invariant
            i <= subs@.len(),
            subs@.len() == old(subs)@.len(),
            forall|j: int| i <= j < subs@.len() ==> subs@[j] == old(subs)@[j],
            forall|j: int|
                0 <= j < i ==> {
                    &&& subs@[j].id == old(subs)@[j].id
                    &&& subs@[j].key@ == old(subs)@[j].key@
                    &&& subs@[j].queue@ == (if old(subs)@[j].key@ == key@ {
                        offer_spec(old(subs)@[j].queue@, v)
                    } else {
                        old(subs)@[j].queue@
                    })
                },
        decreases subs@.len() - i,
    {
        if key_eq(&subs[i].key, key) {
            offer(&mut subs[i].queue, v);
        }
        i = i + 1;
    }
}

// ---------------------------------------------------------------------------
// What the operations promise, over the model.
// ---------------------------------------------------------------------------

/// Everything a successful registration of `key` guarantees, relating the
/// registry before (`pre`) and after (`post`) and the handle handed out.
///
/// The new subscriber gets the next id, never seen before; the key's count
/// grows by one; the new occupancy count is broadcast to every member of the
/// key — dropped only where a channel is full — and the new member's first
/// pending update is that count. No other key and no other channel changes.
pub open spec fn register_post(pre: Registry, post: Registry, key: Seq<u8>, h: Handle) -> bool {
    let c = (pre.count_of(key) + 1) as u64;
    &&& h.spec_id() == pre.last_id() + 1
    &&& h.spec_key() == key
    &&& !pre.has_chan(h.spec_id())
    &&& post.last_id() == pre.last_id() + 1
    &&& post.is_open() == pre.is_open()
    &&& post.active() == pre.active() + 1
    &&& post.count_of(key) == pre.count_of(key) + 1
    &&& forall|k2: Seq<u8>| k2 != key ==> post.count_of(k2) == pre.count_of(k2)
    &&& forall|id: u64| #[trigger] post.has_chan(id) <==> (pre.has_chan(id) || id == h.spec_id())
    &&& post.is_member(key, h.spec_id())
    &&& post.queue_of(h.spec_id()) == seq![c]
    &&& forall|id: u64| pre.has_chan(id) ==> post.key_of(id) == pre.key_of(id)
    &&& forall|id: u64|
        pre.is_member(key, id) ==> post.queue_of(id) == offer_spec(pre.queue_of(id), c)
    &&& forall|id: u64|
        pre.has_chan(id) && !pre.is_member(key, id) ==> post.queue_of(id) == pre.queue_of(id)
}

impl Registry {
    /// The register arm of the control loop: assign the next id, enter the
    /// subscriber under its key, and broadcast the new occupancy count to
    /// every member of that key.
    fn handle_register(&mut self, key: Vec<u8>) -> (h: Handle)
        requires
            old(self).wf(),
            old(self).is_open(),
            old(self).last_id() < u64::MAX,
        ensures
            final(self).wf(),
            register_post(*old(self), *final(self), key@, h),
    {
        let ghost s0 = self.subs@;
        let id = self.next_id + 1;
        self.next_id = id;
        let key_copy = copy_key(&key);
        self.subs.push(Subscriber { id, key: key_copy, queue: Vec::new() });
        let ghost s1 = self.subs@;
        let count = count_matching(&self.subs, &key);
        proof {
            assert(s1.drop_last() =~= s0);
            assert(count == count_key(s0, key@) + 1);
            lemma_count_le_len(s0, key@);
        }
        let v = count as u64;
        fan_out(&mut self.subs, &key, v);
        let ghost s2 = self.subs@;
        proof {
            let pre = *old(self);
            // Well-formedness: the fresh id collides with nobody.
            assert(forall|i: int| 0 <= i < s0.len() ==> s1[i] == s0[i]);
            assert forall|i: int, j: int| 0 <= i < j < s2.len() implies s2[i].id != s2[j].id by {
                if j < s0.len() {
                    assert(s0[i].id != s0[j].id);
                } else {
                    assert(1 <= s0[i].id && s0[i].id <= pre.last_id());
                }
            }
            assert(ids_bounded(s2, id));
            // Counts: the new subscriber is the only change, and it matches key@.
            lemma_count_pointwise(s2, s1, key@);
            assert(self.count_of(key@) == pre.count_of(key@) + 1);
            assert forall|k2: Seq<u8>| k2 != key@ implies self.count_of(k2) == pre.count_of(k2) by {
                lemma_count_pointwise(s2, s1, k2);
                assert(count_key(s1, k2) == count_key(s0, k2));
            }
            // The new channel holds exactly the broadcast count.
            let n = s0.len() as int;
            lemma_idx(s2, id, n);
            assert(s1[n].queue@ =~= Seq::<u64>::empty());
            assert(self.queue_of(id) =~= seq![v]);
            assert(self.queue_of(id) == seq![v]);
            // Channel-by-channel effect of the fan-out.
            assert forall|id2: u64| pre.has_chan(id2) implies {
                &&& self.has_chan(id2)
                &&& self.key_of(id2) == pre.key_of(id2)
                &&& (pre.is_member(key@, id2) ==> self.queue_of(id2) == offer_spec(
                    pre.queue_of(id2),
                    v,
                ))
                &&& (!pre.is_member(key@, id2) ==> self.queue_of(id2) == pre.queue_of(id2))
            } by {
                let i = idx_in(s0, id2);
                assert(0 <= i < s0.len() && s0[i].id == id2);
                lemma_idx(s0, id2, i);
                lemma_idx(s2, id2, i);
            }
            assert forall|id2: u64| #[trigger] self.has_chan(id2) implies (pre.has_chan(id2)
                || id2 == id) by {
                let i = idx_in(s2, id2);
                assert(0 <= i < s2.len() && s2[i].id == id2);
                if i < s0.len() {
                    lemma_idx(s0, id2, i);
                }
            }
        }
        Handle { id, key }
    }
}

/// The directory did not change: same subscribers, same keys, same pending
/// updates, same id counter.
pub open spec fn same_directory(pre: Registry, post: Registry) -> bool {
    &&& post.last_id() == pre.last_id()
    &&& post.active() == pre.active()
    &&& forall|id: u64| #[trigger] post.has_chan(id) == pre.has_chan(id)
    &&& forall|id: u64|
        pre.has_chan(id) ==> post.queue_of(id) == pre.queue_of(id) && post.key_of(id)
            == pre.key_of(id)
    &&& forall|k: Seq<u8>| #[trigger] post.count_of(k) == pre.count_of(k)
}

/// Everything an unregistration guarantees, relating the registry before
/// (`pre`) and after (`post`). `id` is the subscriber being removed and the
/// key in question is the one the directory recorded for it.
///
/// The subscriber and its channel are gone for good; its key's count shrinks
/// by one; if members remain, each of them is offered the shrunken count —
/// dropped only where a channel is full — and if none remain the key's entry
/// is gone, so the next registration under it restarts the count at 1. No
/// other key and no other channel changes.
pub open spec fn unregister_post(pre: Registry, post: Registry, id: u64, remaining: u64) -> bool {
    let key = pre.key_of(id);
    &&& pre.has_chan(id)
    &&& !post.has_chan(id)
    &&& post.is_open() == pre.is_open()
    &&& post.last_id() == pre.last_id()
    &&& post.active() + 1 == pre.active()
    &&& pre.count_of(key) >= 1
    &&& remaining == pre.count_of(key) - 1
    &&& post.count_of(key) == pre.count_of(key) - 1
    &&& (remaining == 0 ==> !post.has_key(key))
    &&& forall|k2: Seq<u8>| k2 != key ==> post.count_of(k2) == pre.count_of(k2)
    &&& forall|id2: u64| #[trigger] post.has_chan(id2) <==> (pre.has_chan(id2) && id2 != id)
    &&& forall|id2: u64|
        pre.has_chan(id2) && id2 != id ==> post.key_of(id2) == pre.key_of(id2)
    &&& forall|id2: u64|
        pre.is_member(key, id2) && id2 != id ==> post.queue_of(id2) == offer_spec(
            pre.queue_of(id2),
            remaining,
        )
    &&& forall|id2: u64|
        pre.has_chan(id2) && id2 != id && !pre.is_member(key, id2) ==> post.queue_of(id2)
            == pre.queue_of(id2)
}

impl Registry {
    /// The unregister arm of the control loop: remove the subscriber the
    /// handle stands for, delete its key once empty, and broadcast the
    /// shrunken count to the remaining members. An id that is already gone —
    /// a double unregister — is a logged no-op in the running system and
    /// leaves the directory untouched here.
    fn handle_unregister(&mut self, h: Handle) -> (r: Applied)
        requires
            old(self).wf(),
        ensures
            final(self).wf(),
            final(self).is_open() == old(self).is_open(),
            !old(self).has_chan(h.spec_id()) ==> r is Ignored && same_directory(
                *old(self),
                *final(self),
            ),
            old(self).has_chan(h.spec_id()) ==> (r matches Applied::Unregistered { remaining }
                && unregister_post(*old(self), *final(self), h.spec_id(), remaining)),
    {
        let ghost pre = *old(self);
        let ghost s0 = self.subs@;
        match find_by_id(&self.subs, h.id) {
            None => Applied::Ignored,
            Some(i) => {
                let sub = self.subs.remove(i);
                let ghost s1 = self.subs@;
                proof {
                    lemma_idx(s0, h.id, i as int);
                    // Where each surviving subscriber sits after the removal.
                    assert(forall|j: int| 0 <= j < i ==> s1[j] == s0[j]);
                    assert(forall|j: int| i <= j < s1.len() ==> s1[j] == s0[j + 1]);
                    assert forall|a: int, b: int| 0 <= a < b < s1.len() implies s1[a].id
                        != s1[b].id by {
                        let a0: int = if a < i { a } else { a + 1 };
                        let b0: int = if b < i { b } else { b + 1 };
                        assert(s0[a0].id != s0[b0].id);
                    }
                    assert forall|j: int| 0 <= j < s1.len() implies 1 <= #[trigger] s1[j].id
                        && s1[j].id <= pre.last_id() by {
                        let j0: int = if j < i { j } else { j + 1 };
                        assert(1 <= s0[j0].id && s0[j0].id <= pre.last_id());
                    }
                    lemma_count_remove(s0, sub.key@, i as int);
                    lemma_count_le_len(s1, sub.key@);
                }
                let remaining = count_matching(&self.subs, &sub.key);
                let v = remaining as u64;
                if remaining > 0 {
                    fan_out(&mut self.subs, &sub.key, v);
                }
                let ghost s2 = self.subs@;
                proof {
                    let id = h.id;
                    let key = pre.key_of(id);
                    assert(key == sub.key@);
                    if remaining == 0 {
                        assert(s2 == s1);
                        assert(forall|j: int|
                            0 <= j < s1.len() ==> s2[j].id == s1[j].id && s2[j].key@ == s1[j].key@
                                && s2[j].queue@ == s1[j].queue@);
                    }
                    // Counts after removal and fan-out.
                    lemma_count_pointwise(s2, s1, key);
                    assert(self.count_of(key) == pre.count_of(key) - 1);
                    assert forall|k2: Seq<u8>| k2 != key implies self.count_of(k2)
                        == pre.count_of(k2) by {
                        lemma_count_pointwise(s2, s1, k2);
                        lemma_count_remove(s0, k2, i as int);
                    }
                    // The removed id is gone from the directory.
                    assert forall|j: int| 0 <= j < s2.len() implies s2[j].id != id by {
                        let j0: int = if j < i { j } else { j + 1 };
                        assert(s1[j].id == s0[j0].id);
                        if j0 < i {
                            assert(s0[j0].id != s0[i as int].id);
                        } else {
                            assert(s0[i as int].id != s0[j0].id);
                        }
                    }
                    assert(!self.has_chan(id));
                    // Channel-by-channel effect for everyone else.
                    assert forall|id2: u64| pre.has_chan(id2) && id2 != id implies {
                        &&& self.has_chan(id2)
                        &&& self.key_of(id2) == pre.key_of(id2)
                        &&& (pre.is_member(key, id2) ==> self.queue_of(id2) == offer_spec(
                            pre.queue_of(id2),
                            v,
                        ))
                        &&& (!pre.is_member(key, id2) ==> self.queue_of(id2) == pre.queue_of(id2))
                    } by {
                        let j0 = idx_in(s0, id2);
                        assert(0 <= j0 < s0.len() && s0[j0].id == id2);
                        lemma_idx(s0, id2, j0);
                        assert(j0 != i);
                        let j1: int = if j0 < i {
                            j0
                        } else {
                            j0 - 1
                        };
                        assert(s1[j1] == s0[j0]);
                        lemma_idx(s2, id2, j1);
                        if pre.is_member(key, id2) && remaining == 0 {
                            // Impossible: this member would still be counted.
                            lemma_count_remove(s1, key, j1);
                        }
                    }
                    assert forall|id2: u64| #[trigger] self.has_chan(id2) implies (pre.has_chan(
                        id2,
                    ) && id2 != id) by {
                        let j1 = idx_in(s2, id2);
                        assert(0 <= j1 < s2.len() && s2[j1].id == id2);
                        let j0: int = if j1 < i {
                            j1
                        } else {
                            j1 + 1
                        };
                        lemma_idx(s0, id2, j0);
                    }
                }
                Applied::Unregistered { remaining: v }
            },
        }
    }
}

impl Registry {
    /// A fresh registry: open for requests, no subscribers, no keys, and no
    /// id handed out yet.
    pub fn new() -> (r: Registry)
        ensures
            r.wf(),
            r.is_open(),
            r.last_id() == 0,
            r.active() == 0,
            forall|id: u64| !r.has_chan(id),
            forall|k: Seq<u8>| #[trigger] r.count_of(k) == 0 && !r.has_key(k),
    {
        Registry { subs: Vec::new(), next_id: 0, open: true }
    }

    /// One iteration of the control loop: serve a single request. Requests
    /// may race to enter the control queue, but they pass through here one
    /// at a time, which is what makes id assignment and count recomputation
    /// atomic without locks. A closed loop ignores every request.
    pub fn apply(&mut self, req: Request) -> (r: Applied)
        requires
            old(self).wf(),
            req is Register ==> old(self).last_id() < u64::MAX,
        ensures
            final(self).wf(),
            !old(self).is_open() ==> r is Ignored && !final(self).is_open() && same_directory(
                *old(self),
                *final(self),
            ),
            old(self).is_open() ==> match req {
                Request::Register { key } => {
                    &&& r matches Applied::Registered { handle, count }
                    &&& register_post(*old(self), *final(self), key@, handle)
                    &&& count == old(self).count_of(key@) + 1
                },
                Request::Unregister { handle } => {
                    &&& final(self).is_open()
                    &&& (old(self).has_chan(handle.spec_id()) ==> (r matches
                        Applied::Unregistered { remaining } && unregister_post(
                        *old(self),
                        *final(self),
                        handle.spec_id(),
                        remaining,
                    )))
                    &&& (!old(self).has_chan(handle.spec_id()) ==> r is Ignored
                        && same_directory(*old(self), *final(self)))
                },
                Request::Stop => {
                    &&& r is Stopped
                    &&& !final(self).is_open()
                    &&& same_directory(*old(self), *final(self))
                },
            },
    {
        if !self.open {
            return Applied::Ignored;
        }
        match req {
            Request::Register { key } => {
                let ghost k = key@;
                let handle = self.handle_register(key);
                let count = count_matching(&self.subs, &handle.key);
                proof {
                    assert(count == self.count_of(k));
                }
                Applied::Registered { handle, count: count as u64 }
            },
            Request::Unregister { handle } => self.handle_unregister(handle),
            Request::Stop => {
                self.open = false;
                Applied::Stopped
            },
        }
    }

    /// Register a new subscriber under `key`: the caller's side of the
    /// register request. Returns the capability for the new registration, or
    /// nothing when the control loop is closed — the caller never joined the
    /// directory then.
    pub fn register(&mut self, key: Vec<u8>) -> (r: Option<Handle>)
        requires
            old(self).wf(),
            old(self).last_id() < u64::MAX,
        ensures
            final(self).wf(),
            !old(self).is_open() ==> r is None && !final(self).is_open() && same_directory(
                *old(self),
                *final(self),
            ),
            old(self).is_open() ==> (r matches Some(h) && register_post(
                *old(self),
                *final(self),
                key@,
                h,
            )),
    {
        match self.apply(Request::Register { key }) {
            Applied::Registered { handle, count: _ } => Some(handle),
            _ => None,
        }
    }

    /// Close the control loop. Administrative and test use only: handles
    /// that are still open become permanently stalled, acceptable only at
    /// process teardown. The directory itself is left as it was.
    pub fn stop(&mut self)
        requires
            old(self).wf(),
        ensures
            final(self).wf(),
            !final(self).is_open(),
            same_directory(*old(self), *final(self)),
    {
        let _ = self.apply(Request::Stop);
    }

    /// The ids of every current member of `key`, each exactly once: the
    /// fan-out targets of the next broadcast under that key.
    pub fn members(&self, key: &Vec<u8>) -> (ids: Vec<u64>)
        requires
            self.wf(),
        ensures
            ids@.len() == self.count_of(key@),
            forall|j: int| 0 <= j < ids@.len() ==> self.is_member(key@, #[trigger] ids@[j]),
            forall|id: u64| self.is_member(key@, id) ==> ids@.contains(id),
            forall|j1: int, j2: int| 0 <= j1 < j2 < ids@.len() ==> ids@[j1] != ids@[j2],
    {
        let ghost s = self.subs@;
        let mut ids: Vec<u64> = Vec::new();
        let mut i: usize = 0;
        while i < self.subs.len()
            invariant
                self.wf(),
                s == self.subs@,
                i <= s.len(),
                ids@.len() == count_key(s.take(i as int), key@),
                forall|j: int|
                    0 <= j < ids@.len() ==> exists|i0: int|
                        0 <= i0 < i && s[i0].id == #[trigger] ids@[j] && s[i0].key@ == key@,
                forall|i0: int|
                    0 <= i0 < i && s[i0].key@ == key@ ==> ids@.contains(#[trigger] s[i0].id),
                forall|j1: int, j2: int| 0 <= j1 < j2 < ids@.len() ==> ids@[j1] != ids@[j2],
            decreases s.len() - i,
        {
            proof {
                lemma_count_take_step(s, key@, i as int);
            }
            let ghost ids0 = ids@;
            if key_eq(&self.subs[i].key, key) {
                proof {
                    assert forall|j: int| 0 <= j < ids@.len() implies ids@[j] != s[i as int].id by {
                        let i0 = choose|i0: int|
                            0 <= i0 < i && s[i0].id == ids@[j] && s[i0].key@ == key@;
                        assert(s[i0].id != s[i as int].id);
                    }
                }
                ids.push(self.subs[i].id);
            }
            proof {
                assert forall|i0: int|
                    0 <= i0 < i + 1 && s[i0].key@ == key@ implies ids@.contains(
                    #[trigger] s[i0].id,
                ) by {
                    if i0 < i {
                        assert(ids0.contains(s[i0].id));
                        let j = choose|j: int| 0 <= j < ids0.len() && ids0[j] == s[i0].id;
                        assert(ids@[j] == s[i0].id);
                    } else {
                        assert(ids@[ids@.len() - 1] == s[i as int].id);
                    }
                }
            }
            i = i + 1;
        }
        proof {
            lemma_count_take_all(s, key@);
            assert forall|j: int| 0 <= j < ids@.len() implies self.is_member(
                key@,
                ids@[j],
            ) by {
                let i0 = choose|i0: int|
                    0 <= i0 < s.len() && s[i0].id == ids@[j] && s[i0].key@ == key@;
                lemma_idx(s, ids@[j], i0);
            }
            assert forall|id: u64| self.is_member(key@, id) implies ids@.contains(id) by {
                let i0 = idx_in(s, id);
                assert(0 <= i0 < s.len() && s[i0].id == id);
                assert(s[i0].key@ == key@);
            }
        }
        ids
    }

    /// The gauge the metrics sink exposes: how many subscribers are active
    /// in total, over all keys.
    pub fn total_active(&self) -> (n: usize)
        ensures
            n == self.active(),
    {
        self.subs.len()
    }

    /// The most recently assigned id, so a caller can see whether the id
    /// space — deliberately never recycled — still has room.
    pub fn last_assigned(&self) -> (n: u64)
        ensures
            n == self.last_id(),
    {
        self.next_id
    }
}

/// The directory changed only in `id`'s channel, which lost its oldest
/// pending update; everything else is as it was.
pub open spec fn popped_post(pre: Registry, post: Registry, id: u64) -> bool {
    &&& post.is_open() == pre.is_open()
    &&& post.last_id() == pre.last_id()
    &&& post.active() == pre.active()
    &&& forall|id2: u64| #[trigger] post.has_chan(id2) == pre.has_chan(id2)
    &&& forall|id2: u64| pre.has_chan(id2) ==> post.key_of(id2) == pre.key_of(id2)
    &&& forall|id2: u64|
        pre.has_chan(id2) && id2 != id ==> post.queue_of(id2) == pre.queue_of(id2)
    &&& pre.has_chan(id) ==> post.queue_of(id) == pre.queue_of(id).remove(0)
    &&& forall|k: Seq<u8>| #[trigger] post.count_of(k) == pre.count_of(k)
}

impl Handle {
    /// Receive the next occupancy count pending for this registration: the
    /// session's side of its delivery channel. Nothing pending — or a
    /// registration the directory no longer knows — yields nothing and
    /// leaves everything unchanged.
    pub fn next(&self, reg: &mut Registry) -> (r: Option<u64>)
        requires
            old(reg).wf(),
        ensures
            final(reg).wf(),
            final(reg).is_open() == old(reg).is_open(),
            !old(reg).has_chan(self.spec_id()) ==> r is None && same_directory(
                *old(reg),
                *final(reg),
            ),
            old(reg).has_chan(self.spec_id()) && old(reg).queue_of(self.spec_id()).len() == 0
                ==> r is None && same_directory(*old(reg), *final(reg)),
            old(reg).has_chan(self.spec_id()) && old(reg).queue_of(self.spec_id()).len() > 0 ==> r
                == Some(old(reg).queue_of(self.spec_id())[0]) && popped_post(
                *old(reg),
                *final(reg),
                self.spec_id(),
            ),
    {
        let ghost pre = *old(reg);
        let ghost s0 = reg.subs@;
        match find_by_id(&reg.subs, self.id) {
            None => None,
            Some(i) => {
                proof {
                    lemma_idx(s0, self.id, i as int);
                }
                let r = poll(&mut reg.subs[i].queue);
                let ghost s2 = reg.subs@;
                proof {
                    assert(s2.len() == s0.len());
                    assert(forall|j: int| 0 <= j < s0.len() && j != i ==> s2[j] == s0[j]);
                    assert(s2[i as int].id == s0[i as int].id);
                    assert(s2[i as int].key@ == s0[i as int].key@);
                    assert forall|a: int, b: int| 0 <= a < b < s2.len() implies s2[a].id
                        != s2[b].id by {
                        assert(s0[a].id != s0[b].id);
                    }
                    assert forall|j: int| 0 <= j < s2.len() implies 1 <= #[trigger] s2[j].id
                        && s2[j].id <= pre.last_id() by {
                        assert(1 <= s0[j].id && s0[j].id <= pre.last_id());
                    }
                    assert forall|k: Seq<u8>| true implies #[trigger] reg.count_of(k)
                        == pre.count_of(k) by {
                        lemma_count_pointwise(s2, s0, k);
                    }
                    assert forall|id2: u64| pre.has_chan(id2) implies {
                        &&& reg.has_chan(id2)
                        &&& reg.key_of(id2) == pre.key_of(id2)
                        &&& (id2 != self.id ==> reg.queue_of(id2) == pre.queue_of(id2))
                    } by {
                        let j = idx_in(s0, id2);
                        assert(0 <= j < s0.len() && s0[j].id == id2);
                        lemma_idx(s0, id2, j);
                        lemma_idx(s2, id2, j);
                    }
                    assert forall|id2: u64| #[trigger] reg.has_chan(id2) implies pre.has_chan(
                        id2,
                    ) by {
                        let j = idx_in(s2, id2);
                        assert(0 <= j < s2.len() && s2[j].id == id2);
                        lemma_idx(s0, id2, j);
                    }
                    lemma_idx(s2, self.id, i as int);
                    assert(pre.queue_of(self.id) == s0[i as int].queue@);
                    assert(reg.queue_of(self.id) == s2[i as int].queue@);
                    if pre.queue_of(self.id).len() == 0 {
                        assert(reg.queue_of(self.id) == pre.queue_of(self.id));
                    } else {
                        assert(reg.queue_of(self.id) == pre.queue_of(self.id).remove(0));
                    }
                }
                r
            },
        }
    }

    /// Consume this registration: the one legal unregistration path, taken
    /// on every exit from a session — close frame, timeout, send failure or
    /// transport error alike — so the registry never leaks a stale
    /// subscriber. Ownership makes a second close impossible. When the
    /// control loop is already closed the request is never served and the
    /// directory keeps the stale entry, acceptable only at teardown.
    pub fn close(self, reg: &mut Registry)
        requires
            old(reg).wf(),
        ensures
            final(reg).wf(),
            final(reg).is_open() == old(reg).is_open(),
            !old(reg).is_open() ==> same_directory(*old(reg), *final(reg)),
            old(reg).is_open() && !old(reg).has_chan(self.spec_id()) ==> same_directory(
                *old(reg),
                *final(reg),
            ),
            old(reg).is_open() && old(reg).has_chan(self.spec_id()) ==> unregister_post(
                *old(reg),
                *final(reg),
                self.spec_id(),
                (old(reg).count_of(old(reg).key_of(self.spec_id())) - 1) as u64,
            ),
    {
        let _ = reg.apply(Request::Unregister { handle: self });
    }
}

// ---------------------------------------------------------------------------
// Laws of the registry.
// ---------------------------------------------------------------------------

/// A subscriber without a delivery channel is a member of no key at all, so
/// once a registration is closed no fan-out pass can target it again.
pub proof fn lemma_closed_never_targeted(r: Registry, id: u64)
    requires
        !r.has_chan(id),
    ensures
        forall|k: Seq<u8>| !r.is_member(k, id),
{
}

/// Registrations hand out strictly increasing ids: an id is never reused,
/// whatever keys the registrations were for.
pub proof fn lemma_ids_never_reused(
    r0: Registry,
    r1: Registry,
    r2: Registry,
    k1: Seq<u8>,
    k2: Seq<u8>,
    h1: Handle,
    h2: Handle,
)
    requires
        register_post(r0, r1, k1, h1),
        register_post(r1, r2, k2, h2),
    ensures
        h2.spec_id() > h1.spec_id(),
{
}

/// After a registration under `key`, every member of that key whose channel
/// had room — the new member always has room — holds the new occupancy
/// count as its most recent pending update.
pub proof fn lemma_register_broadcast(
    pre: Registry,
    post: Registry,
    key: Seq<u8>,
    h: Handle,
    id: u64,
)
    requires
        register_post(pre, post, key, h),
        id == h.spec_id() || (pre.is_member(key, id) && pre.queue_of(id).len()
            < CHANNEL_CAPACITY),
    ensures
        post.queue_of(id).len() > 0,
        post.queue_of(id).last() == (pre.count_of(key) + 1) as u64,
{
    if id == h.spec_id() {
        assert(post.queue_of(id) == seq![(pre.count_of(key) + 1) as u64]);
    }
}

/// After an unregistration, every remaining member of the key whose channel
/// had room holds the shrunken count as its most recent pending update.
pub proof fn lemma_unregister_broadcast(
    pre: Registry,
    post: Registry,
    id: u64,
    remaining: u64,
    id2: u64,
)
    requires
        unregister_post(pre, post, id, remaining),
        id2 != id,
        pre.is_member(pre.key_of(id), id2),
        pre.queue_of(id2).len() < CHANNEL_CAPACITY,
    ensures
        post.queue_of(id2).len() > 0,
        post.queue_of(id2).last() == remaining,
{
}

/// Distinct keys never observe each other's membership changes: a
/// registration under one key leaves every other key's count, membership
/// and pending updates exactly as they were.
pub proof fn lemma_register_isolates(
    pre: Registry,
    post: Registry,
    key: Seq<u8>,
    h: Handle,
    k2: Seq<u8>,
    id: u64,
)
    requires
        register_post(pre, post, key, h),
        k2 != key,
        pre.is_member(k2, id),
    ensures
        post.count_of(k2) == pre.count_of(k2),
        post.is_member(k2, id),
        post.queue_of(id) == pre.queue_of(id),
{
}

/// The unregistration counterpart: removing a member of one key leaves
/// every other key's count, membership and pending updates untouched.
pub proof fn lemma_unregister_isolates(
    pre: Registry,
    post: Registry,
    id: u64,
    remaining: u64,
    k2: Seq<u8>,
    id2: u64,
)
    requires
        unregister_post(pre, post, id, remaining),
        k2 != pre.key_of(id),
        pre.is_member(k2, id2),
    ensures
        post.count_of(k2) == pre.count_of(k2),
        post.is_member(k2, id2),
        post.queue_of(id2) == pre.queue_of(id2),
{
    assert(id2 != id);
}

/// Unregistering the last member of a key deletes the key's entry, so the
/// next registration under it restarts the count at 1 and is told so.
pub proof fn lemma_count_restarts(pre: Registry, post: Registry, key: Seq<u8>, h: Handle)
    requires
        !pre.has_key(key),
        register_post(pre, post, key, h),
    ensures
        post.count_of(key) == 1,
        post.queue_of(h.spec_id()) == seq![1u64],
{
}

/// One saturated delivery channel drops its own update only: in the same
/// fan-out pass, every other member with room still receives the new count.
pub proof fn lemma_saturation_isolated(
    pre: Registry,
    post: Registry,
    key: Seq<u8>,
    h: Handle,
    full_id: u64,
    other_id: u64,
)
    requires
        register_post(pre, post, key, h),
        pre.is_member(key, full_id),
        pre.queue_of(full_id).len() >= CHANNEL_CAPACITY,
        pre.is_member(key, other_id),
        other_id != full_id,
        pre.queue_of(other_id).len() < CHANNEL_CAPACITY,
    ensures
        post.queue_of(full_id) == pre.queue_of(full_id),
        post.queue_of(other_id) == pre.queue_of(other_id).push((pre.count_of(key) + 1) as u64),
{
}

} // verus!
