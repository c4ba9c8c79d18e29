//! The room registry and fanout engine.
//!
//! The registry maps room names to active rooms. A room exists exactly while
//! it has at least one live subscriber: it is created when the first
//! subscriber arrives and removed when the last one leaves. Each subscriber
//! owns an independent bounded mailbox; publishing to a room appends the
//! payload to every subscriber's mailbox, dropping that mailbox's oldest
//! undelivered payload when it is full, so one slow consumer never blocks or
//! loses messages for another. Publishing to an absent room is a silent
//! drop: it never creates the room and never fails.
//!
//! The registry itself is single-threaded state; callers that share it across
//! tasks guard it with one exclusive lock, held only for these map
//! operations.

use vstd::prelude::*;

use crate::text::str_eq;

verus! {

/// One live subscription: its handle id and its mailbox of pending
/// payloads, oldest first.
pub struct Subscriber {
    pub id: u64,
    pub queue: Vec<String>,
}

/// The state of one active room: its name and one mailbox per live
/// subscriber. The subscriber count of the room is the number of mailboxes.
pub struct ChannelInfo {
    pub name: String,
    pub subscribers: Vec<Subscriber>,
}

/// What a subscriber holds after `subscribe`: the key under which its
/// mailbox is found. Obtained at subscribe time, released by `unsubscribe`.
pub struct SubscriberHandle {
    pub room: String,
    pub id: u64,
}

/// The room registry: every active room, a counter for fresh handle ids,
/// and the per-mailbox capacity (drop-oldest on overflow).
pub struct Registry {
    rooms: Vec<ChannelInfo>,
    next_id: u64,
    capacity: usize,
}

// ---------------------------------------------------------------------------
// Mathematical model
// ---------------------------------------------------------------------------

#[verifier::ext_equal]
pub ghost struct SubView {
    pub id: nat,
    pub queue: Seq<Seq<char>>,
}

#[verifier::ext_equal]
pub ghost struct RoomView {
    pub name: Seq<char>,
    pub subs: Seq<SubView>,
}

#[verifier::ext_equal]
pub ghost struct RegistryView {
    pub rooms: Seq<RoomView>,
    pub next_id: nat,
    pub capacity: nat,
}

#[verifier::ext_equal]
pub ghost struct HandleView {
    pub room: Seq<char>,
    pub id: nat,
}

impl View for Subscriber {
    type V = SubView;

    open spec fn view(&self) -> SubView {
        SubView { id: self.id as nat, queue: self.queue.deep_view() }
    }
}

impl View for ChannelInfo {
    type V = RoomView;

    open spec fn view(&self) -> RoomView {
        RoomView { name: self.name@, subs: self.subscribers@.map_values(|s: Subscriber| s@) }
    }
}

impl View for Registry {
    type V = RegistryView;

    closed spec fn view(&self) -> RegistryView {
        RegistryView {
            rooms: self.rooms@.map_values(|r: ChannelInfo| r@),
            next_id: self.next_id as nat,
            capacity: self.capacity as nat,
        }
    }
}

impl View for SubscriberHandle {
    type V = HandleView;

    open spec fn view(&self) -> HandleView {
        HandleView { room: self.room@, id: self.id as nat }
    }
}

/// A mailbox after one more payload: append, dropping the oldest entry when
/// the mailbox is already at capacity.
pub open spec fn push_bounded(q: Seq<Seq<char>>, p: Seq<char>, cap: nat) -> Seq<Seq<char>> {
    if q.len() < cap {
        q.push(p)
    } else {
        q.drop_first().push(p)
    }
}

impl RoomView {
    pub open spec fn has_sub_at(self, id: nat, k: int) -> bool {
        0 <= k < self.subs.len() && self.subs[k].id == id
    }

    pub open spec fn has_sub(self, id: nat) -> bool {
        exists|k: int| self.has_sub_at(id, k)
    }

    pub open spec fn sub_index(self, id: nat) -> int {
        choose|k: int| self.has_sub_at(id, k)
    }

    pub open spec fn ids_distinct(self) -> bool {
        forall|k1: int, k2: int|
            0 <= k1 < k2 < self.subs.len() ==> (#[trigger] self.subs[k1]).id != (
            #[trigger] self.subs[k2]).id
    }

    pub open spec fn ids_below(self, next_id: nat) -> bool {
        forall|k: int| 0 <= k < self.subs.len() ==> (#[trigger] self.subs[k]).id < next_id
    }

    pub open spec fn queues_bounded(self, cap: nat) -> bool {
        forall|k: int| 0 <= k < self.subs.len() ==> (#[trigger] self.subs[k]).queue.len() <= cap
    }

    pub open spec fn wf(self, cap: nat, next_id: nat) -> bool {
        &&& self.subs.len() > 0
        &&& self.ids_distinct()
        &&& self.ids_below(next_id)
        &&& self.queues_bounded(cap)
    }
}

impl RegistryView {
    pub open spec fn has_room_at(self, name: Seq<char>, i: int) -> bool {
        0 <= i < self.rooms.len() && self.rooms[i].name == name
    }

    pub open spec fn has_room(self, name: Seq<char>) -> bool {
        exists|i: int| self.has_room_at(name, i)
    }

    pub open spec fn room_index(self, name: Seq<char>) -> int {
        choose|i: int| self.has_room_at(name, i)
    }

    /// The live subscriber count of a room; 0 for a room that does not exist.
    pub open spec fn count_of(self, name: Seq<char>) -> nat {
        if self.has_room(name) {
            self.rooms[self.room_index(name)].subs.len()
        } else {
            0
        }
    }

    pub open spec fn names_distinct(self) -> bool {
        forall|i: int, j: int|
            0 <= i < j < self.rooms.len() ==> (#[trigger] self.rooms[i]).name != (
            #[trigger] self.rooms[j]).name
    }

    /// The registry invariant: at most one room per name, every room has at
    /// least one subscriber (a room exists iff its count is positive),
    /// handle ids are unique and below the id counter, and no mailbox
    /// exceeds the capacity.
    pub open spec fn wf(self) -> bool {
        &&& self.capacity >= 1
        &&& self.names_distinct()
        &&& forall|i: int|
            0 <= i < self.rooms.len() ==> (#[trigger] self.rooms[i]).wf(
                self.capacity,
                self.next_id,
            )
    }

    /// One subscription: join the room under this name, creating it with a
    /// fresh fanout state when it does not exist, and hand out a fresh
    /// handle id with an empty mailbox.
    pub open spec fn subscribe(self, name: Seq<char>) -> RegistryView {
        let sub = SubView { id: self.next_id, queue: Seq::empty() };
        if self.has_room(name) {
            let i = self.room_index(name);
            RegistryView {
                rooms: self.rooms.update(
                    i,
                    RoomView { name: self.rooms[i].name, subs: self.rooms[i].subs.push(sub) },
                ),
                next_id: self.next_id + 1,
                capacity: self.capacity,
            }
        } else {
            RegistryView {
                rooms: self.rooms.push(RoomView { name: name, subs: seq![sub] }),
                next_id: self.next_id + 1,
                capacity: self.capacity,
            }
        }
    }

    /// Release one subscription. Removing the last subscriber removes the
    /// room. A name or id that is not present makes this a no-op.
    pub open spec fn unsubscribe(self, name: Seq<char>, id: nat) -> RegistryView {
        if self.has_room(name) {
            let i = self.room_index(name);
            let room = self.rooms[i];
            if room.has_sub(id) {
                if room.subs.len() == 1 {
                    RegistryView {
                        rooms: self.rooms.remove(i),
                        next_id: self.next_id,
                        capacity: self.capacity,
                    }
                } else {
                    RegistryView {
                        rooms: self.rooms.update(
                            i,
                            RoomView { name: room.name, subs: room.subs.remove(room.sub_index(id)) },
                        ),
                        next_id: self.next_id,
                        capacity: self.capacity,
                    }
                }
            } else {
                self
            }
        } else {
            self
        }
    }

    /// Deliver a payload to every subscriber of the room; a payload for an
    /// absent room is dropped without creating anything.
    pub open spec fn publish(self, name: Seq<char>, payload: Seq<char>) -> RegistryView {
        if self.has_room(name) {
            let i = self.room_index(name);
            let room = self.rooms[i];
            RegistryView {
                rooms: self.rooms.update(
                    i,
                    RoomView {
                        name: room.name,
                        subs: room.subs.map_values(
                            |s: SubView| SubView {
                                id: s.id,
                                queue: push_bounded(s.queue, payload, self.capacity),
                            },
                        ),
                    },
                ),
                next_id: self.next_id,
                capacity: self.capacity,
            }
        } else {
            self
        }
    }

    /// What one receive on a handle returns: the oldest pending payload of
    /// that mailbox, if any.
    pub open spec fn recv_result(self, name: Seq<char>, id: nat) -> Option<Seq<char>> {
        if self.has_room(name) {
            let room = self.rooms[self.room_index(name)];
            if room.has_sub(id) && room.subs[room.sub_index(id)].queue.len() > 0 {
                Some(room.subs[room.sub_index(id)].queue[0])
            } else {
                None
            }
        } else {
            None
        }
    }

    /// The registry after one receive on a handle: the delivered payload
    /// leaves that mailbox; everything else is untouched.
    pub open spec fn recv(self, name: Seq<char>, id: nat) -> RegistryView {
        if self.recv_result(name, id) is Some {
            let i = self.room_index(name);
            let room = self.rooms[i];
            let k = room.sub_index(id);
            RegistryView {
                rooms: self.rooms.update(
                    i,
                    RoomView {
                        name: room.name,
                        subs: room.subs.update(
                            k,
                            SubView { id: id, queue: room.subs[k].queue.drop_first() },
                        ),
                    },
                ),
                next_id: self.next_id,
                capacity: self.capacity,
            }
        } else {
            self
        }
    }
}

/// The room index found by `room_index` is the one and only index of the
/// name, under the registry invariant.
pub proof fn lemma_room_index_unique(v: RegistryView, name: Seq<char>)
    requires
        v.wf(),
        v.has_room(name),
    ensures
        v.has_room_at(name, v.room_index(name)),
        forall|i: int| v.has_room_at(name, i) ==> i == v.room_index(name),
{
    let w = v.room_index(name);
    assert(v.has_room_at(name, w));
    assert forall|i: int| v.has_room_at(name, i) implies i == w by {
        if i < w {
            assert(v.rooms[i].name != v.rooms[w].name);
        } else if w < i {
            assert(v.rooms[w].name != v.rooms[i].name);
        }
    }
}

/// The subscriber index found by `sub_index` is the one and only index of
/// the id, when the room's ids are distinct.
pub proof fn lemma_sub_index_unique(room: RoomView, id: nat)
    requires
        room.ids_distinct(),
        room.has_sub(id),
    ensures
        room.has_sub_at(id, room.sub_index(id)),
        forall|k: int| room.has_sub_at(id, k) ==> k == room.sub_index(id),
{
    let w = room.sub_index(id);
    assert(room.has_sub_at(id, w));
    assert forall|k: int| room.has_sub_at(id, k) implies k == w by {
        if k < w {
            assert(room.subs[k].id != room.subs[w].id);
        } else if w < k {
            assert(room.subs[w].id != room.subs[k].id);
        }
    }
}

/// A well-formed room stays well-formed when the id bound grows.
pub proof fn lemma_room_wf_mono(room: RoomView, cap: nat, n1: nat, n2: nat)
    requires
        room.wf(cap, n1),
        n1 <= n2,
    ensures
        room.wf(cap, n2),
{
}

/// A name that no room carries, as a pointwise fact.
pub proof fn lemma_absent_room(v: RegistryView, name: Seq<char>)
    requires
        !v.has_room(name),
    ensures
        forall|j: int| 0 <= j < v.rooms.len() ==> (#[trigger] v.rooms[j]).name != name,
{
    assert forall|j: int| 0 <= j < v.rooms.len() implies (#[trigger] v.rooms[j]).name != name by {
        if v.rooms[j].name == name {
            assert(v.has_room_at(name, j));
        }
    }
}

/// `subscribe` preserves the registry invariant.
pub proof fn lemma_subscribe_preserves_wf(v: RegistryView, name: Seq<char>)
    requires
        v.wf(),
    ensures
        v.subscribe(name).wf(),
{
    let r = v.subscribe(name);
    let sub = SubView { id: v.next_id, queue: Seq::empty() };
    if v.has_room(name) {
        lemma_room_index_unique(v, name);
        let i = v.room_index(name);
        assert forall|a: int| 0 <= a < r.rooms.len() implies (#[trigger] r.rooms[a]).wf(
            r.capacity,
            r.next_id,
        ) by {
            assert(v.rooms[a].wf(v.capacity, v.next_id));
            if a == i {
                let old_room = v.rooms[i];
                let new_room = r.rooms[i];
                assert(new_room.subs == old_room.subs.push(sub));
                assert forall|k1: int, k2: int|
                    0 <= k1 < k2 < new_room.subs.len() implies (#[trigger] new_room.subs[k1]).id
                    != (#[trigger] new_room.subs[k2]).id by {
                    if k2 < old_room.subs.len() {
                        assert(old_room.subs[k1].id != old_room.subs[k2].id);
                    } else {
                        assert(old_room.subs[k1].id < v.next_id);
                    }
                }
            } else {
                lemma_room_wf_mono(v.rooms[a], v.capacity, v.next_id, r.next_id);
            }
        }
    } else {
        lemma_absent_room(v, name);
        assert forall|a: int| 0 <= a < r.rooms.len() implies (#[trigger] r.rooms[a]).wf(
            r.capacity,
            r.next_id,
        ) by {
            if a < v.rooms.len() {
                assert(v.rooms[a].wf(v.capacity, v.next_id));
                lemma_room_wf_mono(v.rooms[a], v.capacity, v.next_id, r.next_id);
            } else {
                let new_room = r.rooms[a];
                assert(new_room.subs == seq![sub]);
                assert(new_room.subs.len() == 1);
            }
        }
    }
}

/// `unsubscribe` preserves the registry invariant.
pub proof fn lemma_unsubscribe_preserves_wf(v: RegistryView, name: Seq<char>, id: nat)
    requires
        v.wf(),
    ensures
        v.unsubscribe(name, id).wf(),
{
    let r = v.unsubscribe(name, id);
    if v.has_room(name) {
        lemma_room_index_unique(v, name);
        let i = v.room_index(name);
        let room = v.rooms[i];
        if room.has_sub(id) {
            lemma_sub_index_unique(room, id);
            let k = room.sub_index(id);
            if room.subs.len() == 1 {
                assert forall|a: int, b: int| 0 <= a < b < r.rooms.len() implies (
                #[trigger] r.rooms[a]).name != (#[trigger] r.rooms[b]).name by {
                    let a0 = if a < i { a } else { a + 1 };
                    let b0 = if b < i { b } else { b + 1 };
                    assert(r.rooms[a] == v.rooms[a0]);
                    assert(r.rooms[b] == v.rooms[b0]);
                    assert(v.rooms[a0].name != v.rooms[b0].name);
                }
                assert forall|a: int| 0 <= a < r.rooms.len() implies (#[trigger] r.rooms[a]).wf(
                    r.capacity,
                    r.next_id,
                ) by {
                    let a0 = if a < i { a } else { a + 1 };
                    assert(r.rooms[a] == v.rooms[a0]);
                    assert(v.rooms[a0].wf(v.capacity, v.next_id));
                }
            } else {
                let room2 = RoomView { name: room.name, subs: room.subs.remove(k) };
                assert forall|a: int| 0 <= a < r.rooms.len() implies (#[trigger] r.rooms[a]).wf(
                    r.capacity,
                    r.next_id,
                ) by {
                    assert(v.rooms[a].wf(v.capacity, v.next_id));
                    if a == i {
                        assert forall|k1: int, k2: int|
                            0 <= k1 < k2 < room2.subs.len() implies (
                        #[trigger] room2.subs[k1]).id != (#[trigger] room2.subs[k2]).id by {
                            let m1 = if k1 < k { k1 } else { k1 + 1 };
                            let m2 = if k2 < k { k2 } else { k2 + 1 };
                            assert(room2.subs[k1] == room.subs[m1]);
                            assert(room2.subs[k2] == room.subs[m2]);
                            assert(room.subs[m1].id != room.subs[m2].id);
                        }
                        assert forall|m: int| 0 <= m < room2.subs.len() implies (
                        #[trigger] room2.subs[m]).id < r.next_id && room2.subs[m].queue.len()
                            <= r.capacity by {
                            let m0 = if m < k { m } else { m + 1 };
                            assert(room2.subs[m] == room.subs[m0]);
                            assert(room.subs[m0].id < v.next_id);
                            assert(room.subs[m0].queue.len() <= v.capacity);
                        }
                    }
                }
            }
        }
    }
}

/// `publish` preserves the registry invariant.
pub proof fn lemma_publish_preserves_wf(v: RegistryView, name: Seq<char>, payload: Seq<char>)
    requires
        v.wf(),
    ensures
        v.publish(name, payload).wf(),
{
    let r = v.publish(name, payload);
    if v.has_room(name) {
        lemma_room_index_unique(v, name);
        let i = v.room_index(name);
        let room = v.rooms[i];
        assert forall|a: int| 0 <= a < r.rooms.len() implies (#[trigger] r.rooms[a]).wf(
            r.capacity,
            r.next_id,
        ) by {
            assert(v.rooms[a].wf(v.capacity, v.next_id));
            if a == i {
                let room2 = r.rooms[i];
                assert(room2.subs.len() == room.subs.len());
                assert forall|m: int| 0 <= m < room2.subs.len() implies (
                #[trigger] room2.subs[m]).id == room.subs[m].id && room2.subs[m].queue.len()
                    <= r.capacity by {
                    assert(room.subs[m].queue.len() <= v.capacity);
                }
            }
        }
    }
}

/// `recv` preserves the registry invariant.
pub proof fn lemma_recv_preserves_wf(v: RegistryView, name: Seq<char>, id: nat)
    requires
        v.wf(),
    ensures
        v.recv(name, id).wf(),
{
    let r = v.recv(name, id);
    if v.recv_result(name, id) is Some {
        lemma_room_index_unique(v, name);
        let i = v.room_index(name);
        let room = v.rooms[i];
        lemma_sub_index_unique(room, id);
        let k = room.sub_index(id);
        assert forall|a: int| 0 <= a < r.rooms.len() implies (#[trigger] r.rooms[a]).wf(
            r.capacity,
            r.next_id,
        ) by {
            assert(v.rooms[a].wf(v.capacity, v.next_id));
            if a == i {
                let room2 = r.rooms[i];
                assert forall|m: int| 0 <= m < room2.subs.len() implies (
                #[trigger] room2.subs[m]).id == room.subs[m].id && room2.subs[m].queue.len()
                    <= r.capacity by {
                    assert(room.subs[m].queue.len() <= v.capacity);
                }
                assert forall|k1: int, k2: int|
                    0 <= k1 < k2 < room2.subs.len() implies (#[trigger] room2.subs[k1]).id != (
                #[trigger] room2.subs[k2]).id by {
                    assert(room.subs[k1].id != room.subs[k2].id);
                }
            }
        }
    }
}

// ---------------------------------------------------------------------------
// Proved properties of the registry model
// ---------------------------------------------------------------------------

/// A room exists in the registry iff its subscriber count is positive; the
/// registry never holds an entry with count 0.
pub proof fn lemma_room_exists_iff_count_positive(v: RegistryView, name: Seq<char>)
    requires
        v.wf(),
    ensures
        v.has_room(name) <==> v.count_of(name) > 0,
{
    if v.has_room(name) {
        lemma_room_index_unique(v, name);
        let i = v.room_index(name);
        assert(v.rooms[i].wf(v.capacity, v.next_id));
    }
}

/// How `subscribe` changes counts: the subscribed room's count rises by
/// one and the room then exists; every other room is untouched.
pub proof fn lemma_subscribe_count(v: RegistryView, name: Seq<char>)
    requires
        v.wf(),
    ensures
        v.subscribe(name).has_room(name),
        v.subscribe(name).count_of(name) == v.count_of(name) + 1,
        forall|other: Seq<char>|
            other != name ==> #[trigger] v.subscribe(name).count_of(other) == v.count_of(other),
        forall|other: Seq<char>|
            other != name ==> ((#[trigger] v.subscribe(name).has_room(other)) <==> v.has_room(
                other,
            )),
{
    let r = v.subscribe(name);
    lemma_subscribe_preserves_wf(v, name);
    if v.has_room(name) {
        lemma_room_index_unique(v, name);
        let i = v.room_index(name);
        assert(r.has_room_at(name, i));
        lemma_room_index_unique(r, name);
    } else {
        let i = v.rooms.len() as int;
        assert(r.has_room_at(name, i));
        lemma_room_index_unique(r, name);
    }
    assert forall|other: Seq<char>| other != name implies ((#[trigger] r.has_room(other)) <==> v.has_room(other)) by {
        if v.has_room(other) {
            let j = choose|j: int| v.has_room_at(other, j);
            assert(r.has_room_at(other, j));
        }
        if r.has_room(other) {
            let j = choose|j: int| r.has_room_at(other, j);
            if j < v.rooms.len() {
                assert(v.has_room_at(other, j));
            }
        }
    }
    assert forall|other: Seq<char>| other != name implies #[trigger] r.count_of(other)
        == v.count_of(other) by {
        if v.has_room(other) {
            lemma_room_index_unique(v, other);
            let j = v.room_index(other);
            assert(r.has_room_at(other, j));
            lemma_room_index_unique(r, other);
        }
    }
}

/// How `unsubscribe` changes counts: releasing a live handle lowers its
/// room's count by one; a handle that is not present (a room never
/// subscribed to, a nonexistent room, or one unsubscribe too many) is a
/// no-op, so the count never goes below zero. Other rooms are untouched.
pub proof fn lemma_unsubscribe_count(v: RegistryView, name: Seq<char>, id: nat)
    requires
        v.wf(),
    ensures
        v.has_room(name) && v.rooms[v.room_index(name)].has_sub(id) ==> v.unsubscribe(
            name,
            id,
        ).count_of(name) + 1 == v.count_of(name),
        !(v.has_room(name) && v.rooms[v.room_index(name)].has_sub(id)) ==> v.unsubscribe(name, id)
            == v,
        forall|other: Seq<char>|
            other != name ==> #[trigger] v.unsubscribe(name, id).count_of(other) == v.count_of(
                other,
            ),
        forall|other: Seq<char>|
            other != name ==> ((#[trigger] v.unsubscribe(name, id).has_room(other)) <==> v.has_room(
                other,
            )),
{
    let r = v.unsubscribe(name, id);
    lemma_unsubscribe_preserves_wf(v, name, id);
    if v.has_room(name) && v.rooms[v.room_index(name)].has_sub(id) {
        lemma_room_index_unique(v, name);
        let i = v.room_index(name);
        let room = v.rooms[i];
        lemma_sub_index_unique(room, id);
        if room.subs.len() == 1 {
            // the room is gone; its count fell from 1 to 0
            if r.has_room(name) {
                let j = choose|j: int| r.has_room_at(name, j);
                let j0 = if j < i { j } else { j + 1 };
                assert(v.has_room_at(name, j0));
                lemma_room_index_unique(v, name);
                assert(false);
            }
        } else {
            assert(r.has_room_at(name, i));
            lemma_room_index_unique(r, name);
        }
    }
    assert forall|other: Seq<char>| other != name implies ((#[trigger] r.has_room(other)) <==> v.has_room(other)) by {
        if v.has_room(name) && v.rooms[v.room_index(name)].has_sub(id) && v.rooms[v.room_index(
            name,
        )].subs.len() == 1 {
            let i = v.room_index(name);
            if v.has_room(other) {
                let j = choose|j: int| v.has_room_at(other, j);
                assert(v.rooms[i].name == name);
                let j2 = if j < i { j } else { j - 1 };
                assert(r.rooms[j2] == v.rooms[j]);
                assert(r.has_room_at(other, j2));
            }
            if r.has_room(other) {
                let j = choose|j: int| r.has_room_at(other, j);
                let j0 = if j < i { j } else { j + 1 };
                assert(v.has_room_at(other, j0));
            }
        } else {
            if v.has_room(other) {
                let j = choose|j: int| v.has_room_at(other, j);
                assert(r.has_room_at(other, j));
            }
            if r.has_room(other) {
                let j = choose|j: int| r.has_room_at(other, j);
                assert(v.has_room_at(other, j));
            }
        }
    }
    assert forall|other: Seq<char>| other != name implies #[trigger] r.count_of(other)
        == v.count_of(other) by {
        if v.has_room(other) {
            lemma_room_index_unique(v, other);
            let j = v.room_index(other);
            if v.has_room(name) && v.rooms[v.room_index(name)].has_sub(id) && v.rooms[v.room_index(
                name,
            )].subs.len() == 1 {
                let i = v.room_index(name);
                assert(v.rooms[i].name == name);
                let j2 = if j < i { j } else { j - 1 };
                assert(r.rooms[j2] == v.rooms[j]);
                assert(r.has_room_at(other, j2));
                lemma_room_index_unique(r, other);
            } else {
                assert(r.has_room_at(other, j));
                lemma_room_index_unique(r, other);
            }
        }
    }
}

/// Publishing to a room that does not exist is a silent drop: the registry
/// is unchanged, so in particular the room is not created, and nothing
/// fails.
pub proof fn lemma_publish_to_absent_room_is_noop(v: RegistryView, name: Seq<char>, payload: Seq<char>)
    requires
        !v.has_room(name),
    ensures
        v.publish(name, payload) == v,
{
}

/// Publishing delivers the exact payload to every one of the room's
/// subscribers — each mailbox ends with it — and to nobody else: every
/// other room, and so every subscriber of every other room, is untouched,
/// and the room's membership does not change.
pub proof fn lemma_publish_delivers_to_all_subscribers(
    v: RegistryView,
    name: Seq<char>,
    payload: Seq<char>,
)
    requires
        v.wf(),
        v.has_room(name),
    ensures
        v.publish(name, payload).rooms.len() == v.rooms.len(),
        v.publish(name, payload).count_of(name) == v.count_of(name),
        v.publish(name, payload).rooms[v.room_index(name)].subs.len() == v.rooms[v.room_index(
            name,
        )].subs.len(),
        forall|m: int|
            0 <= m < v.rooms[v.room_index(name)].subs.len() ==> (#[trigger] v.publish(
                name,
                payload,
            ).rooms[v.room_index(name)].subs[m]).id == v.rooms[v.room_index(name)].subs[m].id,
        forall|m: int|
            0 <= m < v.rooms[v.room_index(name)].subs.len() ==> (#[trigger] v.publish(
                name,
                payload,
            ).rooms[v.room_index(name)].subs[m]).queue == push_bounded(
                v.rooms[v.room_index(name)].subs[m].queue,
                payload,
                v.capacity,
            ),
        forall|m: int|
            0 <= m < v.rooms[v.room_index(name)].subs.len() ==> (#[trigger] v.publish(
                name,
                payload,
            ).rooms[v.room_index(name)].subs[m]).queue.last() == payload,
        forall|j: int|
            0 <= j < v.rooms.len() && j != v.room_index(name) ==> (#[trigger] v.publish(
                name,
                payload,
            ).rooms[j]) == v.rooms[j],
{
    let r = v.publish(name, payload);
    lemma_publish_preserves_wf(v, name, payload);
    lemma_room_index_unique(v, name);
    let i = v.room_index(name);
    assert(r.has_room_at(name, i));
    lemma_room_index_unique(r, name);
}

/// One step of a subscribe/unsubscribe history on a room.
pub ghost enum RoomOp {
    Subscribe,
    Unsubscribe { id: nat },
}

pub open spec fn apply_room_op(v: RegistryView, name: Seq<char>, op: RoomOp) -> RegistryView {
    match op {
        RoomOp::Subscribe => v.subscribe(name),
        RoomOp::Unsubscribe { id } => v.unsubscribe(name, id),
    }
}

/// The registry after a whole subscribe/unsubscribe history on a room.
pub open spec fn apply_room_ops(v: RegistryView, name: Seq<char>, ops: Seq<RoomOp>) -> RegistryView
    decreases ops.len(),
{
    if ops.len() == 0 {
        v
    } else {
        apply_room_ops(apply_room_op(v, name, ops[0]), name, ops.drop_first())
    }
}

/// After any sequence of subscribes and unsubscribes on a room the
/// registry invariant still holds, and the room exists iff its net
/// subscriber count at that point is positive.
pub proof fn lemma_exists_iff_net_count_positive(
    v: RegistryView,
    name: Seq<char>,
    ops: Seq<RoomOp>,
)
    requires
        v.wf(),
    ensures
        apply_room_ops(v, name, ops).wf(),
        apply_room_ops(v, name, ops).has_room(name) <==> apply_room_ops(v, name, ops).count_of(name)
            > 0,
    decreases ops.len(),
{
    if ops.len() == 0 {
        lemma_room_exists_iff_count_positive(v, name);
    } else {
        match ops[0] {
            RoomOp::Subscribe => lemma_subscribe_preserves_wf(v, name),
            RoomOp::Unsubscribe { id } => lemma_unsubscribe_preserves_wf(v, name, id),
        }
        lemma_exists_iff_net_count_positive(apply_room_op(v, name, ops[0]), name, ops.drop_first());
    }
}

/// The registry after `n` subscriptions to the same room, one after the
/// other (concurrent subscribe calls are serialized by the registry lock).
pub open spec fn subscribe_n(v: RegistryView, name: Seq<char>, n: nat) -> RegistryView
    decreases n,
{
    if n == 0 {
        v
    } else {
        subscribe_n(v, name, (n - 1) as nat).subscribe(name)
    }
}

/// Any number of subscribe calls for the same new room name produce exactly
/// one room entry — one fanout state — whose final subscriber count is the
/// number of calls.
pub proof fn lemma_n_subscribes_one_room(v: RegistryView, name: Seq<char>, n: nat)
    requires
        v.wf(),
        !v.has_room(name),
    ensures
        subscribe_n(v, name, n).wf(),
        subscribe_n(v, name, n).count_of(name) == n,
        n > 0 ==> subscribe_n(v, name, n).has_room(name),
        forall|i: int, j: int|
            subscribe_n(v, name, n).has_room_at(name, i) && subscribe_n(v, name, n).has_room_at(
                name,
                j,
            ) ==> i == j,
    decreases n,
{
    if n == 0 {
        lemma_room_exists_iff_count_positive(v, name);
        assert forall|i: int, j: int|
            subscribe_n(v, name, n).has_room_at(name, i) && subscribe_n(v, name, n).has_room_at(
                name,
                j,
            ) implies i == j by {
            assert(v.has_room(name));
        }
    } else {
        lemma_n_subscribes_one_room(v, name, (n - 1) as nat);
        let w = subscribe_n(v, name, (n - 1) as nat);
        lemma_subscribe_preserves_wf(w, name);
        lemma_subscribe_count(w, name);
        let r = w.subscribe(name);
        lemma_room_exists_iff_count_positive(w, name);
        assert forall|i: int, j: int|
            r.has_room_at(name, i) && r.has_room_at(name, j) implies i == j by {
            lemma_room_index_unique(r, name);
        }
    }
}

// ---------------------------------------------------------------------------
// Executable registry
// ---------------------------------------------------------------------------

/// The index of the subscriber with this id in a room, if present.
#[verifier::loop_isolation(false)]
fn find_sub(info: &ChannelInfo, id: u64) -> (r: Option<usize>)
    requires
        info@.ids_distinct(),
    ensures
        match r {
            Some(k) => info@.has_sub(id as nat) && k as int == info@.sub_index(id as nat),
            None => !info@.has_sub(id as nat),
        },
{
    let n = info.subscribers.len();
    let mut k: usize = 0;
    while k < n
        invariant
            k <= n,
            forall|m: int| 0 <= m < k ==> (#[trigger] info@.subs[m]).id != id as nat,
        decreases n - k,
    {
        if info.subscribers[k].id == id {
            proof {
                assert(info@.has_sub_at(id as nat, k as int));
                lemma_sub_index_unique(info@, id as nat);
            }
            return Some(k);
        }
        k = k + 1;
    }
    proof {
        if info@.has_sub(id as nat) {
            let w = info@.sub_index(id as nat);
            assert(info@.has_sub_at(id as nat, w));
        }
    }
    None
}

impl Registry {
    /// The registry invariant, preserved by every operation.
    pub open spec fn wf(&self) -> bool {
        self@.wf()
    }

    /// A fresh registry with no rooms. `capacity` is the per-subscriber
    /// mailbox bound (at least one pending payload per mailbox).
    pub fn new(capacity: usize) -> (r: Registry)
        requires
            capacity >= 1,
        ensures
            r.wf(),
            r@.rooms == Seq::<RoomView>::empty(),
            r@.capacity == capacity as nat,
    {
        let r = Registry { rooms: Vec::new(), next_id: 0, capacity };
        proof {
            assert(r@.rooms =~= Seq::<RoomView>::empty());
        }
        r
    }

    /// The index of the room under this name, if it exists.
    #[verifier::loop_isolation(false)]
    fn find_room(&self, room: &str) -> (r: Option<usize>)
        requires
            self.wf(),
        ensures
            match r {
                Some(i) => self@.has_room(room@) && i as int == self@.room_index(room@),
                None => !self@.has_room(room@),
            },
    {
        let n = self.rooms.len();
        let mut i: usize = 0;
        while i < n
            invariant
                n == self.rooms@.len(),
                i <= n,
                forall|j: int| 0 <= j < i ==> (#[trigger] self@.rooms[j]).name != room@,
            decreases n - i,
        {
            if str_eq(self.rooms[i].name.as_str(), room) {
                proof {
                    assert(self@.has_room_at(room@, i as int));
                    lemma_room_index_unique(self@, room@);
                }
                return Some(i);
            }
            i = i + 1;
        }
        proof {
            if self@.has_room(room@) {
                let w = self@.room_index(room@);
                assert(self@.has_room_at(room@, w));
            }
        }
        None
    }

    /// Join a room, creating it with fresh fanout state when it does not
    /// exist, or adding one more subscription when it does. Both cases
    /// succeed identically; the returned handle's mailbox starts empty.
    pub fn subscribe(&mut self, room: &str) -> (h: SubscriberHandle)
        requires
            old(self).wf(),
            old(self)@.next_id < u64::MAX,
        ensures
            final(self).wf(),
            final(self)@ == old(self)@.subscribe(room@),
            h@.room == room@,
            h@.id == old(self)@.next_id,
    {
        let found = self.find_room(room);
        let id = self.next_id;
        self.next_id = id + 1;
        let sub = Subscriber { id, queue: Vec::new() };
        proof {
            assert(sub@.queue =~= Seq::<Seq<char>>::empty());
        }
        match found {
            Some(i) => {
                self.rooms[i].subscribers.push(sub);
                proof {
                    assert(self@ =~~= old(self)@.subscribe(room@));
                }
            },
            None => {
                let mut subs: Vec<Subscriber> = Vec::new();
                subs.push(sub);
                self.rooms.push(ChannelInfo { name: String::from_str(room), subscribers: subs });
                proof {
                    assert(self@ =~~= old(self)@.subscribe(room@));
                }
            },
        }
        proof {
            lemma_subscribe_preserves_wf(old(self)@, room@);
        }
        SubscriberHandle { room: String::from_str(room), id }
    }

    /// Release the subscription this handle stands for. When the last
    /// subscriber leaves, the room entry and its fanout state are removed.
    /// A handle whose room or id is no longer present makes this a no-op:
    /// unsubscribing too often never fails and never drives a count below
    /// zero.
    pub fn unsubscribe(&mut self, handle: &SubscriberHandle)
        requires
            old(self).wf(),
        ensures
            final(self).wf(),
            final(self)@ == old(self)@.unsubscribe(handle@.room, handle@.id),
    {
        let found = self.find_room(handle.room.as_str());
        if let Some(i) = found {
            let k_opt = find_sub(&self.rooms[i], handle.id);
            if let Some(k) = k_opt {
                if self.rooms[i].subscribers.len() == 1 {
                    let _ = self.rooms.remove(i);
                    proof {
                        assert(self@ =~~= old(self)@.unsubscribe(handle@.room, handle@.id));
                    }
                } else {
                    let _ = self.rooms[i].subscribers.remove(k);
                    proof {
                        assert(self@ =~~= old(self)@.unsubscribe(handle@.room, handle@.id));
                    }
                }
            }
        }
        proof {
            lemma_unsubscribe_preserves_wf(old(self)@, handle@.room, handle@.id);
        }
    }

    /// Deliver a payload to every current subscriber of the room: each
    /// mailbox gets its own copy, dropping only that mailbox's oldest
    /// pending payload when it is full. A payload for a room that does not
    /// exist is dropped silently: the room is not created and nothing
    /// fails.
    #[verifier::loop_isolation(false)]
    pub fn publish(&mut self, room: &str, payload: &str)
        requires
            old(self).wf(),
        ensures
            final(self).wf(),
            final(self)@ == old(self)@.publish(room@, payload@),
    {
        let found = self.find_room(room);
        if let Some(i) = found {
            let n = self.rooms[i].subscribers.len();
            let cap = self.capacity;
            let mut k: usize = 0;
            while k < n
                invariant
                    k <= n,
                    i < self.rooms@.len(),
                    self.rooms@.len() == old(self).rooms@.len(),
                    self.next_id == old(self).next_id,
                    self.capacity == old(self).capacity,
                    n == self.rooms@[i as int].subscribers@.len(),
                    forall|j: int|
                        0 <= j < self.rooms@.len() && j != i ==> self.rooms@[j] == old(
                            self,
                        ).rooms@[j],
                    self.rooms@[i as int].name == old(self).rooms@[i as int].name,
                    forall|m: int|
                        0 <= m < k ==> (#[trigger] self.rooms@[i as int].subscribers@[m])@
                            == (SubView {
                            id: old(self).rooms@[i as int].subscribers@[m]@.id,
                            queue: push_bounded(
                                old(self).rooms@[i as int].subscribers@[m]@.queue,
                                payload@,
                                cap as nat,
                            ),
                        }),
                    forall|m: int|
                        k <= m < n ==> (#[trigger] self.rooms@[i as int].subscribers@[m]) == old(
                            self,
                        ).rooms@[i as int].subscribers@[m],
                decreases n - k,
            {
                let ghost old_sub = self.rooms@[i as int].subscribers@[k as int]@;
                if self.rooms[i].subscribers[k].queue.len() >= cap {
                    let _ = self.rooms[i].subscribers[k].queue.remove(0);
                }
                self.rooms[i].subscribers[k].queue.push(String::from_str(payload));
                proof {
                    assert(self.rooms@[i as int].subscribers@[k as int]@.queue =~= push_bounded(
                        old_sub.queue,
                        payload@,
                        cap as nat,
                    ));
                }
                k = k + 1;
            }
            proof {
                assert(self@ =~~= old(self)@.publish(room@, payload@));
            }
        }
        proof {
            lemma_publish_preserves_wf(old(self)@, room@, payload@);
        }
    }

    /// Take the oldest pending payload from this handle's mailbox, if any.
    /// Only that mailbox changes; an exhausted or stale handle gets `None`.
    pub fn try_recv(&mut self, handle: &SubscriberHandle) -> (r: Option<String>)
        requires
            old(self).wf(),
        ensures
            final(self).wf(),
            final(self)@ == old(self)@.recv(handle@.room, handle@.id),
            match r {
                Some(s) => old(self)@.recv_result(handle@.room, handle@.id) == Some(s@),
                None => old(self)@.recv_result(handle@.room, handle@.id) is None,
            },
    {
        let found = self.find_room(handle.room.as_str());
        let r = if let Some(i) = found {
            if let Some(k) = find_sub(&self.rooms[i], handle.id) {
                if self.rooms[i].subscribers[k].queue.len() > 0 {
                    let s = self.rooms[i].subscribers[k].queue.remove(0);
                    proof {
                        assert(self@ =~~= old(self)@.recv(handle@.room, handle@.id));
                    }
                    Some(s)
                } else {
                    None
                }
            } else {
                None
            }
        } else {
            None
        };
        proof {
            lemma_recv_preserves_wf(old(self)@, handle@.room, handle@.id);
        }
        r
    }

    /// Whether the registry can still hand out a fresh handle id. Callers
    /// outside verified code test this before `subscribe`; the id counter
    /// never wraps.
    pub fn has_fresh_ids(&self) -> (r: bool)
        ensures
            r == (self@.next_id < u64::MAX),
    {
        self.next_id < u64::MAX
    }

    /// Whether a room with this name currently exists.
    pub fn room_exists(&self, room: &str) -> (r: bool)
        requires
            self.wf(),
        ensures
            r == self@.has_room(room@),
    {
        self.find_room(room).is_some()
    }

    /// The live subscriber count of a room; 0 for a room that does not
    /// exist.
    pub fn subscriber_count(&self, room: &str) -> (r: usize)
        requires
            self.wf(),
        ensures
            r as nat == self@.count_of(room@),
    {
        match self.find_room(room) {
            Some(i) => self.rooms[i].subscribers.len(),
            None => 0,
        }
    }
}

} // verus!
