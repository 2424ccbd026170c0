//! The in-memory registry of live clients and the rooms they have joined.
//!
//! A client is known by an opaque `u64` id and owns an outbound delivery
//! channel. Rooms are kept as a list of named membership sequences; their
//! mathematical model is a map from room name to member ids.

use axum::extract::ws::Message;
use futures::channel::mpsc::UnboundedSender;
use crate::gates::{broadcast_key_matches, key_presented, BroadcastError, BroadcastMessage};
use std::collections::HashMap;
use vstd::prelude::*;

verus! {

broadcast use vstd::std_specs::hash::group_hash_axioms;

#[verifier::external_type_specification]
#[verifier::external_body]
pub struct ExMessage(Message);

#[verifier::external_type_specification]
#[verifier::external_body]
#[verifier::reject_recursive_types(T)]
pub struct ExUnboundedSender<T>(UnboundedSender<T>);

/// Relies on futures' `UnboundedSender::unbounded_send`, here of a text
/// frame: it fails only when the receiving side is gone, which this library
/// cannot observe, so nothing is promised of the outcome.
#[verifier::external_body]
fn send_text(out: &UnboundedSender<Message>, text: &str) -> (accepted: bool) {
    out.unbounded_send(Message::Text(text.into())).is_ok()
}

/// One named room and its members, in order of joining.
pub struct Room {
    pub name: String,
    pub members: Vec<u64>,
}

/// The outcome of one delivery attempt to one member.
#[derive(Clone, Copy, Debug, PartialEq, Eq, Structural)]
pub struct Delivery {
    pub client: u64,
    pub accepted: bool,
}

/// What a broadcast did: one attempt per live member, and how many copies of
/// the message belong on the offline queue.
pub struct BroadcastReport {
    pub deliveries: Vec<Delivery>,
    pub offline_copies: usize,
}

/// `m` after `id` joined: unchanged when it is already a member.
pub open spec fn joined(m: Seq<u64>, id: u64) -> Seq<u64> {
    if m.contains(id) {
        m
    } else {
        m.push(id)
    }
}

/// `m` with every occurrence of `id` removed, the rest in order.
pub open spec fn without(m: Seq<u64>, id: u64) -> Seq<u64>
    decreases m.len(),
{
    if m.len() == 0 {
        Seq::empty()
    } else {
        let rest = without(m.drop_last(), id);
        if m.last() == id {
            rest
        } else {
            rest.push(m.last())
        }
    }
}

/// The members of `m` that are live, in order.
pub open spec fn live_members(m: Seq<u64>, live: Set<u64>) -> Seq<u64>
    decreases m.len(),
{
    if m.len() == 0 {
        Seq::empty()
    } else {
        let rest = live_members(m.drop_last(), live);
        if live.contains(m.last()) {
            rest.push(m.last())
        } else {
            rest
        }
    }
}

/// The number of attempts whose channel refused the message.
pub open spec fn refused_count(ds: Seq<Delivery>) -> nat
    decreases ds.len(),
{
    if ds.len() == 0 {
        0
    } else {
        refused_count(ds.drop_last()) + if ds.last().accepted {
            0nat
        } else {
            1nat
        }
    }
}

/// The clients of a sequence of attempts, in order.
pub open spec fn attempted(ds: Seq<Delivery>) -> Seq<u64> {
    ds.map_values(|d: Delivery| d.client)
}

/// Room `i` of `rooms` is named `name`.
pub open spec fn room_at(rooms: Seq<Room>, name: Seq<char>, i: int) -> bool {
    0 <= i < rooms.len() && rooms[i].name@ == name
}

/// The members of the room named `name` in `rooms`; empty when there is none.
pub open spec fn room_members(rooms: Seq<Room>, name: Seq<char>) -> Seq<u64> {
    if exists|i: int| room_at(rooms, name, i) {
        rooms[choose|i: int| room_at(rooms, name, i)].members@
    } else {
        Seq::empty()
    }
}

/// Registry state: the live clients with their outbound channels, and the rooms.
pub struct AppState {
    pub rooms: Vec<Room>,
    pub clients: HashMap<u64, UnboundedSender<Message>>,
}

impl AppState {
    pub open spec fn is_room_at(self, name: Seq<char>, i: int) -> bool {
        room_at(self.rooms@, name, i)
    }

    pub open spec fn has_room(self, name: Seq<char>) -> bool {
        exists|i: int| room_at(self.rooms@, name, i)
    }

    /// The members of room `name`; empty when there is no such room.
    pub open spec fn members(self, name: Seq<char>) -> Seq<u64> {
        room_members(self.rooms@, name)
    }

    /// The rooms as a map from name to members.
    pub open spec fn room_map(self) -> Map<Seq<char>, Seq<u64>> {
        Map::new(|name: Seq<char>| self.has_room(name), |name: Seq<char>| self.members(name))
    }

    /// The ids of the live clients.
    pub open spec fn live(self) -> Set<u64> {
        self.clients@.dom()
    }

    /// Room names are unique, no room is empty, and no room lists a client twice.
    pub open spec fn wf(self) -> bool {
        &&& forall|i: int, j: int|
            0 <= i < self.rooms@.len() && 0 <= j < self.rooms@.len() && i != j
                ==> #[trigger] self.rooms@[i].name@ != #[trigger] self.rooms@[j].name@
        &&& forall|i: int|
            0 <= i < self.rooms@.len() ==> (#[trigger] self.rooms@[i]).members@.len() > 0
                && self.rooms@[i].members@.no_duplicates()
    }

    /// Every member of every room is a live client.
    pub open spec fn members_live(self) -> bool {
        forall|i: int, k: int|
            0 <= i < self.rooms@.len() && 0 <= k < self.rooms@[i].members@.len()
                ==> self.live().contains(#[trigger] self.rooms@[i].members@[k])
    }

    /// `id` is a member of no room.
    pub open spec fn in_no_room(self, id: u64) -> bool {
        forall|i: int| 0 <= i < self.rooms@.len() ==> !(#[trigger] self.rooms@[i]).members@.contains(id)
    }

    /// What a broadcast of one message to room `name` reports: nothing
    /// attempted and one queued copy for a missing room; otherwise one attempt
    /// per live member in order, and one queued copy per refused attempt.
    pub open spec fn broadcast_report(self, name: Seq<char>, r: BroadcastReport) -> bool {
        if self.has_room(name) {
            &&& attempted(r.deliveries@) == live_members(self.members(name), self.live())
            &&& r.offline_copies == refused_count(r.deliveries@)
        } else {
            r.deliveries@.len() == 0 && r.offline_copies == 1
        }
    }
}

proof fn lemma_members_at(s: AppState, i: int)
    requires
        s.wf(),
        0 <= i < s.rooms@.len(),
    ensures
        s.has_room(s.rooms@[i].name@),
        s.members(s.rooms@[i].name@) == s.rooms@[i].members@,
{
    let name = s.rooms@[i].name@;
    assert(s.is_room_at(name, i));
    let j = choose|j: int| room_at(s.rooms@, name, j);
    if j != i {
        assert(s.rooms@[i].name@ != s.rooms@[j].name@);
    }
}

proof fn lemma_room_index(s: AppState, name: Seq<char>) -> (i: int)
    requires
        s.wf(),
        s.has_room(name),
    ensures
        s.is_room_at(name, i),
        s.members(name) == s.rooms@[i].members@,
{
    let i = choose|i: int| room_at(s.rooms@, name, i);
    lemma_members_at(s, i);
    i
}

proof fn lemma_same_rooms(a: AppState, b: AppState)
    requires
        a.rooms@ == b.rooms@,
    ensures
        a.room_map() == b.room_map(),
{
    assert(a.room_map() =~= b.room_map());
}

proof fn lemma_update_room(a: AppState, b: AppState, i: int)
    requires
        a.wf(),
        b.wf(),
        0 <= i < a.rooms@.len(),
        b.rooms@.len() == a.rooms@.len(),
        b.rooms@[i].name@ == a.rooms@[i].name@,
        forall|j: int| 0 <= j < a.rooms@.len() && j != i ==> b.rooms@[j] == a.rooms@[j],
    ensures
        b.room_map() =~= a.room_map().insert(a.rooms@[i].name@, b.rooms@[i].members@),
{
    let name = a.rooms@[i].name@;
    let expected = a.room_map().insert(name, b.rooms@[i].members@);
    lemma_members_at(a, i);
    lemma_members_at(b, i);
    assert forall|n: Seq<char>| b.room_map().contains_key(n) <==> expected.contains_key(n) by {
        if b.has_room(n) {
            let j = choose|j: int| room_at(b.rooms@, n, j);
            assert(a.is_room_at(n, j));
        }
        if a.has_room(n) {
            let j = choose|j: int| room_at(a.rooms@, n, j);
            assert(b.is_room_at(n, j));
        }
    }
    assert forall|n: Seq<char>| #[trigger] b.room_map().contains_key(n) implies b.room_map()[n]
        == expected[n] by {
        if n != name {
            let j = choose|j: int| room_at(b.rooms@, n, j);
            assert(a.is_room_at(n, j));
            lemma_members_at(a, j);
            lemma_members_at(b, j);
        }
    }
}

proof fn lemma_push_room(a: AppState, b: AppState, r: Room)
    requires
        a.wf(),
        b.wf(),
        !a.has_room(r.name@),
        b.rooms@ == a.rooms@.push(r),
    ensures
        b.room_map() =~= a.room_map().insert(r.name@, r.members@),
{
    let expected = a.room_map().insert(r.name@, r.members@);
    let last = a.rooms@.len() as int;
    lemma_members_at(b, last);
    assert forall|n: Seq<char>| b.room_map().contains_key(n) <==> expected.contains_key(n) by {
        if b.has_room(n) && n != r.name@ {
            let j = choose|j: int| room_at(b.rooms@, n, j);
            assert(a.is_room_at(n, j));
        }
        if a.has_room(n) {
            let j = choose|j: int| room_at(a.rooms@, n, j);
            assert(b.is_room_at(n, j));
        }
    }
    assert forall|n: Seq<char>| #[trigger] b.room_map().contains_key(n) implies b.room_map()[n]
        == expected[n] by {
        if n != r.name@ {
            let j = choose|j: int| room_at(b.rooms@, n, j);
            assert(a.is_room_at(n, j));
            lemma_members_at(a, j);
            lemma_members_at(b, j);
        }
    }
}

proof fn lemma_remove_room(a: AppState, b: AppState, i: int)
    requires
        a.wf(),
        b.wf(),
        0 <= i < a.rooms@.len(),
        b.rooms@ == a.rooms@.remove(i),
    ensures
        b.room_map() =~= a.room_map().remove(a.rooms@[i].name@),
{
    let name = a.rooms@[i].name@;
    let expected = a.room_map().remove(name);
    assert forall|n: Seq<char>| b.room_map().contains_key(n) <==> expected.contains_key(n) by {
        if b.has_room(n) {
            let j = choose|j: int| room_at(b.rooms@, n, j);
            if j < i {
                assert(a.is_room_at(n, j));
            } else {
                assert(a.is_room_at(n, j + 1));
                assert(a.rooms@[i].name@ != a.rooms@[j + 1].name@);
            }
        }
        if a.has_room(n) && n != name {
            let j = choose|j: int| room_at(a.rooms@, n, j);
            if j < i {
                assert(b.is_room_at(n, j));
            } else {
                assert(b.is_room_at(n, j - 1));
            }
        }
    }
    assert forall|n: Seq<char>| #[trigger] b.room_map().contains_key(n) implies b.room_map()[n]
        == expected[n] by {
        let j = choose|j: int| room_at(b.rooms@, n, j);
        lemma_members_at(b, j);
        if j < i {
            lemma_members_at(a, j);
        } else {
            lemma_members_at(a, j + 1);
        }
    }
}

proof fn lemma_push_contains(s: Seq<u64>, v: u64)
    ensures
        forall|x: u64| #[trigger] s.push(v).contains(x) <==> (s.contains(x) || x == v),
        s.no_duplicates() && !s.contains(v) ==> s.push(v).no_duplicates(),
{
    assert forall|x: u64| #[trigger] s.push(v).contains(x) <==> (s.contains(x) || x == v) by {
        if s.contains(x) {
            let k = choose|k: int| 0 <= k < s.len() && s[k] == x;
            assert(s.push(v)[k] == x);
        }
        if x == v {
            assert(s.push(v)[s.len() as int] == x);
        }
        if s.push(v).contains(x) && x != v {
            let k = choose|k: int| 0 <= k < s.len() + 1 && s.push(v)[k] == x;
            assert(s[k] == x);
        }
    }
    if s.no_duplicates() && !s.contains(v) {
        let t = s.push(v);
        assert forall|i: int, j: int| 0 <= i < t.len() && 0 <= j < t.len() && i != j implies t[i]
            != t[j] by {
            if i == s.len() {
                assert(s[j] == t[j]);
            } else if j == s.len() {
                assert(s[i] == t[i]);
            }
        }
    }
}

proof fn lemma_without(m: Seq<u64>, id: u64)
    ensures
        forall|x: u64| #[trigger] without(m, id).contains(x) <==> (m.contains(x) && x != id),
        m.no_duplicates() ==> without(m, id).no_duplicates(),
    decreases m.len(),
{
    if m.len() > 0 {
        let d = m.drop_last();
        lemma_without(d, id);
        assert(m =~= d.push(m.last()));
        lemma_push_contains(d, m.last());
        lemma_push_contains(without(d, id), m.last());
    }
}

/// Each live member of a room is attempted exactly once by a broadcast: the
/// attempts hold the live members and no client twice.
pub proof fn lemma_live_members_once(m: Seq<u64>, live: Set<u64>)
    requires
        m.no_duplicates(),
    ensures
        live_members(m, live).no_duplicates(),
        forall|x: u64| #[trigger]
            live_members(m, live).contains(x) <==> (m.contains(x) && live.contains(x)),
    decreases m.len(),
{
    if m.len() > 0 {
        let d = m.drop_last();
        assert(m =~= d.push(m.last()));
        lemma_push_contains(d, m.last());
        assert(d.no_duplicates());
        lemma_live_members_once(d, live);
        lemma_push_contains(live_members(d, live), m.last());
    }
}

/// Empty rooms do not persist: in a well-formed registry every room that
/// exists has at least one member.
pub proof fn lemma_no_empty_rooms(s: AppState, name: Seq<char>)
    requires
        s.wf(),
        s.room_map().contains_key(name),
    ensures
        s.room_map()[name].len() > 0,
{
    let i = lemma_room_index(s, name);
}

fn contains_id(v: &Vec<u64>, id: u64) -> (r: bool)
    ensures
        r == v@.contains(id),
{
    let mut i: usize = 0;
    while i < v.len()
        invariant
            i <= v@.len(),
            forall|k: int| 0 <= k < i ==> v@[k] != id,
        decreases v@.len() - i,
    {
        if v[i] == id {
            return true;
        }
        i = i + 1;
    }
    false
}

impl AppState {
    /// An empty registry.
    pub fn new() -> (r: AppState)
        ensures
            r.wf(),
            r.rooms@.len() == 0,
            r.room_map() == Map::<Seq<char>, Seq<u64>>::empty(),
            r.live() == Set::<u64>::empty(),
    {
        let r = AppState { rooms: Vec::new(), clients: HashMap::new() };
        assert(r.room_map() =~= Map::<Seq<char>, Seq<u64>>::empty());
        assert(r.live() =~= Set::<u64>::empty());
        r
    }

    /// Adds `id` to room `room`, creating the room on its first member; a
    /// member that is already there is not added twice.
    pub fn join_room(&mut self, room: String, id: u64)
        requires
            old(self).wf(),
        ensures
            final(self).wf(),
            final(self).room_map() == old(self).room_map().insert(
                room@,
                joined(old(self).members(room@), id),
            ),
            final(self).clients == old(self).clients,
            old(self).members_live() && old(self).live().contains(id) ==> final(self).members_live(),
    {
        let ghost pre = *self;
        match self.find_room(&room) {
            Some(i) => {
                if !contains_id(&self.rooms[i].members, id) {
                    let mut r = self.rooms.remove(i);
                    proof {
                        lemma_push_contains(r.members@, id);
                    }
                    r.members.push(id);
                    let ghost nr = r;
                    self.rooms.insert(i, r);
                    assert(self.rooms@ =~= pre.rooms@.update(i as int, nr));
                    assert(self.wf()) by {
                        assert forall|j: int| 0 <= j < self.rooms@.len() && j != i implies
                            self.rooms@[j] == pre.rooms@[j] by {}
                    }
                    proof {
                        lemma_update_room(pre, *self, i as int);
                    }
                    assert(pre.members_live() && pre.live().contains(id) ==> self.members_live())
                        by {
                        if pre.members_live() && pre.live().contains(id) {
                            assert forall|j: int, k: int|
                                0 <= j < self.rooms@.len() && 0 <= k
                                    < self.rooms@[j].members@.len() implies self.live().contains(
                                #[trigger] self.rooms@[j].members@[k],
                            ) by {
                                if j == i && k < pre.rooms@[j].members@.len() {
                                    assert(self.rooms@[j].members@[k]
                                        == pre.rooms@[j].members@[k]);
                                }
                            }
                        }
                    }
                } else {
                    assert(pre.room_map() =~= pre.room_map().insert(
                        room@,
                        joined(pre.members(room@), id),
                    ));
                }
            },
            None => {
                let mut members: Vec<u64> = Vec::new();
                members.push(id);
                let r = Room { name: room, members };
                let ghost nr = r;
                self.rooms.push(r);
                assert(nr.members@ =~= joined(pre.members(room@), id));
                assert(self.wf()) by {
                    assert forall|i: int, j: int|
                        0 <= i < self.rooms@.len() && 0 <= j < self.rooms@.len() && i != j
                            implies #[trigger] self.rooms@[i].name@
                        != #[trigger] self.rooms@[j].name@ by {
                        if i == pre.rooms@.len() {
                            assert(!pre.is_room_at(room@, j));
                        } else if j == pre.rooms@.len() {
                            assert(!pre.is_room_at(room@, i));
                        } else {
                            assert(pre.rooms@[i] == self.rooms@[i]);
                            assert(pre.rooms@[j] == self.rooms@[j]);
                        }
                    }
                    assert forall|i: int| 0 <= i < self.rooms@.len() implies (
                    #[trigger] self.rooms@[i]).members@.len() > 0
                        && self.rooms@[i].members@.no_duplicates() by {
                        if i < pre.rooms@.len() {
                            assert(pre.rooms@[i] == self.rooms@[i]);
                        }
                    }
                }
                proof {
                    lemma_push_room(pre, *self, nr);
                }
                assert(pre.members_live() && pre.live().contains(id) ==> self.members_live()) by {
                    if pre.members_live() && pre.live().contains(id) {
                        assert forall|j: int, k: int|
                            0 <= j < self.rooms@.len() && 0 <= k
                                < self.rooms@[j].members@.len() implies self.live().contains(
                            #[trigger] self.rooms@[j].members@[k],
                        ) by {
                            if j < pre.rooms@.len() {
                                assert(self.rooms@[j] == pre.rooms@[j]);
                            }
                        }
                    }
                }
            },
        }
    }

    /// Removes `id` from room `room`; a room left without members is deleted.
    pub fn leave_room(&mut self, room: String, id: u64)
        requires
            old(self).wf(),
        ensures
            final(self).wf(),
            final(self).clients == old(self).clients,
            !old(self).has_room(room@) ==> final(self).room_map() == old(self).room_map()
                && final(self).rooms@.len() == old(self).rooms@.len(),
            old(self).has_room(room@) && without(old(self).members(room@), id).len() == 0 ==> {
                &&& final(self).room_map() == old(self).room_map().remove(room@)
                &&& final(self).rooms@.len() == old(self).rooms@.len() - 1
            },
            old(self).has_room(room@) && without(old(self).members(room@), id).len() > 0 ==> {
                &&& final(self).room_map() == old(self).room_map().insert(
                    room@,
                    without(old(self).members(room@), id),
                )
                &&& final(self).rooms@.len() == old(self).rooms@.len()
            },
            !final(self).room_map().contains_key(room@) || final(self).room_map()[room@].len() > 0,
            old(self).members_live() ==> final(self).members_live(),
    {
        let ghost pre = *self;
        match self.find_room(&room) {
            Some(i) => {
                let r = self.rooms.remove(i);
                let ghost old_members = r.members@;
                let mut kept: Vec<u64> = Vec::new();
                let mut k: usize = 0;
                while k < r.members.len()
                    invariant
                        k <= r.members@.len(),
                        kept@ == without(r.members@.subrange(0, k as int), id),
                    decreases r.members@.len() - k,
                {
                    assert(r.members@.subrange(0, k + 1).drop_last() =~= r.members@.subrange(
                        0,
                        k as int,
                    ));
                    if r.members[k] != id {
                        kept.push(r.members[k]);
                    }
                    k = k + 1;
                }
                assert(r.members@.subrange(0, r.members@.len() as int) =~= r.members@);
                proof {
                    lemma_without(old_members, id);
                }
                if kept.len() == 0 {
                    proof {
                        lemma_remove_room(pre, *self, i as int);
                    }
                    assert(self.wf()) by {
                        assert forall|a: int| 0 <= a < self.rooms@.len() implies #[trigger]
                            self.rooms@[a] == pre.rooms@[if a < i {
                            a
                        } else {
                            a + 1
                        }] by {}
                    }
                    assert(pre.members_live() ==> self.members_live()) by {
                        if pre.members_live() {
                            assert forall|a: int, b: int|
                                0 <= a < self.rooms@.len() && 0 <= b
                                    < self.rooms@[a].members@.len() implies self.live().contains(
                                #[trigger] self.rooms@[a].members@[b],
                            ) by {
                                let c = if a < i {
                                    a
                                } else {
                                    a + 1
                                };
                                assert(self.rooms@[a] == pre.rooms@[c]);
                            }
                        }
                    }
                } else {
                    let nr = Room { name: r.name, members: kept };
                    let ghost g = nr;
                    self.rooms.insert(i, nr);
                    assert(self.rooms@ =~= pre.rooms@.update(i as int, g));
                    assert(self.wf()) by {
                        assert forall|j: int| 0 <= j < self.rooms@.len() && j != i implies
                            self.rooms@[j] == pre.rooms@[j] by {}
                    }
                    proof {
                        lemma_update_room(pre, *self, i as int);
                    }
                    assert(pre.members_live() ==> self.members_live()) by {
                        if pre.members_live() {
                            assert forall|a: int, b: int|
                                0 <= a < self.rooms@.len() && 0 <= b
                                    < self.rooms@[a].members@.len() implies self.live().contains(
                                #[trigger] self.rooms@[a].members@[b],
                            ) by {
                                if a == i {
                                    let x = self.rooms@[a].members@[b];
                                    assert(g.members@.contains(x));
                                    let c = choose|c: int|
                                        0 <= c < old_members.len() && old_members[c] == x;
                                    assert(pre.rooms@[a].members@[c] == x);
                                } else {
                                    assert(self.rooms@[a] == pre.rooms@[a]);
                                }
                            }
                        }
                    }
                }
            },
            None => {},
        }
        proof {
            if self.has_room(room@) {
                let j = lemma_room_index(*self, room@);
            }
        }
    }

    /// Registers `id` with its outbound channel; a channel already registered
    /// under `id` is replaced.
    pub fn add_client(&mut self, id: u64, sender: UnboundedSender<Message>)
        requires
            old(self).wf(),
        ensures
            final(self).wf(),
            final(self).clients@ == old(self).clients@.insert(id, sender),
            final(self).rooms@ == old(self).rooms@,
            final(self).room_map() == old(self).room_map(),
            old(self).members_live() ==> final(self).members_live(),
    {
        let ghost pre = *self;
        self.clients.insert(id, sender);
        proof {
            lemma_same_rooms(pre, *self);
        }
    }

    /// Forgets the channel of `id`. Room memberships are left alone: the
    /// caller also leaves the rooms that `id` joined.
    pub fn remove_client(&mut self, id: &u64)
        requires
            old(self).wf(),
        ensures
            final(self).wf(),
            final(self).clients@ == old(self).clients@.remove(*id),
            final(self).rooms@ == old(self).rooms@,
            final(self).room_map() == old(self).room_map(),
            old(self).members_live() && old(self).in_no_room(*id) ==> final(self).members_live(),
    {
        let ghost pre = *self;
        self.clients.remove(id);
        proof {
            lemma_same_rooms(pre, *self);
        }
        assert(pre.members_live() && pre.in_no_room(*id) ==> self.members_live()) by {
            if pre.members_live() && pre.in_no_room(*id) {
                assert forall|a: int, b: int|
                    0 <= a < self.rooms@.len() && 0 <= b < self.rooms@[a].members@.len()
                        implies self.live().contains(#[trigger] self.rooms@[a].members@[b]) by {
                    assert(pre.rooms@[a].members@.contains(self.rooms@[a].members@[b]));
                }
            }
        }
    }

    /// The number of live clients.
    pub fn connection_count(&self) -> (r: usize)
        ensures
            r == self.clients@.len(),
    {
        self.clients.len()
    }

    /// The number of rooms.
    pub fn room_count(&self) -> (r: usize)
        ensures
            r == self.rooms@.len(),
    {
        self.rooms.len()
    }

    /// Fans `message` out to every live member of `room`, in order of joining.
    /// A member without a channel is skipped; a refused send, or a room that
    /// does not exist, asks for one copy on the offline queue.
    pub fn broadcast_to_room(&self, room: &str, message: &str) -> (r: BroadcastReport)
        requires
            self.wf(),
        ensures
            self.broadcast_report(room@, r),
    {
        let name = room.to_owned();
        match self.find_room(&name) {
            None => BroadcastReport { deliveries: Vec::new(), offline_copies: 1 },
            Some(i) => {
                let members = &self.rooms[i].members;
                let mut deliveries: Vec<Delivery> = Vec::new();
                let mut copies: usize = 0;
                let mut k: usize = 0;
                while k < members.len()
                    invariant
                        k <= members@.len(),
                        attempted(deliveries@) == live_members(
                            members@.subrange(0, k as int),
                            self.live(),
                        ),
                        copies == refused_count(deliveries@),
                        copies <= deliveries@.len() <= k,
                    decreases members@.len() - k,
                {
                    let id = members[k];
                    assert(members@.subrange(0, k + 1).drop_last() =~= members@.subrange(
                        0,
                        k as int,
                    ));
                    match self.clients.get(&id) {
                        None => {},
                        Some(out) => {
                            let accepted = send_text(out, message);
                            if !accepted {
                                copies = copies + 1;
                            }
                            let ghost before = deliveries@;
                            deliveries.push(Delivery { client: id, accepted });
                            assert(deliveries@.drop_last() =~= before);
                            assert(attempted(deliveries@) =~= attempted(before).push(id));
                        },
                    }
                    k = k + 1;
                }
                assert(members@.subrange(0, members@.len() as int) =~= members@);
                BroadcastReport { deliveries, offline_copies: copies }
            },
        }
    }

    /// One step of replaying the offline backlog of `room` after a join: a
    /// message taken from the queue is broadcast to the room; an empty queue
    /// ends the replay.
    pub fn replay_step(&self, room: &str, popped: Option<String>) -> (r: Option<BroadcastReport>)
        requires
            self.wf(),
        ensures
            match r {
                Some(report) => popped.is_some() && self.broadcast_report(room@, report),
                None => popped.is_none(),
            },
    {
        match popped {
            Some(message) => Some(self.broadcast_to_room(room, message.as_str())),
            None => None,
        }
    }

    /// Serves a broadcast request: with the right broadcast key the message
    /// is fanned out to its room, otherwise nothing is sent.
    pub fn authorized_broadcast(
        &self,
        provided_key: Option<&str>,
        broadcast_key: &str,
        payload: &BroadcastMessage,
    ) -> (r: Result<BroadcastReport, BroadcastError>)
        requires
            self.wf(),
        ensures
            match r {
                Ok(report) => key_presented(provided_key, broadcast_key@) && self.broadcast_report(
                    payload.room@,
                    report,
                ),
                Err(e) => !key_presented(provided_key, broadcast_key@) && e
                    == BroadcastError::InvalidBroadcastKey,
            },
    {
        if !broadcast_key_matches(provided_key, broadcast_key) {
            return Err(BroadcastError::InvalidBroadcastKey);
        }
        Ok(self.broadcast_to_room(payload.room.as_str(), payload.message.as_str()))
    }

    /// The index of the room named `room`, if there is one.
    fn find_room(&self, room: &String) -> (r: Option<usize>)
        requires
            self.wf(),
        ensures
            match r {
                Some(i) => self.is_room_at(room@, i as int) && self.members(room@)
                    == self.rooms@[i as int].members@,
                None => !self.has_room(room@),
            },
    {
        let mut i: usize = 0;
        while i < self.rooms.len()
            invariant
                self.wf(),
                i <= self.rooms@.len(),
                forall|k: int| 0 <= k < i ==> self.rooms@[k].name@ != room@,
            decreases self.rooms@.len() - i,
        {
            if self.rooms[i].name == *room {
                proof {
                    lemma_members_at(*self, i as int);
                }
                return Some(i);
            }
            i = i + 1;
        }
        None
    }
}

} // verus!
