//! The registry: rooms by id, each holding its connections.

use vstd::prelude::*;

use crate::connection::ConnView;
use crate::model::{lemma_position, position, unique};
use crate::room::{
    conn_ids, lemma_select_unique, select, select_upto, with_conn, without_conn, Room, RoomView,
};

verus! {

/// The ids of a sequence of room views, in order.
pub open spec fn room_ids(rs: Seq<RoomView>) -> Seq<Seq<char>> {
    rs.map_values(|r: RoomView| r.id)
}

/// Where the room with id `id` stands after a find-or-create: where it was,
/// or at the end.
pub open spec fn slot(rs: Seq<RoomView>, id: Seq<char>) -> int {
    let k = position(room_ids(rs), id);
    if k >= 0 {
        k
    } else {
        rs.len() as int
    }
}

/// The rooms after a find-or-create of `id`: unchanged when it exists, else an
/// empty room with that id comes last.
pub open spec fn found_or_new(rs: Seq<RoomView>, id: Seq<char>) -> Seq<RoomView> {
    if position(room_ids(rs), id) >= 0 {
        rs
    } else {
        rs.push(RoomView { id, conns: Seq::empty() })
    }
}

/// The rooms after connection `conn` with session `s` joins room `room`,
/// creating the room if it is absent.
pub open spec fn joined(rs: Seq<RoomView>, room: Seq<char>, conn: Seq<char>, s: actix_ws::Session) -> Seq<RoomView> {
    let rs1 = found_or_new(rs, room);
    let k = slot(rs, room);
    rs1.update(k, RoomView { id: rs1[k].id, conns: with_conn(rs1[k].conns, conn, s) })
}

/// Which rooms hold at least one connection, one flag per room.
pub open spec fn occupied_mask(rs: Seq<RoomView>) -> Seq<bool> {
    Seq::new(rs.len(), |i: int| rs[i].conns.len() > 0)
}

/// The first room at or after `from` that holds a connection with id `id`,
/// or -1 if there is none.
pub open spec fn holder_from(rs: Seq<RoomView>, id: Seq<char>, from: int) -> int
    decreases rs.len() - from,
{
    if from < 0 || from >= rs.len() {
        -1
    } else if position(conn_ids(rs[from].conns), id) >= 0 {
        from
    } else {
        holder_from(rs, id, from + 1)
    }
}

/// The first room that holds a connection with id `id`, or -1.
pub open spec fn holder(rs: Seq<RoomView>, id: Seq<char>) -> int {
    holder_from(rs, id, 0)
}

/// The rooms after the connection with id `id` leaves the first room that
/// holds it; unchanged if no room does.
pub open spec fn without_anywhere(rs: Seq<RoomView>, id: Seq<char>) -> Seq<RoomView> {
    let h = holder(rs, id);
    if h >= 0 {
        rs.update(h, RoomView { id: rs[h].id, conns: without_conn(rs[h].conns, id) })
    } else {
        rs
    }
}

pub proof fn lemma_holder_from(rs: Seq<RoomView>, id: Seq<char>, from: int)
    requires
        0 <= from,
    ensures
        holder_from(rs, id, from) == -1 ==> forall|i: int|
            from <= i < rs.len() ==> position(conn_ids(#[trigger] rs[i].conns), id) == -1,
        holder_from(rs, id, from) != -1 ==> {
            let h = holder_from(rs, id, from);
            &&& from <= h < rs.len()
            &&& position(conn_ids(rs[h].conns), id) >= 0
            &&& forall|i: int| from <= i < h ==> position(conn_ids(#[trigger] rs[i].conns), id) == -1
        },
    decreases rs.len() - from,
{
    if from < rs.len() {
        lemma_holder_from(rs, id, from + 1);
        lemma_position(conn_ids(rs[from].conns), id);
    }
}

/// A property of every element holds of every selected element.
pub proof fn lemma_select_all<T>(s: Seq<T>, p: spec_fn(T) -> bool, mask: Seq<bool>, want: bool, n: int)
    requires
        0 <= n <= s.len(),
        mask.len() == s.len(),
        forall|i: int| 0 <= i < s.len() ==> p(#[trigger] s[i]),
    ensures
        forall|x: int| 0 <= x < select_upto(s, mask, want, n).len() ==> p(#[trigger] select_upto(s, mask, want, n)[x]),
    decreases n,
{
    if n > 0 {
        lemma_select_all(s, p, mask, want, n - 1);
        let prev = select_upto(s, mask, want, n - 1);
        if mask[n - 1] == want {
            let cur = prev.push(s[n - 1]);
            assert(select_upto(s, mask, want, n) == cur);
            assert forall|x: int| 0 <= x < cur.len() implies p(#[trigger] cur[x]) by {
                if x < prev.len() {
                    assert(cur[x] == prev[x]);
                }
            }
        } else {
            assert(select_upto(s, mask, want, n) == prev);
        }
    }
}

/// Room ids are unique, and within each room connection ids are unique.
pub open spec fn registry_wf(rs: Seq<RoomView>) -> bool {
    &&& unique(room_ids(rs))
    &&& forall|i: int| 0 <= i < rs.len() ==> unique(conn_ids(#[trigger] rs[i].conns))
}

/// A find-or-create keeps the registry well formed, and so does putting back
/// in its slot a well-formed room with the same id.
proof fn lemma_found_or_new_wf(rs: Seq<RoomView>, id: Seq<char>, x: RoomView)
    requires
        registry_wf(rs),
        x.id == id,
        unique(conn_ids(x.conns)),
    ensures
        registry_wf(found_or_new(rs, id)),
        registry_wf(found_or_new(rs, id).update(slot(rs, id), x)),
{
    let rs1 = found_or_new(rs, id);
    let k = slot(rs, id);
    lemma_position(room_ids(rs), id);
    if position(room_ids(rs), id) < 0 {
        assert(room_ids(rs1) =~= room_ids(rs).push(id));
        assert(conn_ids(Seq::<ConnView>::empty()) =~= Seq::empty());
        assert forall|i: int| 0 <= i < rs1.len() implies unique(conn_ids(#[trigger] rs1[i].conns)) by {
            if i < rs.len() {
                assert(rs1[i] == rs[i]);
            }
        }
    }
    let rs2 = rs1.update(k, x);
    assert(room_ids(rs2) =~= room_ids(rs1));
}

/// Putting back, in the slot of a find-or-create of `id`, a well-formed room
/// with that id keeps the registry well formed: whether the slot was an
/// existing room or a new one at the end.
proof fn lemma_slot_keeps_wf(rooms: Seq<Room>, id: Seq<char>)
    ensures
        ({
            let rs = rooms.map_values(|r: Room| r@);
            let k = slot(rs, id);
            &&& forall|x: Room|
                registry_wf(rs) && x@.id == id && x.wf() && k < rs.len() ==> registry_wf(
                    (#[trigger] rooms.update(k, x)).map_values(|r: Room| r@),
                )
            &&& forall|x: Room|
                registry_wf(rs) && x@.id == id && x.wf() && k == rs.len() ==> registry_wf(
                    (#[trigger] rooms.push(x)).map_values(|r: Room| r@),
                )
            &&& 0 <= k <= rs.len()
            &&& k < rs.len() <==> position(room_ids(rs), id) >= 0
        }),
{
    let rs = rooms.map_values(|r: Room| r@);
    let k = slot(rs, id);
    lemma_position(room_ids(rs), id);
    assert forall|x: Room|
        registry_wf(rs) && x@.id == id && x.wf() && k < rs.len() implies registry_wf(
            (#[trigger] rooms.update(k, x)).map_values(|r: Room| r@),
        ) by {
        lemma_found_or_new_wf(rs, id, x@);
        assert(rooms.update(k, x).map_values(|r: Room| r@) =~= rs.update(k, x@));
    }
    assert forall|x: Room|
        registry_wf(rs) && x@.id == id && x.wf() && k == rs.len() implies registry_wf(
            (#[trigger] rooms.push(x)).map_values(|r: Room| r@),
        ) by {
        lemma_found_or_new_wf(rs, id, x@);
        assert(rooms.push(x).map_values(|r: Room| r@) =~= found_or_new(rs, id).update(k, x@));
    }
}

/// Asking twice for the same room id, with the room changed in between but
/// keeping its id, finds the room that the first call found or created: the
/// second call creates nothing, and room ids stay unique.
pub proof fn lemma_handle_room_twice(rs: Seq<RoomView>, id: Seq<char>, x: RoomView)
    requires
        x.id == id,
    ensures
        ({
            let k = slot(rs, id);
            let rs2 = found_or_new(rs, id).update(k, x);
            &&& found_or_new(rs2, id) == rs2
            &&& slot(rs2, id) == k
            &&& unique(room_ids(rs)) ==> unique(room_ids(rs2))
        }),
{
    let k = slot(rs, id);
    let rs1 = found_or_new(rs, id);
    let rs2 = rs1.update(k, x);
    lemma_position(room_ids(rs), id);
    if position(room_ids(rs), id) < 0 {
        assert(room_ids(rs1) =~= room_ids(rs).push(id));
    }
    assert(room_ids(rs2) =~= room_ids(rs1));
    lemma_position(room_ids(rs2), id);
    let p = position(room_ids(rs2), id);
    assert(room_ids(rs2)[k] == id);
    if p != k {
        if p < k {
            assert(room_ids(rs)[p] == id);
        }
    }
    if unique(room_ids(rs)) {
        assert forall|a: int, b: int| 0 <= a < b < room_ids(rs2).len() implies room_ids(rs2)[a] != room_ids(rs2)[b] by {
            if b == rs.len() {
                assert(room_ids(rs)[a] != id);
            }
        }
    }
}

/// Removing a connection by id touches at most one room: the first that holds
/// the id, which loses exactly that one connection. Rooms before it do not
/// hold the id, and every other room is left as it was.
pub proof fn lemma_remove_connection_first_room(rs: Seq<RoomView>, id: Seq<char>)
    ensures
        ({
            let h = holder(rs, id);
            let rs2 = without_anywhere(rs, id);
            &&& rs2.len() == rs.len()
            &&& forall|i: int| 0 <= i < rs.len() && i != h ==> rs2[i] == rs[i]
            &&& forall|i: int| 0 <= i < h ==> position(conn_ids(#[trigger] rs[i].conns), id) == -1
            &&& h >= 0 ==> {
                &&& rs2[h].id == rs[h].id
                &&& rs2[h].conns.len() == rs[h].conns.len() - 1
                &&& position(conn_ids(rs[h].conns), id) >= 0
            }
            &&& h < 0 ==> rs2 == rs
        }),
{
    lemma_holder_from(rs, id, 0);
    let h = holder(rs, id);
    if h >= 0 {
        lemma_position(conn_ids(rs[h].conns), id);
    }
}

/// Pruning keeps exactly the rooms that hold a connection, in order and
/// unchanged: every kept room is occupied and comes from the registry, and
/// every occupied room is kept.
pub proof fn lemma_remove_empty_rooms(rs: Seq<RoomView>)
    ensures
        ({
            let kept = select(rs, occupied_mask(rs), true);
            &&& forall|x: int| 0 <= x < kept.len() ==> (#[trigger] kept[x]).conns.len() > 0
            &&& forall|x: int| 0 <= x < kept.len() ==> rs.contains(#[trigger] kept[x])
            &&& forall|i: int| 0 <= i < rs.len() && (#[trigger] rs[i]).conns.len() > 0 ==> kept.contains(rs[i])
        }),
{
    lemma_select_occupied(rs, rs.len() as int);
}

proof fn lemma_select_occupied(rs: Seq<RoomView>, n: int)
    requires
        0 <= n <= rs.len(),
    ensures
        ({
            let kept = select_upto(rs, occupied_mask(rs), true, n);
            &&& forall|x: int| 0 <= x < kept.len() ==> (#[trigger] kept[x]).conns.len() > 0
            &&& forall|x: int| 0 <= x < kept.len() ==> rs.contains(#[trigger] kept[x])
            &&& forall|i: int| 0 <= i < n && (#[trigger] rs[i]).conns.len() > 0 ==> kept.contains(rs[i])
        }),
    decreases n,
{
    if n > 0 {
        lemma_select_occupied(rs, n - 1);
        let mask = occupied_mask(rs);
        let prev = select_upto(rs, mask, true, n - 1);
        let kept = select_upto(rs, mask, true, n);
        if mask[n - 1] {
            assert(kept == prev.push(rs[n - 1]));
            assert forall|x: int| 0 <= x < kept.len() implies rs.contains(#[trigger] kept[x]) by {
                if x < prev.len() {
                    assert(kept[x] == prev[x]);
                    assert(rs.contains(prev[x]));
                } else {
                    assert(rs[n - 1] == kept[x]);
                }
            }
            assert forall|i: int| 0 <= i < n && (#[trigger] rs[i]).conns.len() > 0 implies kept.contains(rs[i]) by {
                if i < n - 1 {
                    assert(prev.contains(rs[i]));
                    let x = choose|x: int| 0 <= x < prev.len() && prev[x] == rs[i];
                    assert(kept[x] == rs[i]);
                } else {
                    assert(kept[prev.len() as int] == rs[i]);
                }
            }
            assert forall|x: int| 0 <= x < kept.len() implies (#[trigger] kept[x]).conns.len() > 0 by {
                if x < prev.len() {
                    assert(kept[x] == prev[x]);
                }
            }
        } else {
            assert(kept == prev);
            assert(rs[n - 1].conns.len() == 0);
        }
    }
}

#[derive(Clone)]
pub struct Broadcaster {
    pub rooms: Vec<Room>,
}

impl View for Broadcaster {
    type V = Seq<RoomView>;

    open spec fn view(&self) -> Seq<RoomView> {
        self.rooms@.map_values(|r: Room| r@)
    }
}

impl Default for Broadcaster {
    fn default() -> (r: Self)
        ensures
            r@ == Seq::<RoomView>::empty(),
    {
        let r = Broadcaster { rooms: Vec::new() };
        assert(r@ =~= Seq::<RoomView>::empty());
        r
    }
}

impl Broadcaster {
    /// Room ids are unique, and within each room connection ids are unique.
    pub open spec fn wf(&self) -> bool {
        registry_wf(self@)
    }

    /// The index of the room with the given id, if any.
    fn find(&self, id: &String) -> (r: Option<usize>)
        ensures
            r is None ==> position(room_ids(self@), id@) == -1,
            r matches Some(k) ==> k == position(room_ids(self@), id@) && k < self.rooms@.len(),
    {
        let n = self.rooms.len();
        let ghost ids = room_ids(self@);
        let mut i: usize = 0;
        while i < n
            invariant
                n == self.rooms@.len(),
                ids == room_ids(self@),
                ids.len() == n,
                i <= n,
                forall|j: int| 0 <= j < i ==> ids[j] != id@,
            decreases n - i,
        {
            assert(ids[i as int] == self.rooms@[i as int].id@);
            if self.rooms[i].id == *id {
                proof {
                    lemma_position(ids, id@);
                    let k = position(ids, id@);
                    assert(ids[i as int] == id@);
                    if k < i {
                        assert(ids[k] != id@);
                    }
                    if k > i {
                        assert(ids[i as int] != id@);
                    }
                }
                return Some(i);
            }
            i = i + 1;
        }
        proof {
            lemma_position(ids, id@);
        }
        None
    }

    /// Whether a room with the given id exists.
    pub fn check(&self, id: &String) -> (r: bool)
        ensures
            r == (position(room_ids(self@), id@) >= 0),
    {
        self.find(id).is_some()
    }

    /// The room with the given id, created empty and put last if it is absent.
    pub fn handle_room(&mut self, id: &String) -> (r: &mut Room)
        ensures
            position(room_ids(old(self)@), id@) >= 0 ==> {
                let k = position(room_ids(old(self)@), id@);
                &&& *r == old(self).rooms@[k]
                &&& final(self).rooms@ == old(self).rooms@.update(k, *final(r))
            },
            position(room_ids(old(self)@), id@) < 0 ==> {
                &&& (*r)@ == (RoomView { id: id@, conns: Seq::empty() })
                &&& final(self).rooms@ == old(self).rooms@.push(*final(r))
            },
            (*r)@ == found_or_new(old(self)@, id@)[slot(old(self)@, id@)],
            final(self)@ == found_or_new(old(self)@, id@).update(slot(old(self)@, id@), (*final(r))@),
            old(self).wf() && (*final(r))@.id == id@ && (*final(r)).wf() ==> final(self).wf(),
    {
        proof {
            lemma_slot_keeps_wf(self.rooms@, id@);
            lemma_position(room_ids(self@), id@);
            assert forall|k: int, x: Room| 0 <= k < self.rooms@.len() implies (#[trigger] self.rooms@.update(k, x)).map_values(|r: Room| r@) == self@.update(k, x@) by {
                assert(self.rooms@.update(k, x).map_values(|r: Room| r@) =~= self@.update(k, x@));
            }
            assert forall|x: Room| (#[trigger] self.rooms@.push(x)).map_values(|r: Room| r@) == self@.push(x@) by {
                assert(self.rooms@.push(x).map_values(|r: Room| r@) =~= self@.push(x@));
            }
        }
        match self.find(id) {
            Some(k) => &mut self.rooms[k],
            None => {
                self.rooms.push(Room::new(id.clone()));
                let last = self.rooms.len() - 1;
                assert forall|x: Room| #[trigger] self.rooms@.update(last as int, x) == old(self).rooms@.push(x) by {
                    assert(self.rooms@.update(last as int, x) =~= old(self).rooms@.push(x));
                }
                &mut self.rooms[last]
            },
        }
    }

    /// The room with the given id, which must exist.
    pub fn room(&mut self, id: &String) -> (r: &mut Room)
        requires
            position(room_ids(old(self)@), id@) >= 0,
        ensures
            ({
                let k = position(room_ids(old(self)@), id@);
                &&& *r == old(self).rooms@[k]
                &&& final(self).rooms@ == old(self).rooms@.update(k, *final(r))
            }),
            old(self).wf() && (*final(r))@.id == id@ && (*final(r)).wf() ==> final(self).wf(),
    {
        proof {
            lemma_slot_keeps_wf(self.rooms@, id@);
        }
        let k = self.find(id).unwrap();
        &mut self.rooms[k]
    }

    /// The room with the given id, if it exists.
    pub fn check_room(&mut self, id: &String) -> (r: Option<&mut Room>)
        ensures
            r is None <==> position(room_ids(old(self)@), id@) < 0,
            r is None ==> final(self).rooms@ == old(self).rooms@,
            r matches Some(m) ==> {
                let k = position(room_ids(old(self)@), id@);
                &&& *m == old(self).rooms@[k]
                &&& final(self).rooms@ == old(self).rooms@.update(k, *final(m))
                &&& old(self).wf() && (*final(m))@.id == id@ && (*final(m)).wf() ==> final(self).wf()
            },
    {
        proof {
            lemma_slot_keeps_wf(self.rooms@, id@);
        }
        match self.find(id) {
            Some(k) => Some(&mut self.rooms[k]),
            None => None,
        }
    }

    /// Registers connection `conn_id` with `session` in room `room_id`,
    /// creating the room if it is absent. A connection id already in that
    /// room keeps its first session.
    pub fn join(&mut self, room_id: &String, conn_id: &String, session: actix_ws::Session)
        ensures
            final(self)@ == joined(old(self)@, room_id@, conn_id@, session),
            old(self).wf() ==> final(self).wf(),
    {
        let ghost rs = self@;
        let room = self.handle_room(room_id);
        room.add_connection(conn_id, session);
        proof {
            let k = slot(rs, room_id@);
            lemma_position(room_ids(rs), room_id@);
            assert(self@ =~= joined(rs, room_id@, conn_id@, session));
            if old(self).wf() {
                assert(room_ids(self@) =~= room_ids(found_or_new(rs, room_id@)));
                if position(room_ids(rs), room_id@) < 0 {
                    assert(room_ids(found_or_new(rs, room_id@)) =~= room_ids(rs).push(room_id@));
                    assert(conn_ids(Seq::<ConnView>::empty()) =~= Seq::empty());
                }
                assert forall|i: int| 0 <= i < self@.len() implies unique(conn_ids(#[trigger] self@[i].conns)) by {
                    if i == k {
                        assert(self.rooms@[i].wf());
                    } else {
                        assert(self@[i] == rs[i]);
                    }
                }
            }
        }
    }

    /// Removes the room with the given id and hands it back, if it exists.
    /// Its connections are not closed here: that is the caller's to do with
    /// the room handed back.
    pub fn remove_room(&mut self, id: String) -> (r: Option<Room>)
        ensures
            r is None <==> position(room_ids(old(self)@), id@) < 0,
            r is None ==> final(self).rooms@ == old(self).rooms@,
            r matches Some(room) ==> {
                let k = position(room_ids(old(self)@), id@);
                &&& room == old(self).rooms@[k]
                &&& final(self).rooms@ == old(self).rooms@.remove(k)
            },
            old(self).wf() ==> final(self).wf(),
    {
        match self.find(&id) {
            Some(k) => {
                let ghost before = self@;
                let room = self.rooms.remove(k);
                proof {
                    assert(self@ =~= before.remove(k as int));
                    assert(room_ids(self@) =~= room_ids(before).remove(k as int));
                    if old(self).wf() {
                        assert forall|i: int| 0 <= i < self@.len() implies unique(conn_ids(#[trigger] self@[i].conns)) by {
                            if i < k {
                                assert(self@[i] == before[i]);
                            } else {
                                assert(self@[i] == before[i + 1]);
                            }
                        }
                    }
                }
                Some(room)
            },
            None => None,
        }
    }

    /// Removes every room that holds no connection; the others stay, in
    /// order and unchanged.
    pub fn remove_empty_rooms(&mut self)
        ensures
            final(self)@ == select(old(self)@, occupied_mask(old(self)@), true),
            old(self).wf() ==> final(self).wf(),
    {
        let ghost rs = self@;
        let ghost mask = occupied_mask(rs);
        let n = self.rooms.len();
        let mut i: usize = 0;
        let mut j: usize = 0;
        while j < n
            invariant
                n == rs.len(),
                rs == old(self)@,
                mask == occupied_mask(rs),
                j <= n,
                i <= j,
                i == select_upto(rs, mask, true, j as int).len(),
                self@ == select_upto(rs, mask, true, j as int) + rs.subrange(j as int, n as int),
            decreases n - j,
        {
            let ghost kept = select_upto(rs, mask, true, j as int);
            let ghost before = self@;
            assert(before.len() == self.rooms@.len());
            assert(before.len() == kept.len() + n - j);
            assert(before[i as int] == rs[j as int]);
            if self.rooms[i].connectors.len() == 0 {
                let _ = self.rooms.remove(i);
                proof {
                    assert(self@ =~= before.remove(i as int));
                    assert(self@ =~= kept + rs.subrange(j + 1, n as int));
                }
            } else {
                i = i + 1;
                proof {
                    assert(self@ =~= kept.push(rs[j as int]) + rs.subrange(j + 1, n as int));
                }
            }
            j = j + 1;
        }
        proof {
            assert(self@ =~= select(rs, mask, true));
            if old(self).wf() {
                let key = |r: RoomView| r.id;
                assert(room_ids(rs) =~= rs.map_values(key));
                lemma_select_unique(rs, key, mask, true, n as int);
                assert(room_ids(self@) =~= self@.map_values(key));
                let p = |r: RoomView| unique(conn_ids(r.conns));
                lemma_select_all(rs, p, mask, true, n as int);
            }
        }
    }

    /// Removes the connection with the given id from the first room, in room
    /// order, that holds it, and hands its session back so that the caller
    /// can close it. Other rooms are left alone, even if they hold the id too.
    pub fn remove_connection(&mut self, id: String) -> (r: Option<actix_ws::Session>)
        ensures
            r is None <==> holder(old(self)@, id@) < 0,
            final(self)@ == without_anywhere(old(self)@, id@),
            r matches Some(s) ==> {
                let h = holder(old(self)@, id@);
                let cs = old(self)@[h].conns;
                s == cs[position(conn_ids(cs), id@)].session
            },
            old(self).wf() ==> final(self).wf(),
    {
        let n = self.rooms.len();
        let mut i: usize = 0;
        proof {
            lemma_holder_from(self@, id@, 0);
        }
        while i < n
            invariant
                n == self.rooms@.len(),
                *self == *old(self),
                i <= n,
                forall|j: int| 0 <= j < i ==> position(conn_ids(#[trigger] self@[j].conns), id@) == -1,
            decreases n - i,
        {
            match self.rooms[i].find(&id) {
                Some(j) => {
                    let ghost before = self@;
                    let ghost cs = before[i as int].conns;
                    proof {
                        lemma_holder_from(before, id@, 0);
                        let h = holder(before, id@);
                        if h < i {
                            assert(position(conn_ids(before[h].conns), id@) == -1);
                        }
                        if h > i || h == -1 {
                            assert(position(conn_ids(before[i as int].conns), id@) == -1);
                        }
                        assert(h == i);
                        assert(self.rooms@[i as int].connectors@[j as int]@ == cs[j as int]);
                    }
                    let c = self.rooms[i].connectors.remove(j);
                    proof {
                        assert(self@[i as int].conns =~= cs.remove(j as int));
                        assert(self@ =~= without_anywhere(before, id@));
                        if old(self).wf() {
                            assert(room_ids(self@) =~= room_ids(before));
                            assert forall|k: int| 0 <= k < self@.len() implies unique(conn_ids(#[trigger] self@[k].conns)) by {
                                if k == i {
                                    assert(unique(conn_ids(cs)));
                                    assert(conn_ids(self@[k].conns) =~= conn_ids(cs).remove(j as int));
                                } else {
                                    assert(self@[k] == before[k]);
                                }
                            }
                        }
                    }
                    return Some(c.session);
                },
                None => {
                    i = i + 1;
                },
            }
        }
        proof {
            lemma_holder_from(self@, id@, 0);
            let h = holder(self@, id@);
            if h >= 0 {
                assert(position(conn_ids(self@[h].conns), id@) == -1);
            }
        }
        None
    }

    /// Calls `f` on every room, in order, without changing any.
    pub fn each_room_immut<F: Fn(&Room)>(&self, f: F)
        requires
            forall|r: &Room| f.requires((r,)),
    {
        let n = self.rooms.len();
        let mut i: usize = 0;
        while i < n
            invariant
                n == self.rooms@.len(),
                i <= n,
                forall|r: &Room| f.requires((r,)),
            decreases n - i,
        {
            f(&self.rooms[i]);
            i = i + 1;
        }
    }

    /// Calls `f` on every room, in order, without changing any; `f` may
    /// change what it captured.
    pub fn each_room<F: FnMut(&Room)>(&self, mut f: F)
        requires
            forall|r: &Room| f.requires((r,)),
    {
        let n = self.rooms.len();
        let mut i: usize = 0;
        while i < n
            invariant
                n == self.rooms@.len(),
                i <= n,
                forall|r: &Room| f.requires((r,)),
            decreases n - i,
        {
            f(&self.rooms[i]);
            i = i + 1;
        }
    }

    /// Replaces every room, in order, by what `f` makes of it. No room is
    /// added, removed or moved.
    pub fn each_room_mut<F: FnMut(Room) -> Room>(&mut self, mut f: F)
        requires
            forall|r: Room| f.requires((r,)),
        ensures
            final(self).rooms@.len() == old(self).rooms@.len(),
            forall|k: int|
                0 <= k < old(self).rooms@.len() ==> f.ensures(
                    (old(self).rooms@[k],),
                    #[trigger] final(self).rooms@[k],
                ),
    {
        let ghost f0 = f;
        let n = self.rooms.len();
        let mut i: usize = 0;
        while i < n
            invariant
                n == self.rooms@.len(),
                n == old(self).rooms@.len(),
                i <= n,
                f == f0,
                forall|r: Room| f.requires((r,)),
                forall|k: int| i <= k < n ==> self.rooms@[k] == old(self).rooms@[k],
                forall|k: int| 0 <= k < i ==> f0.ensures((old(self).rooms@[k],), #[trigger] self.rooms@[k]),
            decreases n - i,
        {
            let mut room = Room::new(String::new());
            core::mem::swap(&mut room, &mut self.rooms[i]);
            let changed = f(room);
            self.rooms.set(i, changed);
            i = i + 1;
        }
    }
}

} // verus!
