//! A room: a named, ordered group of connections, and the choice of which of
//! them a fan-out reaches or a close removes.

use vstd::prelude::*;

use crate::connection::{ConnView, Connection};
use crate::model::{lemma_position, lemma_unique_position, position, unique};

verus! {

/// What a room is, for contracts: its id and its connections in insertion order.
pub ghost struct RoomView {
    pub id: Seq<char>,
    pub conns: Seq<ConnView>,
}

/// The views of a sequence of connections.
pub open spec fn views(cs: Seq<Connection>) -> Seq<ConnView> {
    cs.map_values(|c: Connection| c@)
}

/// The ids of a sequence of connection views, in order.
pub open spec fn conn_ids(cs: Seq<ConnView>) -> Seq<Seq<char>> {
    cs.map_values(|c: ConnView| c.id)
}

/// The connections after adding `id` with session `s`: unchanged when the id is
/// already present, else the new connection comes last.
pub open spec fn with_conn(cs: Seq<ConnView>, id: Seq<char>, s: actix_ws::Session) -> Seq<
    ConnView,
> {
    if position(conn_ids(cs), id) >= 0 {
        cs
    } else {
        cs.push(ConnView { id, session: s })
    }
}

/// The connections after removing the first one with id `id`, if any.
pub open spec fn without_conn(cs: Seq<ConnView>, id: Seq<char>) -> Seq<ConnView> {
    let k = position(conn_ids(cs), id);
    if k >= 0 {
        cs.remove(k)
    } else {
        cs
    }
}

/// Which connections have id `id`, one flag per connection.
pub open spec fn id_mask(cs: Seq<ConnView>, id: Seq<char>) -> Seq<bool> {
    Seq::new(cs.len(), |i: int| cs[i].id == id)
}

/// The first `n` elements whose flag equals `want`, in order.
pub open spec fn select_upto<T>(s: Seq<T>, mask: Seq<bool>, want: bool, n: int) -> Seq<T>
    decreases n,
{
    if n <= 0 {
        Seq::empty()
    } else if mask[n - 1] == want {
        select_upto(s, mask, want, n - 1).push(s[n - 1])
    } else {
        select_upto(s, mask, want, n - 1)
    }
}

/// The elements whose flag equals `want`, in order.
pub open spec fn select<T>(s: Seq<T>, mask: Seq<bool>, want: bool) -> Seq<T> {
    select_upto(s, mask, want, s.len() as int)
}

/// The indices below `n` whose flag equals `want`, in increasing order.
pub open spec fn picked_upto(mask: Seq<bool>, want: bool, n: int) -> Seq<usize>
    decreases n,
{
    if n <= 0 {
        Seq::empty()
    } else if mask[n - 1] == want {
        picked_upto(mask, want, n - 1).push((n - 1) as usize)
    } else {
        picked_upto(mask, want, n - 1)
    }
}

/// The indices whose flag equals `want`, in increasing order.
pub open spec fn picked(mask: Seq<bool>, want: bool) -> Seq<usize> {
    picked_upto(mask, want, mask.len() as int)
}

/// The flags that a condition gave, one per connection.
pub open spec fn condition_gave<F: Fn(&Connection) -> bool>(
    condition: F,
    cs: Seq<Connection>,
    mask: Seq<bool>,
) -> bool {
    &&& mask.len() == cs.len()
    &&& forall|i: int| 0 <= i < cs.len() ==> condition.ensures((&cs[i],), mask[i])
}

/// A selection keeps keys apart when the whole sequence does: each selected
/// key is one of the first `n`.
pub proof fn lemma_select_unique<T>(
    s: Seq<T>,
    key: spec_fn(T) -> Seq<char>,
    mask: Seq<bool>,
    want: bool,
    n: int,
)
    requires
        unique(s.map_values(key)),
        0 <= n <= s.len(),
        mask.len() == s.len(),
    ensures
        unique(select_upto(s, mask, want, n).map_values(key)),
        forall|x: int|
            0 <= x < select_upto(s, mask, want, n).len() ==> s.map_values(key).subrange(
                0,
                n,
            ).contains(key(#[trigger] select_upto(s, mask, want, n)[x])),
    decreases n,
{
    if n > 0 {
        lemma_select_unique(s, key, mask, want, n - 1);
        let prev = select_upto(s, mask, want, n - 1);
        let ids = s.map_values(key);
        assert forall|x: int| 0 <= x < prev.len() implies ids.subrange(0, n).contains(
            key(prev[x]),
        ) by {
            assert(ids.subrange(0, n - 1).contains(key(prev[x])));
            let k = choose|k: int|
                0 <= k < n - 1 && #[trigger] ids.subrange(0, n - 1)[k] == key(prev[x]);
            assert(ids.subrange(0, n)[k] == key(prev[x]));
        }
        if mask[n - 1] == want {
            let cur = prev.push(s[n - 1]);
            assert(select_upto(s, mask, want, n) == cur);
            assert forall|x: int| 0 <= x < cur.len() implies ids.subrange(0, n).contains(
                key(cur[x]),
            ) by {
                if x == prev.len() {
                    assert(ids.subrange(0, n)[n - 1] == key(cur[x]));
                } else {
                    assert(cur[x] == prev[x]);
                }
            }
            assert forall|a: int, b: int| 0 <= a < b < cur.len() implies cur.map_values(key)[a]
                != cur.map_values(key)[b] by {
                if b == prev.len() {
                    assert(cur[a] == prev[a]);
                    assert(ids.subrange(0, n - 1).contains(key(prev[a])));
                    let k = choose|k: int|
                        0 <= k < n - 1 && #[trigger] ids.subrange(0, n - 1)[k] == key(prev[a]);
                    assert(ids[k] != ids[n - 1]);
                } else {
                    assert(prev.map_values(key)[a] != prev.map_values(key)[b]);
                }
            }
        } else {
            assert(select_upto(s, mask, want, n) == prev);
        }
    }
}

/// Adding the same connection id twice leaves exactly one connection with that
/// id, and the second add changes nothing. The connection keeps the first
/// session it was given: `s1` when the id was new to the room, else the
/// session already there; never `s2` in its place.
pub proof fn lemma_add_connection_twice(
    cs: Seq<ConnView>,
    id: Seq<char>,
    s1: actix_ws::Session,
    s2: actix_ws::Session,
)
    requires
        unique(conn_ids(cs)),
    ensures
        ({
            let cs1 = with_conn(cs, id, s1);
            let cs2 = with_conn(cs1, id, s2);
            let p = position(conn_ids(cs2), id);
            &&& cs2 == cs1
            &&& unique(conn_ids(cs2))
            &&& 0 <= p < cs2.len()
            &&& forall|i: int| 0 <= i < cs2.len() && (#[trigger] cs2[i]).id == id ==> i == p
            &&& cs2[p].session == if position(conn_ids(cs), id) < 0 {
                s1
            } else {
                cs[position(conn_ids(cs), id)].session
            }
        }),
{
    lemma_position(conn_ids(cs), id);
    let cs1 = with_conn(cs, id, s1);
    if position(conn_ids(cs), id) < 0 {
        assert(conn_ids(cs1) =~= conn_ids(cs).push(id));
        lemma_position(conn_ids(cs1), id);
        lemma_unique_position(conn_ids(cs1), cs.len() as int);
    }
    lemma_position(conn_ids(cs1), id);
    let p = position(conn_ids(cs1), id);
    assert forall|i: int| 0 <= i < cs1.len() && (#[trigger] cs1[i]).id == id implies i == p by {
        assert(conn_ids(cs1)[i] == id);
        lemma_unique_position(conn_ids(cs1), i);
    }
}

#[derive(Clone)]
pub struct Room {
    pub id: String,
    pub connectors: Vec<Connection>,
}

impl View for Room {
    type V = RoomView;

    open spec fn view(&self) -> RoomView {
        RoomView { id: self.id@, conns: views(self.connectors@) }
    }
}

impl Room {
    /// Within the room, no connection id occurs twice.
    pub open spec fn wf(&self) -> bool {
        unique(conn_ids(self@.conns))
    }

    /// An empty room with the given id.
    pub fn new(id: String) -> (r: Self)
        ensures
            r@ == (RoomView { id: id@, conns: Seq::empty() }),
            r.wf(),
    {
        let r = Room { id, connectors: Vec::new() };
        assert(r@.conns =~= Seq::empty());
        r
    }

    /// The index of the first connection with the given id, if any.
    pub(crate) fn find(&self, id: &String) -> (r: Option<usize>)
        ensures
            r is None ==> position(conn_ids(self@.conns), id@) == -1,
            r matches Some(k) ==> k == position(conn_ids(self@.conns), id@) && k
                < self.connectors@.len(),
    {
        let n = self.connectors.len();
        let ghost ids = conn_ids(self@.conns);
        let mut i: usize = 0;
        proof {
            lemma_position(ids, id@);
        }
        while i < n
            invariant
                n == self.connectors@.len(),
                ids == conn_ids(self@.conns),
                ids.len() == n,
                i <= n,
                forall|j: int| 0 <= j < i ==> ids[j] != id@,
            decreases n - i,
        {
            assert(ids[i as int] == self.connectors@[i as int].id@);
            if self.connectors[i].id == *id {
                proof {
                    lemma_position(ids, id@);
                    let k = position(ids, id@);
                    assert(ids[i as int] == id@);
                    assert(k != -1);
                    if k < i {
                        assert(ids[k] != id@);
                    }
                    if k > i {
                        assert(ids[i as int] != id@);
                    }
                }
                return Some(i);
            }
            i = i + 1;
        }
        proof {
            lemma_position(ids, id@);
        }
        None
    }

    /// Adds a connection with the given id and session, unless one with that id
    /// is already in the room: then nothing changes and the new session is
    /// dropped.
    pub fn add_connection(&mut self, id: &String, session: actix_ws::Session)
        ensures
            final(self)@.id == old(self)@.id,
            final(self)@.conns == with_conn(old(self)@.conns, id@, session),
            old(self).wf() ==> final(self).wf(),
    {
        match self.find(id) {
            Some(_) => {},
            None => {
                let ghost before = self@.conns;
                self.connectors.push(Connection::create(id.clone(), session));
                proof {
                    lemma_position(conn_ids(before), id@);
                    assert(self@.conns =~= before.push(ConnView { id: id@, session }));
                    assert(conn_ids(self@.conns) =~= conn_ids(before).push(id@));
                }
            },
        }
    }

    /// Removes the connection with the given id; nothing happens if there is none.
    pub fn remove_connection(&mut self, id: String)
        ensures
            final(self)@.id == old(self)@.id,
            final(self)@.conns == without_conn(old(self)@.conns, id@),
            old(self).wf() ==> final(self).wf(),
    {
        match self.find(&id) {
            Some(k) => {
                let ghost before = self@.conns;
                let _ = self.connectors.remove(k);
                proof {
                    assert(self@.conns =~= before.remove(k as int));
                    assert(conn_ids(self@.conns) =~= conn_ids(before).remove(k as int));
                }
            },
            None => {},
        }
    }

    /// A copy of the connection with the given id, if the room holds one.
    pub fn check_connection(&self, id: &String) -> (r: Option<Connection>)
        ensures
            r is None <==> position(conn_ids(self@.conns), id@) == -1,
            r matches Some(c) ==> c.id@ == id@,
    {
        match self.find(id) {
            Some(k) => {
                proof {
                    lemma_position(conn_ids(self@.conns), id@);
                }
                Some(self.connectors[k].duplicate())
            },
            None => None,
        }
    }

    /// The flags that `condition` gives, one per connection, in order.
    fn condition_mask<F: Fn(&Connection) -> bool>(&self, condition: &F) -> (m: Vec<bool>)
        requires
            forall|c: &Connection| condition.requires((c,)),
        ensures
            condition_gave(*condition, self.connectors@, m@),
    {
        let n = self.connectors.len();
        let mut m: Vec<bool> = Vec::new();
        let mut i: usize = 0;
        while i < n
            invariant
                n == self.connectors@.len(),
                i <= n,
                m@.len() == i,
                forall|c: &Connection| condition.requires((c,)),
                forall|j: int| 0 <= j < i ==> condition.ensures((&self.connectors@[j],), m@[j]),
            decreases n - i,
        {
            let b = condition(&self.connectors[i]);
            m.push(b);
            i = i + 1;
        }
        m
    }

    /// The indices whose flag equals `want`, in increasing order.
    fn indices_where(mask: &Vec<bool>, want: bool) -> (r: Vec<usize>)
        ensures
            r@ == picked(mask@, want),
    {
        let n = mask.len();
        let mut r: Vec<usize> = Vec::new();
        let mut i: usize = 0;
        while i < n
            invariant
                n == mask@.len(),
                i <= n,
                r@ == picked_upto(mask@, want, i as int),
            decreases n - i,
        {
            if mask[i] == want {
                r.push(i);
            }
            i = i + 1;
        }
        r
    }

    /// Takes out the connections whose flag equals `want`, keeping the others in
    /// order, and hands the taken ones back in order.
    fn extract(&mut self, mask: &Vec<bool>, want: bool) -> (taken: Vec<Connection>)
        requires
            mask@.len() == old(self).connectors@.len(),
        ensures
            final(self).id == old(self).id,
            final(self)@.conns == select(old(self)@.conns, mask@, !want),
            views(taken@) == select(old(self)@.conns, mask@, want),
            old(self).wf() ==> final(self).wf(),
    {
        let ghost cs = self@.conns;
        let n = self.connectors.len();
        let mut taken: Vec<Connection> = Vec::new();
        let mut i: usize = 0;
        let mut j: usize = 0;
        while j < n
            invariant
                n == cs.len(),
                mask@.len() == n,
                self.id == old(self).id,
                cs == old(self)@.conns,
                j <= n,
                i <= j,
                i == select_upto(cs, mask@, !want, j as int).len(),
                self@.conns == select_upto(cs, mask@, !want, j as int) + cs.subrange(j as int, n as int),
                views(taken@) == select_upto(cs, mask@, want, j as int),
            decreases n - j,
        {
            let ghost kept = select_upto(cs, mask@, !want, j as int);
            let ghost before = self@.conns;
            assert(before.len() == self.connectors@.len());
            assert(before.len() == kept.len() + n - j);
            assert(before[i as int] == cs[j as int]);
            if mask[j] == want {
                let ghost tk = views(taken@);
                let c = self.connectors.remove(i);
                taken.push(c);
                proof {
                    assert(self@.conns =~= before.remove(i as int));
                    assert(self@.conns =~= kept + cs.subrange(j + 1, n as int));
                    assert(views(taken@) =~= tk.push(cs[j as int]));
                }
            } else {
                i = i + 1;
                proof {
                    assert(self@.conns =~= kept.push(cs[j as int]) + cs.subrange(j + 1, n as int));
                }
            }
            j = j + 1;
        }
        proof {
            assert(self@.conns =~= select(cs, mask@, !want));
            if old(self).wf() {
                let key = |c: ConnView| c.id;
                assert(conn_ids(cs) =~= cs.map_values(key));
                lemma_select_unique(cs, key, mask@, !want, n as int);
                assert(conn_ids(self@.conns) =~= self@.conns.map_values(key));
            }
        }
        taken
    }

    /// Which connections have the given id, one flag per connection.
    fn id_flags(&self, id: &String) -> (m: Vec<bool>)
        ensures
            m@ == id_mask(self@.conns, id@),
    {
        let n = self.connectors.len();
        let mut m: Vec<bool> = Vec::new();
        let mut i: usize = 0;
        while i < n
            invariant
                n == self.connectors@.len(),
                i <= n,
                m@ =~= id_mask(self@.conns, id@).subrange(0, i as int),
            decreases n - i,
        {
            m.push(self.connectors[i].id == *id);
            i = i + 1;
        }
        m
    }

    /// The indices of all connections, in insertion order: a fan-out to the
    /// whole room sends once to each of them.
    pub fn recipients(&self) -> (r: Vec<usize>)
        ensures
            r@.len() == self.connectors@.len(),
            forall|i: int| 0 <= i < r@.len() ==> r@[i] == i,
    {
        let n = self.connectors.len();
        let mut r: Vec<usize> = Vec::new();
        let mut i: usize = 0;
        while i < n
            invariant
                n == self.connectors@.len(),
                i <= n,
                r@.len() == i,
                forall|j: int| 0 <= j < i ==> r@[j] == j,
            decreases n - i,
        {
            r.push(i);
            i = i + 1;
        }
        r
    }

    /// The indices of the connections for which `condition` holds, in
    /// insertion order; the condition is asked once per connection.
    pub fn recipients_if<F: Fn(&Connection) -> bool>(&self, condition: F) -> (r: Vec<usize>)
        requires
            forall|c: &Connection| condition.requires((c,)),
        ensures
            exists|mask: Seq<bool>|
                condition_gave(condition, self.connectors@, mask) && r@ == picked(mask, true),
    {
        let m = self.condition_mask(&condition);
        Self::indices_where(&m, true)
    }

    /// The indices of the connections for which `condition` fails, in
    /// insertion order; the condition is asked once per connection.
    pub fn recipients_if_not<F: Fn(&Connection) -> bool>(&self, condition: F) -> (r: Vec<usize>)
        requires
            forall|c: &Connection| condition.requires((c,)),
        ensures
            exists|mask: Seq<bool>|
                condition_gave(condition, self.connectors@, mask) && r@ == picked(mask, false),
    {
        let m = self.condition_mask(&condition);
        Self::indices_where(&m, false)
    }

    /// Takes every connection with the given id out of the room and hands them
    /// back, so that the caller can close their sessions. The room stays.
    pub fn take_conn(&mut self, id: &String) -> (taken: Vec<Connection>)
        ensures
            final(self)@.id == old(self)@.id,
            final(self)@.conns == select(old(self)@.conns, id_mask(old(self)@.conns, id@), false),
            views(taken@) == select(old(self)@.conns, id_mask(old(self)@.conns, id@), true),
            old(self).wf() ==> final(self).wf(),
    {
        let m = self.id_flags(id);
        self.extract(&m, true)
    }

    /// Takes all connections out of the room and hands them back in order, so
    /// that the caller can close their sessions. The room stays, empty.
    pub fn take_all(&mut self) -> (taken: Vec<Connection>)
        ensures
            final(self)@.id == old(self)@.id,
            final(self)@.conns == Seq::<ConnView>::empty(),
            views(taken@) == old(self)@.conns,
            final(self).wf(),
    {
        let mut taken: Vec<Connection> = Vec::new();
        core::mem::swap(&mut taken, &mut self.connectors);
        assert(self@.conns =~= Seq::<ConnView>::empty());
        taken
    }

    /// Takes the connections for which `condition` holds out of the room and
    /// hands them back in order; the others stay, in order.
    pub fn take_if<F: Fn(&Connection) -> bool>(&mut self, condition: F) -> (taken: Vec<Connection>)
        requires
            forall|c: &Connection| condition.requires((c,)),
        ensures
            final(self)@.id == old(self)@.id,
            exists|mask: Seq<bool>|
                {
                    &&& condition_gave(condition, old(self).connectors@, mask)
                    &&& final(self)@.conns == select(old(self)@.conns, mask, false)
                    &&& views(taken@) == select(old(self)@.conns, mask, true)
                },
            old(self).wf() ==> final(self).wf(),
    {
        let m = self.condition_mask(&condition);
        self.extract(&m, true)
    }

    /// Takes the connections for which `condition` fails out of the room and
    /// hands them back in order; the others stay, in order.
    pub fn take_if_not<F: Fn(&Connection) -> bool>(&mut self, condition: F) -> (taken: Vec<
        Connection,
    >)
        requires
            forall|c: &Connection| condition.requires((c,)),
        ensures
            final(self)@.id == old(self)@.id,
            exists|mask: Seq<bool>|
                {
                    &&& condition_gave(condition, old(self).connectors@, mask)
                    &&& final(self)@.conns == select(old(self)@.conns, mask, true)
                    &&& views(taken@) == select(old(self)@.conns, mask, false)
                },
            old(self).wf() ==> final(self).wf(),
    {
        let m = self.condition_mask(&condition);
        self.extract(&m, false)
    }
}

} // verus!
