use vstd::prelude::*;

verus! {

/// One named room and the identifiers of the sessions that are its members.
struct Room {
    pub name: String,
    pub members: Vec<u64>,
}

/// One broadcast that the transport has to carry out: `payload` goes to the
/// outbound queue of every session in `recipients`.
pub struct Delivery {
    pub recipients: Vec<u64>,
    pub payload: String,
}

/// The process-wide mapping from room name to member sessions.
///
/// Its model is a map from room name to the set of member session
/// identifiers. A room, once created, stays (possibly empty).
pub struct RoomRegistry {
    rooms: Vec<Room>,
    model: Ghost<Map<Seq<char>, Set<u64>>>,
}

impl View for RoomRegistry {
    type V = Map<Seq<char>, Set<u64>>;

    closed spec fn view(&self) -> Map<Seq<char>, Set<u64>> {
        self.model@
    }
}

/// The members of room `name` in the model `m`; empty when the room is absent.
pub open spec fn members_of(m: Map<Seq<char>, Set<u64>>, name: Seq<char>) -> Set<u64> {
    if m.contains_key(name) {
        m[name]
    } else {
        Set::empty()
    }
}

/// The model after `add_member(name, id)`: the room exists and holds `id`.
pub open spec fn with_member(m: Map<Seq<char>, Set<u64>>, name: Seq<char>, id: u64) -> Map<
    Seq<char>,
    Set<u64>,
> {
    m.insert(name, members_of(m, name).insert(id))
}

/// The model after `remove_member(name, id)`: `id` leaves that room, if present.
pub open spec fn without_member(m: Map<Seq<char>, Set<u64>>, name: Seq<char>, id: u64) -> Map<
    Seq<char>,
    Set<u64>,
> {
    if m.contains_key(name) {
        m.insert(name, m[name].remove(id))
    } else {
        m
    }
}

/// The model after `remove_everywhere(id)`: every room kept, `id` in none.
pub open spec fn without_session(m: Map<Seq<char>, Set<u64>>, id: u64) -> Map<
    Seq<char>,
    Set<u64>,
> {
    m.map_values(|s: Set<u64>| s.remove(id))
}

/// The model after `ensure_room(name)`.
pub open spec fn with_room(m: Map<Seq<char>, Set<u64>>, name: Seq<char>) -> Map<
    Seq<char>,
    Set<u64>,
> {
    if m.contains_key(name) {
        m
    } else {
        m.insert(name, Set::empty())
    }
}

/// Well-formedness of the room vector against the model: see `RoomRegistry::wf`.
spec fn rooms_wf(rooms: Seq<Room>, model: Map<Seq<char>, Set<u64>>) -> bool {
    &&& forall|i: int, j: int| 0 <= i < j < rooms.len() ==> rooms[i].name@ != rooms[j].name@
    &&& forall|i: int| 0 <= i < rooms.len() ==> (#[trigger] rooms[i]).members@.no_duplicates()
    &&& forall|i: int|
        0 <= i < rooms.len() ==> model.contains_key((#[trigger] rooms[i]).name@) && model[rooms[i].name@]
            == rooms[i].members@.to_set()
    &&& forall|n: Seq<char>|
        #[trigger] model.contains_key(n) ==> exists|i: int|
            0 <= i < rooms.len() && (#[trigger] rooms[i]).name@ == n
}

/// Replacing the members of one room keeps the registry well formed.
proof fn lemma_update_room(
    rooms: Seq<Room>,
    model: Map<Seq<char>, Set<u64>>,
    i: int,
    room: Room,
)
    requires
        rooms_wf(rooms, model),
        0 <= i < rooms.len(),
        room.name@ == rooms[i].name@,
        room.members@.no_duplicates(),
    ensures
        rooms_wf(rooms.update(i, room), model.insert(room.name@, room.members@.to_set())),
{
    let rs = rooms.update(i, room);
    let m = model.insert(room.name@, room.members@.to_set());
    assert forall|k: Seq<char>| #[trigger] m.contains_key(k) implies exists|j: int|
        0 <= j < rs.len() && (#[trigger] rs[j]).name@ == k by {
        let j = choose|j: int| 0 <= j < rooms.len() && (#[trigger] rooms[j]).name@ == k;
        assert(rs[j].name@ == k);
    }
    assert forall|j: int| 0 <= j < rs.len() implies m.contains_key((#[trigger] rs[j]).name@)
        && m[rs[j].name@] == rs[j].members@.to_set() by {
        if j != i {
            assert(rooms[j].name@ != rooms[i].name@);
        }
    }
}

/// Appending a fresh identifier keeps members unique and adds it to the set.
proof fn lemma_push_fresh(s: Seq<u64>, x: u64)
    requires
        s.no_duplicates(),
        !s.contains(x),
    ensures
        s.push(x).no_duplicates(),
        s.push(x).to_set() == s.to_set().insert(x),
{
    assert forall|a: int, b: int| 0 <= a < b < s.push(x).len() implies s.push(x)[a] != s.push(
        x,
    )[b] by {
        if b == s.len() {
            assert(s.contains(s[a]));
        }
    }
    assert forall|y: u64| s.push(x).contains(y) <==> s.to_set().insert(x).contains(y) by {
        if s.push(x).contains(y) && y != x {
            let k = choose|k: int| 0 <= k < s.push(x).len() && s.push(x)[k] == y;
            assert(s[k] == y);
        }
        if s.contains(y) {
            let k = choose|k: int| 0 <= k < s.len() && s[k] == y;
            assert(s.push(x)[k] == y);
        }
        if y == x {
            assert(s.push(x)[s.len() as int] == y);
        }
    }
    assert(s.push(x).to_set() =~= s.to_set().insert(x));
}

/// Removing the one position that holds `s[j]` removes it from the set.
proof fn lemma_remove_at(s: Seq<u64>, j: int)
    requires
        s.no_duplicates(),
        0 <= j < s.len(),
    ensures
        s.remove(j).no_duplicates(),
        s.remove(j).to_set() == s.to_set().remove(s[j]),
{
    let r = s.remove(j);
    assert forall|a: int, b: int| 0 <= a < b < r.len() implies r[a] != r[b] by {
        let a2 = if a < j { a } else { a + 1 };
        let b2 = if b < j { b } else { b + 1 };
        assert(r[a] == s[a2] && r[b] == s[b2]);
    }
    assert forall|y: u64| r.contains(y) <==> s.to_set().remove(s[j]).contains(y) by {
        if r.contains(y) {
            let k = choose|k: int| 0 <= k < r.len() && r[k] == y;
            let k2 = if k < j { k } else { k + 1 };
            assert(s[k2] == y);
            assert(k2 != j);
        }
        if s.contains(y) && y != s[j] {
            let k = choose|k: int| 0 <= k < s.len() && s[k] == y;
            if k < j {
                assert(r[k] == y);
            } else {
                assert(k != j);
                assert(r[k - 1] == y);
            }
        }
    }
    assert(r.to_set() =~= s.to_set().remove(s[j]));
}

/// The position of `id` in `v`, if it is there.
fn position(v: &Vec<u64>, id: u64) -> (r: Option<usize>)
    ensures
        match r {
            Some(j) => j < v@.len() && v@[j as int] == id,
            None => !v@.contains(id),
        },
{
    let mut j: usize = 0;
    while j < v.len()
        invariant
            j <= v@.len(),
            forall|k: int| 0 <= k < j ==> v@[k] != id,
        decreases v@.len() - j,
    {
        if v[j] == id {
            return Some(j);
        }
        j = j + 1;
    }
    None
}

impl RoomRegistry {
    /// Room names are unique, members are unique within a room, and the
    /// model holds exactly the rooms and members of the vector.
    pub closed spec fn wf(&self) -> bool {
        rooms_wf(self.rooms@, self.model@)
    }

    /// An empty registry.
    pub fn new() -> (r: Self)
        ensures
            r.wf(),
            r@ == Map::<Seq<char>, Set<u64>>::empty(),
    {
        RoomRegistry { rooms: Vec::new(), model: Ghost(Map::empty()) }
    }

    /// The index of the room called `name`, if there is one.
    fn find(&self, name: &String) -> (r: Option<usize>)
        requires
            self.wf(),
        ensures
            match r {
                Some(i) => i < self.rooms@.len() && self.rooms@[i as int].name@ == name@,
                None => !self@.contains_key(name@),
            },
    {
        let mut i: usize = 0;
        while i < self.rooms.len()
            invariant
                self.wf(),
                i <= self.rooms@.len(),
                forall|k: int| 0 <= k < i ==> self.rooms@[k].name@ != name@,
            decreases self.rooms@.len() - i,
        {
            if self.rooms[i].name == *name {
                return Some(i);
            }
            i = i + 1;
        }
        None
    }

    /// Whether a room called `name` exists.
    pub fn has_room(&self, name: &String) -> (r: bool)
        requires
            self.wf(),
        ensures
            r == self@.contains_key(name@),
    {
        match self.find(name) {
            Some(_) => true,
            None => false,
        }
    }

    /// Creates an empty room called `name` unless one exists; returns its index.
    fn ensure_index(&mut self, name: &String) -> (r: usize)
        requires
            old(self).wf(),
        ensures
            final(self).wf(),
            final(self)@ == with_room(old(self)@, name@),
            r < final(self).rooms@.len(),
            final(self).rooms@[r as int].name@ == name@,
    {
        match self.find(name) {
            Some(i) => i,
            None => {
                let ghost old_rooms = self.rooms@;
                let ghost old_model = self.model@;
                self.rooms.push(Room { name: name.clone(), members: Vec::new() });
                self.model = Ghost(self.model@.insert(name@, Set::empty()));
                proof {
                    let n = old_rooms.len() as int;
                    assert(Seq::<u64>::empty().to_set() =~= Set::empty());
                    assert(self.rooms@[n].members@ =~= Seq::<u64>::empty());
                    assert forall|k: Seq<char>| #[trigger]
                        self.model@.contains_key(k) implies exists|i: int|
                        0 <= i < self.rooms@.len() && (#[trigger] self.rooms@[i]).name@ == k by {
                        if k != name@ {
                            let i = choose|i: int|
                                0 <= i < old_rooms.len() && (#[trigger] old_rooms[i]).name@ == k;
                            assert(self.rooms@[i] == old_rooms[i]);
                        } else {
                            assert(self.rooms@[n].name@ == k);
                        }
                    }
                    assert forall|i: int|
                        0 <= i < self.rooms@.len() implies self.model@.contains_key(
                        (#[trigger] self.rooms@[i]).name@,
                    ) && self.model@[self.rooms@[i].name@] == self.rooms@[i].members@.to_set() by {
                        if i < n {
                            assert(self.rooms@[i] == old_rooms[i]);
                            assert(old_model.contains_key(old_rooms[i].name@));
                        }
                    }
                }
                self.rooms.len() - 1
            },
        }
    }

    /// Adds `id` to room `i` (when `add`) or takes it out of that room.
    fn update_room(&mut self, i: usize, id: u64, add: bool)
        requires
            old(self).wf(),
            i < old(self).rooms@.len(),
        ensures
            final(self).wf(),
            final(self)@ == old(self)@.insert(
                old(self).rooms@[i as int].name@,
                if add {
                    old(self)@[old(self).rooms@[i as int].name@].insert(id)
                } else {
                    old(self)@[old(self).rooms@[i as int].name@].remove(id)
                },
            ),
            final(self).rooms@.len() == old(self).rooms@.len(),
            forall|k: int|
                0 <= k < old(self).rooms@.len() ==> (#[trigger] final(self).rooms@[k]).name@
                    == old(self).rooms@[k].name@,
    {
        let ghost old_rooms = self.rooms@;
        let ghost old_set = self.model@[old_rooms[i as int].name@];
        let mut room = self.rooms.remove(i);
        assert(room == old_rooms[i as int]);
        let ghost old_members = room.members@;
        let found = position(&room.members, id);
        if add {
            if found.is_none() {
                proof {
                    lemma_push_fresh(old_members, id);
                }
                room.members.push(id);
            } else {
                assert(old_members.contains(id));
                assert(old_set.insert(id) =~= old_set);
            }
        } else {
            match found {
                Some(j) => {
                    proof {
                        lemma_remove_at(old_members, j as int);
                    }
                    room.members.remove(j);
                },
                None => {
                    assert(old_set.remove(id) =~= old_set);
                },
            }
        }
        proof {
            lemma_update_room(old_rooms, self.model@, i as int, room);
        }
        self.model = Ghost(self.model@.insert(room.name@, room.members@.to_set()));
        self.rooms.insert(i, room);
        assert(self.rooms@ =~= old_rooms.update(i as int, room));
    }

    /// Makes `id` a member of room `name`, creating the room if it is absent.
    /// A session already in the room is not added twice.
    pub fn add_member(&mut self, name: &String, id: u64)
        requires
            old(self).wf(),
        ensures
            final(self).wf(),
            final(self)@ == with_member(old(self)@, name@, id),
    {
        let i = self.ensure_index(name);
        self.update_room(i, id, true);
        assert(self@ =~= with_member(old(self)@, name@, id));
    }

    /// Takes `id` out of room `name`; nothing happens when the room is absent
    /// or `id` is not a member.
    pub fn remove_member(&mut self, name: &String, id: u64)
        requires
            old(self).wf(),
        ensures
            final(self).wf(),
            final(self)@ == without_member(old(self)@, name@, id),
    {
        match self.find(name) {
            Some(i) => {
                self.update_room(i, id, false);
            },
            None => {},
        }
    }

    /// Creates an empty room called `name` if it is absent; otherwise does nothing.
    pub fn ensure_room(&mut self, name: &String)
        requires
            old(self).wf(),
        ensures
            final(self).wf(),
            final(self)@ == with_room(old(self)@, name@),
    {
        self.ensure_index(name);
    }

    /// Takes `id` out of every room; the rooms themselves all stay.
    pub fn remove_everywhere(&mut self, id: u64)
        requires
            old(self).wf(),
        ensures
            final(self).wf(),
            final(self)@ == without_session(old(self)@, id),
    {
        let ghost old_model = self.model@;
        let ghost names = self.rooms@.map_values(|r: Room| r.name@);
        let mut i: usize = 0;
        while i < self.rooms.len()
            invariant
                self.wf(),
                i <= self.rooms@.len(),
                names.len() == self.rooms@.len(),
                forall|k: int| 0 <= k < names.len() ==> (#[trigger] self.rooms@[k]).name@ == names[k],
                self.model@.dom() == old_model.dom(),
                forall|k: int| 0 <= k < names.len() ==> old_model.contains_key(#[trigger] names[k]),
                forall|k: int|
                    0 <= k < names.len() ==> #[trigger] self.model@[names[k]] == if k < i {
                        old_model[names[k]].remove(id)
                    } else {
                        old_model[names[k]]
                    },
            decreases self.rooms@.len() - i,
        {
            let ghost before = self.model@;
            self.update_room(i, id, false);
            proof {
                assert forall|k: int| 0 <= k < names.len() implies #[trigger] self.model@[names[k]]
                    == if k < i + 1 {
                    old_model[names[k]].remove(id)
                } else {
                    old_model[names[k]]
                } by {
                    if k != i {
                        assert(self.rooms@[k].name@ == names[k]);
                        assert(self.rooms@[i as int].name@ == names[i as int]);
                        if k < i {
                            assert(self.rooms@[k].name@ != self.rooms@[i as int].name@);
                        } else {
                            assert(self.rooms@[i as int].name@ != self.rooms@[k].name@);
                        }
                    }
                }
                assert(self.model@.dom() =~= old_model.dom());
            }
            i = i + 1;
        }
        proof {
            assert forall|n: Seq<char>| #[trigger] self.model@.contains_key(n) implies self.model@[n]
                == old_model[n].remove(id) by {
                let k = choose|k: int| 0 <= k < self.rooms@.len() && (#[trigger] self.rooms@[k]).name@ == n;
                assert(names[k] == n);
            }
        }
        assert(self@ =~= without_session(old(self)@, id));
    }

    /// The members of room `name` (none when the room is absent), each once.
    pub fn members(&self, name: &String) -> (r: Vec<u64>)
        requires
            self.wf(),
        ensures
            r@.no_duplicates(),
            r@.to_set() == members_of(self@, name@),
    {
        match self.find(name) {
            Some(i) => {
                let r = self.rooms[i].members.clone();
                assert(r@ =~= self.rooms@[i as int].members@);
                r
            },
            None => {
                let r: Vec<u64> = Vec::new();
                assert(r@.to_set() =~= Set::<u64>::empty());
                r
            },
        }
    }

    /// How many sessions are in room `name`; zero when the room is absent.
    pub fn member_count(&self, name: &String) -> (r: usize)
        requires
            self.wf(),
        ensures
            r == members_of(self@, name@).len(),
            members_of(self@, name@).finite(),
    {
        let m = self.members(name);
        proof {
            m@.unique_seq_to_set();
        }
        m.len()
    }

    /// Whether session `id` is a member of room `name`.
    pub fn is_member(&self, name: &String, id: u64) -> (r: bool)
        requires
            self.wf(),
        ensures
            r == members_of(self@, name@).contains(id),
    {
        let m = self.members(name);
        position(&m, id).is_some()
    }

    /// The broadcast of `payload` to room `name`: every current member, each
    /// once; nobody when the room is absent. Handing the payload to each
    /// member's queue is the transport's part, so a member whose queue fails
    /// cannot stop delivery to the others.
    pub fn broadcast(&self, name: &String, payload: String) -> (r: Delivery)
        requires
            self.wf(),
        ensures
            r.recipients@.no_duplicates(),
            r.recipients@.to_set() == members_of(self@, name@),
            r.payload == payload,
    {
        Delivery { recipients: self.members(name), payload }
    }
}

} // verus!
