use vstd::prelude::*;
use vstd::string::StringExecFns;
use crate::frame::{Command, CommandView, parse_frame, parse_spec};
use crate::registry::{
    Delivery,
    RoomRegistry,
    members_of,
    with_member,
    without_member,
    without_session,
};

verus! {

/// The server side of one connection: its identifier and the room it is in.
pub struct Session {
    id: u64,
    current: Option<String>,
}

/// The mathematical value of a `Session`.
pub struct SessionView {
    pub id: u64,
    pub current: Option<Seq<char>>,
}

impl View for Session {
    type V = SessionView;

    closed spec fn view(&self) -> SessionView {
        SessionView {
            id: self.id,
            current: match self.current {
                Some(s) => Some(s@),
                None => None,
            },
        }
    }
}

/// The text delivered for a room message: `"<username> : <text>"`.
pub open spec fn payload_of(username: Seq<char>, text: Seq<char>) -> Seq<char> {
    username + " : "@ + text
}

/// The registry model after session `id` has issued command `c`. Creating
/// or joining a room first leaves every room the session was in.
pub open spec fn step_rooms(m: Map<Seq<char>, Set<u64>>, id: u64, c: CommandView) -> Map<
    Seq<char>,
    Set<u64>,
> {
    match c {
        CommandView::CreateRoom { room } => with_member(without_session(m, id), room, id),
        CommandView::JoinRoom { room } => with_member(without_session(m, id), room, id),
        CommandView::LeaveRoom { room } => without_member(m, room, id),
        CommandView::RoomMsg { .. } => m,
    }
}

/// A session's current room after it has issued command `c`. Leaving a room
/// other than the current one leaves the current one in place.
pub open spec fn step_current(cur: Option<Seq<char>>, c: CommandView) -> Option<Seq<char>> {
    match c {
        CommandView::CreateRoom { room } => Some(room),
        CommandView::JoinRoom { room } => Some(room),
        CommandView::LeaveRoom { room } => if cur == Some(room) {
            None
        } else {
            cur
        },
        CommandView::RoomMsg { .. } => cur,
    }
}

/// What command `c` hands to the transport when issued against model `m`:
/// a room message goes, formatted, to exactly the members of its room (the
/// sender too, when it is one); other commands deliver nothing.
pub open spec fn delivers(r: Option<Delivery>, m: Map<Seq<char>, Set<u64>>, c: CommandView) -> bool {
    match c {
        CommandView::RoomMsg { room, username, text } => match r {
            Some(d) => {
                &&& d.recipients@.no_duplicates()
                &&& d.recipients@.to_set() == members_of(m, room)
                &&& d.payload@ == payload_of(username, text)
            },
            None => false,
        },
        _ => r is None,
    }
}

/// Session `id` is in room `cur` and in no other (in none when `cur` is `None`).
pub open spec fn consistent(m: Map<Seq<char>, Set<u64>>, id: u64, cur: Option<Seq<char>>) -> bool {
    forall|n: Seq<char>| #[trigger] members_of(m, n).contains(id) <==> cur == Some(n)
}

/// The formatted text of a room message.
fn payload(username: &String, text: &String) -> (r: String)
    ensures
        r@ == payload_of(username@, text@),
{
    let mut r = username.clone();
    r.append(" : ");
    r.append(text.as_str());
    r
}

impl Session {
    /// A freshly accepted connection: identifier `id`, in no room.
    pub fn new(id: u64) -> (r: Self)
        ensures
            r@.id == id,
            r@.current is None,
    {
        Session { id, current: None }
    }

    /// The identifier of this session.
    pub fn id(&self) -> (r: u64)
        ensures
            r == self@.id,
    {
        self.id
    }

    /// The name of the room this session is in, if any.
    pub fn current_room(&self) -> (r: Option<String>)
        ensures
            match r {
                Some(s) => self@.current == Some(s@),
                None => self@.current is None,
            },
    {
        match &self.current {
            Some(s) => Some(s.clone()),
            None => None,
        }
    }

    /// Carries out one command of this session against the registry, and
    /// returns the broadcast that a room message asks for.
    pub fn handle_command(&mut self, registry: &mut RoomRegistry, cmd: Command) -> (r: Option<
        Delivery,
    >)
        requires
            old(registry).wf(),
        ensures
            final(registry).wf(),
            final(registry)@ == step_rooms(old(registry)@, old(self)@.id, cmd@),
            final(self)@.id == old(self)@.id,
            final(self)@.current == step_current(old(self)@.current, cmd@),
            delivers(r, old(registry)@, cmd@),
            consistent(old(registry)@, old(self)@.id, old(self)@.current) ==> consistent(
                final(registry)@,
                final(self)@.id,
                final(self)@.current,
            ),
    {
        let ghost m0 = registry@;
        match cmd {
            Command::CreateRoom { room } => {
                self.join(registry, room);
                None
            },
            Command::JoinRoom { room } => {
                self.join(registry, room);
                None
            },
            Command::LeaveRoom { room } => {
                registry.remove_member(&room, self.id);
                let same = match &self.current {
                    Some(c) => *c == room,
                    None => false,
                };
                if same {
                    self.current = None;
                }
                proof {
                    if consistent(m0, self.id, old(self)@.current) {
                        let m1 = registry@;
                        assert forall|n: Seq<char>|
                            #[trigger] members_of(m1, n).contains(self.id)
                                <==> self@.current == Some(n) by {
                            assert(members_of(m0, n).contains(self.id) <==> old(self)@.current == Some(n));
                            if n == room@ && m0.contains_key(n) {
                                assert(m1[n] == m0[n].remove(self.id));
                            }
                            if n != room@ {
                                assert(m1.contains_key(n) == m0.contains_key(n));
                                if m0.contains_key(n) {
                                    assert(m1[n] == m0[n]);
                                }
                            }
                        }
                    }
                }
                None
            },
            Command::RoomMsg { room, username, text } => {
                Some(registry.broadcast(&room, payload(&username, &text)))
            },
        }
    }

    /// Leaves every room, then joins `room`, creating it if absent.
    fn join(&mut self, registry: &mut RoomRegistry, room: String)
        requires
            old(registry).wf(),
        ensures
            final(registry).wf(),
            final(registry)@ == with_member(without_session(old(registry)@, old(self)@.id), room@, old(self)@.id),
            final(self)@.id == old(self)@.id,
            final(self)@.current == Some(room@),
            consistent(final(registry)@, final(self)@.id, final(self)@.current),
    {
        let ghost m0 = registry@;
        registry.remove_everywhere(self.id);
        registry.add_member(&room, self.id);
        self.current = Some(room);
        proof {
            let m1 = registry@;
            assert forall|n: Seq<char>|
                #[trigger] members_of(m1, n).contains(self.id) <==> self@.current == Some(n) by {
                if n != room@ && m1.contains_key(n) {
                    assert(m1[n] == m0[n].remove(self.id));
                }
            }
        }
    }

    /// Reads one inbound frame and carries out its command. A frame that is
    /// malformed or carries no known tag changes nothing and delivers nothing.
    pub fn handle_frame(&mut self, registry: &mut RoomRegistry, frame: &str) -> (r: Option<Delivery>)
        requires
            old(registry).wf(),
        ensures
            final(registry).wf(),
            final(self)@.id == old(self)@.id,
            match parse_spec(frame@) {
                Some(c) => {
                    &&& final(registry)@ == step_rooms(old(registry)@, old(self)@.id, c)
                    &&& final(self)@.current == step_current(old(self)@.current, c)
                    &&& delivers(r, old(registry)@, c)
                },
                None => {
                    &&& final(registry)@ == old(registry)@
                    &&& final(self)@ == old(self)@
                    &&& r is None
                },
            },
            consistent(old(registry)@, old(self)@.id, old(self)@.current) ==> consistent(
                final(registry)@,
                final(self)@.id,
                final(self)@.current,
            ),
    {
        match parse_frame(frame) {
            Some(cmd) => self.handle_command(registry, cmd),
            None => None,
        }
    }

    /// Tears the session down: it leaves every room it is in and has no
    /// current room afterwards.
    pub fn close(&mut self, registry: &mut RoomRegistry)
        requires
            old(registry).wf(),
        ensures
            final(registry).wf(),
            final(registry)@ == without_session(old(registry)@, old(self)@.id),
            final(self)@.id == old(self)@.id,
            final(self)@.current is None,
            forall|n: Seq<char>| !(#[trigger] members_of(final(registry)@, n)).contains(final(self)@.id),
    {
        registry.remove_everywhere(self.id);
        self.current = None;
    }
}

} // verus!
