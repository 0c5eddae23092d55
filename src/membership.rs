use vstd::prelude::*;
use crate::frame::CommandView;
use crate::registry::{members_of, without_session};
use crate::router::step_rooms;

verus! {

/// The registry model after the commands `events` have been carried out in
/// order; each event names the session that issued it.
pub open spec fn run(m: Map<Seq<char>, Set<u64>>, events: Seq<(u64, CommandView)>) -> Map<
    Seq<char>,
    Set<u64>,
>
    decreases events.len(),
{
    if events.len() == 0 {
        m
    } else {
        run(step_rooms(m, events[0].0, events[0].1), events.drop_first())
    }
}

/// Session `id` is a member of no more than one room of `m`.
pub open spec fn in_at_most_one_room(m: Map<Seq<char>, Set<u64>>, id: u64) -> bool {
    forall|a: Seq<char>, b: Seq<char>|
        #[trigger] members_of(m, a).contains(id) && #[trigger] members_of(m, b).contains(id) ==> a
            == b
}

/// Whether `c` creates or joins room `room`.
pub open spec fn enters(c: CommandView, room: Seq<char>) -> bool {
    match c {
        CommandView::CreateRoom { room: r } => r == room,
        CommandView::JoinRoom { room: r } => r == room,
        _ => false,
    }
}

/// One command moves session `s` into room `n` only when `s` itself creates
/// or joins `n`.
pub proof fn lemma_step_membership(
    m: Map<Seq<char>, Set<u64>>,
    x: u64,
    c: CommandView,
    s: u64,
    n: Seq<char>,
)
    ensures
        members_of(step_rooms(m, x, c), n).contains(s) ==> members_of(m, n).contains(s) || (x == s
            && enters(c, n)),
        x == s && enters(c, n) ==> members_of(step_rooms(m, x, c), n).contains(s),
{
    match c {
        CommandView::CreateRoom { room } => {
            let w = without_session(m, x);
            if n != room && m.contains_key(n) {
                assert(w[n] == m[n].remove(x));
            }
            if n == room && m.contains_key(n) {
                assert(w[n] == m[n].remove(x));
            }
        },
        CommandView::JoinRoom { room } => {
            let w = without_session(m, x);
            if m.contains_key(n) {
                assert(w[n] == m[n].remove(x));
            }
        },
        CommandView::LeaveRoom { room } => {},
        CommandView::RoomMsg { .. } => {},
    }
}

/// Whatever commands any sessions issue, a session that starts in at most
/// one room is never in two rooms at once.
pub proof fn lemma_one_room_at_a_time(
    m: Map<Seq<char>, Set<u64>>,
    events: Seq<(u64, CommandView)>,
    s: u64,
)
    requires
        in_at_most_one_room(m, s),
    ensures
        in_at_most_one_room(run(m, events), s),
    decreases events.len(),
{
    if events.len() > 0 {
        let (x, c) = events[0];
        let m1 = step_rooms(m, x, c);
        assert forall|a: Seq<char>, b: Seq<char>|
            #[trigger] members_of(m1, a).contains(s) && #[trigger] members_of(m1, b).contains(s)
                implies a == b by {
            lemma_step_membership(m, x, c, s, a);
            lemma_step_membership(m, x, c, s, b);
            if x == s && (enters(c, a) || enters(c, b)) {
                match c {
                    CommandView::CreateRoom { room } => {
                        let w = without_session(m, x);
                        if a != room {
                            assert(members_of(m1, a) == members_of(w, a));
                        }
                        if b != room {
                            assert(members_of(m1, b) == members_of(w, b));
                        }
                    },
                    CommandView::JoinRoom { room } => {
                        let w = without_session(m, x);
                        if a != room {
                            assert(members_of(m1, a) == members_of(w, a));
                        }
                        if b != room {
                            assert(members_of(m1, b) == members_of(w, b));
                        }
                    },
                    _ => {},
                }
            }
        }
        lemma_one_room_at_a_time(m1, events.drop_first(), s);
    }
}

/// Starting from an empty registry, no session is ever in two rooms at once.
pub proof fn lemma_one_room_from_empty(events: Seq<(u64, CommandView)>, s: u64)
    ensures
        in_at_most_one_room(run(Map::empty(), events), s),
{
    lemma_one_room_at_a_time(Map::empty(), events, s);
}

/// After session `id` leaves `room` it is no member of it; the room loses
/// exactly one member when `id` was one and none otherwise; and leaving a
/// second time changes nothing.
pub proof fn lemma_leave(m: Map<Seq<char>, Set<u64>>, id: u64, room: Seq<char>)
    requires
        members_of(m, room).finite(),
    ensures
        ({
            let m1 = step_rooms(m, id, CommandView::LeaveRoom { room });
            &&& !members_of(m1, room).contains(id)
            &&& members_of(m1, room).len() == if members_of(m, room).contains(id) {
                (members_of(m, room).len() - 1) as nat
            } else {
                members_of(m, room).len()
            }
            &&& step_rooms(m1, id, CommandView::LeaveRoom { room }) == m1
        }),
{
    let m1 = step_rooms(m, id, CommandView::LeaveRoom { room });
    if m.contains_key(room) {
        assert(members_of(m1, room) == m[room].remove(id));
        if !m[room].contains(id) {
            assert(m[room].remove(id) =~= m[room]);
        }
        let m2 = step_rooms(m1, id, CommandView::LeaveRoom { room });
        assert(m1[room].remove(id) =~= m1[room]);
        assert(m2 =~= m1);
    }
}

/// A session out of `room` stays out, and so gets no broadcast to it, for as
/// long as it neither creates nor joins that room, whatever other sessions do.
pub proof fn lemma_stays_out(
    m: Map<Seq<char>, Set<u64>>,
    events: Seq<(u64, CommandView)>,
    id: u64,
    room: Seq<char>,
)
    requires
        !members_of(m, room).contains(id),
        forall|k: int| 0 <= k < events.len() && (#[trigger] events[k]).0 == id ==> !enters(events[k].1, room),
    ensures
        !members_of(run(m, events), room).contains(id),
    decreases events.len(),
{
    if events.len() > 0 {
        let (x, c) = events[0];
        lemma_step_membership(m, x, c, id, room);
        let rest = events.drop_first();
        assert forall|k: int| 0 <= k < rest.len() && (#[trigger] rest[k]).0 == id implies !enters(
            rest[k].1,
            room,
        ) by {
            assert(rest[k] == events[k + 1]);
        }
        lemma_stays_out(step_rooms(m, x, c), rest, id, room);
    }
}

/// Two distinct sessions that each create the same room name, one after the
/// other in either order, end up together in that one room.
pub proof fn lemma_same_name_same_room(
    m: Map<Seq<char>, Set<u64>>,
    a: u64,
    b: u64,
    room: Seq<char>,
)
    requires
        a != b,
    ensures
        ({
            let m2 = run(
                m,
                seq![(a, CommandView::CreateRoom { room }), (b, CommandView::CreateRoom { room })],
            );
            &&& m2.contains_key(room)
            &&& members_of(m2, room).contains(a)
            &&& members_of(m2, room).contains(b)
        }),
{
    let events = seq![(a, CommandView::CreateRoom { room }), (b, CommandView::CreateRoom { room })];
    let m1 = step_rooms(m, a, CommandView::CreateRoom { room });
    let m2 = step_rooms(m1, b, CommandView::CreateRoom { room });
    assert(events.drop_first().drop_first().len() == 0);
    assert(events.drop_first()[0] == (b, CommandView::CreateRoom { room }));
    assert(run(m, events) == run(m1, events.drop_first()));
    assert(run(m1, events.drop_first()) == run(m2, events.drop_first().drop_first()));
    lemma_step_membership(m, a, CommandView::CreateRoom { room }, a, room);
    let w = without_session(m1, b);
    assert(w[room] == m1[room].remove(b));
}

} // verus!
