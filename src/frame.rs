use vstd::prelude::*;
use vstd::string::{StrSliceExecFns, StringExecFns};

verus! {

/// A command read from one inbound text frame.
pub enum Command {
    /// `CREATE_ROOM:<room>`: create the room if absent and join it.
    CreateRoom { room: String },
    /// `JOIN_ROOM:<room>`: create the room if absent and join it.
    JoinRoom { room: String },
    /// `LEAVE_ROOM:<room>`: leave the room.
    LeaveRoom { room: String },
    /// `ROOM_MSG:<room>:<username>:<text>`: broadcast to the room.
    RoomMsg { room: String, username: String, text: String },
}

/// The mathematical value of a `Command`: the same variants over character sequences.
pub enum CommandView {
    CreateRoom { room: Seq<char> },
    JoinRoom { room: Seq<char> },
    LeaveRoom { room: Seq<char> },
    RoomMsg { room: Seq<char>, username: Seq<char>, text: Seq<char> },
}

impl View for Command {
    type V = CommandView;

    open spec fn view(&self) -> CommandView {
        match self {
            Command::CreateRoom { room } => CommandView::CreateRoom { room: room@ },
            Command::JoinRoom { room } => CommandView::JoinRoom { room: room@ },
            Command::LeaveRoom { room } => CommandView::LeaveRoom { room: room@ },
            Command::RoomMsg { room, username, text } => CommandView::RoomMsg {
                room: room@,
                username: username@,
                text: text@,
            },
        }
    }
}

pub open spec fn create_tag() -> Seq<char> {
    "CREATE_ROOM:"@
}

pub open spec fn join_tag() -> Seq<char> {
    "JOIN_ROOM:"@
}

pub open spec fn leave_tag() -> Seq<char> {
    "LEAVE_ROOM:"@
}

pub open spec fn msg_tag() -> Seq<char> {
    "ROOM_MSG:"@
}

/// Whether `s` begins with `p`.
pub open spec fn has_prefix(s: Seq<char>, p: Seq<char>) -> bool {
    p.len() <= s.len() && s.subrange(0, p.len() as int) == p
}

/// ASCII whitespace: space, tab, line feed, form feed, carriage return.
pub open spec fn is_blank(c: char) -> bool {
    c == ' ' || c == '\t' || c == '\n' || c == '\x0C' || c == '\r'
}

/// The first position from `i` on, below `hi`, that holds no blank (or `hi`).
pub open spec fn skip_blanks(s: Seq<char>, i: int, hi: int) -> int
    decreases hi - i,
{
    if 0 <= i < hi && is_blank(s[i]) {
        skip_blanks(s, i + 1, hi)
    } else {
        i
    }
}

/// The end that is left of `s[lo..j]` once trailing blanks are dropped.
pub open spec fn drop_blanks(s: Seq<char>, lo: int, j: int) -> int
    decreases j - lo,
{
    if lo < j && is_blank(s[j - 1]) {
        drop_blanks(s, lo, j - 1)
    } else {
        j
    }
}

/// `s[lo..hi]` without its leading and trailing blanks.
pub open spec fn trimmed(s: Seq<char>, lo: int, hi: int) -> Seq<char> {
    let a = skip_blanks(s, lo, hi);
    s.subrange(a, drop_blanks(s, a, hi))
}

/// The position of the first `':'` in `s` at or after `i`.
pub open spec fn colon_from(s: Seq<char>, i: int) -> Option<int>
    decreases s.len() - i,
{
    if 0 <= i < s.len() {
        if s[i] == ':' {
            Some(i)
        } else {
            colon_from(s, i + 1)
        }
    } else {
        None
    }
}

/// The command that frame `s` holds, or `None` for a frame that is malformed
/// or carries no known tag. Room names are taken without surrounding blanks;
/// a room message splits at its first two colons after the tag, so the text
/// may hold colons of its own.
pub open spec fn parse_spec(s: Seq<char>) -> Option<CommandView> {
    if has_prefix(s, create_tag()) {
        Some(CommandView::CreateRoom { room: trimmed(s, create_tag().len() as int, s.len() as int) })
    } else if has_prefix(s, join_tag()) {
        Some(CommandView::JoinRoom { room: trimmed(s, join_tag().len() as int, s.len() as int) })
    } else if has_prefix(s, leave_tag()) {
        Some(CommandView::LeaveRoom { room: trimmed(s, leave_tag().len() as int, s.len() as int) })
    } else if has_prefix(s, msg_tag()) {
        let start = msg_tag().len() as int;
        match colon_from(s, start) {
            Some(p1) => match colon_from(s, p1 + 1) {
                Some(p2) => Some(
                    CommandView::RoomMsg {
                        room: trimmed(s, start, p1),
                        username: s.subrange(p1 + 1, p2),
                        text: s.subrange(p2 + 1, s.len() as int),
                    },
                ),
                None => None,
            },
            None => None,
        }
    } else {
        None
    }
}

/// The characters of `s`, in order.
pub(crate) fn chars_of(s: &str) -> (r: Vec<char>)
    ensures
        r@ == s@,
{
    broadcast use vstd::string::group_string_axioms;

    let mut r: Vec<char> = Vec::new();
    for c in it: s.chars()
        invariant
            r@ == it.seq().subrange(0, it.index() as int),
            it.seq() == s@,
    {
        r.push(c);
    }
    r
}

/// Whether `cs` begins with the characters of `tag`.
pub(crate) fn has_tag(cs: &Vec<char>, tag: &str) -> (r: bool)
    ensures
        r == has_prefix(cs@, tag@),
{
    let n = tag.unicode_len();
    if n > cs.len() {
        return false;
    }
    let mut k: usize = 0;
    while k < n
        invariant
            n == tag@.len(),
            n <= cs@.len(),
            k <= n,
            forall|j: int| 0 <= j < k ==> cs@[j] == tag@[j],
        decreases n - k,
    {
        if cs[k] != tag.get_char(k) {
            assert(cs@.subrange(0, n as int)[k as int] != tag@[k as int]);
            return false;
        }
        k = k + 1;
    }
    assert(cs@.subrange(0, n as int) =~= tag@);
    true
}

fn is_blank_char(c: char) -> (r: bool)
    ensures
        r == is_blank(c),
{
    c == ' ' || c == '\t' || c == '\n' || c == '\x0C' || c == '\r'
}

/// The executable counterpart of `skip_blanks`.
fn skip_blanks_at(cs: &Vec<char>, lo: usize, hi: usize) -> (r: usize)
    requires
        lo <= hi <= cs@.len(),
    ensures
        r == skip_blanks(cs@, lo as int, hi as int),
        lo <= r <= hi,
{
    let mut i = lo;
    while i < hi && is_blank_char(cs[i])
        invariant
            lo <= i <= hi,
            hi <= cs@.len(),
            skip_blanks(cs@, i as int, hi as int) == skip_blanks(cs@, lo as int, hi as int),
        decreases hi - i,
    {
        i = i + 1;
    }
    i
}

/// The executable counterpart of `drop_blanks`.
fn drop_blanks_at(cs: &Vec<char>, lo: usize, hi: usize) -> (r: usize)
    requires
        lo <= hi <= cs@.len(),
    ensures
        r == drop_blanks(cs@, lo as int, hi as int),
        lo <= r <= hi,
{
    let mut j = hi;
    while lo < j && is_blank_char(cs[j - 1])
        invariant
            lo <= j <= hi,
            hi <= cs@.len(),
            drop_blanks(cs@, lo as int, j as int) == drop_blanks(cs@, lo as int, hi as int),
        decreases j - lo,
    {
        j = j - 1;
    }
    j
}

/// The executable counterpart of `colon_from`.
fn colon_at(cs: &Vec<char>, from: usize) -> (r: Option<usize>)
    ensures
        match r {
            Some(p) => colon_from(cs@, from as int) == Some(p as int) && from <= p < cs@.len(),
            None => colon_from(cs@, from as int) is None,
        },
{
    let mut i = from;
    while i < cs.len()
        invariant
            from <= i,
            colon_from(cs@, i as int) == colon_from(cs@, from as int),
        decreases cs@.len() - i,
    {
        if cs[i] == ':' {
            return Some(i);
        }
        i = i + 1;
    }
    None
}

/// The characters `s[a..b]` as a new string.
pub(crate) fn slice_of(s: &str, a: usize, b: usize) -> (r: String)
    requires
        a <= b <= s@.len(),
    ensures
        r@ == s@.subrange(a as int, b as int),
{
    s.substring_char(a, b).to_owned()
}

/// The characters `s[lo..hi]` without leading and trailing blanks.
pub(crate) fn trimmed_of(s: &str, cs: &Vec<char>, lo: usize, hi: usize) -> (r: String)
    requires
        cs@ == s@,
        lo <= hi <= cs@.len(),
    ensures
        r@ == trimmed(s@, lo as int, hi as int),
{
    let a = skip_blanks_at(cs, lo, hi);
    let b = drop_blanks_at(cs, a, hi);
    slice_of(s, a, b)
}

/// Reads one inbound text frame. Returns `None` for a frame with no known
/// tag and for a room message without its room and username fields.
pub fn parse_frame(frame: &str) -> (r: Option<Command>)
    ensures
        match r {
            Some(c) => parse_spec(frame@) == Some(c@),
            None => parse_spec(frame@) is None,
        },
{
    let cs = chars_of(frame);
    let n = cs.len();
    if has_tag(&cs, "CREATE_ROOM:") {
        let start = "CREATE_ROOM:".unicode_len();
        Some(Command::CreateRoom { room: trimmed_of(frame, &cs, start, n) })
    } else if has_tag(&cs, "JOIN_ROOM:") {
        let start = "JOIN_ROOM:".unicode_len();
        Some(Command::JoinRoom { room: trimmed_of(frame, &cs, start, n) })
    } else if has_tag(&cs, "LEAVE_ROOM:") {
        let start = "LEAVE_ROOM:".unicode_len();
        Some(Command::LeaveRoom { room: trimmed_of(frame, &cs, start, n) })
    } else if has_tag(&cs, "ROOM_MSG:") {
        let start = "ROOM_MSG:".unicode_len();
        match colon_at(&cs, start) {
            Some(p1) => match colon_at(&cs, p1 + 1) {
                Some(p2) => Some(
                    Command::RoomMsg {
                        room: trimmed_of(frame, &cs, start, p1),
                        username: slice_of(frame, p1 + 1, p2),
                        text: slice_of(frame, p2 + 1, n),
                    },
                ),
                None => None,
            },
            None => None,
        }
    } else {
        None
    }
}

/// `tag` followed by `rest`, as a new string.
fn tagged(tag: &str, rest: &str) -> (r: String)
    ensures
        r@ == tag@ + rest@,
{
    let mut r = tag.to_owned();
    r.append(rest);
    r
}

/// The frame that creates (if absent) and joins `room`.
pub fn create_frame(room: &str) -> (r: String)
    ensures
        r@ == create_tag() + room@,
{
    tagged("CREATE_ROOM:", room)
}

/// The frame that joins (creating if absent) `room`.
pub fn join_frame(room: &str) -> (r: String)
    ensures
        r@ == join_tag() + room@,
{
    tagged("JOIN_ROOM:", room)
}

/// The frame that leaves `room`.
pub fn leave_frame(room: &str) -> (r: String)
    ensures
        r@ == leave_tag() + room@,
{
    tagged("LEAVE_ROOM:", room)
}

/// The frame that sends `text` as `username` to `room`.
pub fn room_msg_frame(room: &str, username: &str, text: &str) -> (r: String)
    ensures
        r@ == msg_tag() + room@ + ":"@ + username@ + ":"@ + text@,
{
    let mut r = tagged("ROOM_MSG:", room);
    r.append(":");
    r.append(username);
    r.append(":");
    r.append(text);
    r
}

/// No character of `s` is a colon.
pub open spec fn colon_free(s: Seq<char>) -> bool {
    forall|i: int| 0 <= i < s.len() ==> s[i] != ':'
}

/// A room name that a frame carries unchanged: no colon, and no blank at
/// either end.
pub open spec fn plain_room(s: Seq<char>) -> bool {
    colon_free(s) && (s.len() > 0 ==> !is_blank(s[0]) && !is_blank(s[s.len() - 1]))
}

proof fn lemma_colon_at(s: Seq<char>, i: int, j: int)
    requires
        0 <= i <= j < s.len(),
        s[j] == ':',
        forall|k: int| i <= k < j ==> s[k] != ':',
    ensures
        colon_from(s, i) == Some(j),
    decreases j - i,
{
    if i < j {
        lemma_colon_at(s, i + 1, j);
    }
}

/// `s[lo..hi]` is `t`, with no blank at either end.
proof fn lemma_trimmed_plain(s: Seq<char>, lo: int, hi: int, t: Seq<char>)
    requires
        0 <= lo <= hi <= s.len(),
        s.subrange(lo, hi) == t,
        t.len() > 0 ==> !is_blank(t[0]) && !is_blank(t[t.len() - 1]),
    ensures
        trimmed(s, lo, hi) == t,
{
    if lo < hi {
        assert(s[lo] == t[0]);
        assert(s[hi - 1] == t[t.len() - 1]);
    }
}

/// The four tags differ in their first character.
proof fn lemma_tags_first_chars()
    ensures
        create_tag().len() == 12 && create_tag()[0] == 'C',
        join_tag().len() == 10 && join_tag()[0] == 'J',
        leave_tag().len() == 11 && leave_tag()[0] == 'L',
        msg_tag().len() == 9 && msg_tag()[0] == 'R',
{
    reveal_strlit("CREATE_ROOM:");
    reveal_strlit("JOIN_ROOM:");
    reveal_strlit("LEAVE_ROOM:");
    reveal_strlit("ROOM_MSG:");
}

/// The frames that create, join and leave a room read back as those
/// commands on that room.
pub proof fn lemma_room_frames_round_trip(room: Seq<char>)
    requires
        room.len() > 0 ==> !is_blank(room[0]) && !is_blank(room[room.len() - 1]),
    ensures
        parse_spec(create_tag() + room) == Some(CommandView::CreateRoom { room }),
        parse_spec(join_tag() + room) == Some(CommandView::JoinRoom { room }),
        parse_spec(leave_tag() + room) == Some(CommandView::LeaveRoom { room }),
{
    lemma_tags_first_chars();
    let c = create_tag() + room;
    let j = join_tag() + room;
    let l = leave_tag() + room;
    assert(c.subrange(0, create_tag().len() as int) =~= create_tag());
    assert(c.subrange(create_tag().len() as int, c.len() as int) =~= room);
    lemma_trimmed_plain(c, create_tag().len() as int, c.len() as int, room);
    assert(j.subrange(0, join_tag().len() as int) =~= join_tag());
    assert(j.subrange(join_tag().len() as int, j.len() as int) =~= room);
    lemma_trimmed_plain(j, join_tag().len() as int, j.len() as int, room);
    assert(j[0] == 'J');
    if has_prefix(j, create_tag()) {
        assert(j.subrange(0, create_tag().len() as int)[0] == 'C');
    }
    assert(l.subrange(0, leave_tag().len() as int) =~= leave_tag());
    assert(l.subrange(leave_tag().len() as int, l.len() as int) =~= room);
    lemma_trimmed_plain(l, leave_tag().len() as int, l.len() as int, room);
    assert(l[0] == 'L');
    if has_prefix(l, create_tag()) {
        assert(l.subrange(0, create_tag().len() as int)[0] == 'C');
    }
    if has_prefix(l, join_tag()) {
        assert(l.subrange(0, join_tag().len() as int)[0] == 'J');
    }
}

/// A room-message frame reads back as the room, username and text it was
/// made of, whatever colons the text holds.
pub proof fn lemma_room_msg_round_trip(room: Seq<char>, username: Seq<char>, text: Seq<char>)
    requires
        plain_room(room),
        colon_free(username),
    ensures
        parse_spec(msg_tag() + room + ":"@ + username + ":"@ + text) == Some(
            CommandView::RoomMsg { room, username, text },
        ),
{
    lemma_tags_first_chars();
    reveal_strlit(":");
    let s = msg_tag() + room + ":"@ + username + ":"@ + text;
    let start = msg_tag().len() as int;
    let p1 = start + room.len();
    let p2 = p1 + 1 + username.len();
    assert(s[0] == 'R');
    if has_prefix(s, create_tag()) {
        assert(s.subrange(0, create_tag().len() as int)[0] == 'C');
    }
    if has_prefix(s, join_tag()) {
        assert(s.subrange(0, join_tag().len() as int)[0] == 'J');
    }
    if has_prefix(s, leave_tag()) {
        assert(s.subrange(0, leave_tag().len() as int)[0] == 'L');
    }
    assert(s.subrange(0, start) =~= msg_tag());
    assert(s[p1] == ':');
    assert forall|k: int| start <= k < p1 implies s[k] != ':' by {
        assert(s[k] == room[k - start]);
    }
    lemma_colon_at(s, start, p1);
    assert(s[p2] == ':');
    assert forall|k: int| p1 + 1 <= k < p2 implies s[k] != ':' by {
        assert(s[k] == username[k - p1 - 1]);
    }
    lemma_colon_at(s, p1 + 1, p2);
    assert(s.subrange(start, p1) =~= room);
    lemma_trimmed_plain(s, start, p1, room);
    assert(s.subrange(p1 + 1, p2) =~= username);
    assert(s.subrange(p2 + 1, s.len() as int) =~= text);
}

proof fn lemma_no_colon_from(s: Seq<char>, i: int)
    requires
        0 <= i,
        forall|k: int| i <= k < s.len() ==> s[k] != ':',
    ensures
        colon_from(s, i) is None,
    decreases s.len() - i,
{
    if i < s.len() {
        lemma_no_colon_from(s, i + 1);
    }
}

/// A room-message frame whose body holds no colon, so that it lacks its
/// username and text, is no command.
pub proof fn lemma_room_msg_without_fields(body: Seq<char>)
    requires
        colon_free(body),
    ensures
        parse_spec(msg_tag() + body) is None,
{
    lemma_tags_first_chars();
    let s = msg_tag() + body;
    assert(s[0] == 'R');
    if has_prefix(s, create_tag()) {
        assert(s.subrange(0, create_tag().len() as int)[0] == 'C');
    }
    if has_prefix(s, join_tag()) {
        assert(s.subrange(0, join_tag().len() as int)[0] == 'J');
    }
    if has_prefix(s, leave_tag()) {
        assert(s.subrange(0, leave_tag().len() as int)[0] == 'L');
    }
    assert forall|k: int| msg_tag().len() <= k < s.len() implies s[k] != ':' by {
        assert(s[k] == body[k - msg_tag().len()]);
    }
    lemma_no_colon_from(s, msg_tag().len() as int);
}

} // verus!
