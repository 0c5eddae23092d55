use vstd::prelude::*;
use vstd::string::StrSliceExecFns;
use crate::frame::{chars_of, has_prefix, has_tag, msg_tag, slice_of, trimmed, trimmed_of};

verus! {

/// What a user picks before chatting: create a room or join one.
pub enum MenuChoice {
    Create(String),
    Join(String),
}

/// The mathematical value of a `MenuChoice`.
pub enum MenuChoiceView {
    Create(Seq<char>),
    Join(Seq<char>),
}

impl View for MenuChoice {
    type V = MenuChoiceView;

    open spec fn view(&self) -> MenuChoiceView {
        match self {
            MenuChoice::Create(r) => MenuChoiceView::Create(r@),
            MenuChoice::Join(r) => MenuChoiceView::Join(r@),
        }
    }
}

/// The choice that input line `s` makes: once the line is trimmed,
/// `CREATE <room>` or `JOIN <room>`; anything else is no choice.
pub open spec fn menu_spec(s: Seq<char>) -> Option<MenuChoiceView> {
    let t = trimmed(s, 0, s.len() as int);
    if has_prefix(t, "CREATE "@) {
        Some(MenuChoiceView::Create(t.subrange("CREATE "@.len() as int, t.len() as int)))
    } else if has_prefix(t, "JOIN "@) {
        Some(MenuChoiceView::Join(t.subrange("JOIN "@.len() as int, t.len() as int)))
    } else {
        None
    }
}

/// Reads the user's menu choice from one input line.
pub fn parse_menu_choice(line: &str) -> (r: Option<MenuChoice>)
    ensures
        match r {
            Some(c) => menu_spec(line@) == Some(c@),
            None => menu_spec(line@) is None,
        },
{
    let cs = chars_of(line);
    let t = trimmed_of(line, &cs, 0, cs.len());
    let tc = chars_of(t.as_str());
    if has_tag(&tc, "CREATE ") {
        Some(MenuChoice::Create(slice_of(t.as_str(), "CREATE ".unicode_len(), tc.len())))
    } else if has_tag(&tc, "JOIN ") {
        Some(MenuChoice::Join(slice_of(t.as_str(), "JOIN ".unicode_len(), tc.len())))
    } else {
        None
    }
}

/// Whether input line `s` asks to leave the room: `/leave`, once trimmed.
pub open spec fn is_leave_spec(s: Seq<char>) -> bool {
    trimmed(s, 0, s.len() as int) == "/leave"@
}

/// Whether the user typed the leave command.
pub fn is_leave_command(line: &str) -> (r: bool)
    ensures
        r == is_leave_spec(line@),
{
    let cs = chars_of(line);
    let t = trimmed_of(line, &cs, 0, cs.len());
    let tc = chars_of(t.as_str());
    let n = "/leave".unicode_len();
    assert(tc@.subrange(0, tc@.len() as int) =~= tc@);
    if tc.len() == n && has_tag(&tc, "/leave") {
        assert(tc@ =~= tc@.subrange(0, n as int));
        true
    } else {
        false
    }
}

/// Whether an incoming text frame is shown to the user: every text except
/// those that carry the room-message tag.
pub fn should_display(text: &str) -> (r: bool)
    ensures
        r == !has_prefix(text@, msg_tag()),
{
    let cs = chars_of(text);
    !has_tag(&cs, "ROOM_MSG:")
}

} // verus!
