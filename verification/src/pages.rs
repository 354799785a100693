//! Pages: one screen of navigable UI state each, and the translation of a
//! trimmed input line into at most one [`Action`], validated against the
//! store. The input grammar: `q` exits, `p` goes back, `c` creates, `u`
//! updates a status, `d` deletes, and a decimal number selects the item it
//! identifies; anything else yields no action.
use vstd::prelude::*;

use crate::model::{has_key, val_of, DBStateView};
use crate::models::{Action, TrackerError};
use crate::store::Store;
use vstd::string::StrSliceExecFns;

verus! {

/// One screen of navigable UI state, identified by the ids it displays.
/// Ephemeral: held only on the navigator's stack.
#[derive(Clone, Copy, Debug, PartialEq, Eq, Structural)]
pub enum Page {
    Board,
    EpicDetail { epic_id: u32 },
    StoryDetail { epic_id: u32, story_id: u32 },
}

/// A decimal digit.
pub open spec fn is_digit(c: char) -> bool {
    ('0' as int) <= c as int && c as int <= ('9' as int)
}

/// The value of a decimal digit.
pub open spec fn digit_val(c: char) -> int {
    c as int - ('0' as int)
}

/// All characters are decimal digits.
pub open spec fn all_digits(s: Seq<char>) -> bool {
    forall|i: int| 0 <= i < s.len() ==> is_digit(#[trigger] s[i])
}

/// The number a digit string denotes, most significant digit first.
pub open spec fn digits_val(s: Seq<char>) -> int
    decreases s.len(),
{
    if s.len() == 0 {
        0
    } else {
        digits_val(s.drop_last()) * 10 + digit_val(s.last())
    }
}

/// What an input line parses to as an id: a nonempty, all-digit string
/// whose value fits a `u32`; anything else is no id.
pub open spec fn spec_parse_id(s: Seq<char>) -> Option<u32> {
    if s.len() > 0 && all_digits(s) && digits_val(s) <= u32::MAX {
        Some(digits_val(s) as u32)
    } else {
        None
    }
}

/// A digit string denotes a nonnegative number.
proof fn lemma_digits_val_nonneg(s: Seq<char>)
    requires
        all_digits(s),
    ensures
        digits_val(s) >= 0,
    decreases s.len(),
{
    if s.len() == 0 {
    } else {
        assert(all_digits(s.drop_last())) by {
            assert(forall|i: int|
                0 <= i < s.drop_last().len() ==> #[trigger] s.drop_last()[i] == s[i]);
        }
        lemma_digits_val_nonneg(s.drop_last());
    }
}

/// Extending a digit string never shrinks its value.
proof fn lemma_digits_val_prefix(s: Seq<char>, j: int)
    requires
        all_digits(s),
        0 <= j <= s.len(),
    ensures
        digits_val(s.take(j)) <= digits_val(s),
    decreases s.len() - j,
{
    if j == s.len() {
        assert(s.take(j) =~= s);
    } else {
        assert(s.take(j + 1).drop_last() =~= s.take(j));
        assert(s.take(j + 1).last() == s[j]);
        assert(all_digits(s.take(j))) by {
            assert(forall|i: int| 0 <= i < j ==> #[trigger] s.take(j)[i] == s[i]);
        }
        lemma_digits_val_nonneg(s.take(j));
        assert(digits_val(s.take(j + 1)) == digits_val(s.take(j)) * 10 + digit_val(s[j]));
        assert(digits_val(s.take(j)) * 10 >= digits_val(s.take(j))) by {
            assert(digits_val(s.take(j)) >= 0);
        }
        lemma_digits_val_prefix(s, j + 1);
    }
}

/// Parses an input line as a decimal id: `Some` exactly for a nonempty,
/// all-digit line whose value fits a `u32`.
pub fn parse_id(s: &str) -> (r: Option<u32>)
    ensures
        r == spec_parse_id(s@),
{
    let n = s.unicode_len();
    if n == 0 {
        return None;
    }
    let mut acc: u32 = 0;
    let mut i: usize = 0;
    while i < n
        invariant
            n == s@.len(),
            0 < n,
            i <= n,
            all_digits(s@.take(i as int)),
            acc == digits_val(s@.take(i as int)),
        decreases n - i,
    {
        let c = s.get_char(i);
        proof {
            assert(s@.take((i + 1) as int).drop_last() =~= s@.take(i as int));
            assert(s@.take((i + 1) as int).last() == s@[i as int]);
        }
        let cv = c as u32;
        if cv < 48 || cv > 57 {
            proof {
                assert(!is_digit(s@[i as int]));
                assert(!all_digits(s@));
            }
            return None;
        }
        let d = cv - 48;
        proof {
            assert(d == digit_val(s@[i as int]));
        }
        if acc > (u32::MAX - d) / 10 {
            proof {
                let q = ((u32::MAX - d) / 10) as int;
                assert((u32::MAX - d) as int == q * 10 + ((u32::MAX - d) as int % 10));
                assert(acc as int * 10 >= (q + 1) * 10) by (nonlinear_arith)
                    requires
                        acc as int >= q + 1,
                ;
                assert(digits_val(s@.take((i + 1) as int)) > u32::MAX);
                if all_digits(s@) {
                    lemma_digits_val_prefix(s@, (i + 1) as int);
                }
            }
            return None;
        }
        acc = acc * 10 + d;
        i = i + 1;
    }
    proof {
        assert(s@.take(n as int) =~= s@);
    }
    Some(acc)
}

/// The action the board produces for an input line: `q` exits, `c` creates
/// an epic, the id of an existing epic drills into it, anything else is a
/// no-op.
pub open spec fn spec_board_action(db: DBStateView, input: Seq<char>) -> Option<Action> {
    if input.len() == 1 && input[0] == 'q' {
        Some(Action::Exit)
    } else if input.len() == 1 && input[0] == 'c' {
        Some(Action::CreateEpic)
    } else {
        match spec_parse_id(input) {
            Some(id) => if has_key(db.epics, id) {
                Some(Action::NavigateToEpicDetail { epic_id: id })
            } else {
                None
            },
            None => None,
        }
    }
}

/// The action an epic-detail page produces. If its epic no longer exists
/// the page degrades gracefully: any input routes back. Otherwise `p` goes
/// back, `u` updates the status, `d` deletes the epic, `c` creates a
/// story, `q` exits, and the id of a story this epic lists drills into it.
pub open spec fn spec_epic_detail_action(db: DBStateView, epic_id: u32, input: Seq<char>) -> Option<
    Action,
> {
    if !has_key(db.epics, epic_id) {
        Some(Action::NavigateToPreviousPage)
    } else if input.len() == 1 && input[0] == 'p' {
        Some(Action::NavigateToPreviousPage)
    } else if input.len() == 1 && input[0] == 'u' {
        Some(Action::UpdateEpicStatus { epic_id })
    } else if input.len() == 1 && input[0] == 'd' {
        Some(Action::DeleteEpic { epic_id })
    } else if input.len() == 1 && input[0] == 'c' {
        Some(Action::CreateStory { epic_id })
    } else if input.len() == 1 && input[0] == 'q' {
        Some(Action::Exit)
    } else {
        match spec_parse_id(input) {
            Some(id) => if val_of(db.epics, epic_id).stories.contains(id) {
                Some(Action::NavigateToStoryDetail { epic_id, story_id: id })
            } else {
                None
            },
            None => None,
        }
    }
}

/// The action a story-detail page produces. If its story no longer exists
/// the page degrades gracefully: any input routes back. Otherwise `p` goes
/// back, `u` updates the status, `d` deletes the story, `q` exits.
pub open spec fn spec_story_detail_action(
    db: DBStateView,
    epic_id: u32,
    story_id: u32,
    input: Seq<char>,
) -> Option<Action> {
    if !has_key(db.stories, story_id) {
        Some(Action::NavigateToPreviousPage)
    } else if input.len() == 1 && input[0] == 'p' {
        Some(Action::NavigateToPreviousPage)
    } else if input.len() == 1 && input[0] == 'u' {
        Some(Action::UpdateStoryStatus { story_id })
    } else if input.len() == 1 && input[0] == 'd' {
        Some(Action::DeleteStory { epic_id, story_id })
    } else if input.len() == 1 && input[0] == 'q' {
        Some(Action::Exit)
    } else {
        None
    }
}

/// What [`Page::handle_input`] yields, per page.
pub open spec fn spec_page_action(p: Page, db: DBStateView, input: Seq<char>) -> Option<Action> {
    match p {
        Page::Board => spec_board_action(db, input),
        Page::EpicDetail { epic_id } => spec_epic_detail_action(db, epic_id, input),
        Page::StoryDetail { epic_id, story_id } => spec_story_detail_action(
            db,
            epic_id,
            story_id,
            input,
        ),
    }
}

impl Page {
    /// Translates one trimmed input line into at most one action, reading
    /// the store only to validate selections. Never mutates anything;
    /// unrecognized input yields no action rather than an error.
    pub fn handle_input(&self, store: &Store, input: &str) -> (r: Result<
        Option<Action>,
        TrackerError,
    >)
        requires
            store.wf(),
        ensures
            r == Ok::<Option<Action>, TrackerError>(spec_page_action(*self, store@, input@)),
    {
        match *self {
            Page::Board => {
                if input.unicode_len() == 1 {
                    let c = input.get_char(0);
                    if c == 'q' {
                        return Ok(Some(Action::Exit));
                    }
                    if c == 'c' {
                        return Ok(Some(Action::CreateEpic));
                    }
                }
                match parse_id(input) {
                    Some(id) => {
                        if store.contains_epic(id) {
                            Ok(Some(Action::NavigateToEpicDetail { epic_id: id }))
                        } else {
                            Ok(None)
                        }
                    },
                    None => Ok(None),
                }
            },
            Page::EpicDetail { epic_id } => {
                if !store.contains_epic(epic_id) {
                    return Ok(Some(Action::NavigateToPreviousPage));
                }
                if input.unicode_len() == 1 {
                    let c = input.get_char(0);
                    if c == 'p' {
                        return Ok(Some(Action::NavigateToPreviousPage));
                    }
                    if c == 'u' {
                        return Ok(Some(Action::UpdateEpicStatus { epic_id }));
                    }
                    if c == 'd' {
                        return Ok(Some(Action::DeleteEpic { epic_id }));
                    }
                    if c == 'c' {
                        return Ok(Some(Action::CreateStory { epic_id }));
                    }
                    if c == 'q' {
                        return Ok(Some(Action::Exit));
                    }
                }
                match parse_id(input) {
                    Some(id) => {
                        if store.epic_lists_story(epic_id, id) {
                            Ok(Some(Action::NavigateToStoryDetail { epic_id, story_id: id }))
                        } else {
                            Ok(None)
                        }
                    },
                    None => Ok(None),
                }
            },
            Page::StoryDetail { epic_id, story_id } => {
                if !store.contains_story(story_id) {
                    return Ok(Some(Action::NavigateToPreviousPage));
                }
                if input.unicode_len() == 1 {
                    let c = input.get_char(0);
                    if c == 'p' {
                        return Ok(Some(Action::NavigateToPreviousPage));
                    }
                    if c == 'u' {
                        return Ok(Some(Action::UpdateStoryStatus { story_id }));
                    }
                    if c == 'd' {
                        return Ok(Some(Action::DeleteStory { epic_id, story_id }));
                    }
                    if c == 'q' {
                        return Ok(Some(Action::Exit));
                    }
                }
                Ok(None)
            },
        }
    }
}

} // verus!
