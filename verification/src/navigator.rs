//! The navigator: owns the store and a stack of pages whose bottom is the
//! board, and turns each action into store mutations and stack
//! transitions. Prompt collaborators are injected as a capability set so
//! that deterministic fakes can stand in for the terminal.
use vstd::prelude::*;

use crate::model::{
    can_mint, create_epic_tr, create_story_tr, delete_epic_tr, delete_story_tr, has_key, next_id,
    update_epic_status_tr, update_story_status_tr, valid_delete_story, wf, DBStateView,
};
use crate::models::{Action, Epic, Status, Story, TrackerError};
use crate::pages::Page;
use crate::store::Store;

verus! {

/// The set of prompt capabilities the navigator calls to collect a fully
/// formed value from the user: a new epic or story, a deletion
/// confirmation, or a status choice (`None` on cancel or invalid entry).
/// Nothing is assumed of the answers.
pub trait PromptSet {
    fn create_epic(&mut self) -> Epic;

    fn create_story(&mut self) -> Story;

    fn delete_epic(&mut self) -> bool;

    fn delete_story(&mut self) -> bool;

    fn update_status(&mut self) -> Option<Status>;
}

/// Abstract value of a [`Navigator`]: the page stack and the store state.
#[verifier::ext_equal]
pub struct NavigatorView {
    pub pages: Seq<Page>,
    pub db: DBStateView,
}

/// Owns the page stack and the store. The stack is nonempty with the board
/// at the bottom until `Exit` clears it; after that the navigator performs
/// no further work.
pub struct Navigator {
    pages: Vec<Page>,
    store: Store,
}

impl View for Navigator {
    type V = NavigatorView;

    closed spec fn view(&self) -> NavigatorView {
        NavigatorView { pages: self.pages@, db: self.store@ }
    }
}

impl Navigator {
    /// The store state is well-formed and the bottom of a nonempty stack
    /// is the board.
    pub open spec fn wf(&self) -> bool {
        &&& wf(self@.db)
        &&& (self@.pages.len() > 0 ==> self@.pages[0] == Page::Board)
    }

    /// Starts at the board.
    pub fn new(store: Store) -> (nav: Navigator)
        requires
            store.wf(),
        ensures
            nav.wf(),
            nav@.pages == seq![Page::Board],
            nav@.db == store@,
    {
        let mut pages: Vec<Page> = Vec::new();
        pages.push(Page::Board);
        proof {
            assert(pages@ =~= seq![Page::Board]);
        }
        Navigator { pages, store }
    }

    /// The top of the stack; `None` once `Exit` has cleared it, which
    /// tells the outer loop to terminate.
    pub fn current_page(&self) -> (r: Option<Page>)
        ensures
            r == if self@.pages.len() > 0 {
                Some(self@.pages.last())
            } else {
                None::<Page>
            },
    {
        if self.pages.len() > 0 {
            Some(self.pages[self.pages.len() - 1])
        } else {
            None
        }
    }

    /// Read access to the store, for rendering and input validation.
    pub fn store(&self) -> (r: &Store)
        ensures
            r@ == self@.db,
    {
        &self.store
    }

    /// Creates an epic from prompted fields; the stack is unchanged.
    pub fn apply_create_epic(&mut self, name: String, description: String) -> (id: u32)
        requires
            old(self).wf(),
            can_mint(old(self)@.db),
        ensures
            final(self).wf(),
            final(self)@.pages == old(self)@.pages,
            id == next_id(old(self)@.db),
            final(self)@.db == create_epic_tr(old(self)@.db, name@, description@),
    {
        self.store.create_epic(name, description)
    }

    /// Creates a story from prompted fields under the given epic; the
    /// stack is unchanged. `NotFound` exactly when the epic is absent.
    pub fn apply_create_story(&mut self, epic_id: u32, name: String, description: String) -> (r:
        Result<u32, TrackerError>)
        requires
            old(self).wf(),
            can_mint(old(self)@.db),
        ensures
            final(self).wf(),
            final(self)@.pages == old(self)@.pages,
            match r {
                Ok(id) => has_key(old(self)@.db.epics, epic_id) && id == next_id(old(self)@.db)
                    && final(self)@.db == create_story_tr(
                    old(self)@.db,
                    epic_id,
                    name@,
                    description@,
                ),
                Err(e) => e == TrackerError::NotFound && !has_key(old(self)@.db.epics, epic_id)
                    && final(self)@.db == old(self)@.db,
            },
    {
        self.store.create_story(epic_id, name, description)
    }

    /// Applies a prompted status choice to an epic: `None` cancels, and a
    /// missing epic is `NotFound`; the stack is unchanged.
    pub fn apply_update_epic_status(&mut self, epic_id: u32, choice: Option<Status>) -> (r: Result<
        (),
        TrackerError,
    >)
        requires
            old(self).wf(),
        ensures
            final(self).wf(),
            final(self)@.pages == old(self)@.pages,
            match choice {
                None => r == Ok::<(), TrackerError>(()) && final(self)@.db == old(self)@.db,
                Some(st) => match r {
                    Ok(_) => has_key(old(self)@.db.epics, epic_id) && final(self)@.db
                        == update_epic_status_tr(old(self)@.db, epic_id, st),
                    Err(e) => e == TrackerError::NotFound && !has_key(
                        old(self)@.db.epics,
                        epic_id,
                    ) && final(self)@.db == old(self)@.db,
                },
            },
    {
        match choice {
            None => Ok(()),
            Some(st) => self.store.update_epic_status(epic_id, st),
        }
    }

    /// Applies a prompted status choice to a story: `None` cancels, and a
    /// missing story is `NotFound`; the stack is unchanged.
    pub fn apply_update_story_status(&mut self, story_id: u32, choice: Option<Status>) -> (r:
        Result<(), TrackerError>)
        requires
            old(self).wf(),
        ensures
            final(self).wf(),
            final(self)@.pages == old(self)@.pages,
            match choice {
                None => r == Ok::<(), TrackerError>(()) && final(self)@.db == old(self)@.db,
                Some(st) => match r {
                    Ok(_) => has_key(old(self)@.db.stories, story_id) && final(self)@.db
                        == update_story_status_tr(old(self)@.db, story_id, st),
                    Err(e) => e == TrackerError::NotFound && !has_key(
                        old(self)@.db.stories,
                        story_id,
                    ) && final(self)@.db == old(self)@.db,
                },
            },
    {
        match choice {
            None => Ok(()),
            Some(st) => self.store.update_story_status(story_id, st),
        }
    }

    /// Applies a delete-epic decision. Confirmed on an existing epic: the
    /// epic and its stories go, and the stack pops back to just the board,
    /// past any pages that referenced them. Unconfirmed: nothing changes.
    pub fn apply_delete_epic(&mut self, epic_id: u32, confirmed: bool) -> (r: Result<
        (),
        TrackerError,
    >)
        requires
            old(self).wf(),
            old(self)@.pages.len() > 0,
        ensures
            final(self).wf(),
            !confirmed ==> r == Ok::<(), TrackerError>(()) && final(self)@ == old(self)@,
            confirmed && has_key(old(self)@.db.epics, epic_id) ==> r == Ok::<(), TrackerError>(())
                && final(self)@.db == delete_epic_tr(old(self)@.db, epic_id) && final(self)@.pages
                == seq![Page::Board],
            confirmed && !has_key(old(self)@.db.epics, epic_id) ==> r == Err::<(), TrackerError>(
                TrackerError::NotFound,
            ) && final(self)@ == old(self)@,
    {
        if !confirmed {
            return Ok(());
        }
        match self.store.delete_epic(epic_id) {
            Ok(_) => {
                self.pages.truncate(1);
                proof {
                    assert(self.pages@ =~= seq![Page::Board]);
                }
                Ok(())
            },
            Err(e) => Err(e),
        }
    }

    /// Applies a delete-story decision. Confirmed on a story listed under
    /// the given epic: the story goes and the stack pops one level, back
    /// to the epic's detail page. Unconfirmed: nothing changes.
    pub fn apply_delete_story(&mut self, epic_id: u32, story_id: u32, confirmed: bool) -> (r:
        Result<(), TrackerError>)
        requires
            old(self).wf(),
            old(self)@.pages.len() > 0,
        ensures
            final(self).wf(),
            !confirmed ==> r == Ok::<(), TrackerError>(()) && final(self)@ == old(self)@,
            confirmed && valid_delete_story(old(self)@.db, epic_id, story_id) ==> r == Ok::<
                (),
                TrackerError,
            >(()) && final(self)@.db == delete_story_tr(old(self)@.db, epic_id, story_id) && final(self)@.pages == (if old(self)@.pages.len() > 1 {
                old(self)@.pages.drop_last()
            } else {
                old(self)@.pages
            }),
            confirmed && !valid_delete_story(old(self)@.db, epic_id, story_id) ==> r == Err::<
                (),
                TrackerError,
            >(TrackerError::NotFound) && final(self)@ == old(self)@,
    {
        if !confirmed {
            return Ok(());
        }
        match self.store.delete_story(epic_id, story_id) {
            Ok(_) => {
                if self.pages.len() > 1 {
                    self.pages.pop();
                }
                Ok(())
            },
            Err(e) => Err(e),
        }
    }

    /// The transition table: one action in, at most one store mutation
    /// and/or stack change out. With the stack already cleared by `Exit`,
    /// every action is a no-op. Navigation effects are exact; for
    /// prompt-mediated actions the outcome is one of: nothing (cancelled),
    /// the corresponding transition applied, or `NotFound` with nothing
    /// changed — see the `apply_*` operations for the per-decision
    /// contracts.
    pub fn handle_action<P: PromptSet>(&mut self, action: &Action, prompts: &mut P) -> (r: Result<
        (),
        TrackerError,
    >)
        requires
            old(self).wf(),
            (*action is CreateEpic || *action is CreateStory) ==> can_mint(old(self)@.db),
        ensures
            final(self).wf(),
            old(self)@.pages.len() == 0 ==> r is Ok && final(self)@ == old(self)@,
            old(self)@.pages.len() > 0 ==> match *action {
                Action::NavigateToEpicDetail { epic_id } => r is Ok
                    && final(self)@.db == old(self)@.db && final(self)@.pages == old(self)@.pages.push(Page::EpicDetail { epic_id }),
                Action::NavigateToStoryDetail { epic_id, story_id } => r is Ok && final(self)@.db == old(self)@.db && final(self)@.pages == old(self)@.pages.push(Page::StoryDetail { epic_id, story_id }),
                Action::NavigateToPreviousPage => r is Ok && final(self)@.db == old(self)@.db && final(self)@.pages == (if old(self)@.pages.len() > 1 {
                    old(self)@.pages.drop_last()
                } else {
                    old(self)@.pages
                }),
                Action::CreateEpic => r is Ok && final(self)@.pages == old(self)@.pages && (exists|n: Seq<char>, d: Seq<char>|
                    final(self)@.db == create_epic_tr(old(self)@.db, n, d)),
                Action::UpdateEpicStatus { epic_id } => final(self)@.pages == old(self)@.pages && (
                (r is Ok && final(self)@.db == old(self)@.db) || (r is Ok && has_key(old(self)@.db.epics, epic_id) && (
                exists|st: Status| final(self)@.db == update_epic_status_tr(
                    old(self)@.db,
                    epic_id,
                    st,
                ))) || (r == Err::<(), TrackerError>(TrackerError::NotFound) && !has_key(
                    old(self)@.db.epics,
                    epic_id,
                ) && final(self)@.db == old(self)@.db)),
                Action::DeleteEpic { epic_id } => (r is Ok && final(self)@
                    == old(self)@) || (r is Ok && has_key(
                    old(self)@.db.epics,
                    epic_id,
                ) && final(self)@.db == delete_epic_tr(old(self)@.db, epic_id) && final(self)@.pages == seq![Page::Board]) || (r == Err::<(), TrackerError>(
                    TrackerError::NotFound,
                ) && !has_key(old(self)@.db.epics, epic_id) && final(self)@ == old(self)@),
                Action::CreateStory { epic_id } => final(self)@.pages == old(self)@.pages && ((r
                    is Ok && has_key(old(self)@.db.epics, epic_id) && (exists|
                    n: Seq<char>,
                    d: Seq<char>,
                |
                    final(self)@.db == create_story_tr(old(self)@.db, epic_id, n, d))) || (r
                    == Err::<(), TrackerError>(TrackerError::NotFound) && !has_key(
                    old(self)@.db.epics,
                    epic_id,
                ) && final(self)@.db == old(self)@.db)),
                Action::UpdateStoryStatus { story_id } => final(self)@.pages == old(self)@.pages
                    && ((r is Ok && final(self)@.db == old(self)@.db) || (r is Ok && has_key(old(self)@.db.stories, story_id) && (
                exists|st: Status| final(self)@.db == update_story_status_tr(
                    old(self)@.db,
                    story_id,
                    st,
                ))) || (r == Err::<(), TrackerError>(TrackerError::NotFound) && !has_key(
                    old(self)@.db.stories,
                    story_id,
                ) && final(self)@.db == old(self)@.db)),
                Action::DeleteStory { epic_id, story_id } => (r is Ok
                    && final(self)@ == old(self)@) || (r is Ok
                    && valid_delete_story(old(self)@.db, epic_id, story_id) && final(self)@.db
                    == delete_story_tr(old(self)@.db, epic_id, story_id) && final(self)@.pages == (
                if old(self)@.pages.len() > 1 {
                    old(self)@.pages.drop_last()
                } else {
                    old(self)@.pages
                })) || (r == Err::<(), TrackerError>(TrackerError::NotFound)
                    && !valid_delete_story(old(self)@.db, epic_id, story_id) && final(self)@ == old(self)@),
                Action::Exit => r is Ok && final(self)@.db == old(self)@.db
                    && final(self)@.pages == Seq::<Page>::empty(),
            },
    {
        if self.pages.len() == 0 {
            return Ok(());
        }
        match *action {
            Action::NavigateToEpicDetail { epic_id } => {
                self.pages.push(Page::EpicDetail { epic_id });
                Ok(())
            },
            Action::NavigateToStoryDetail { epic_id, story_id } => {
                self.pages.push(Page::StoryDetail { epic_id, story_id });
                Ok(())
            },
            Action::NavigateToPreviousPage => {
                if self.pages.len() > 1 {
                    self.pages.pop();
                }
                Ok(())
            },
            Action::CreateEpic => {
                let e = prompts.create_epic();
                let ghost n = e.name@;
                let ghost d = e.description@;
                self.apply_create_epic(e.name, e.description);
                proof {
                    assert(self@.db == create_epic_tr(old(self)@.db, n, d));
                }
                Ok(())
            },
            Action::UpdateEpicStatus { epic_id } => {
                match prompts.update_status() {
                    None => self.apply_update_epic_status(epic_id, None),
                    Some(st) => {
                        let r = self.apply_update_epic_status(epic_id, Some(st));
                        proof {
                            if r is Ok {
                                assert(self@.db == update_epic_status_tr(
                                    old(self)@.db,
                                    epic_id,
                                    st,
                                ));
                                assert(exists|st2: Status|
                                    self@.db == update_epic_status_tr(
                                        old(self)@.db,
                                        epic_id,
                                        st2,
                                    ));
                            } else {
                                assert(r == Err::<(), TrackerError>(TrackerError::NotFound));
                            }
                        }
                        r
                    },
                }
            },
            Action::DeleteEpic { epic_id } => {
                let confirmed = prompts.delete_epic();
                self.apply_delete_epic(epic_id, confirmed)
            },
            Action::CreateStory { epic_id } => {
                let s = prompts.create_story();
                let ghost n = s.name@;
                let ghost d = s.description@;
                match self.apply_create_story(epic_id, s.name, s.description) {
                    Ok(_) => {
                        proof {
                            assert(self@.db == create_story_tr(old(self)@.db, epic_id, n, d));
                        }
                        Ok(())
                    },
                    Err(e) => Err(e),
                }
            },
            Action::UpdateStoryStatus { story_id } => {
                match prompts.update_status() {
                    None => self.apply_update_story_status(story_id, None),
                    Some(st) => {
                        let r = self.apply_update_story_status(story_id, Some(st));
                        proof {
                            if r is Ok {
                                assert(self@.db == update_story_status_tr(
                                    old(self)@.db,
                                    story_id,
                                    st,
                                ));
                                assert(exists|st2: Status|
                                    self@.db == update_story_status_tr(
                                        old(self)@.db,
                                        story_id,
                                        st2,
                                    ));
                            } else {
                                assert(r == Err::<(), TrackerError>(TrackerError::NotFound));
                            }
                        }
                        r
                    },
                }
            },
            Action::DeleteStory { epic_id, story_id } => {
                let confirmed = prompts.delete_story();
                self.apply_delete_story(epic_id, story_id, confirmed)
            },
            Action::Exit => {
                self.pages.clear();
                Ok(())
            },
        }
    }
}

} // verus!
