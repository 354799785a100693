use tracker::models::{Action, Epic, Status, Story, TrackerError};
use tracker::navigator::{Navigator, PromptSet};
use tracker::pages::Page;
use tracker::store::Store;

/// Deterministic stand-ins for the terminal prompts.
struct FakePrompts {
    confirm: bool,
    status: Option<Status>,
}

impl PromptSet for FakePrompts {
    fn create_epic(&mut self) -> Epic {
        Epic::new(String::from("Prompted epic"), String::from("pe"))
    }

    fn create_story(&mut self) -> Story {
        Story::new(String::from("Prompted story"), String::from("ps"))
    }

    fn delete_epic(&mut self) -> bool {
        self.confirm
    }

    fn delete_story(&mut self) -> bool {
        self.confirm
    }

    fn update_status(&mut self) -> Option<Status> {
        self.status
    }
}

fn fakes(confirm: bool, status: Option<Status>) -> FakePrompts {
    FakePrompts { confirm, status }
}

#[test]
fn navigation_pushes_and_pops_with_board_floor() {
    let mut nav = Navigator::new(Store::new());
    let mut p = fakes(false, None);
    assert_eq!(nav.current_page(), Some(Page::Board));
    nav.handle_action(&Action::NavigateToEpicDetail { epic_id: 1 }, &mut p).unwrap();
    assert_eq!(nav.current_page(), Some(Page::EpicDetail { epic_id: 1 }));
    nav.handle_action(&Action::NavigateToPreviousPage, &mut p).unwrap();
    assert_eq!(nav.current_page(), Some(Page::Board));
    nav.handle_action(&Action::NavigateToPreviousPage, &mut p).unwrap();
    assert_eq!(nav.current_page(), Some(Page::Board));
}

#[test]
fn confirmed_delete_epic_pops_past_story_pages_to_board() {
    let mut store = Store::new();
    let e = store.create_epic(String::from("E"), String::from("d"));
    let s = store.create_story(e, String::from("S"), String::from("d")).unwrap();
    let mut nav = Navigator::new(store);
    let mut p = fakes(true, None);
    nav.handle_action(&Action::NavigateToEpicDetail { epic_id: e }, &mut p).unwrap();
    nav.handle_action(&Action::NavigateToStoryDetail { epic_id: e, story_id: s }, &mut p).unwrap();
    nav.handle_action(&Action::DeleteEpic { epic_id: e }, &mut p).unwrap();
    assert_eq!(nav.current_page(), Some(Page::Board));
    assert!(!nav.store().contains_epic(e));
    assert!(!nav.store().contains_story(s));
}

#[test]
fn unconfirmed_delete_epic_changes_nothing() {
    let mut store = Store::new();
    let e = store.create_epic(String::from("E"), String::from("d"));
    let mut nav = Navigator::new(store);
    let mut p = fakes(false, None);
    nav.handle_action(&Action::NavigateToEpicDetail { epic_id: e }, &mut p).unwrap();
    nav.handle_action(&Action::DeleteEpic { epic_id: e }, &mut p).unwrap();
    assert_eq!(nav.current_page(), Some(Page::EpicDetail { epic_id: e }));
    assert!(nav.store().contains_epic(e));
}

#[test]
fn confirmed_delete_story_pops_one_level() {
    let mut store = Store::new();
    let e = store.create_epic(String::from("E"), String::from("d"));
    let s = store.create_story(e, String::from("S"), String::from("d")).unwrap();
    let mut nav = Navigator::new(store);
    let mut p = fakes(true, None);
    nav.handle_action(&Action::NavigateToEpicDetail { epic_id: e }, &mut p).unwrap();
    nav.handle_action(&Action::NavigateToStoryDetail { epic_id: e, story_id: s }, &mut p).unwrap();
    nav.handle_action(&Action::DeleteStory { epic_id: e, story_id: s }, &mut p).unwrap();
    assert_eq!(nav.current_page(), Some(Page::EpicDetail { epic_id: e }));
    assert!(!nav.store().contains_story(s));
    assert!(nav.store().contains_epic(e));
}

#[test]
fn create_actions_go_through_the_prompts() {
    let mut nav = Navigator::new(Store::new());
    let mut p = fakes(false, None);
    nav.handle_action(&Action::CreateEpic, &mut p).unwrap();
    let listed = nav.store().list_epics();
    assert_eq!(listed.len(), 1);
    assert_eq!(listed[0].1.name, "Prompted epic");
    let e = listed[0].0;
    nav.handle_action(&Action::CreateStory { epic_id: e }, &mut p).unwrap();
    let epic = nav.store().read_epic(e).unwrap().duplicate();
    assert_eq!(epic.stories.len(), 1);
    assert_eq!(nav.store().read_story(epic.stories[0]).unwrap().name, "Prompted story");
}

#[test]
fn create_story_under_missing_epic_surfaces_not_found() {
    let mut nav = Navigator::new(Store::new());
    let mut p = fakes(false, None);
    let r = nav.handle_action(&Action::CreateStory { epic_id: 42 }, &mut p);
    assert_eq!(r, Err(TrackerError::NotFound));
}

#[test]
fn update_status_action_applies_the_choice_and_respects_cancel() {
    let mut store = Store::new();
    let e = store.create_epic(String::from("E"), String::from("d"));
    let s = store.create_story(e, String::from("S"), String::from("d")).unwrap();
    let mut nav = Navigator::new(store);
    let mut chose = fakes(false, Some(Status::Resolved));
    nav.handle_action(&Action::UpdateEpicStatus { epic_id: e }, &mut chose).unwrap();
    assert_eq!(nav.store().read_epic(e).unwrap().status, Status::Resolved);
    nav.handle_action(&Action::UpdateStoryStatus { story_id: s }, &mut chose).unwrap();
    assert_eq!(nav.store().read_story(s).unwrap().status, Status::Resolved);
    let mut cancelled = fakes(false, None);
    nav.handle_action(&Action::UpdateEpicStatus { epic_id: e }, &mut cancelled).unwrap();
    assert_eq!(nav.store().read_epic(e).unwrap().status, Status::Resolved);
    let r = nav.handle_action(&Action::UpdateEpicStatus { epic_id: 99 }, &mut chose);
    assert_eq!(r, Err(TrackerError::NotFound));
}

#[test]
fn exit_clears_the_stack_and_later_actions_do_nothing() {
    let mut store = Store::new();
    let e = store.create_epic(String::from("E"), String::from("d"));
    let mut nav = Navigator::new(store);
    let mut p = fakes(true, None);
    nav.handle_action(&Action::Exit, &mut p).unwrap();
    assert_eq!(nav.current_page(), None);
    nav.handle_action(&Action::DeleteEpic { epic_id: e }, &mut p).unwrap();
    assert!(nav.store().contains_epic(e));
    assert_eq!(nav.current_page(), None);
}
