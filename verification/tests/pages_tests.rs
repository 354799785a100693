use tracker::models::{Action, Status};
use tracker::pages::{parse_id, Page};
use tracker::store::Store;

#[test]
fn parse_id_accepts_exactly_bounded_digit_strings() {
    assert_eq!(parse_id("0"), Some(0));
    assert_eq!(parse_id("42"), Some(42));
    assert_eq!(parse_id("007"), Some(7));
    assert_eq!(parse_id("4294967295"), Some(u32::MAX));
    assert_eq!(parse_id("4294967296"), None);
    assert_eq!(parse_id("99999999999999999999"), None);
    assert_eq!(parse_id(""), None);
    assert_eq!(parse_id("12a"), None);
    assert_eq!(parse_id("-1"), None);
    assert_eq!(parse_id("q"), None);
}

#[test]
fn board_inputs_map_to_actions() {
    let mut store = Store::new();
    let e = store.create_epic(String::from("E"), String::from("d"));
    let board = Page::Board;
    assert_eq!(board.handle_input(&store, "q"), Ok(Some(Action::Exit)));
    assert_eq!(board.handle_input(&store, "c"), Ok(Some(Action::CreateEpic)));
    assert_eq!(
        board.handle_input(&store, "1"),
        Ok(Some(Action::NavigateToEpicDetail { epic_id: e }))
    );
    assert_eq!(board.handle_input(&store, "5"), Ok(None));
    assert_eq!(board.handle_input(&store, "hello"), Ok(None));
    assert_eq!(board.handle_input(&store, ""), Ok(None));
}

#[test]
fn epic_detail_inputs_map_to_actions() {
    let mut store = Store::new();
    let e = store.create_epic(String::from("E"), String::from("d"));
    let other = store.create_epic(String::from("F"), String::from("d"));
    let s = store.create_story(e, String::from("S"), String::from("d")).unwrap();
    let foreign = store.create_story(other, String::from("T"), String::from("d")).unwrap();
    let page = Page::EpicDetail { epic_id: e };
    assert_eq!(page.handle_input(&store, "p"), Ok(Some(Action::NavigateToPreviousPage)));
    assert_eq!(
        page.handle_input(&store, "u"),
        Ok(Some(Action::UpdateEpicStatus { epic_id: e }))
    );
    assert_eq!(page.handle_input(&store, "d"), Ok(Some(Action::DeleteEpic { epic_id: e })));
    assert_eq!(page.handle_input(&store, "c"), Ok(Some(Action::CreateStory { epic_id: e })));
    assert_eq!(page.handle_input(&store, "q"), Ok(Some(Action::Exit)));
    assert_eq!(
        page.handle_input(&store, "3"),
        Ok(Some(Action::NavigateToStoryDetail { epic_id: e, story_id: s }))
    );
    // A story of another epic is not selectable here.
    assert_eq!(page.handle_input(&store, &format!("{}", foreign)), Ok(None));
    assert_eq!(page.handle_input(&store, "zzz"), Ok(None));
}

#[test]
fn epic_detail_with_deleted_epic_routes_back() {
    let mut store = Store::new();
    let e = store.create_epic(String::from("E"), String::from("d"));
    store.delete_epic(e).unwrap();
    let page = Page::EpicDetail { epic_id: e };
    assert_eq!(page.handle_input(&store, "u"), Ok(Some(Action::NavigateToPreviousPage)));
    assert_eq!(page.handle_input(&store, "anything"), Ok(Some(Action::NavigateToPreviousPage)));
}

#[test]
fn story_detail_inputs_map_to_actions() {
    let mut store = Store::new();
    let e = store.create_epic(String::from("E"), String::from("d"));
    let s = store.create_story(e, String::from("S"), String::from("d")).unwrap();
    let page = Page::StoryDetail { epic_id: e, story_id: s };
    assert_eq!(page.handle_input(&store, "p"), Ok(Some(Action::NavigateToPreviousPage)));
    assert_eq!(
        page.handle_input(&store, "u"),
        Ok(Some(Action::UpdateStoryStatus { story_id: s }))
    );
    assert_eq!(
        page.handle_input(&store, "d"),
        Ok(Some(Action::DeleteStory { epic_id: e, story_id: s }))
    );
    assert_eq!(page.handle_input(&store, "q"), Ok(Some(Action::Exit)));
    assert_eq!(page.handle_input(&store, "7"), Ok(None));
}

#[test]
fn story_detail_with_deleted_story_routes_back() {
    let mut store = Store::new();
    let e = store.create_epic(String::from("E"), String::from("d"));
    let s = store.create_story(e, String::from("S"), String::from("d")).unwrap();
    store.delete_story(e, s).unwrap();
    let page = Page::StoryDetail { epic_id: e, story_id: s };
    assert_eq!(page.handle_input(&store, "u"), Ok(Some(Action::NavigateToPreviousPage)));
}

#[test]
fn status_names_round_trip_by_name() {
    assert_eq!(Status::Open.name(), "Open");
    assert_eq!(Status::InProgress.name(), "InProgress");
    assert_eq!(Status::Resolved.name(), "Resolved");
    assert_eq!(Status::Closed.name(), "Closed");
}

#[test]
fn status_choices_and_order() {
    assert_eq!(Status::from_choice(1), Some(Status::Open));
    assert_eq!(Status::from_choice(2), Some(Status::InProgress));
    assert_eq!(Status::from_choice(3), Some(Status::Resolved));
    assert_eq!(Status::from_choice(4), Some(Status::Closed));
    assert_eq!(Status::from_choice(0), None);
    assert_eq!(Status::from_choice(5), None);
    assert!(Status::Open.le(&Status::InProgress));
    assert!(Status::InProgress.le(&Status::Resolved));
    assert!(Status::Resolved.le(&Status::Closed));
    assert!(!Status::Closed.le(&Status::Open));
    assert_eq!(Status::Open.rank(), 0);
    assert_eq!(Status::Closed.rank(), 3);
}
