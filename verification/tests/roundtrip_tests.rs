use tracker::models::{DBState, Epic, Status, Story, TrackerError};
use tracker::store::Store;

fn epic(name: &str, status: Status, stories: Vec<u32>) -> Epic {
    Epic { name: String::from(name), description: String::from("d"), status, stories }
}

fn story(name: &str, status: Status) -> Story {
    Story { name: String::from(name), description: String::from("d"), status }
}

#[test]
fn save_load_save_round_trips() {
    let mut store = Store::new();
    let e1 = store.create_epic(String::from("E1"), String::from("d1"));
    let e2 = store.create_epic(String::from("E2"), String::from("d2"));
    store.create_story(e1, String::from("S1"), String::from("sd1")).unwrap();
    store.create_story(e2, String::from("S2"), String::from("sd2")).unwrap();
    store.update_epic_status(e2, Status::Resolved).unwrap();
    let saved = store.save();
    let reloaded = Store::load(saved.clone()).unwrap();
    let saved_again = reloaded.save();
    assert_eq!(saved_again, saved);
    assert_eq!(saved_again, store.save());
}

#[test]
fn load_accepts_a_well_formed_state() {
    let state = DBState {
        last_item_id: 3,
        epics: vec![(1, epic("E", Status::Open, vec![2, 3]))],
        stories: vec![(2, story("S1", Status::Open)), (3, story("S2", Status::Closed))],
    };
    let store = Store::load(state).unwrap();
    assert!(store.contains_epic(1));
    assert!(store.epic_lists_story(1, 3));
}

#[test]
fn load_rejects_dangling_story_reference() {
    let state = DBState {
        last_item_id: 5,
        epics: vec![(1, epic("E", Status::Open, vec![5]))],
        stories: vec![],
    };
    assert_eq!(Store::load(state).err(), Some(TrackerError::StateCorruption));
}

#[test]
fn load_rejects_unowned_story() {
    let state = DBState {
        last_item_id: 2,
        epics: vec![(1, epic("E", Status::Open, vec![]))],
        stories: vec![(2, story("S", Status::Open))],
    };
    assert_eq!(Store::load(state).err(), Some(TrackerError::StateCorruption));
}

#[test]
fn load_rejects_a_story_listed_twice() {
    let twice = DBState {
        last_item_id: 3,
        epics: vec![
            (1, epic("E1", Status::Open, vec![3])),
            (2, epic("E2", Status::Open, vec![3])),
        ],
        stories: vec![(3, story("S", Status::Open))],
    };
    assert_eq!(Store::load(twice).err(), Some(TrackerError::StateCorruption));
    let twice_in_one = DBState {
        last_item_id: 2,
        epics: vec![(1, epic("E", Status::Open, vec![2, 2]))],
        stories: vec![(2, story("S", Status::Open))],
    };
    assert_eq!(Store::load(twice_in_one).err(), Some(TrackerError::StateCorruption));
}

#[test]
fn load_rejects_unsorted_or_duplicate_keys() {
    let unsorted = DBState {
        last_item_id: 2,
        epics: vec![
            (2, epic("E2", Status::Open, vec![])),
            (1, epic("E1", Status::Open, vec![])),
        ],
        stories: vec![],
    };
    assert_eq!(Store::load(unsorted).err(), Some(TrackerError::StateCorruption));
    let duplicate = DBState {
        last_item_id: 1,
        epics: vec![
            (1, epic("E", Status::Open, vec![])),
            (1, epic("E again", Status::Open, vec![])),
        ],
        stories: vec![],
    };
    assert_eq!(Store::load(duplicate).err(), Some(TrackerError::StateCorruption));
}

#[test]
fn load_rejects_an_id_above_the_counter() {
    let state = DBState {
        last_item_id: 1,
        epics: vec![(5, epic("E", Status::Open, vec![]))],
        stories: vec![],
    };
    assert_eq!(Store::load(state).err(), Some(TrackerError::StateCorruption));
}

#[test]
fn loaded_state_is_taken_as_it_is() {
    let state = DBState {
        last_item_id: 9,
        epics: vec![(4, epic("E", Status::InProgress, vec![7]))],
        stories: vec![(7, story("S", Status::Resolved))],
    };
    let mut store = Store::load(state).unwrap();
    assert_eq!(store.read_epic(4).unwrap().status, Status::InProgress);
    assert_eq!(store.read_story(7).unwrap().status, Status::Resolved);
    // Fresh ids continue above the loaded counter.
    let e = store.create_epic(String::from("New"), String::from("d"));
    assert_eq!(e, 10);
}
