use tracker::models::{Status, TrackerError};
use tracker::store::Store;

#[test]
fn empty_store_then_create_delete_cascade() {
    let mut store = Store::new();
    let epic_id = store.create_epic(String::from("A"), String::from("descA"));
    assert_eq!(epic_id, 1);
    let story_id = store.create_story(1, String::from("S"), String::from("descS")).unwrap();
    assert_eq!(story_id, 2);
    assert!(store.delete_epic(1).is_ok());
    assert!(store.list_epics().is_empty());
    assert!(store.read_story(2).is_none());
}

#[test]
fn create_story_under_missing_epic_is_not_found() {
    let mut store = Store::new();
    let r = store.create_story(7, String::from("S"), String::from("d"));
    assert_eq!(r, Err(TrackerError::NotFound));
    assert!(store.list_epics().is_empty());
}

#[test]
fn delete_story_removes_everywhere_and_is_idempotent_safe() {
    let mut store = Store::new();
    let e = store.create_epic(String::from("E"), String::from("d"));
    let s = store.create_story(e, String::from("S"), String::from("d")).unwrap();
    assert!(store.delete_story(e, s).is_ok());
    assert!(store.read_story(s).is_none());
    assert!(store.read_epic(e).unwrap().stories.is_empty());
    assert_eq!(store.delete_story(e, s), Err(TrackerError::NotFound));
}

#[test]
fn delete_story_with_wrong_epic_is_not_found() {
    let mut store = Store::new();
    let e1 = store.create_epic(String::from("E1"), String::from("d"));
    let e2 = store.create_epic(String::from("E2"), String::from("d"));
    let s = store.create_story(e1, String::from("S"), String::from("d")).unwrap();
    assert_eq!(store.delete_story(e2, s), Err(TrackerError::NotFound));
    assert!(store.read_story(s).is_some());
    assert_eq!(store.read_epic(e1).unwrap().stories, vec![s]);
}

#[test]
fn delete_epic_cascades_only_into_its_own_stories() {
    let mut store = Store::new();
    let e1 = store.create_epic(String::from("E1"), String::from("d"));
    let e2 = store.create_epic(String::from("E2"), String::from("d"));
    let s1 = store.create_story(e1, String::from("S1"), String::from("d")).unwrap();
    let s2 = store.create_story(e1, String::from("S2"), String::from("d")).unwrap();
    let s3 = store.create_story(e2, String::from("S3"), String::from("d")).unwrap();
    assert!(store.delete_epic(e1).is_ok());
    assert!(store.read_story(s1).is_none());
    assert!(store.read_story(s2).is_none());
    assert!(store.read_story(s3).is_some());
    let listed: Vec<u32> = store.list_epics().iter().map(|p| p.0).collect();
    assert_eq!(listed, vec![e2]);
    assert_eq!(store.delete_epic(e1), Err(TrackerError::NotFound));
}

#[test]
fn update_statuses_and_missing_ids() {
    let mut store = Store::new();
    let e = store.create_epic(String::from("E"), String::from("d"));
    let s = store.create_story(e, String::from("S"), String::from("d")).unwrap();
    assert!(store.update_epic_status(e, Status::Closed).is_ok());
    assert_eq!(store.read_epic(e).unwrap().status, Status::Closed);
    assert!(store.update_story_status(s, Status::InProgress).is_ok());
    assert_eq!(store.read_story(s).unwrap().status, Status::InProgress);
    assert_eq!(store.update_epic_status(99, Status::Open), Err(TrackerError::NotFound));
    assert_eq!(store.update_story_status(99, Status::Open), Err(TrackerError::NotFound));
}

#[test]
fn interleaved_creates_yield_distinct_bounded_ids() {
    let mut store = Store::new();
    let mut ids: Vec<u32> = Vec::new();
    let e1 = store.create_epic(String::from("E1"), String::from("d"));
    ids.push(e1);
    ids.push(store.create_story(e1, String::from("S"), String::from("d")).unwrap());
    let e2 = store.create_epic(String::from("E2"), String::from("d"));
    ids.push(e2);
    assert!(store.delete_epic(e1).is_ok());
    ids.push(store.create_story(e2, String::from("S"), String::from("d")).unwrap());
    ids.push(store.create_epic(String::from("E3"), String::from("d")));
    let last = store.save().last_item_id;
    for i in 0..ids.len() {
        assert!(ids[i] <= last);
        for j in 0..i {
            assert_ne!(ids[i], ids[j]);
        }
    }
    assert_eq!(ids, vec![1, 2, 3, 4, 5]);
}

#[test]
fn list_epics_is_in_ascending_id_order() {
    let mut store = Store::new();
    store.create_epic(String::from("A"), String::from("a"));
    store.create_epic(String::from("B"), String::from("b"));
    store.create_epic(String::from("C"), String::from("c"));
    let listed = store.list_epics();
    let ids: Vec<u32> = listed.iter().map(|p| p.0).collect();
    assert_eq!(ids, vec![1, 2, 3]);
    assert_eq!(listed[0].1.name, "A");
    assert_eq!(listed[2].1.name, "C");
}

#[test]
fn reads_report_exactly_what_was_created() {
    let mut store = Store::new();
    let e = store.create_epic(String::from("Epic name"), String::from("Epic text"));
    let s = store.create_story(e, String::from("Story name"), String::from("Story text")).unwrap();
    assert!(store.contains_epic(e));
    assert!(store.contains_story(s));
    assert!(!store.contains_epic(s));
    let epic = store.read_epic(e).unwrap();
    assert_eq!(epic.name, "Epic name");
    assert_eq!(epic.description, "Epic text");
    assert_eq!(epic.status, Status::Open);
    assert_eq!(epic.stories, vec![s]);
    let story = store.read_story(s).unwrap();
    assert_eq!(story.name, "Story name");
    assert_eq!(story.description, "Story text");
    assert_eq!(story.status, Status::Open);
}
