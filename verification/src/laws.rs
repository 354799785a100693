//! The laws of the store: every transition of the model preserves
//! referential integrity, freshly minted ids are genuinely fresh, deleting
//! an epic leaves nothing of it behind, and deleting a story is
//! idempotent-safe.
use vstd::prelude::*;

use crate::model::{
    can_mint, count_in, create_epic_tr, create_story_tr, delete_epic_tr, delete_story_tr,
    drop_listed, has_key, idx_of, key_idx, keys, lemma_contains_push,
    lemma_count_in_contains, lemma_count_in_push, lemma_count_in_remove,
    lemma_drop_listed, lemma_has_key_remove, lemma_idx_of, lemma_key_idx,
    lemma_key_idx_unique, lemma_keys_push, lemma_keys_remove, lemma_keys_update,
    lemma_listing_ge_entry, lemma_listing_pos, lemma_listing_push, lemma_listing_remove,
    lemma_listing_two, lemma_listing_update, lemma_sorted_remove, listing_count, next_id,
    strictly_sorted, update_epic_status_tr, update_story_status_tr, val_of, valid_delete_story,
    wf, DBStateView, EpicView, StoryView,
};
use crate::models::Status;

verus! {

/// A fresh id is unknown everywhere: it keys no epic, keys no story, and
/// appears in no epic's story list.
pub proof fn lemma_fresh_id(db: DBStateView)
    requires
        wf(db),
        can_mint(db),
    ensures
        !has_key(db.epics, next_id(db)),
        !has_key(db.stories, next_id(db)),
        listing_count(db.epics, next_id(db)) == 0,
{
    let id = next_id(db);
    if has_key(db.epics, id) {
        lemma_key_idx(db.epics, id);
        assert(db.epics[key_idx(db.epics, id)].0 <= db.last_item_id);
    }
    if has_key(db.stories, id) {
        lemma_key_idx(db.stories, id);
        assert(db.stories[key_idx(db.stories, id)].0 <= db.last_item_id);
    }
    if listing_count(db.epics, id) >= 1 {
        lemma_listing_pos(db.epics, id);
        let i = choose|i: int|
            0 <= i < db.epics.len() && (#[trigger] db.epics[i]).1.stories.contains(id);
        let k = choose|k: int|
            0 <= k < db.epics[i].1.stories.len() && db.epics[i].1.stories[k] == id;
        assert(has_key(db.stories, db.epics[i].1.stories[k]));
        lemma_key_idx(db.stories, id);
        assert(db.stories[key_idx(db.stories, id)].0 <= db.last_item_id);
    }
}

/// Creating an epic preserves integrity: the new epic lists nothing, and
/// every other entry is untouched.
pub proof fn lemma_create_epic_wf(db: DBStateView, name: Seq<char>, description: Seq<char>)
    requires
        wf(db),
        can_mint(db),
    ensures
        wf(create_epic_tr(db, name, description)),
        has_key(create_epic_tr(db, name, description).epics, next_id(db)),
{
    let id = next_id(db);
    let db2 = create_epic_tr(db, name, description);
    lemma_fresh_id(db);
    lemma_keys_push(db.epics, db2.epics[db.epics.len() as int]);
    assert(keys(db2.epics) == keys(db.epics).push(id));
    // Keys stay strictly sorted: the appended id exceeds every old key.
    assert forall|a: int, b: int| 0 <= a < b < keys(db2.epics).len() implies keys(db2.epics)[a]
        < keys(db2.epics)[b] by {
        assert(keys(db.epics)[a] == db.epics[a].0);
        if b < db.epics.len() {
            assert(keys(db.epics)[b] == db.epics[b].0);
        } else {
            assert(db.epics[a].0 <= db.last_item_id);
        }
    }
    // The new key is present.
    assert(keys(db2.epics)[db.epics.len() as int] == id);
    assert(has_key(db2.epics, id));
    // Bounds.
    assert forall|i: int| 0 <= i < db2.epics.len() implies (#[trigger] db2.epics[i]).0
        <= db2.last_item_id by {
        if i < db.epics.len() {
            assert(db2.epics[i] == db.epics[i]);
        }
    }
    // No dangling references: old lists are unchanged, the new list is empty.
    assert forall|i: int, k: int|
        0 <= i < db2.epics.len() && 0 <= k < db2.epics[i].1.stories.len() implies has_key(
        db2.stories,
        #[trigger] db2.epics[i].1.stories[k],
    ) by {
        if i < db.epics.len() {
            assert(db2.epics[i] == db.epics[i]);
        } else {
            assert(db2.epics[i].1.stories.len() == 0);
        }
    }
    // Ownership counts are unchanged: the new list contributes nothing.
    assert forall|i: int| 0 <= i < db2.stories.len() implies listing_count(
        db2.epics,
        (#[trigger] db2.stories[i]).0,
    ) == 1 by {
        let x = db2.stories[i].0;
        lemma_listing_push(db.epics, db2.epics[db.epics.len() as int], x);
        assert(db2.epics[db.epics.len() as int].1.stories.len() == 0);
        assert(count_in(db2.epics[db.epics.len() as int].1.stories, x) == 0);
        assert(db2.epics.drop_last() =~= db.epics);
        assert(listing_count(db2.epics, x) == listing_count(db.epics, x));
    }
}

/// Creating a story under an existing epic preserves integrity: the fresh
/// id keys the new story and lands in exactly that epic's list.
pub proof fn lemma_create_story_wf(
    db: DBStateView,
    epic_id: u32,
    name: Seq<char>,
    description: Seq<char>,
)
    requires
        wf(db),
        can_mint(db),
        has_key(db.epics, epic_id),
    ensures
        wf(create_story_tr(db, epic_id, name, description)),
        has_key(create_story_tr(db, epic_id, name, description).stories, next_id(db)),
{
    let id = next_id(db);
    let db2 = create_story_tr(db, epic_id, name, description);
    let i = key_idx(db.epics, epic_id);
    lemma_key_idx(db.epics, epic_id);
    lemma_fresh_id(db);
    let e = db.epics[i].1;
    let e2 = db2.epics[i].1;
    assert(e2.stories == e.stories.push(id));
    let p = (id, StoryView { name, description, status: Status::Open });
    assert(db2.stories == db.stories.push(p));
    // Epic keys are unchanged; story keys gain the fresh id at the top.
    lemma_keys_update(db.epics, i, db2.epics[i]);
    assert(keys(db2.epics) == keys(db.epics));
    lemma_keys_push(db.stories, p);
    assert(keys(db2.stories) == keys(db.stories).push(id));
    assert forall|a: int, b: int| 0 <= a < b < keys(db2.stories).len() implies keys(
        db2.stories,
    )[a] < keys(db2.stories)[b] by {
        assert(keys(db.stories)[a] == db.stories[a].0);
        if b < db.stories.len() {
            assert(keys(db.stories)[b] == db.stories[b].0);
        } else {
            assert(db.stories[a].0 <= db.last_item_id);
        }
    }
    assert(keys(db2.stories)[db.stories.len() as int] == id);
    assert(has_key(db2.stories, id));
    // Bounds: old ids stay below the old counter, the fresh id is the new
    // counter.
    assert forall|j: int| 0 <= j < db2.epics.len() implies (#[trigger] db2.epics[j]).0
        <= db2.last_item_id by {
        if j != i {
            assert(db2.epics[j] == db.epics[j]);
        }
    }
    assert forall|j: int| 0 <= j < db2.stories.len() implies (#[trigger] db2.stories[j]).0
        <= db2.last_item_id by {
        if j < db.stories.len() {
            assert(db2.stories[j] == db.stories[j]);
        }
    }
    // No dangling references: the one new listed id is the new story's key.
    assert forall|j: int, k: int|
        0 <= j < db2.epics.len() && 0 <= k < db2.epics[j].1.stories.len() implies has_key(
        db2.stories,
        #[trigger] db2.epics[j].1.stories[k],
    ) by {
        let x = db2.epics[j].1.stories[k];
        lemma_contains_push(keys(db.stories), id, x);
        if j != i {
            assert(db2.epics[j] == db.epics[j]);
            assert(has_key(db.stories, db.epics[j].1.stories[k]));
        } else {
            if k < e.stories.len() {
                assert(db2.epics[i].1.stories[k] == e.stories[k]);
                assert(has_key(db.stories, db.epics[i].1.stories[k]));
            } else {
                assert(db2.epics[i].1.stories[k] == id);
            }
        }
    }
    // Ownership counts: old stories keep their one listing; the new story
    // is listed once, by its epic.
    assert forall|t: int| 0 <= t < db2.stories.len() implies listing_count(
        db2.epics,
        (#[trigger] db2.stories[t]).0,
    ) == 1 by {
        let x = db2.stories[t].0;
        lemma_listing_update(db.epics, i, db2.epics[i], x);
        lemma_count_in_push(e.stories, id, x);
        if t < db.stories.len() {
            assert(db2.stories[t] == db.stories[t]);
            assert(db.stories[t].0 <= db.last_item_id);
            assert(listing_count(db.epics, x) == 1);
        } else {
            assert(x == id);
            lemma_listing_ge_entry(db.epics, i, id);
            assert(count_in(e.stories, id) == 0);
        }
    }
}

/// Deleting an epic preserves integrity: the epic's entry disappears, and
/// with it exactly the stories its list carried; no other epic ever listed
/// them, so nothing dangles.
pub proof fn lemma_delete_epic_wf(db: DBStateView, epic_id: u32)
    requires
        wf(db),
        has_key(db.epics, epic_id),
    ensures
        wf(delete_epic_tr(db, epic_id)),
        forall|k: u32|
            #[trigger] has_key(delete_epic_tr(db, epic_id).epics, k) <==> (has_key(db.epics, k)
                && k != epic_id),
        forall|k: u32|
            #[trigger] has_key(delete_epic_tr(db, epic_id).stories, k) <==> (has_key(
                db.stories,
                k,
            ) && !val_of(db.epics, epic_id).stories.contains(k)),
{
    let db2 = delete_epic_tr(db, epic_id);
    let i = key_idx(db.epics, epic_id);
    lemma_key_idx(db.epics, epic_id);
    let dead = db.epics[i].1.stories;
    assert(val_of(db.epics, epic_id) == db.epics[i].1);
    lemma_drop_listed(db.stories, dead);
    lemma_keys_remove(db.epics, i);
    lemma_sorted_remove(keys(db.epics), i);
    assert forall|k: u32| #[trigger] has_key(db2.epics, k) <==> (has_key(db.epics, k) && k
        != epic_id) by {
        lemma_has_key_remove(db.epics, i, k);
    }
    // Bounds.
    assert forall|j: int| 0 <= j < db2.epics.len() implies (#[trigger] db2.epics[j]).0
        <= db2.last_item_id by {
        if j < i {
            assert(db2.epics[j] == db.epics[j]);
        } else {
            assert(db2.epics[j] == db.epics[j + 1]);
        }
    }
    assert forall|j: int| 0 <= j < db2.stories.len() implies (#[trigger] db2.stories[j]).0
        <= db2.last_item_id by {
        let jj = choose|jj: int| 0 <= jj < db.stories.len() && db.stories[jj] == db2.stories[j];
    }
    // No dangling references: a surviving epic never listed a dead story,
    // for that would make two owners.
    assert forall|j: int, k: int|
        0 <= j < db2.epics.len() && 0 <= k < db2.epics[j].1.stories.len() implies has_key(
        db2.stories,
        #[trigger] db2.epics[j].1.stories[k],
    ) by {
        let j_old: int = if j < i {
            j
        } else {
            j + 1
        };
        assert(db2.epics[j] == db.epics[j_old]);
        let x = db2.epics[j].1.stories[k];
        assert(has_key(db.stories, db.epics[j_old].1.stories[k]));
        if dead.contains(x) {
            assert(db.epics[j_old].1.stories[k] == x);
            assert(db.epics[j_old].1.stories.contains(x));
            assert(db.epics[i].1.stories.contains(x));
            if i < j_old {
                lemma_listing_two(db.epics, i, j_old, x);
            } else {
                lemma_listing_two(db.epics, j_old, i, x);
            }
            lemma_key_idx(db.stories, x);
            assert(listing_count(db.epics, (db.stories[key_idx(db.stories, x)]).0) == 1);
            assert(false);
        }
    }
    // Ownership counts: the dead list contributed nothing to a surviving
    // story's count.
    assert forall|t: int| 0 <= t < db2.stories.len() implies listing_count(
        db2.epics,
        (#[trigger] db2.stories[t]).0,
    ) == 1 by {
        let x = db2.stories[t].0;
        assert(keys(db2.stories)[t] == x);
        assert(keys(db2.stories).contains(x));
        assert(has_key(db2.stories, x));
        lemma_count_in_contains(dead, x);
        lemma_listing_remove(db.epics, i, x);
        lemma_key_idx(db.stories, x);
        assert(listing_count(db.epics, (db.stories[key_idx(db.stories, x)]).0) == 1);
    }
}

/// Deleting a story preserves integrity, and a second deletion of the same
/// story can never be valid again: neither its entry nor its listing
/// survives.
pub proof fn lemma_delete_story_wf(db: DBStateView, epic_id: u32, story_id: u32)
    requires
        wf(db),
        valid_delete_story(db, epic_id, story_id),
    ensures
        wf(delete_story_tr(db, epic_id, story_id)),
        forall|k: u32|
            #[trigger] has_key(delete_story_tr(db, epic_id, story_id).stories, k) <==> (has_key(
                db.stories,
                k,
            ) && k != story_id),
        has_key(delete_story_tr(db, epic_id, story_id).epics, epic_id),
        !val_of(delete_story_tr(db, epic_id, story_id).epics, epic_id).stories.contains(story_id),
        !valid_delete_story(delete_story_tr(db, epic_id, story_id), epic_id, story_id),
{
    let db2 = delete_story_tr(db, epic_id, story_id);
    let i = key_idx(db.epics, epic_id);
    lemma_key_idx(db.epics, epic_id);
    let e = db.epics[i].1;
    assert(val_of(db.epics, epic_id) == e);
    let li = idx_of(e.stories, story_id);
    lemma_idx_of(e.stories, story_id);
    let si = key_idx(db.stories, story_id);
    lemma_key_idx(db.stories, story_id);
    let e2 = db2.epics[i].1;
    assert(e2.stories == e.stories.remove(li));
    // The owning epic lists the story exactly once, so removal empties it.
    lemma_count_in_contains(e.stories, story_id);
    lemma_listing_ge_entry(db.epics, i, story_id);
    assert(listing_count(db.epics, (db.stories[si]).0) == 1);
    assert(count_in(e.stories, story_id) == 1);
    lemma_count_in_remove(e.stories, li, story_id);
    assert(count_in(e2.stories, story_id) == 0);
    lemma_count_in_contains(e2.stories, story_id);
    assert(!e2.stories.contains(story_id));
    // Keys.
    lemma_keys_update(db.epics, i, db2.epics[i]);
    assert(keys(db2.epics) == keys(db.epics));
    lemma_keys_remove(db.stories, si);
    lemma_sorted_remove(keys(db.stories), si);
    assert forall|k: u32| #[trigger] has_key(db2.stories, k) <==> (has_key(db.stories, k) && k
        != story_id) by {
        lemma_has_key_remove(db.stories, si, k);
    }
    lemma_key_idx_unique(db2.epics, epic_id, i);
    assert(val_of(db2.epics, epic_id) == e2);
    // Bounds.
    assert forall|j: int| 0 <= j < db2.epics.len() implies (#[trigger] db2.epics[j]).0
        <= db2.last_item_id by {
        if j != i {
            assert(db2.epics[j] == db.epics[j]);
        }
    }
    assert forall|j: int| 0 <= j < db2.stories.len() implies (#[trigger] db2.stories[j]).0
        <= db2.last_item_id by {
        if j < si {
            assert(db2.stories[j] == db.stories[j]);
        } else {
            assert(db2.stories[j] == db.stories[j + 1]);
        }
    }
    // No dangling references.
    assert forall|j: int, k: int|
        0 <= j < db2.epics.len() && 0 <= k < db2.epics[j].1.stories.len() implies has_key(
        db2.stories,
        #[trigger] db2.epics[j].1.stories[k],
    ) by {
        let x = db2.epics[j].1.stories[k];
        if j != i {
            assert(db2.epics[j] == db.epics[j]);
            assert(has_key(db.stories, db.epics[j].1.stories[k]));
            if x == story_id {
                assert(db.epics[j].1.stories.contains(story_id));
                assert(db.epics[i].1.stories.contains(story_id));
                if i < j {
                    lemma_listing_two(db.epics, i, j, story_id);
                } else {
                    lemma_listing_two(db.epics, j, i, story_id);
                }
                assert(false);
            }
        } else {
            let k_old: int = if k < li {
                k
            } else {
                k + 1
            };
            assert(e2.stories[k] == e.stories[k_old]);
            assert(has_key(db.stories, db.epics[i].1.stories[k_old]));
            if x == story_id {
                assert(e2.stories[k] == story_id);
                assert(e2.stories.contains(story_id));
                assert(false);
            }
        }
    }
    // Ownership counts: the one removed occurrence belonged to the removed
    // story.
    assert forall|t: int| 0 <= t < db2.stories.len() implies listing_count(
        db2.epics,
        (#[trigger] db2.stories[t]).0,
    ) == 1 by {
        let x = db2.stories[t].0;
        let t_old: int = if t < si {
            t
        } else {
            t + 1
        };
        assert(db2.stories[t] == db.stories[t_old]);
        assert(listing_count(db.epics, (db.stories[t_old]).0) == 1);
        assert(keys(db.stories)[t_old] == x);
        assert(keys(db.stories)[si] == story_id);
        if x == story_id {
            if t_old < si {
                assert(keys(db.stories)[t_old] < keys(db.stories)[si]);
            } else {
                assert(keys(db.stories)[si] < keys(db.stories)[t_old]);
            }
            assert(false);
        }
        lemma_listing_update(db.epics, i, db2.epics[i], x);
        lemma_count_in_remove(e.stories, li, x);
        assert(e.stories[li] == story_id);
    }
}

/// Changing an epic's status preserves integrity: keys and story lists are
/// untouched.
pub proof fn lemma_update_epic_status_wf(db: DBStateView, epic_id: u32, status: Status)
    requires
        wf(db),
        has_key(db.epics, epic_id),
    ensures
        wf(update_epic_status_tr(db, epic_id, status)),
{
    let db2 = update_epic_status_tr(db, epic_id, status);
    let i = key_idx(db.epics, epic_id);
    lemma_key_idx(db.epics, epic_id);
    let p = (epic_id, db2.epics[i].1);
    lemma_keys_update(db.epics, i, db2.epics[i]);
    assert(keys(db2.epics) == keys(db.epics));
    assert forall|j: int| 0 <= j < db2.epics.len() implies (#[trigger] db2.epics[j]).0
        <= db2.last_item_id by {
        if j != i {
            assert(db2.epics[j] == db.epics[j]);
        }
    }
    assert forall|j: int, k: int|
        0 <= j < db2.epics.len() && 0 <= k < db2.epics[j].1.stories.len() implies has_key(
        db2.stories,
        #[trigger] db2.epics[j].1.stories[k],
    ) by {
        if j != i {
            assert(db2.epics[j] == db.epics[j]);
        } else {
            assert(db2.epics[j].1.stories == db.epics[i].1.stories);
        }
    }
    assert forall|j: int| 0 <= j < db2.stories.len() implies listing_count(
        db2.epics,
        (#[trigger] db2.stories[j]).0,
    ) == 1 by {
        let x = db2.stories[j].0;
        lemma_listing_update(db.epics, i, db2.epics[i], x);
    }
}

/// Changing a story's status preserves integrity: keys and story lists are
/// untouched.
pub proof fn lemma_update_story_status_wf(db: DBStateView, story_id: u32, status: Status)
    requires
        wf(db),
        has_key(db.stories, story_id),
    ensures
        wf(update_story_status_tr(db, story_id, status)),
{
    let db2 = update_story_status_tr(db, story_id, status);
    let i = key_idx(db.stories, story_id);
    lemma_key_idx(db.stories, story_id);
    lemma_keys_update(db.stories, i, db2.stories[i]);
    assert(keys(db2.stories) == keys(db.stories));
    assert forall|j: int| 0 <= j < db2.stories.len() implies (#[trigger] db2.stories[j]).0
        <= db2.last_item_id by {
        assert(keys(db2.stories)[j] == db2.stories[j].0);
        assert(keys(db.stories)[j] == db.stories[j].0);
    }
    assert forall|j: int, k: int|
        0 <= j < db2.epics.len() && 0 <= k < db2.epics[j].1.stories.len() implies has_key(
        db2.stories,
        #[trigger] db2.epics[j].1.stories[k],
    ) by {
        assert(has_key(db.stories, db.epics[j].1.stories[k]));
    }
    assert forall|j: int| 0 <= j < db2.stories.len() implies listing_count(
        db2.epics,
        (#[trigger] db2.stories[j]).0,
    ) == 1 by {
        assert(keys(db2.stories)[j] == db2.stories[j].0);
        assert(keys(db.stories)[j] == db.stories[j].0);
        assert(db.stories[j].0 == db2.stories[j].0);
    }
}

/// After deleting an epic nothing of it remains: no entry carries its id
/// any more, and no story its list carried survives the cascade.
pub proof fn lemma_delete_epic_leaves_no_trace(db: DBStateView, epic_id: u32)
    requires
        wf(db),
        has_key(db.epics, epic_id),
    ensures
        forall|j: int|
            0 <= j < delete_epic_tr(db, epic_id).epics.len() ==> (#[trigger] delete_epic_tr(
                db,
                epic_id,
            ).epics[j]).0 != epic_id,
        forall|k: u32|
            val_of(db.epics, epic_id).stories.contains(k) ==> !(#[trigger] has_key(
                delete_epic_tr(db, epic_id).stories,
                k,
            )),
{
    lemma_delete_epic_wf(db, epic_id);
    let db2 = delete_epic_tr(db, epic_id);
    assert forall|j: int| 0 <= j < db2.epics.len() implies (#[trigger] db2.epics[j]).0
        != epic_id by {
        if db2.epics[j].0 == epic_id {
            assert(keys(db2.epics)[j] == db2.epics[j].0);
            assert(has_key(db2.epics, epic_id));
        }
    }
}

/// One store mutation with its inputs, as the model sees it.
pub enum StoreOp {
    CreateEpic { name: Seq<char>, description: Seq<char> },
    CreateStory { epic_id: u32, name: Seq<char>, description: Seq<char> },
    UpdateEpicStatus { epic_id: u32, status: Status },
    UpdateStoryStatus { story_id: u32, status: Status },
    DeleteEpic { epic_id: u32 },
    DeleteStory { epic_id: u32, story_id: u32 },
}

/// Whether the operation succeeds on this state; a failing operation
/// changes nothing.
pub open spec fn op_enabled(db: DBStateView, op: StoreOp) -> bool {
    match op {
        StoreOp::CreateEpic { .. } => can_mint(db),
        StoreOp::CreateStory { epic_id, .. } => can_mint(db) && has_key(db.epics, epic_id),
        StoreOp::UpdateEpicStatus { epic_id, .. } => has_key(db.epics, epic_id),
        StoreOp::UpdateStoryStatus { story_id, .. } => has_key(db.stories, story_id),
        StoreOp::DeleteEpic { epic_id } => has_key(db.epics, epic_id),
        StoreOp::DeleteStory { epic_id, story_id } => valid_delete_story(db, epic_id, story_id),
    }
}

/// The state after one operation: its transition when enabled, unchanged
/// otherwise.
pub open spec fn apply_op(db: DBStateView, op: StoreOp) -> DBStateView {
    if !op_enabled(db, op) {
        db
    } else {
        match op {
            StoreOp::CreateEpic { name, description } => create_epic_tr(db, name, description),
            StoreOp::CreateStory { epic_id, name, description } => create_story_tr(
                db,
                epic_id,
                name,
                description,
            ),
            StoreOp::UpdateEpicStatus { epic_id, status } => update_epic_status_tr(
                db,
                epic_id,
                status,
            ),
            StoreOp::UpdateStoryStatus { story_id, status } => update_story_status_tr(
                db,
                story_id,
                status,
            ),
            StoreOp::DeleteEpic { epic_id } => delete_epic_tr(db, epic_id),
            StoreOp::DeleteStory { epic_id, story_id } => delete_story_tr(db, epic_id, story_id),
        }
    }
}

/// The state after a run of operations, applied in order.
pub open spec fn apply_ops(db: DBStateView, ops: Seq<StoreOp>) -> DBStateView
    decreases ops.len(),
{
    if ops.len() == 0 {
        db
    } else {
        apply_ops(apply_op(db, ops[0]), ops.skip(1))
    }
}

/// One operation preserves integrity.
pub proof fn lemma_wf_apply_op(db: DBStateView, op: StoreOp)
    requires
        wf(db),
    ensures
        wf(apply_op(db, op)),
{
    if op_enabled(db, op) {
        match op {
            StoreOp::CreateEpic { name, description } => {
                lemma_create_epic_wf(db, name, description);
            },
            StoreOp::CreateStory { epic_id, name, description } => {
                lemma_create_story_wf(db, epic_id, name, description);
            },
            StoreOp::UpdateEpicStatus { epic_id, status } => {
                lemma_update_epic_status_wf(db, epic_id, status);
            },
            StoreOp::UpdateStoryStatus { story_id, status } => {
                lemma_update_story_status_wf(db, story_id, status);
            },
            StoreOp::DeleteEpic { epic_id } => {
                lemma_delete_epic_wf(db, epic_id);
            },
            StoreOp::DeleteStory { epic_id, story_id } => {
                lemma_delete_story_wf(db, epic_id, story_id);
            },
        }
    }
}

/// Integrity holds after every sequence of create, update and delete
/// operations: no dangling reference ever appears, and every story stays
/// owned by exactly one epic.
pub proof fn lemma_wf_apply_ops(db: DBStateView, ops: Seq<StoreOp>)
    requires
        wf(db),
    ensures
        wf(apply_ops(db, ops)),
    decreases ops.len(),
{
    if ops.len() > 0 {
        lemma_wf_apply_op(db, ops[0]);
        lemma_wf_apply_ops(apply_op(db, ops[0]), ops.skip(1));
    }
}

/// One operation never moves the id counter backwards.
pub proof fn lemma_op_counter(db: DBStateView, op: StoreOp)
    ensures
        apply_op(db, op).last_item_id >= db.last_item_id,
{
    if op_enabled(db, op) {
        match op {
            StoreOp::CreateEpic { name, description } => {
                assert(apply_op(db, op) == create_epic_tr(db, name, description));
            },
            StoreOp::CreateStory { epic_id, name, description } => {
                assert(apply_op(db, op) == create_story_tr(db, epic_id, name, description));
            },
            StoreOp::UpdateEpicStatus { epic_id, status } => {
            },
            StoreOp::UpdateStoryStatus { story_id, status } => {
            },
            StoreOp::DeleteEpic { epic_id } => {
            },
            StoreOp::DeleteStory { epic_id, story_id } => {
            },
        }
    }
}

/// The id counter never moves backwards.
pub proof fn lemma_counter_monotone(db: DBStateView, ops: Seq<StoreOp>)
    ensures
        apply_ops(db, ops).last_item_id >= db.last_item_id,
    decreases ops.len(),
{
    if ops.len() > 0 {
        lemma_op_counter(db, ops[0]);
        lemma_counter_monotone(apply_op(db, ops[0]), ops.skip(1));
    }
}

/// The ids the create operations of a run hand out, in order.
pub open spec fn minted_ids(db: DBStateView, ops: Seq<StoreOp>) -> Seq<u32>
    decreases ops.len(),
{
    if ops.len() == 0 {
        Seq::empty()
    } else {
        let rest = minted_ids(apply_op(db, ops[0]), ops.skip(1));
        if (ops[0] is CreateEpic || ops[0] is CreateStory) && op_enabled(db, ops[0]) {
            seq![next_id(db)] + rest
        } else {
            rest
        }
    }
}

/// Creating any number of epics and stories, in any interleaving with
/// other operations, yields strictly increasing — hence pairwise distinct
/// — ids, all above the starting counter and at most the final one.
pub proof fn lemma_minted_ids(db: DBStateView, ops: Seq<StoreOp>)
    ensures
        strictly_sorted(minted_ids(db, ops)),
        forall|i: int|
            0 <= i < minted_ids(db, ops).len() ==> db.last_item_id < #[trigger] minted_ids(
                db,
                ops,
            )[i] <= apply_ops(db, ops).last_item_id,
    decreases ops.len(),
{
    if ops.len() == 0 {
    } else {
        let db1 = apply_op(db, ops[0]);
        let rest = minted_ids(db1, ops.skip(1));
        lemma_minted_ids(db1, ops.skip(1));
        assert(apply_ops(db, ops) == apply_ops(db1, ops.skip(1)));
        if (ops[0] is CreateEpic || ops[0] is CreateStory) && op_enabled(db, ops[0]) {
            let id = next_id(db);
            assert(db1.last_item_id == id);
            let whole = seq![id] + rest;
            assert(whole[0] == id);
            assert forall|i: int| 0 <= i < whole.len() implies db.last_item_id < (
            #[trigger] whole[i]) <= apply_ops(db, ops).last_item_id by {
                if i == 0 {
                    lemma_counter_monotone(db1, ops.skip(1));
                } else {
                    assert(whole[i] == rest[i - 1]);
                }
            }
            assert forall|a: int, c: int| 0 <= a < c < whole.len() implies whole[a] < whole[c] by {
                assert(whole[c] == rest[c - 1]);
                if a > 0 {
                    assert(whole[a] == rest[a - 1]);
                }
            }
        } else {
            lemma_op_counter(db, ops[0]);
        }
    }
}

} // verus!
