//! Mathematical model of the tracker: abstract views of the entity types,
//! the referential-integrity predicate [`wf`] that every store operation
//! preserves, the transition functions the store's contracts are stated
//! over, and lemmas about id-keyed association sequences.
use vstd::prelude::*;

use crate::models::Status;

verus! {

/// Abstract value of an [`crate::models::Epic`].
#[verifier::ext_equal]
pub struct EpicView {
    pub name: Seq<char>,
    pub description: Seq<char>,
    pub status: Status,
    pub stories: Seq<u32>,
}

/// Abstract value of a [`crate::models::Story`].
#[verifier::ext_equal]
pub struct StoryView {
    pub name: Seq<char>,
    pub description: Seq<char>,
    pub status: Status,
}

/// Abstract value of a [`crate::models::DBState`]: the id counter and the
/// two id-keyed association sequences, each ordered by ascending id.
#[verifier::ext_equal]
pub struct DBStateView {
    pub last_item_id: u32,
    pub epics: Seq<(u32, EpicView)>,
    pub stories: Seq<(u32, StoryView)>,
}

/// The ids of an association sequence, in order.
pub open spec fn keys<T>(s: Seq<(u32, T)>) -> Seq<u32> {
    s.map_values(|p: (u32, T)| p.0)
}

/// Strictly ascending: in particular, all elements are distinct.
pub open spec fn strictly_sorted(s: Seq<u32>) -> bool {
    forall|i: int, j: int| 0 <= i < j < s.len() ==> s[i] < s[j]
}

/// An index at which `x` occurs in `q` (the only one when `q` has no
/// duplicates).
pub open spec fn idx_of(q: Seq<u32>, x: u32) -> int {
    choose|i: int| 0 <= i < q.len() && q[i] == x
}

/// Some entry of `s` carries the id `k`.
pub open spec fn has_key<T>(s: Seq<(u32, T)>, k: u32) -> bool {
    keys(s).contains(k)
}

/// An index of the entry carrying id `k` (the only one when keys are
/// strictly sorted).
pub open spec fn key_idx<T>(s: Seq<(u32, T)>, k: u32) -> int {
    idx_of(keys(s), k)
}

/// The value stored under id `k`.
pub open spec fn val_of<T>(s: Seq<(u32, T)>, k: u32) -> T {
    s[key_idx(s, k)].1
}

/// How many times `x` occurs in `s`.
pub open spec fn count_in(s: Seq<u32>, x: u32) -> nat
    decreases s.len(),
{
    if s.len() == 0 {
        0
    } else {
        count_in(s.drop_last(), x) + if s.last() == x {
            1nat
        } else {
            0nat
        }
    }
}

/// How many times `x` occurs over all story lists of `epics` together.
pub open spec fn listing_count(epics: Seq<(u32, EpicView)>, x: u32) -> nat
    decreases epics.len(),
{
    if epics.len() == 0 {
        0
    } else {
        listing_count(epics.drop_last(), x) + count_in(epics.last().1.stories, x)
    }
}

/// The entries of `s` whose id is not in `dead`, in their original order.
pub open spec fn drop_listed(s: Seq<(u32, StoryView)>, dead: Seq<u32>) -> Seq<(u32, StoryView)>
    decreases s.len(),
{
    if s.len() == 0 {
        Seq::empty()
    } else {
        let rest = drop_listed(s.drop_last(), dead);
        if dead.contains(s.last().0) {
            rest
        } else {
            rest.push(s.last())
        }
    }
}

/// Referential integrity of a database state:
/// - both association sequences are keyed by strictly ascending ids;
/// - no id exceeds `last_item_id`, so `last_item_id + 1` is always fresh;
/// - every id listed by an epic is a key of `stories` (no dangling
///   references);
/// - every story id is listed by exactly one epic, once.
pub open spec fn wf(db: DBStateView) -> bool {
    &&& strictly_sorted(keys(db.epics))
    &&& strictly_sorted(keys(db.stories))
    &&& forall|i: int| 0 <= i < db.epics.len() ==> (#[trigger] db.epics[i]).0 <= db.last_item_id
    &&& forall|i: int|
        0 <= i < db.stories.len() ==> (#[trigger] db.stories[i]).0 <= db.last_item_id
    &&& forall|i: int, k: int|
        0 <= i < db.epics.len() && 0 <= k < db.epics[i].1.stories.len() ==> has_key(
            db.stories,
            #[trigger] db.epics[i].1.stories[k],
        )
    &&& forall|i: int|
        0 <= i < db.stories.len() ==> listing_count(db.epics, (#[trigger] db.stories[i]).0) == 1
}

/// A fresh id can be minted without wrapping the counter.
pub open spec fn can_mint(db: DBStateView) -> bool {
    db.last_item_id < u32::MAX
}

/// The id the next successful create operation hands out.
pub open spec fn next_id(db: DBStateView) -> u32 {
    (db.last_item_id + 1) as u32
}

/// State after `create_epic`: a fresh epic, `Open` with no stories, is
/// appended under the next id; the counter advances.
pub open spec fn create_epic_tr(db: DBStateView, name: Seq<char>, description: Seq<char>) -> DBStateView {
    let id = next_id(db);
    DBStateView {
        last_item_id: id,
        epics: db.epics.push(
            (id, EpicView { name, description, status: Status::Open, stories: Seq::empty() }),
        ),
        stories: db.stories,
    }
}

/// State after `create_story` on an existing epic: a fresh `Open` story is
/// appended under the next id, that id is appended to the epic's list, and
/// the counter advances.
pub open spec fn create_story_tr(
    db: DBStateView,
    epic_id: u32,
    name: Seq<char>,
    description: Seq<char>,
) -> DBStateView {
    let id = next_id(db);
    let i = key_idx(db.epics, epic_id);
    let e = db.epics[i].1;
    let e2 = EpicView {
        name: e.name,
        description: e.description,
        status: e.status,
        stories: e.stories.push(id),
    };
    DBStateView {
        last_item_id: id,
        epics: db.epics.update(i, (epic_id, e2)),
        stories: db.stories.push((id, StoryView { name, description, status: Status::Open })),
    }
}

/// State after `update_epic_status` on an existing epic.
pub open spec fn update_epic_status_tr(db: DBStateView, epic_id: u32, status: Status) -> DBStateView {
    let i = key_idx(db.epics, epic_id);
    let e = db.epics[i].1;
    let e2 = EpicView { name: e.name, description: e.description, status, stories: e.stories };
    DBStateView { last_item_id: db.last_item_id, epics: db.epics.update(i, (epic_id, e2)), stories: db.stories }
}

/// State after `update_story_status` on an existing story.
pub open spec fn update_story_status_tr(db: DBStateView, story_id: u32, status: Status) -> DBStateView {
    let i = key_idx(db.stories, story_id);
    let s = db.stories[i].1;
    let s2 = StoryView { name: s.name, description: s.description, status };
    DBStateView { last_item_id: db.last_item_id, epics: db.epics, stories: db.stories.update(i, (story_id, s2)) }
}

/// State after `delete_epic` on an existing epic: the epic's entry is
/// removed, and so is every story its list carried (the cascading delete).
pub open spec fn delete_epic_tr(db: DBStateView, epic_id: u32) -> DBStateView {
    let i = key_idx(db.epics, epic_id);
    let dead = db.epics[i].1.stories;
    DBStateView {
        last_item_id: db.last_item_id,
        epics: db.epics.remove(i),
        stories: drop_listed(db.stories, dead),
    }
}

/// `delete_story(epic_id, story_id)` succeeds exactly when the epic exists,
/// the story exists, and the story is listed under that very epic.
pub open spec fn valid_delete_story(db: DBStateView, epic_id: u32, story_id: u32) -> bool {
    &&& has_key(db.epics, epic_id)
    &&& has_key(db.stories, story_id)
    &&& val_of(db.epics, epic_id).stories.contains(story_id)
}

/// State after a valid `delete_story`: the story's entry is removed and its
/// id disappears from the owning epic's list.
pub open spec fn delete_story_tr(db: DBStateView, epic_id: u32, story_id: u32) -> DBStateView {
    let i = key_idx(db.epics, epic_id);
    let e = db.epics[i].1;
    let e2 = EpicView {
        name: e.name,
        description: e.description,
        status: e.status,
        stories: e.stories.remove(idx_of(e.stories, story_id)),
    };
    DBStateView {
        last_item_id: db.last_item_id,
        epics: db.epics.update(i, (epic_id, e2)),
        stories: db.stories.remove(key_idx(db.stories, story_id)),
    }
}

// ---------------------------------------------------------------------------
// Lemmas about idx_of / key_idx / val_of
// ---------------------------------------------------------------------------

/// `idx_of` is a real occurrence when one exists.
pub proof fn lemma_idx_of(q: Seq<u32>, x: u32)
    requires
        q.contains(x),
    ensures
        0 <= idx_of(q, x) < q.len(),
        q[idx_of(q, x)] == x,
{
}

/// With distinct elements, `idx_of` is the only occurrence.
pub proof fn lemma_idx_of_unique(q: Seq<u32>, x: u32, i: int)
    requires
        strictly_sorted(q),
        0 <= i < q.len(),
        q[i] == x,
    ensures
        q.contains(x),
        idx_of(q, x) == i,
{
    assert(q.contains(x));
    lemma_idx_of(q, x);
    let j = idx_of(q, x);
    if i < j {
        assert(q[i] < q[j]);
    }
    if j < i {
        assert(q[j] < q[i]);
    }
}

/// `key_idx` points at the entry carrying `k` when one exists.
pub proof fn lemma_key_idx<T>(s: Seq<(u32, T)>, k: u32)
    requires
        has_key(s, k),
    ensures
        0 <= key_idx(s, k) < s.len(),
        s[key_idx(s, k)].0 == k,
{
    lemma_idx_of(keys(s), k);
    assert(keys(s)[key_idx(s, k)] == s[key_idx(s, k)].0);
}

/// With strictly sorted keys, the entry carrying `k` is unique.
pub proof fn lemma_key_idx_unique<T>(s: Seq<(u32, T)>, k: u32, i: int)
    requires
        strictly_sorted(keys(s)),
        0 <= i < s.len(),
        s[i].0 == k,
    ensures
        has_key(s, k),
        key_idx(s, k) == i,
        val_of(s, k) == s[i].1,
{
    assert(keys(s)[i] == k);
    lemma_idx_of_unique(keys(s), k, i);
}

// ---------------------------------------------------------------------------
// Lemmas about count_in
// ---------------------------------------------------------------------------

/// `x` occurs in `s` exactly when its count is positive.
pub proof fn lemma_count_in_contains(s: Seq<u32>, x: u32)
    ensures
        (count_in(s, x) >= 1) <==> s.contains(x),
    decreases s.len(),
{
    if s.len() == 0 {
    } else {
        lemma_count_in_contains(s.drop_last(), x);
        if s.last() == x {
            assert(s[s.len() - 1] == x);
        } else {
            if s.contains(x) {
                let i = choose|i: int| 0 <= i < s.len() && s[i] == x;
                assert(s.drop_last()[i] == x);
            }
            if s.drop_last().contains(x) {
                let i = choose|i: int| 0 <= i < s.drop_last().len() && s.drop_last()[i] == x;
                assert(s[i] == x);
            }
        }
    }
}

/// Appending adds one occurrence of the appended element.
pub proof fn lemma_count_in_push(s: Seq<u32>, y: u32, x: u32)
    ensures
        count_in(s.push(y), x) == count_in(s, x) + if y == x {
            1nat
        } else {
            0nat
        },
{
    assert(s.push(y).drop_last() =~= s);
}

/// Removing index `i` removes one occurrence of `s[i]`.
pub proof fn lemma_count_in_remove(s: Seq<u32>, i: int, x: u32)
    requires
        0 <= i < s.len(),
    ensures
        count_in(s.remove(i), x) + (if s[i] == x {
            1nat
        } else {
            0nat
        }) == count_in(s, x),
    decreases s.len(),
{
    let t = s.remove(i);
    if i == s.len() - 1 {
        assert(t =~= s.drop_last());
    } else {
        assert(t.drop_last() =~= s.drop_last().remove(i));
        assert(t.last() == s.last());
        lemma_count_in_remove(s.drop_last(), i, x);
    }
}

/// Two distinct occurrences force a count of at least 2.
pub proof fn lemma_count_two(s: Seq<u32>, i: int, j: int, x: u32)
    requires
        0 <= i < j < s.len(),
        s[i] == x,
        s[j] == x,
    ensures
        count_in(s, x) >= 2,
    decreases s.len(),
{
    if j == s.len() - 1 {
        assert(s.drop_last()[i] == x);
        assert(s.drop_last().contains(x));
        lemma_count_in_contains(s.drop_last(), x);
    } else {
        assert(s.drop_last()[i] == x);
        assert(s.drop_last()[j] == x);
        lemma_count_two(s.drop_last(), i, j, x);
    }
}

/// With a count of one, any occurrence is the `idx_of` occurrence.
pub proof fn lemma_count_unique_idx(s: Seq<u32>, x: u32, i: int)
    requires
        count_in(s, x) == 1,
        0 <= i < s.len(),
        s[i] == x,
    ensures
        s.contains(x),
        idx_of(s, x) == i,
{
    assert(s.contains(x));
    lemma_idx_of(s, x);
    let j = idx_of(s, x);
    if i < j {
        lemma_count_two(s, i, j, x);
    }
    if j < i {
        lemma_count_two(s, j, i, x);
    }
}

/// A prefix never counts more than the whole.
pub proof fn lemma_count_in_take_le(s: Seq<u32>, k: int, x: u32)
    requires
        0 <= k <= s.len(),
    ensures
        count_in(s.take(k), x) <= count_in(s, x),
    decreases s.len() - k,
{
    if k == s.len() {
        assert(s.take(k) =~= s);
    } else {
        assert(s.take(k + 1).drop_last() =~= s.take(k));
        assert(s.take(k + 1).last() == s[k]);
        lemma_count_in_take_le(s, k + 1, x);
    }
}

// ---------------------------------------------------------------------------
// Lemmas about listing_count
// ---------------------------------------------------------------------------

/// A prefix of the epics never counts more listings than all of them.
pub proof fn lemma_listing_take_le(epics: Seq<(u32, EpicView)>, j: int, x: u32)
    requires
        0 <= j <= epics.len(),
    ensures
        listing_count(epics.take(j), x) <= listing_count(epics, x),
    decreases epics.len() - j,
{
    if j == epics.len() {
        assert(epics.take(j) =~= epics);
    } else {
        assert(epics.take(j + 1).drop_last() =~= epics.take(j));
        assert(epics.take(j + 1).last() == epics[j]);
        lemma_listing_take_le(epics, j + 1, x);
    }
}

/// Appending an epic adds the occurrences in its list.
pub proof fn lemma_listing_push(epics: Seq<(u32, EpicView)>, p: (u32, EpicView), x: u32)
    ensures
        listing_count(epics.push(p), x) == listing_count(epics, x) + count_in(p.1.stories, x),
{
    assert(epics.push(p).drop_last() =~= epics);
}

/// Overwriting epic `i` trades the occurrences of its old list for those of
/// the new one.
pub proof fn lemma_listing_update(epics: Seq<(u32, EpicView)>, i: int, p: (u32, EpicView), x: u32)
    requires
        0 <= i < epics.len(),
    ensures
        listing_count(epics.update(i, p), x) + count_in(epics[i].1.stories, x) == listing_count(
            epics,
            x,
        ) + count_in(p.1.stories, x),
    decreases epics.len(),
{
    let t = epics.update(i, p);
    if i == epics.len() - 1 {
        assert(t.drop_last() =~= epics.drop_last());
    } else {
        assert(t.drop_last() =~= epics.drop_last().update(i, p));
        assert(t.last() == epics.last());
        lemma_listing_update(epics.drop_last(), i, p, x);
    }
}

/// Removing epic `i` removes the occurrences in its list.
pub proof fn lemma_listing_remove(epics: Seq<(u32, EpicView)>, i: int, x: u32)
    requires
        0 <= i < epics.len(),
    ensures
        listing_count(epics.remove(i), x) + count_in(epics[i].1.stories, x) == listing_count(
            epics,
            x,
        ),
    decreases epics.len(),
{
    let t = epics.remove(i);
    if i == epics.len() - 1 {
        assert(t =~= epics.drop_last());
    } else {
        assert(t.drop_last() =~= epics.drop_last().remove(i));
        assert(t.last() == epics.last());
        lemma_listing_remove(epics.drop_last(), i, x);
    }
}

/// The total count is at least any single epic's contribution.
pub proof fn lemma_listing_ge_entry(epics: Seq<(u32, EpicView)>, i: int, x: u32)
    requires
        0 <= i < epics.len(),
    ensures
        listing_count(epics, x) >= count_in(epics[i].1.stories, x),
    decreases epics.len(),
{
    if i == epics.len() - 1 {
    } else {
        lemma_listing_ge_entry(epics.drop_last(), i, x);
        assert(epics.drop_last()[i] == epics[i]);
    }
}

/// Two different epics both listing `x` force a total count of at least 2.
pub proof fn lemma_listing_two(epics: Seq<(u32, EpicView)>, i: int, j: int, x: u32)
    requires
        0 <= i < j < epics.len(),
        epics[i].1.stories.contains(x),
        epics[j].1.stories.contains(x),
    ensures
        listing_count(epics, x) >= 2,
    decreases epics.len(),
{
    lemma_count_in_contains(epics[j].1.stories, x);
    lemma_count_in_contains(epics[i].1.stories, x);
    if j == epics.len() - 1 {
        lemma_listing_ge_entry(epics.drop_last(), i, x);
        assert(epics.drop_last()[i] == epics[i]);
    } else {
        assert(epics.drop_last()[i] == epics[i]);
        assert(epics.drop_last()[j] == epics[j]);
        lemma_listing_two(epics.drop_last(), i, j, x);
    }
}

/// A positive total count names a listing epic.
pub proof fn lemma_listing_pos(epics: Seq<(u32, EpicView)>, x: u32)
    requires
        listing_count(epics, x) >= 1,
    ensures
        exists|i: int|
            0 <= i < epics.len() && (#[trigger] epics[i]).1.stories.contains(x),
    decreases epics.len(),
{
    if epics.len() == 0 {
    } else if count_in(epics.last().1.stories, x) >= 1 {
        lemma_count_in_contains(epics.last().1.stories, x);
        assert(epics[epics.len() - 1].1.stories.contains(x));
    } else {
        lemma_listing_pos(epics.drop_last(), x);
        let i = choose|i: int|
            0 <= i < epics.drop_last().len() && (#[trigger] epics.drop_last()[i]).1.stories.contains(
                x,
            );
        assert(epics[i] == epics.drop_last()[i]);
        assert(epics[i].1.stories.contains(x));
    }
}

// ---------------------------------------------------------------------------
// Lemmas about drop_listed
// ---------------------------------------------------------------------------

/// What survives [`drop_listed`]: exactly the entries whose id is not dead,
/// each taken unchanged from `s`; sortedness carries over.
pub proof fn lemma_drop_listed(s: Seq<(u32, StoryView)>, dead: Seq<u32>)
    ensures
        drop_listed(s, dead).len() <= s.len(),
        forall|j: int|
            0 <= j < drop_listed(s, dead).len() ==> exists|i: int|
                0 <= i < s.len() && s[i] == #[trigger] drop_listed(s, dead)[j],
        forall|k: u32|
            #[trigger] has_key(drop_listed(s, dead), k) <==> has_key(s, k) && !dead.contains(k),
        strictly_sorted(keys(s)) ==> strictly_sorted(keys(drop_listed(s, dead))),
    decreases s.len(),
{
    let r = drop_listed(s, dead);
    if s.len() == 0 {
        assert forall|k: u32| has_key(r, k) implies has_key(s, k) && !dead.contains(k) by {
            assert(keys(r).len() == 0);
        }
    } else {
        lemma_drop_listed(s.drop_last(), dead);
        let rest = drop_listed(s.drop_last(), dead);
        // Entry preservation.
        assert forall|j: int| 0 <= j < r.len() implies exists|i: int|
            0 <= i < s.len() && s[i] == #[trigger] r[j] by {
            if j < rest.len() {
                assert(r[j] == rest[j]);
                let i = choose|i: int| 0 <= i < s.drop_last().len() && s.drop_last()[i] == rest[j];
                assert(s[i] == r[j]);
            } else {
                assert(r[j] == s.last());
                assert(s[s.len() - 1] == r[j]);
            }
        }
        // Key characterization.
        assert forall|k: u32| has_key(r, k) <==> (has_key(s, k) && !dead.contains(k)) by {
            lemma_drop_listed_keys(s, dead, k);
        }
        // Sortedness.
        if strictly_sorted(keys(s)) {
            assert forall|a: int, b: int| 0 <= a < b < s.drop_last().len() implies keys(
                s.drop_last(),
            )[a] < keys(s.drop_last())[b] by {
                assert(keys(s.drop_last())[a] == s[a].0);
                assert(keys(s.drop_last())[b] == s[b].0);
                assert(keys(s)[a] == s[a].0);
                assert(keys(s)[b] == s[b].0);
            }
            assert(strictly_sorted(keys(s.drop_last())));
            if dead.contains(s.last().0) {
            } else {
                // Every surviving key comes from the prefix and so is below
                // the appended last key.
                assert forall|a: int, b: int| 0 <= a < b < r.len() implies keys(r)[a] < keys(
                    r,
                )[b] by {
                    assert(keys(r)[a] == r[a].0);
                    assert(keys(r)[b] == r[b].0);
                    if b < rest.len() {
                        assert(r[a] == rest[a]);
                        assert(r[b] == rest[b]);
                        assert(keys(rest)[a] == rest[a].0);
                        assert(keys(rest)[b] == rest[b].0);
                    } else {
                        assert(r[b] == s.last());
                        assert(r[a] == rest[a]);
                        let i = choose|i: int|
                            0 <= i < s.drop_last().len() && s.drop_last()[i] == rest[a];
                        assert(s[i] == rest[a]);
                        assert(keys(s)[i] == s[i].0);
                        assert(keys(s)[s.len() - 1] == s.last().0);
                    }
                }
            }
        }
    }
}

// ---------------------------------------------------------------------------
// Lemmas about keys under push / update / remove
// ---------------------------------------------------------------------------

/// Membership in a pushed sequence.
pub proof fn lemma_contains_push(q: Seq<u32>, x: u32, y: u32)
    ensures
        q.push(x).contains(y) <==> (q.contains(y) || x == y),
{
    if q.contains(y) {
        let i = choose|i: int| 0 <= i < q.len() && q[i] == y;
        assert(q.push(x)[i] == y);
    }
    if x == y {
        assert(q.push(x)[q.len() as int] == y);
    }
    if q.push(x).contains(y) {
        let i = choose|i: int| 0 <= i < q.push(x).len() && q.push(x)[i] == y;
        if i < q.len() {
            assert(q[i] == y);
        }
    }
}

/// Appending an entry appends its key.
pub proof fn lemma_keys_push<T>(s: Seq<(u32, T)>, p: (u32, T))
    ensures
        keys(s.push(p)) == keys(s).push(p.0),
{
    assert(keys(s.push(p)) =~= keys(s).push(p.0));
}

/// Overwriting an entry with one of the same key keeps the keys.
pub proof fn lemma_keys_update<T>(s: Seq<(u32, T)>, i: int, p: (u32, T))
    requires
        0 <= i < s.len(),
        s[i].0 == p.0,
    ensures
        keys(s.update(i, p)) == keys(s),
{
    assert(keys(s.update(i, p)) =~= keys(s));
}

/// Removing an entry removes its key.
pub proof fn lemma_keys_remove<T>(s: Seq<(u32, T)>, i: int)
    requires
        0 <= i < s.len(),
    ensures
        keys(s.remove(i)) == keys(s).remove(i),
{
    assert(keys(s.remove(i)) =~= keys(s).remove(i));
}

/// Removal preserves strict sortedness.
pub proof fn lemma_sorted_remove(q: Seq<u32>, i: int)
    requires
        strictly_sorted(q),
        0 <= i < q.len(),
    ensures
        strictly_sorted(q.remove(i)),
{
    assert forall|a: int, b: int| 0 <= a < b < q.remove(i).len() implies q.remove(i)[a] < q.remove(
        i,
    )[b] by {
        if a < i {
            assert(q.remove(i)[a] == q[a]);
        } else {
            assert(q.remove(i)[a] == q[a + 1]);
        }
        if b < i {
            assert(q.remove(i)[b] == q[b]);
        } else {
            assert(q.remove(i)[b] == q[b + 1]);
        }
    }
}

/// With distinct elements, removing index `i` removes exactly `q[i]`.
pub proof fn lemma_contains_remove(q: Seq<u32>, i: int, y: u32)
    requires
        strictly_sorted(q),
        0 <= i < q.len(),
    ensures
        q.remove(i).contains(y) <==> (q.contains(y) && y != q[i]),
{
    let r = q.remove(i);
    if r.contains(y) {
        let j = choose|j: int| 0 <= j < r.len() && r[j] == y;
        if j < i {
            assert(q[j] == y);
            assert(j != i);
            if y == q[i] {
                assert(q[j] < q[i]);
            }
        } else {
            assert(q[j + 1] == y);
            if y == q[i] {
                assert(q[i] < q[j + 1]);
            }
        }
    }
    if q.contains(y) && y != q[i] {
        let j = choose|j: int| 0 <= j < q.len() && q[j] == y;
        if j < i {
            assert(r[j] == y);
        } else {
            assert(j != i);
            assert(r[j - 1] == q[j]);
        }
    }
}

/// With strictly sorted keys, removing entry `i` removes exactly its id.
pub proof fn lemma_has_key_remove<T>(s: Seq<(u32, T)>, i: int, k: u32)
    requires
        strictly_sorted(keys(s)),
        0 <= i < s.len(),
    ensures
        has_key(s.remove(i), k) <==> (has_key(s, k) && k != s[i].0),
{
    lemma_keys_remove(s, i);
    assert(keys(s)[i] == s[i].0);
    lemma_contains_remove(keys(s), i, k);
}

/// Key characterization of [`drop_listed`] for a single id.
proof fn lemma_drop_listed_keys(s: Seq<(u32, StoryView)>, dead: Seq<u32>, k: u32)
    ensures
        has_key(drop_listed(s, dead), k) <==> has_key(s, k) && !dead.contains(k),
    decreases s.len(),
{
    let r = drop_listed(s, dead);
    if s.len() == 0 {
        if has_key(r, k) {
            let i = choose|i: int| 0 <= i < keys(r).len() && keys(r)[i] == k;
        }
        if has_key(s, k) {
            let i = choose|i: int| 0 <= i < keys(s).len() && keys(s)[i] == k;
        }
    } else {
        lemma_drop_listed_keys(s.drop_last(), dead, k);
        let rest = drop_listed(s.drop_last(), dead);
        // has_key over a push / a prefix, spelled out with witnesses.
        if has_key(rest, k) {
            let i = choose|i: int| 0 <= i < keys(rest).len() && keys(rest)[i] == k;
            assert(keys(rest)[i] == rest[i].0);
            if !dead.contains(s.last().0) {
                assert(r[i] == rest[i]);
                assert(keys(r)[i] == r[i].0);
            } else {
                assert(keys(r)[i] == r[i].0);
            }
            assert(keys(r).contains(k));
        }
        if has_key(s.drop_last(), k) {
            let i = choose|i: int| 0 <= i < keys(s.drop_last()).len() && keys(s.drop_last())[i] == k;
            assert(keys(s.drop_last())[i] == s.drop_last()[i].0);
            assert(keys(s)[i] == s[i].0);
            assert(keys(s).contains(k));
        }
        if s.last().0 == k && !dead.contains(k) {
            assert(r[r.len() - 1] == s.last());
            assert(keys(r)[r.len() - 1] == k);
            assert(keys(r).contains(k));
        }
        if s.last().0 == k {
            assert(keys(s)[s.len() - 1] == k);
            assert(keys(s).contains(k));
        }
        if has_key(r, k) {
            let i = choose|i: int| 0 <= i < keys(r).len() && keys(r)[i] == k;
            assert(keys(r)[i] == r[i].0);
            if !dead.contains(s.last().0) && i == r.len() - 1 {
                assert(r[i] == s.last());
            } else {
                assert(r[i] == rest[i]);
                assert(keys(rest)[i] == rest[i].0);
                assert(keys(rest).contains(k));
            }
        }
        if has_key(s, k) {
            let i = choose|i: int| 0 <= i < keys(s).len() && keys(s)[i] == k;
            assert(keys(s)[i] == s[i].0);
            if i == s.len() - 1 {
            } else {
                assert(s.drop_last()[i] == s[i]);
                assert(keys(s.drop_last())[i] == s.drop_last()[i].0);
                assert(keys(s.drop_last()).contains(k));
            }
        }
    }
}

} // verus!
