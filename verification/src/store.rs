//! The store: sole owner of a [`DBState`], guaranteeing that every
//! operation leaves referential integrity intact. Mutations are described
//! exactly by the transition functions of [`crate::model`]; persistence of
//! the state snapshot is the caller's concern, through [`Store::save`] and
//! [`Store::load`].
use vstd::prelude::*;

use crate::laws::{
    lemma_create_epic_wf, lemma_create_story_wf, lemma_delete_epic_wf, lemma_delete_story_wf,
    lemma_fresh_id, lemma_update_epic_status_wf, lemma_update_story_status_wf,
};
use crate::model::{
    can_mint, count_in, create_epic_tr, create_story_tr, delete_epic_tr, delete_story_tr,
    drop_listed, has_key, idx_of, key_idx, keys, lemma_count_in_contains, lemma_count_in_take_le,
    lemma_count_unique_idx, lemma_key_idx, lemma_key_idx_unique,
    lemma_listing_ge_entry, lemma_listing_take_le, listing_count, next_id, strictly_sorted,
    update_epic_status_tr, update_story_status_tr, val_of, valid_delete_story, wf, DBStateView,
    EpicView, StoryView,
};
use crate::models::{DBState, Epic, Status, Story, TrackerError};

verus! {

/// The index of the entry carrying id `k`, by linear scan.
fn find_key<T>(v: &Vec<(u32, T)>, k: u32) -> (r: Option<usize>)
    ensures
        match r {
            Some(i) => i < v.len() && v@[i as int].0 == k,
            None => !has_key(v@, k),
        },
{
    let mut i: usize = 0;
    while i < v.len()
        invariant
            i <= v.len(),
            forall|j: int| 0 <= j < i ==> (#[trigger] v@[j]).0 != k,
        decreases v.len() - i,
    {
        if v[i].0 == k {
            return Some(i);
        }
        i = i + 1;
    }
    proof {
        if has_key(v@, k) {
            let j = choose|j: int| 0 <= j < keys(v@).len() && keys(v@)[j] == k;
            assert(keys(v@)[j] == v@[j].0);
        }
    }
    None
}

/// The index of the first occurrence of `x`, by linear scan.
fn find_id(v: &Vec<u32>, x: u32) -> (r: Option<usize>)
    ensures
        match r {
            Some(i) => i < v.len() && v@[i as int] == x,
            None => !v@.contains(x),
        },
{
    let mut i: usize = 0;
    while i < v.len()
        invariant
            i <= v.len(),
            forall|j: int| 0 <= j < i ==> v@[j] != x,
        decreases v.len() - i,
    {
        if v[i] == x {
            return Some(i);
        }
        i = i + 1;
    }
    None
}

/// Ties the abstract view of a state to its concrete vectors: same keys,
/// entrywise related values.
proof fn lemma_db_view(db: DBState)
    ensures
        db@.epics.len() == db.epics@.len(),
        db@.stories.len() == db.stories@.len(),
        forall|i: int|
            0 <= i < db.epics@.len() ==> (#[trigger] db@.epics[i]) == (
                db.epics@[i].0,
                db.epics@[i].1@,
            ),
        forall|i: int|
            0 <= i < db.stories@.len() ==> (#[trigger] db@.stories[i]) == (
                db.stories@[i].0,
                db.stories@[i].1@,
            ),
        keys(db@.epics) == keys(db.epics@),
        keys(db@.stories) == keys(db.stories@),
{
    assert(keys(db@.epics) =~= keys(db.epics@));
    assert(keys(db@.stories) =~= keys(db.stories@));
}

/// [`wf`] of a state, restated over its concrete vectors (the form the
/// executable checks establish).
proof fn lemma_wf_unpack(state: DBState)
    ensures
        wf(state@) == ({
            &&& (forall|a: int, c: int|
                0 <= a < c < state.epics@.len() ==> (#[trigger] state.epics@[a]).0 < (
                #[trigger] state.epics@[c]).0)
            &&& (forall|a: int, c: int|
                0 <= a < c < state.stories@.len() ==> (#[trigger] state.stories@[a]).0 < (
                #[trigger] state.stories@[c]).0)
            &&& (forall|j: int|
                0 <= j < state.epics@.len() ==> (#[trigger] state.epics@[j]).0
                    <= state.last_item_id)
            &&& (forall|j: int|
                0 <= j < state.stories@.len() ==> (#[trigger] state.stories@[j]).0
                    <= state.last_item_id)
            &&& (forall|i: int, k: int|
                0 <= i < state.epics@.len() && 0 <= k < state.epics@[i].1.stories@.len()
                    ==> has_key(state.stories@, #[trigger] state.epics@[i].1.stories@[k]))
            &&& (forall|t: int|
                0 <= t < state@.stories.len() ==> listing_count(
                    state@.epics,
                    (#[trigger] state@.stories[t]).0,
                ) == 1)
        }),
{
    lemma_db_view(state);
    let v = state@;
    // Sortedness of the view keys is pairwise order of the raw keys.
    assert(strictly_sorted(keys(v.epics)) == (forall|a: int, c: int|
        0 <= a < c < state.epics@.len() ==> (#[trigger] state.epics@[a]).0 < (
        #[trigger] state.epics@[c]).0)) by {
        if strictly_sorted(keys(v.epics)) {
            assert forall|a: int, c: int| 0 <= a < c < state.epics@.len() implies (
            #[trigger] state.epics@[a]).0 < (#[trigger] state.epics@[c]).0 by {
                assert(keys(v.epics)[a] == v.epics[a].0);
                assert(keys(v.epics)[c] == v.epics[c].0);
            }
        }
        if (forall|a: int, c: int|
            0 <= a < c < state.epics@.len() ==> (#[trigger] state.epics@[a]).0 < (
            #[trigger] state.epics@[c]).0) {
            assert forall|a: int, c: int| 0 <= a < c < keys(v.epics).len() implies keys(
                v.epics,
            )[a] < keys(v.epics)[c] by {
                assert(keys(v.epics)[a] == v.epics[a].0);
                assert(keys(v.epics)[c] == v.epics[c].0);
            }
        }
    }
    assert(strictly_sorted(keys(v.stories)) == (forall|a: int, c: int|
        0 <= a < c < state.stories@.len() ==> (#[trigger] state.stories@[a]).0 < (
        #[trigger] state.stories@[c]).0)) by {
        if strictly_sorted(keys(v.stories)) {
            assert forall|a: int, c: int| 0 <= a < c < state.stories@.len() implies (
            #[trigger] state.stories@[a]).0 < (#[trigger] state.stories@[c]).0 by {
                assert(keys(v.stories)[a] == v.stories[a].0);
                assert(keys(v.stories)[c] == v.stories[c].0);
            }
        }
        if (forall|a: int, c: int|
            0 <= a < c < state.stories@.len() ==> (#[trigger] state.stories@[a]).0 < (
            #[trigger] state.stories@[c]).0) {
            assert forall|a: int, c: int| 0 <= a < c < keys(v.stories).len() implies keys(
                v.stories,
            )[a] < keys(v.stories)[c] by {
                assert(keys(v.stories)[a] == v.stories[a].0);
                assert(keys(v.stories)[c] == v.stories[c].0);
            }
        }
    }
    // Bounds transfer entrywise.
    assert((forall|j: int|
        0 <= j < v.epics.len() ==> (#[trigger] v.epics[j]).0 <= v.last_item_id) == (forall|j: int|
        0 <= j < state.epics@.len() ==> (#[trigger] state.epics@[j]).0 <= state.last_item_id))
        by {
        if (forall|j: int| 0 <= j < v.epics.len() ==> (#[trigger] v.epics[j]).0 <= v.last_item_id) {
            assert forall|j: int| 0 <= j < state.epics@.len() implies (
            #[trigger] state.epics@[j]).0 <= state.last_item_id by {
                assert(v.epics[j].0 == state.epics@[j].0);
            }
        }
        if (forall|j: int|
            0 <= j < state.epics@.len() ==> (#[trigger] state.epics@[j]).0
                <= state.last_item_id) {
            assert forall|j: int| 0 <= j < v.epics.len() implies (#[trigger] v.epics[j]).0
                <= v.last_item_id by {
                assert(v.epics[j].0 == state.epics@[j].0);
            }
        }
    }
    assert((forall|j: int|
        0 <= j < v.stories.len() ==> (#[trigger] v.stories[j]).0 <= v.last_item_id) == (forall|
        j: int,
    |
        0 <= j < state.stories@.len() ==> (#[trigger] state.stories@[j]).0 <= state.last_item_id))
        by {
        if (forall|j: int|
            0 <= j < v.stories.len() ==> (#[trigger] v.stories[j]).0 <= v.last_item_id) {
            assert forall|j: int| 0 <= j < state.stories@.len() implies (
            #[trigger] state.stories@[j]).0 <= state.last_item_id by {
                assert(v.stories[j].0 == state.stories@[j].0);
            }
        }
        if (forall|j: int|
            0 <= j < state.stories@.len() ==> (#[trigger] state.stories@[j]).0
                <= state.last_item_id) {
            assert forall|j: int| 0 <= j < v.stories.len() implies (#[trigger] v.stories[j]).0
                <= v.last_item_id by {
                assert(v.stories[j].0 == state.stories@[j].0);
            }
        }
    }
    // Dangling-freedom transfers entrywise: the listed ids coincide and so
    // do the key sets.
    assert((forall|i: int, k: int|
        0 <= i < v.epics.len() && 0 <= k < v.epics[i].1.stories.len() ==> has_key(
            v.stories,
            #[trigger] v.epics[i].1.stories[k],
        )) == (forall|i: int, k: int|
        0 <= i < state.epics@.len() && 0 <= k < state.epics@[i].1.stories@.len() ==> has_key(
            state.stories@,
            #[trigger] state.epics@[i].1.stories@[k],
        ))) by {
        if (forall|i: int, k: int|
            0 <= i < v.epics.len() && 0 <= k < v.epics[i].1.stories.len() ==> has_key(
                v.stories,
                #[trigger] v.epics[i].1.stories[k],
            )) {
            assert forall|i: int, k: int|
                0 <= i < state.epics@.len() && 0 <= k < state.epics@[i].1.stories@.len() implies
                has_key(state.stories@, #[trigger] state.epics@[i].1.stories@[k]) by {
                assert(v.epics[i].1 == state.epics@[i].1@);
                assert(v.epics[i].1.stories[k] == state.epics@[i].1.stories@[k]);
                assert(has_key(v.stories, v.epics[i].1.stories[k]));
            }
        }
        if (forall|i: int, k: int|
            0 <= i < state.epics@.len() && 0 <= k < state.epics@[i].1.stories@.len() ==> has_key(
                state.stories@,
                #[trigger] state.epics@[i].1.stories@[k],
            )) {
            assert forall|i: int, k: int|
                0 <= i < v.epics.len() && 0 <= k < v.epics[i].1.stories.len() implies has_key(
                v.stories,
                #[trigger] v.epics[i].1.stories[k],
            ) by {
                assert(v.epics[i].1 == state.epics@[i].1@);
                assert(v.epics[i].1.stories[k] == state.epics@[i].1.stories@[k]);
                assert(has_key(state.stories@, state.epics@[i].1.stories@[k]));
            }
        }
    }
}

/// Strict ascent and boundedness of the ids of an association vector.
fn check_keys<T>(v: &Vec<(u32, T)>, bound: u32) -> (b: bool)
    ensures
        b == ((forall|a: int, c: int|
            0 <= a < c < v@.len() ==> (#[trigger] v@[a]).0 < (#[trigger] v@[c]).0) && (forall|
            j: int,
        |
            0 <= j < v@.len() ==> (#[trigger] v@[j]).0 <= bound)),
{
    let mut i: usize = 0;
    while i < v.len()
        invariant
            i <= v.len(),
            forall|a: int, c: int| 0 <= a < c < i ==> (#[trigger] v@[a]).0 < (#[trigger] v@[c]).0,
            forall|j: int| 0 <= j < i ==> (#[trigger] v@[j]).0 <= bound,
        decreases v.len() - i,
    {
        if v[i].0 > bound {
            proof {
                assert(0 <= i < v@.len() && (v@[i as int]).0 > bound);
            }
            return false;
        }
        if i > 0 {
            if v[i - 1].0 >= v[i].0 {
                proof {
                    assert(0 <= i - 1 < i < v@.len() && !((v@[i - 1]).0 < (v@[i as int]).0));
                }
                return false;
            }
        }
        i = i + 1;
    }
    true
}

/// Every id listed by an epic keys a story.
fn check_refs(state: &DBState) -> (b: bool)
    ensures
        b == (forall|i: int, k: int|
            0 <= i < state.epics@.len() && 0 <= k < state.epics@[i].1.stories@.len() ==> has_key(
                state.stories@,
                #[trigger] state.epics@[i].1.stories@[k],
            )),
{
    let mut i: usize = 0;
    while i < state.epics.len()
        invariant
            i <= state.epics.len(),
            forall|i2: int, k: int|
                0 <= i2 < i && 0 <= k < state.epics@[i2].1.stories@.len() ==> has_key(
                    state.stories@,
                    #[trigger] state.epics@[i2].1.stories@[k],
                ),
        decreases state.epics.len() - i,
    {
        let lst = &state.epics[i].1.stories;
        let mut k: usize = 0;
        while k < lst.len()
            invariant
                k <= lst.len(),
                i < state.epics.len(),
                lst@ == state.epics@[i as int].1.stories@,
                forall|i2: int, k2: int|
                    0 <= i2 < i && 0 <= k2 < state.epics@[i2].1.stories@.len() ==> has_key(
                        state.stories@,
                        #[trigger] state.epics@[i2].1.stories@[k2],
                    ),
                forall|k2: int|
                    0 <= k2 < k ==> has_key(
                        state.stories@,
                        #[trigger] state.epics@[i as int].1.stories@[k2],
                    ),
            decreases lst.len() - k,
        {
            match find_key(&state.stories, lst[k]) {
                Some(t) => {
                    proof {
                        assert(keys(state.stories@)[t as int] == state.stories@[t as int].0);
                        assert(keys(state.stories@).contains(lst@[k as int]));
                    }
                },
                None => {
                    proof {
                        assert(0 <= i < state.epics@.len() && 0 <= k
                            < state.epics@[i as int].1.stories@.len() && !has_key(
                            state.stories@,
                            state.epics@[i as int].1.stories@[k as int],
                        ));
                    }
                    return false;
                },
            }
            k = k + 1;
        }
        i = i + 1;
    }
    true
}

/// Every story id is listed by exactly one epic, once.
fn check_owned_once(state: &DBState) -> (b: bool)
    ensures
        b == (forall|t: int|
            0 <= t < state@.stories.len() ==> listing_count(
                state@.epics,
                (#[trigger] state@.stories[t]).0,
            ) == 1),
{
    proof {
        lemma_db_view(*state);
    }
    let mut t: usize = 0;
    while t < state.stories.len()
        invariant
            t <= state.stories.len(),
            forall|u: int|
                0 <= u < t ==> listing_count(state@.epics, (#[trigger] state@.stories[u]).0) == 1,
            state@.epics.len() == state.epics@.len(),
            state@.stories.len() == state.stories@.len(),
            forall|j: int|
                0 <= j < state.epics@.len() ==> (#[trigger] state@.epics[j]) == (
                    state.epics@[j].0,
                    state.epics@[j].1@,
                ),
            forall|j: int|
                0 <= j < state.stories@.len() ==> (#[trigger] state@.stories[j]) == (
                    state.stories@[j].0,
                    state.stories@[j].1@,
                ),
        decreases state.stories.len() - t,
    {
        let x = state.stories[t].0;
        proof {
            assert(x == state@.stories[t as int].0);
        }
        let mut seen = false;
        let mut j: usize = 0;
        while j < state.epics.len()
            invariant
                j <= state.epics.len(),
                t < state.stories.len(),
                x == state@.stories[t as int].0,
                listing_count(state@.epics.take(j as int), x) == (if seen {
                    1nat
                } else {
                    0nat
                }),
                state@.epics.len() == state.epics@.len(),
                state@.stories.len() == state.stories@.len(),
                forall|j2: int|
                    0 <= j2 < state.epics@.len() ==> (#[trigger] state@.epics[j2]) == (
                        state.epics@[j2].0,
                        state.epics@[j2].1@,
                    ),
                forall|j2: int|
                    0 <= j2 < state.stories@.len() ==> (#[trigger] state@.stories[j2]) == (
                        state.stories@[j2].0,
                        state.stories@[j2].1@,
                    ),
            decreases state.epics.len() - j,
        {
            let lst = &state.epics[j].1.stories;
            let mut k: usize = 0;
            while k < lst.len()
                invariant
                    k <= lst.len(),
                    j < state.epics.len(),
                    t < state.stories.len(),
                    x == state@.stories[t as int].0,
                    state@.epics.len() == state.epics@.len(),
                    state@.stories.len() == state.stories@.len(),
                    lst@ == state@.epics[j as int].1.stories,
                    listing_count(state@.epics.take(j as int), x) + count_in(
                        state@.epics[j as int].1.stories.take(k as int),
                        x,
                    ) == (if seen {
                        1nat
                    } else {
                        0nat
                    }),
                    forall|j2: int|
                        0 <= j2 < state.epics@.len() ==> (#[trigger] state@.epics[j2]) == (
                            state.epics@[j2].0,
                            state.epics@[j2].1@,
                        ),
                    forall|j2: int|
                        0 <= j2 < state.stories@.len() ==> (#[trigger] state@.stories[j2]) == (
                            state.stories@[j2].0,
                            state.stories@[j2].1@,
                        ),
                decreases lst.len() - k,
            {
                proof {
                    let cl = state@.epics[j as int].1.stories;
                    assert(cl.take((k + 1) as int).drop_last() =~= cl.take(k as int));
                    assert(cl.take((k + 1) as int).last() == cl[k as int]);
                }
                if lst[k] == x {
                    if seen {
                        proof {
                            let cl = state@.epics[j as int].1.stories;
                            lemma_count_in_take_le(cl, (k + 1) as int, x);
                            assert(state@.epics.take((j + 1) as int).drop_last()
                                =~= state@.epics.take(j as int));
                            assert(state@.epics.take((j + 1) as int).last() == state@.epics[
                                j as int]);
                            lemma_listing_take_le(state@.epics, (j + 1) as int, x);
                            assert(listing_count(state@.epics, (state@.stories[t as int]).0) >= 2);
                        }
                        return false;
                    }
                    seen = true;
                }
                k = k + 1;
            }
            proof {
                let cl = state@.epics[j as int].1.stories;
                assert(cl.take(cl.len() as int) =~= cl);
                assert(state@.epics.take((j + 1) as int).drop_last() =~= state@.epics.take(
                    j as int,
                ));
                assert(state@.epics.take((j + 1) as int).last() == state@.epics[j as int]);
            }
            j = j + 1;
        }
        proof {
            assert(state@.epics.take(state@.epics.len() as int) =~= state@.epics);
        }
        if !seen {
            proof {
                assert(listing_count(state@.epics, (state@.stories[t as int]).0) == 0);
            }
            return false;
        }
        t = t + 1;
    }
    true
}

/// Executable decision of [`wf`] for a persisted state.
fn check_state(state: &DBState) -> (b: bool)
    ensures
        b == wf(state@),
{
    proof {
        lemma_wf_unpack(*state);
    }
    if !check_keys(&state.epics, state.last_item_id) {
        return false;
    }
    if !check_keys(&state.stories, state.last_item_id) {
        return false;
    }
    if !check_refs(state) {
        return false;
    }
    if !check_owned_once(state) {
        return false;
    }
    true
}

/// Persistence-backed owner of all epic and story data. Every mutating
/// operation either fully applies one transition of the model or fails
/// without a trace; integrity ([`wf`]) is preserved throughout.
pub struct Store {
    db: DBState,
}

impl View for Store {
    type V = DBStateView;

    closed spec fn view(&self) -> DBStateView {
        self.db@
    }
}

impl Store {
    /// The store is well-formed: its state satisfies referential integrity.
    pub open spec fn wf(&self) -> bool {
        wf(self@)
    }

    /// An empty store: nothing created yet, next id is 1.
    pub fn new() -> (s: Store)
        ensures
            s.wf(),
            s@ == (DBStateView {
                last_item_id: 0,
                epics: Seq::<(u32, EpicView)>::empty(),
                stories: Seq::<(u32, StoryView)>::empty(),
            }),
    {
        let s = Store { db: DBState::new() };
        proof {
            assert(keys(s@.epics) =~= Seq::<u32>::empty());
            assert(keys(s@.stories) =~= Seq::<u32>::empty());
        }
        s
    }

    /// The last id handed out; the next create uses the id above it.
    pub fn last_item_id(&self) -> (r: u32)
        ensures
            r == self@.last_item_id,
    {
        self.db.last_item_id
    }

    /// Whether an epic with this id exists.
    pub fn contains_epic(&self, epic_id: u32) -> (r: bool)
        ensures
            r == has_key(self@.epics, epic_id),
    {
        proof {
            lemma_db_view(self.db);
        }
        match find_key(&self.db.epics, epic_id) {
            Some(i) => {
                proof {
                    assert(keys(self.db.epics@)[i as int] == self.db.epics@[i as int].0);
                    assert(keys(self.db.epics@).contains(epic_id));
                }
                true
            },
            None => false,
        }
    }

    /// Whether a story with this id exists.
    pub fn contains_story(&self, story_id: u32) -> (r: bool)
        ensures
            r == has_key(self@.stories, story_id),
    {
        proof {
            lemma_db_view(self.db);
        }
        match find_key(&self.db.stories, story_id) {
            Some(i) => {
                proof {
                    assert(keys(self.db.stories@)[i as int] == self.db.stories@[i as int].0);
                    assert(keys(self.db.stories@).contains(story_id));
                }
                true
            },
            None => false,
        }
    }

    /// Read-only lookup of an epic.
    pub fn read_epic(&self, epic_id: u32) -> (r: Option<&Epic>)
        requires
            self.wf(),
        ensures
            match r {
                Some(e) => has_key(self@.epics, epic_id) && e@ == val_of(self@.epics, epic_id),
                None => !has_key(self@.epics, epic_id),
            },
    {
        proof {
            lemma_db_view(self.db);
        }
        match find_key(&self.db.epics, epic_id) {
            Some(i) => {
                proof {
                    assert(self@.epics[i as int].0 == epic_id);
                    lemma_key_idx_unique(self@.epics, epic_id, i as int);
                }
                Some(&self.db.epics[i].1)
            },
            None => {
                proof {
                    if has_key(self@.epics, epic_id) {
                        lemma_key_idx(self@.epics, epic_id);
                        assert(self.db.epics@[key_idx(self@.epics, epic_id)].0 == epic_id);
                        assert(keys(self.db.epics@)[key_idx(self@.epics, epic_id)] == epic_id);
                    }
                }
                None
            },
        }
    }

    /// Read-only lookup of a story.
    pub fn read_story(&self, story_id: u32) -> (r: Option<&Story>)
        requires
            self.wf(),
        ensures
            match r {
                Some(s) => has_key(self@.stories, story_id) && s@ == val_of(
                    self@.stories,
                    story_id,
                ),
                None => !has_key(self@.stories, story_id),
            },
    {
        proof {
            lemma_db_view(self.db);
        }
        match find_key(&self.db.stories, story_id) {
            Some(i) => {
                proof {
                    assert(self@.stories[i as int].0 == story_id);
                    lemma_key_idx_unique(self@.stories, story_id, i as int);
                }
                Some(&self.db.stories[i].1)
            },
            None => {
                proof {
                    if has_key(self@.stories, story_id) {
                        lemma_key_idx(self@.stories, story_id);
                        assert(self.db.stories@[key_idx(self@.stories, story_id)].0 == story_id);
                        assert(keys(self.db.stories@)[key_idx(self@.stories, story_id)]
                            == story_id);
                    }
                }
                None
            },
        }
    }

    /// Whether the given epic exists and lists the given story.
    pub fn epic_lists_story(&self, epic_id: u32, story_id: u32) -> (r: bool)
        requires
            self.wf(),
        ensures
            r == (has_key(self@.epics, epic_id) && val_of(self@.epics, epic_id).stories.contains(
                story_id,
            )),
    {
        match self.read_epic(epic_id) {
            Some(e) => {
                match find_id(&e.stories, story_id) {
                    Some(k) => {
                        proof {
                            assert(e.stories@[k as int] == story_id);
                            assert(val_of(self@.epics, epic_id).stories[k as int] == story_id);
                        }
                        true
                    },
                    None => {
                        proof {
                            if val_of(self@.epics, epic_id).stories.contains(story_id) {
                                let k = choose|k: int|
                                    0 <= k < val_of(self@.epics, epic_id).stories.len() && val_of(
                                        self@.epics,
                                        epic_id,
                                    ).stories[k] == story_id;
                                assert(e.stories@[k] == story_id);
                            }
                        }
                        false
                    },
                }
            },
            None => false,
        }
    }

    /// All epics with their ids, in ascending id order.
    pub fn list_epics(&self) -> (r: Vec<(u32, Epic)>)
        ensures
            r@.len() == self@.epics.len(),
            forall|i: int|
                0 <= i < r@.len() ==> (#[trigger] r@[i]).0 == self@.epics[i].0 && r@[i].1@
                    == self@.epics[i].1,
    {
        proof {
            lemma_db_view(self.db);
        }
        let mut r: Vec<(u32, Epic)> = Vec::new();
        let mut i: usize = 0;
        while i < self.db.epics.len()
            invariant
                i <= self.db.epics.len(),
                r@.len() == i,
                forall|j: int|
                    0 <= j < i ==> (#[trigger] r@[j]).0 == self@.epics[j].0 && r@[j].1@
                        == self@.epics[j].1,
                self@.epics.len() == self.db.epics@.len(),
                forall|j: int|
                    0 <= j < self.db.epics@.len() ==> (#[trigger] self@.epics[j]) == (
                        self.db.epics@[j].0,
                        self.db.epics@[j].1@,
                    ),
            decreases self.db.epics.len() - i,
        {
            let p = &self.db.epics[i];
            r.push((p.0, p.1.duplicate()));
            i = i + 1;
        }
        r
    }

    /// Creates an epic under the next fresh id: `Open`, with no stories.
    /// Cannot fail while ids remain mintable.
    pub fn create_epic(&mut self, name: String, description: String) -> (id: u32)
        requires
            old(self).wf(),
            can_mint(old(self)@),
        ensures
            final(self).wf(),
            id == next_id(old(self)@),
            final(self)@ == create_epic_tr(old(self)@, name@, description@),
    {
        let ghost n = name@;
        let ghost d = description@;
        let id = self.db.last_item_id + 1;
        let e = Epic::new(name, description);
        self.db.epics.push((id, e));
        self.db.last_item_id = id;
        proof {
            assert(self@.epics =~= old(self)@.epics.push(
                (
                    id,
                    EpicView {
                        name: n,
                        description: d,
                        status: Status::Open,
                        stories: Seq::empty(),
                    },
                ),
            ));
            assert(self@.stories =~= old(self)@.stories);
            assert(self@ =~= create_epic_tr(old(self)@, n, d));
            lemma_create_epic_wf(old(self)@, n, d);
        }
        id
    }

    /// Creates a story under the given epic with the next fresh id, and
    /// lists it there. Fails with `NotFound`, changing nothing, exactly
    /// when the epic does not exist.
    pub fn create_story(&mut self, epic_id: u32, name: String, description: String) -> (r: Result<
        u32,
        TrackerError,
    >)
        requires
            old(self).wf(),
            can_mint(old(self)@),
        ensures
            final(self).wf(),
            match r {
                Ok(id) => has_key(old(self)@.epics, epic_id) && id == next_id(old(self)@)
                    && final(self)@ == create_story_tr(old(self)@, epic_id, name@, description@),
                Err(e) => e == TrackerError::NotFound && !has_key(old(self)@.epics, epic_id)
                    && final(self)@ == old(self)@,
            },
    {
        let ghost n = name@;
        let ghost d = description@;
        proof {
            lemma_db_view(self.db);
        }
        let idx = match find_key(&self.db.epics, epic_id) {
            Some(i) => i,
            None => {
                proof {
                    if has_key(old(self)@.epics, epic_id) {
                        lemma_key_idx(old(self)@.epics, epic_id);
                        assert(keys(self.db.epics@)[key_idx(old(self)@.epics, epic_id)]
                            == self.db.epics@[key_idx(old(self)@.epics, epic_id)].0);
                    }
                }
                return Err(TrackerError::NotFound);
            },
        };
        proof {
            assert(self@.epics[idx as int].0 == epic_id);
            lemma_key_idx_unique(old(self)@.epics, epic_id, idx as int);
        }
        let id = self.db.last_item_id + 1;
        let s = Story::new(name, description);
        self.db.stories.push((id, s));
        let old_epic = &self.db.epics[idx];
        let key = old_epic.0;
        let mut new_stories = crate::models::copy_ids(&old_epic.1.stories);
        new_stories.push(id);
        let new_epic = Epic {
            name: old_epic.1.name.clone(),
            description: old_epic.1.description.clone(),
            status: old_epic.1.status,
            stories: new_stories,
        };
        self.db.epics[idx] = (key, new_epic);
        self.db.last_item_id = id;
        proof {
            let ov = old(self)@;
            let e = ov.epics[idx as int].1;
            assert(self@.stories =~= ov.stories.push(
                (id, StoryView { name: n, description: d, status: Status::Open }),
            ));
            assert(self@.epics =~= ov.epics.update(
                idx as int,
                (
                    epic_id,
                    EpicView {
                        name: e.name,
                        description: e.description,
                        status: e.status,
                        stories: e.stories.push(id),
                    },
                ),
            ));
            assert(self@ =~= create_story_tr(ov, epic_id, n, d));
            lemma_create_story_wf(ov, epic_id, n, d);
        }
        Ok(id)
    }

    /// Sets an epic's status. Fails with `NotFound`, changing nothing,
    /// exactly when the epic does not exist.
    pub fn update_epic_status(&mut self, epic_id: u32, status: Status) -> (r: Result<
        (),
        TrackerError,
    >)
        requires
            old(self).wf(),
        ensures
            final(self).wf(),
            match r {
                Ok(_) => has_key(old(self)@.epics, epic_id) && final(self)@
                    == update_epic_status_tr(old(self)@, epic_id, status),
                Err(e) => e == TrackerError::NotFound && !has_key(old(self)@.epics, epic_id)
                    && final(self)@ == old(self)@,
            },
    {
        proof {
            lemma_db_view(self.db);
        }
        let idx = match find_key(&self.db.epics, epic_id) {
            Some(i) => i,
            None => {
                proof {
                    if has_key(old(self)@.epics, epic_id) {
                        lemma_key_idx(old(self)@.epics, epic_id);
                        assert(keys(self.db.epics@)[key_idx(old(self)@.epics, epic_id)]
                            == self.db.epics@[key_idx(old(self)@.epics, epic_id)].0);
                    }
                }
                return Err(TrackerError::NotFound);
            },
        };
        proof {
            assert(self@.epics[idx as int].0 == epic_id);
            lemma_key_idx_unique(old(self)@.epics, epic_id, idx as int);
        }
        let old_epic = &self.db.epics[idx];
        let key = old_epic.0;
        let new_epic = Epic {
            name: old_epic.1.name.clone(),
            description: old_epic.1.description.clone(),
            status,
            stories: crate::models::copy_ids(&old_epic.1.stories),
        };
        self.db.epics[idx] = (key, new_epic);
        proof {
            let ov = old(self)@;
            let e = ov.epics[idx as int].1;
            assert(self@.epics =~= ov.epics.update(
                idx as int,
                (
                    epic_id,
                    EpicView {
                        name: e.name,
                        description: e.description,
                        status,
                        stories: e.stories,
                    },
                ),
            ));
            assert(self@.stories =~= ov.stories);
            assert(self@ =~= update_epic_status_tr(ov, epic_id, status));
            lemma_update_epic_status_wf(ov, epic_id, status);
        }
        Ok(())
    }

    /// Sets a story's status. Fails with `NotFound`, changing nothing,
    /// exactly when the story does not exist.
    pub fn update_story_status(&mut self, story_id: u32, status: Status) -> (r: Result<
        (),
        TrackerError,
    >)
        requires
            old(self).wf(),
        ensures
            final(self).wf(),
            match r {
                Ok(_) => has_key(old(self)@.stories, story_id) && final(self)@
                    == update_story_status_tr(old(self)@, story_id, status),
                Err(e) => e == TrackerError::NotFound && !has_key(old(self)@.stories, story_id)
                    && final(self)@ == old(self)@,
            },
    {
        proof {
            lemma_db_view(self.db);
        }
        let idx = match find_key(&self.db.stories, story_id) {
            Some(i) => i,
            None => {
                proof {
                    if has_key(old(self)@.stories, story_id) {
                        lemma_key_idx(old(self)@.stories, story_id);
                        assert(keys(self.db.stories@)[key_idx(old(self)@.stories, story_id)]
                            == self.db.stories@[key_idx(old(self)@.stories, story_id)].0);
                    }
                }
                return Err(TrackerError::NotFound);
            },
        };
        proof {
            assert(self@.stories[idx as int].0 == story_id);
            lemma_key_idx_unique(old(self)@.stories, story_id, idx as int);
        }
        let old_story = &self.db.stories[idx];
        let key = old_story.0;
        let new_story = Story {
            name: old_story.1.name.clone(),
            description: old_story.1.description.clone(),
            status,
        };
        self.db.stories[idx] = (key, new_story);
        proof {
            let ov = old(self)@;
            let s = ov.stories[idx as int].1;
            assert(self@.stories =~= ov.stories.update(
                idx as int,
                (story_id, StoryView { name: s.name, description: s.description, status }),
            ));
            assert(self@.epics =~= ov.epics);
            assert(self@ =~= update_story_status_tr(ov, story_id, status));
            lemma_update_story_status_wf(ov, story_id, status);
        }
        Ok(())
    }

    /// Deletes an epic and, atomically with it, every story its list
    /// carried. Fails with `NotFound`, changing nothing, exactly when the
    /// epic does not exist.
    pub fn delete_epic(&mut self, epic_id: u32) -> (r: Result<(), TrackerError>)
        requires
            old(self).wf(),
        ensures
            final(self).wf(),
            match r {
                Ok(_) => has_key(old(self)@.epics, epic_id) && final(self)@ == delete_epic_tr(
                    old(self)@,
                    epic_id,
                ),
                Err(e) => e == TrackerError::NotFound && !has_key(old(self)@.epics, epic_id)
                    && final(self)@ == old(self)@,
            },
    {
        proof {
            lemma_db_view(self.db);
        }
        let idx = match find_key(&self.db.epics, epic_id) {
            Some(i) => i,
            None => {
                proof {
                    if has_key(old(self)@.epics, epic_id) {
                        lemma_key_idx(old(self)@.epics, epic_id);
                        assert(keys(self.db.epics@)[key_idx(old(self)@.epics, epic_id)]
                            == self.db.epics@[key_idx(old(self)@.epics, epic_id)].0);
                    }
                }
                return Err(TrackerError::NotFound);
            },
        };
        proof {
            assert(self@.epics[idx as int].0 == epic_id);
            lemma_key_idx_unique(old(self)@.epics, epic_id, idx as int);
        }
        let pair = self.db.epics.remove(idx);
        let dead = pair.1.stories;
        let ghost deadv = dead@;
        proof {
            assert(deadv == old(self)@.epics[idx as int].1.stories);
        }
        let mut kept: Vec<(u32, Story)> = Vec::new();
        let mut i: usize = 0;
        while i < self.db.stories.len()
            invariant
                i <= self.db.stories.len(),
                dead@ == deadv,
                self.db.last_item_id == old(self).db.last_item_id,
                self.db.epics@ == old(self).db.epics@.remove(idx as int),
                self.db.stories@ == old(self).db.stories@,
                kept@.len() == drop_listed(old(self)@.stories.take(i as int), deadv).len(),
                forall|j: int|
                    0 <= j < kept@.len() ==> (#[trigger] kept@[j]).0 == drop_listed(
                        old(self)@.stories.take(i as int),
                        deadv,
                    )[j].0 && kept@[j].1@ == drop_listed(
                        old(self)@.stories.take(i as int),
                        deadv,
                    )[j].1,
                old(self)@.stories.len() == old(self).db.stories@.len(),
                forall|j: int|
                    0 <= j < old(self).db.stories@.len() ==> (#[trigger] old(self)@.stories[j])
                        == (old(self).db.stories@[j].0, old(self).db.stories@[j].1@),
            decreases self.db.stories.len() - i,
        {
            let ghost dl_pre = drop_listed(old(self)@.stories.take(i as int), deadv);
            proof {
                assert(old(self)@.stories.take((i + 1) as int).drop_last() =~= old(
                    self,
                )@.stories.take(i as int));
                assert(old(self)@.stories.take((i + 1) as int).last() == old(self)@.stories[
                    i as int]);
            }
            let p = &self.db.stories[i];
            match find_id(&dead, p.0) {
                Some(k) => {
                    proof {
                        assert(deadv[k as int] == old(self)@.stories[i as int].0);
                        assert(deadv.contains(old(self)@.stories[i as int].0));
                    }
                },
                None => {
                    kept.push((p.0, p.1.duplicate()));
                    proof {
                        assert(drop_listed(old(self)@.stories.take((i + 1) as int), deadv)
                            =~= dl_pre.push(old(self)@.stories[i as int]));
                    }
                },
            }
            i = i + 1;
        }
        self.db.stories = kept;
        proof {
            let ov = old(self)@;
            assert(ov.stories.take(ov.stories.len() as int) =~= ov.stories);
            let dl = drop_listed(ov.stories, deadv);
            assert(self@.stories =~= dl);
            assert(self@.epics =~= ov.epics.remove(idx as int));
            assert(val_of(ov.epics, epic_id) == ov.epics[idx as int].1);
            assert(self@ =~= delete_epic_tr(ov, epic_id));
            lemma_delete_epic_wf(ov, epic_id);
        }
        Ok(())
    }

    /// Deletes a story, removing its entry and its id from the owning
    /// epic's list. Fails with `NotFound`, changing nothing, exactly when
    /// the epic or the story is absent or the story is not listed under
    /// that epic.
    pub fn delete_story(&mut self, epic_id: u32, story_id: u32) -> (r: Result<(), TrackerError>)
        requires
            old(self).wf(),
        ensures
            final(self).wf(),
            match r {
                Ok(_) => valid_delete_story(old(self)@, epic_id, story_id) && final(self)@
                    == delete_story_tr(old(self)@, epic_id, story_id),
                Err(e) => e == TrackerError::NotFound && !valid_delete_story(
                    old(self)@,
                    epic_id,
                    story_id,
                ) && final(self)@ == old(self)@,
            },
    {
        proof {
            lemma_db_view(self.db);
        }
        let eidx = match find_key(&self.db.epics, epic_id) {
            Some(i) => i,
            None => {
                proof {
                    if has_key(old(self)@.epics, epic_id) {
                        lemma_key_idx(old(self)@.epics, epic_id);
                        assert(keys(self.db.epics@)[key_idx(old(self)@.epics, epic_id)]
                            == self.db.epics@[key_idx(old(self)@.epics, epic_id)].0);
                    }
                }
                return Err(TrackerError::NotFound);
            },
        };
        proof {
            assert(self@.epics[eidx as int].0 == epic_id);
            lemma_key_idx_unique(old(self)@.epics, epic_id, eidx as int);
        }
        let sidx = match find_key(&self.db.stories, story_id) {
            Some(i) => i,
            None => {
                proof {
                    if has_key(old(self)@.stories, story_id) {
                        lemma_key_idx(old(self)@.stories, story_id);
                        assert(keys(self.db.stories@)[key_idx(old(self)@.stories, story_id)]
                            == self.db.stories@[key_idx(old(self)@.stories, story_id)].0);
                    }
                }
                return Err(TrackerError::NotFound);
            },
        };
        proof {
            assert(self@.stories[sidx as int].0 == story_id);
            lemma_key_idx_unique(old(self)@.stories, story_id, sidx as int);
        }
        let lidx = match find_id(&self.db.epics[eidx].1.stories, story_id) {
            Some(i) => i,
            None => {
                proof {
                    assert(val_of(old(self)@.epics, epic_id) == old(self)@.epics[eidx as int].1);
                    if val_of(old(self)@.epics, epic_id).stories.contains(story_id) {
                        let k = choose|k: int|
                            0 <= k < old(self)@.epics[eidx as int].1.stories.len() && old(
                                self,
                            )@.epics[eidx as int].1.stories[k] == story_id;
                        assert(self.db.epics@[eidx as int].1.stories@[k] == story_id);
                    }
                }
                return Err(TrackerError::NotFound);
            },
        };
        proof {
            assert(old(self)@.epics[eidx as int].1.stories[lidx as int] == story_id);
            assert(val_of(old(self)@.epics, epic_id) == old(self)@.epics[eidx as int].1);
            assert(val_of(old(self)@.epics, epic_id).stories.contains(story_id));
        }
        let _removed = self.db.stories.remove(sidx);
        let old_epic = &self.db.epics[eidx];
        let key = old_epic.0;
        let mut new_list = crate::models::copy_ids(&old_epic.1.stories);
        let _removed_id = new_list.remove(lidx);
        let new_epic = Epic {
            name: old_epic.1.name.clone(),
            description: old_epic.1.description.clone(),
            status: old_epic.1.status,
            stories: new_list,
        };
        self.db.epics[eidx] = (key, new_epic);
        proof {
            let ov = old(self)@;
            let e = ov.epics[eidx as int].1;
            // The owning epic lists the story exactly once, so the found
            // occurrence is the occurrence the transition removes.
            lemma_listing_ge_entry(ov.epics, eidx as int, story_id);
            lemma_count_in_contains(e.stories, story_id);
            assert(listing_count(ov.epics, (ov.stories[sidx as int]).0) == 1);
            lemma_count_unique_idx(e.stories, story_id, lidx as int);
            assert(idx_of(e.stories, story_id) == lidx as int);
            assert(self@.stories =~= ov.stories.remove(sidx as int));
            assert(self@.epics =~= ov.epics.update(
                eidx as int,
                (
                    epic_id,
                    EpicView {
                        name: e.name,
                        description: e.description,
                        status: e.status,
                        stories: e.stories.remove(lidx as int),
                    },
                ),
            ));
            assert(self@ =~= delete_story_tr(ov, epic_id, story_id));
            lemma_delete_story_wf(ov, epic_id, story_id);
        }
        Ok(())
    }

    /// A snapshot of the state for persistence, equal in value to the
    /// store's own.
    pub fn save(&self) -> (out: DBState)
        ensures
            out@ == self@,
    {
        proof {
            lemma_db_view(self.db);
        }
        let mut epics: Vec<(u32, Epic)> = Vec::new();
        let mut i: usize = 0;
        while i < self.db.epics.len()
            invariant
                i <= self.db.epics.len(),
                epics@.len() == i,
                forall|j: int|
                    0 <= j < i ==> (#[trigger] epics@[j]).0 == self.db.epics@[j].0 && epics@[j].1@
                        == self.db.epics@[j].1@,
            decreases self.db.epics.len() - i,
        {
            let p = &self.db.epics[i];
            epics.push((p.0, p.1.duplicate()));
            i = i + 1;
        }
        let mut stories: Vec<(u32, Story)> = Vec::new();
        let mut k: usize = 0;
        while k < self.db.stories.len()
            invariant
                k <= self.db.stories.len(),
                stories@.len() == k,
                forall|j: int|
                    0 <= j < k ==> (#[trigger] stories@[j]).0 == self.db.stories@[j].0
                        && stories@[j].1@ == self.db.stories@[j].1@,
            decreases self.db.stories.len() - k,
        {
            let p = &self.db.stories[k];
            stories.push((p.0, p.1.duplicate()));
            k = k + 1;
        }
        let out = DBState { last_item_id: self.db.last_item_id, epics, stories };
        proof {
            lemma_db_view(out);
            assert(out@.epics =~= self@.epics);
            assert(out@.stories =~= self@.stories);
            assert(out@ =~= self@);
        }
        out
    }

    /// Builds a store from a persisted state. Succeeds, taking the state
    /// as it is, exactly when the state satisfies referential integrity;
    /// otherwise fails with `StateCorruption`.
    pub fn load(state: DBState) -> (r: Result<Store, TrackerError>)
        ensures
            match r {
                Ok(s) => wf(state@) && s@ == state@ && s.wf(),
                Err(e) => e == TrackerError::StateCorruption && !wf(state@),
            },
    {
        if check_state(&state) {
            Ok(Store { db: state })
        } else {
            Err(TrackerError::StateCorruption)
        }
    }
}

} // verus!
