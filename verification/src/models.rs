//! Entity types of the tracker: the status lifecycle, epics, stories, the
//! aggregate database state, and the closed set of user actions.
use vstd::prelude::*;

use crate::model::{DBStateView, EpicView, StoryView};

verus! {

/// Lifecycle stage of an epic or a story, totally ordered from `Open` to
/// `Closed` (see [`Status::rank`]).
#[derive(Clone, Copy, Debug, PartialEq, Eq, Structural, Hash)]
pub enum Status {
    Open,
    InProgress,
    Resolved,
    Closed,
}

impl Status {
    /// The name under which this status is shown and persisted.
    pub open spec fn spec_name(self) -> Seq<char> {
        match self {
            Status::Open => "Open"@,
            Status::InProgress => "InProgress"@,
            Status::Resolved => "Resolved"@,
            Status::Closed => "Closed"@,
        }
    }

    /// This status as text, one of the four literal names.
    pub fn name(&self) -> (r: String)
        ensures
            r@ == self.spec_name(),
    {
        match self {
            Status::Open => "Open".to_owned(),
            Status::InProgress => "InProgress".to_owned(),
            Status::Resolved => "Resolved".to_owned(),
            Status::Closed => "Closed".to_owned(),
        }
    }

    /// Position in the `Open < InProgress < Resolved < Closed` order.
    pub open spec fn spec_rank(self) -> int {
        match self {
            Status::Open => 0,
            Status::InProgress => 1,
            Status::Resolved => 2,
            Status::Closed => 3,
        }
    }

    /// Position in the `Open < InProgress < Resolved < Closed` order.
    pub fn rank(&self) -> (r: u32)
        ensures
            r == self.spec_rank(),
    {
        match self {
            Status::Open => 0,
            Status::InProgress => 1,
            Status::Resolved => 2,
            Status::Closed => 3,
        }
    }

    /// Deterministic comparison in the lifecycle order.
    pub fn le(&self, other: &Status) -> (r: bool)
        ensures
            r == (self.spec_rank() <= other.spec_rank()),
    {
        self.rank() <= other.rank()
    }

    /// The status a numeric menu choice selects: 1 is `Open`, 2 is
    /// `InProgress`, 3 is `Resolved`, 4 is `Closed`; anything else selects
    /// nothing.
    pub open spec fn spec_from_choice(n: u32) -> Option<Status> {
        if n == 1 {
            Some(Status::Open)
        } else if n == 2 {
            Some(Status::InProgress)
        } else if n == 3 {
            Some(Status::Resolved)
        } else if n == 4 {
            Some(Status::Closed)
        } else {
            None
        }
    }

    /// Maps a numeric menu choice to a status, or `None` on an invalid
    /// entry.
    pub fn from_choice(n: u32) -> (r: Option<Status>)
        ensures
            r == Status::spec_from_choice(n),
    {
        if n == 1 {
            Some(Status::Open)
        } else if n == 2 {
            Some(Status::InProgress)
        } else if n == 3 {
            Some(Status::Resolved)
        } else if n == 4 {
            Some(Status::Closed)
        } else {
            None
        }
    }
}

/// A discrete user intent, produced by a page and consumed once by the
/// navigator.
#[derive(Debug, PartialEq, Eq, Structural)]
pub enum Action {
    NavigateToEpicDetail { epic_id: u32 },
    NavigateToStoryDetail { epic_id: u32, story_id: u32 },
    NavigateToPreviousPage,
    CreateEpic,
    UpdateEpicStatus { epic_id: u32 },
    DeleteEpic { epic_id: u32 },
    CreateStory { epic_id: u32 },
    UpdateStoryStatus { story_id: u32 },
    DeleteStory { epic_id: u32, story_id: u32 },
    Exit,
}

/// Copies a list of ids element by element.
pub fn copy_ids(v: &Vec<u32>) -> (r: Vec<u32>)
    ensures
        r@ == v@,
{
    let mut r: Vec<u32> = Vec::new();
    let mut i: usize = 0;
    while i < v.len()
        invariant
            i <= v.len(),
            r@ == v@.take(i as int),
        decreases v.len() - i,
    {
        r.push(v[i]);
        proof {
            assert(v@.take(i as int).push(v@[i as int]) =~= v@.take((i + 1) as int));
        }
        i = i + 1;
    }
    proof {
        assert(v@.take(v@.len() as int) =~= v@);
    }
    r
}

/// Top-level work item grouping the stories whose ids it lists.
#[derive(Clone, Debug, PartialEq, Eq)]
pub struct Epic {
    pub name: String,
    pub description: String,
    pub status: Status,
    pub stories: Vec<u32>,
}

impl View for Epic {
    type V = EpicView;

    open spec fn view(&self) -> EpicView {
        EpicView {
            name: self.name@,
            description: self.description@,
            status: self.status,
            stories: self.stories@,
        }
    }
}

impl Epic {
    /// A new epic starts `Open` and owns no stories.
    pub fn new(name: String, description: String) -> (e: Epic)
        ensures
            e@ == (EpicView {
                name: name@,
                description: description@,
                status: Status::Open,
                stories: Seq::<u32>::empty(),
            }),
    {
        let e = Epic { name, description, status: Status::Open, stories: Vec::new() };
        assert(e@.stories =~= Seq::<u32>::empty());
        e
    }

    /// A copy with the same abstract value.
    pub fn duplicate(&self) -> (r: Epic)
        ensures
            r@ == self@,
    {
        Epic {
            name: self.name.clone(),
            description: self.description.clone(),
            status: self.status,
            stories: copy_ids(&self.stories),
        }
    }
}

/// Leaf work item; its owner is the one epic whose list carries its id.
#[derive(Clone, Debug, PartialEq, Eq)]
pub struct Story {
    pub name: String,
    pub description: String,
    pub status: Status,
}

impl View for Story {
    type V = StoryView;

    open spec fn view(&self) -> StoryView {
        StoryView { name: self.name@, description: self.description@, status: self.status }
    }
}

impl Story {
    /// A new story starts `Open`.
    pub fn new(name: String, description: String) -> (s: Story)
        ensures
            s@ == (StoryView { name: name@, description: description@, status: Status::Open }),
    {
        Story { name, description, status: Status::Open }
    }

    /// A copy with the same abstract value.
    pub fn duplicate(&self) -> (r: Story)
        ensures
            r@ == self@,
    {
        Story {
            name: self.name.clone(),
            description: self.description.clone(),
            status: self.status,
        }
    }
}

/// How a request on the tracker fails.
///
/// `NotFound` (a referenced id is absent) is recoverable and absorbed at
/// the page or navigator boundary. `InvalidInput` (unparseable user input)
/// is absorbed by the page, which yields no action. `StateCorruption` (a
/// persisted state that violates referential integrity) is fatal at
/// startup.
#[derive(Clone, Copy, Debug, PartialEq, Eq, Structural)]
pub enum TrackerError {
    NotFound,
    InvalidInput,
    StateCorruption,
}

/// The entire persisted state: the last id handed out and the two id-keyed
/// collections, each ordered by ascending id.
#[derive(Clone, Debug, PartialEq, Eq)]
pub struct DBState {
    pub last_item_id: u32,
    pub epics: Vec<(u32, Epic)>,
    pub stories: Vec<(u32, Story)>,
}

impl View for DBState {
    type V = DBStateView;

    open spec fn view(&self) -> DBStateView {
        DBStateView {
            last_item_id: self.last_item_id,
            epics: self.epics@.map_values(|p: (u32, Epic)| (p.0, p.1@)),
            stories: self.stories@.map_values(|p: (u32, Story)| (p.0, p.1@)),
        }
    }
}

impl DBState {
    /// The fresh state before anything was created.
    pub fn new() -> (db: DBState)
        ensures
            db@ == (DBStateView {
                last_item_id: 0,
                epics: Seq::<(u32, EpicView)>::empty(),
                stories: Seq::<(u32, StoryView)>::empty(),
            }),
    {
        let db = DBState { last_item_id: 0, epics: Vec::new(), stories: Vec::new() };
        assert(db@.epics =~= Seq::<(u32, EpicView)>::empty());
        assert(db@.stories =~= Seq::<(u32, StoryView)>::empty());
        db
    }
}

} // verus!
