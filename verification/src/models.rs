//! State model: epics, stories, the shared identifier counter, and the
//! well-formedness invariant the database operations preserve.

use vstd::prelude::*;
use crate::table::{
    Table, has_key, key_index, keys_unique, to_map, lemma_has_key_remove, lemma_keys_unique_remove,
    lemma_to_map_contains, lemma_to_map_index,
};

verus! {

/// Identifier issued to epics and stories from one shared counter; unique
/// across both entity maps and never reused.
pub type DbIndex = u16;

#[derive(Clone, Copy, Debug, PartialEq, Eq, Structural)]
pub enum Status {
    Open,
    InProgress,
    Resolved,
    Closed,
}

/// Mathematical model of an epic.
#[verifier::ext_equal]
pub ghost struct EpicView {
    pub name: Seq<char>,
    pub description: Seq<char>,
    pub status: Status,
    pub stories: Seq<DbIndex>,
}

/// Mathematical model of a story.
#[verifier::ext_equal]
pub ghost struct StoryView {
    pub name: Seq<char>,
    pub description: Seq<char>,
    pub status: Status,
}

/// Mathematical model of the whole persisted state.  The entity maps are kept
/// as entry sequences so that insertion order (which the storage encoding
/// reproduces) is part of the model; `epics_map`/`stories_map` abstract them
/// to maps.
#[verifier::ext_equal]
pub ghost struct StateView {
    pub last_item_id: DbIndex,
    pub epics: Seq<(DbIndex, EpicView)>,
    pub stories: Seq<(DbIndex, StoryView)>,
}

/// Top-level work item owning an ordered list of story ids.
#[derive(Clone, Debug, PartialEq)]
pub struct Epic {
    pub name: String,
    pub description: String,
    pub status: Status,
    pub stories: Vec<DbIndex>,
}

impl View for Epic {
    type V = EpicView;

    open spec fn view(&self) -> EpicView {
        EpicView {
            name: self.name@,
            description: self.description@,
            status: self.status,
            stories: self.stories@,
        }
    }
}

/// Leaf work item; its membership in an epic is recorded only on the epic.
#[derive(Clone, Debug, PartialEq)]
pub struct Story {
    pub name: String,
    pub description: String,
    pub status: Status,
}

impl View for Story {
    type V = StoryView;

    open spec fn view(&self) -> StoryView {
        StoryView { name: self.name@, description: self.description@, status: self.status }
    }
}

/// The complete persisted snapshot: identifier counter plus both entity maps.
#[derive(Clone, Debug, PartialEq)]
pub struct DBState {
    pub last_item_id: DbIndex,
    pub epics: Table<Epic>,
    pub stories: Table<Story>,
}

impl View for DBState {
    type V = StateView;

    open spec fn view(&self) -> StateView {
        StateView { last_item_id: self.last_item_id, epics: self.epics@, stories: self.stories@ }
    }
}

/// Index of the first occurrence of `x` (meaningful when `ids.contains(x)`).
pub open spec fn id_index(ids: Seq<DbIndex>, x: DbIndex) -> int {
    choose|j: int| 0 <= j < ids.len() && ids[j] == x
}

/// `stories` with the entries keyed by `ids` removed, front first (meaningful
/// when every id is a key).
pub open spec fn seq_remove_keys(
    stories: Seq<(DbIndex, StoryView)>,
    ids: Seq<DbIndex>,
) -> Seq<(DbIndex, StoryView)>
    decreases ids.len(),
{
    if ids.len() == 0 {
        stories
    } else {
        seq_remove_keys(stories.remove(key_index(stories, ids[0])), ids.drop_first())
    }
}

impl StateView {
    pub open spec fn epics_map(self) -> Map<DbIndex, EpicView> {
        to_map(self.epics)
    }

    pub open spec fn stories_map(self) -> Map<DbIndex, StoryView> {
        to_map(self.stories)
    }

    /// Referential integrity: every story id listed by any epic is a key of
    /// the stories map.
    pub open spec fn refs_exist(self) -> bool {
        forall|i: int, j: int|
            0 <= i < self.epics.len() && 0 <= j < self.epics[i].1.stories.len() ==> has_key(
                self.stories,
                #[trigger] self.epics[i].1.stories[j],
            )
    }

    /// A story is owned at most once: no id occurs at two distinct positions
    /// of the epics' story lists.
    pub open spec fn refs_unique(self) -> bool {
        forall|i1: int, j1: int, i2: int, j2: int|
            #![trigger self.epics[i1].1.stories[j1], self.epics[i2].1.stories[j2]]
            0 <= i1 < self.epics.len() && 0 <= j1 < self.epics[i1].1.stories.len() && 0 <= i2
                < self.epics.len() && 0 <= j2 < self.epics[i2].1.stories.len() && (i1 != i2 || j1
                != j2) ==> self.epics[i1].1.stories[j1] != self.epics[i2].1.stories[j2]
    }

    /// Every issued id is bounded by the counter, so fresh ids never collide.
    pub open spec fn ids_bounded(self) -> bool {
        (forall|i: int|
            0 <= i < self.epics.len() ==> (#[trigger] self.epics[i]).0 <= self.last_item_id)
            && (forall|i: int|
            0 <= i < self.stories.len() ==> (#[trigger] self.stories[i]).0 <= self.last_item_id)
    }

    /// Well-formedness: the invariant every database operation preserves.
    pub open spec fn wf(self) -> bool {
        &&& keys_unique(self.epics)
        &&& keys_unique(self.stories)
        &&& self.refs_exist()
        &&& self.refs_unique()
        &&& self.ids_bounded()
    }

    /// A new epic's story list may be carried in only if it keeps the state
    /// well-formed: every listed id keys the stories map, no id is listed
    /// twice, and none is already owned by an epic of the state.
    pub open spec fn epic_addable(self, e: EpicView) -> bool {
        &&& forall|j: int| 0 <= j < e.stories.len() ==> has_key(self.stories, #[trigger] e.stories[j])
        &&& forall|j1: int, j2: int|
            #![trigger e.stories[j1], e.stories[j2]]
            0 <= j1 < j2 < e.stories.len() ==> e.stories[j1] != e.stories[j2]
        &&& forall|i: int, j1: int, j2: int|
            #![trigger self.epics[i].1.stories[j1], e.stories[j2]]
            0 <= i < self.epics.len() && 0 <= j1 < self.epics[i].1.stories.len() && 0 <= j2
                < e.stories.len() ==> self.epics[i].1.stories[j1] != e.stories[j2]
    }

    pub open spec fn empty() -> StateView {
        StateView {
            last_item_id: 0,
            epics: Seq::empty(),
            stories: Seq::empty(),
        }
    }

    /// The id the next successful create operation returns.
    pub open spec fn next_id(self) -> DbIndex {
        (self.last_item_id + 1) as DbIndex
    }

    /// Effect of `create_epic`: counter bumped, epic appended under the new id.
    pub open spec fn with_created_epic(self, e: EpicView) -> StateView {
        StateView {
            last_item_id: self.next_id(),
            epics: self.epics.push((self.next_id(), e)),
            stories: self.stories,
        }
    }

    /// Effect of `create_story`: counter bumped, story appended under the new
    /// id, and the new id appended to the target epic's list.
    pub open spec fn with_created_story(self, s: StoryView, epic_id: DbIndex) -> StateView {
        let i = key_index(self.epics, epic_id);
        let e = self.epics[i].1;
        StateView {
            last_item_id: self.next_id(),
            epics: self.epics.update(
                i,
                (epic_id, EpicView { stories: e.stories.push(self.next_id()), ..e }),
            ),
            stories: self.stories.push((self.next_id(), s)),
        }
    }

    /// Effect of `delete_story`: the story leaves the stories map and its id
    /// leaves the owning epic's list; the counter is untouched.
    pub open spec fn with_story_removed(self, epic_id: DbIndex, story_id: DbIndex) -> StateView {
        let i = key_index(self.epics, epic_id);
        let e = self.epics[i].1;
        StateView {
            last_item_id: self.last_item_id,
            epics: self.epics.update(
                i,
                (epic_id, EpicView { stories: e.stories.remove(id_index(e.stories, story_id)), ..e }),
            ),
            stories: self.stories.remove(key_index(self.stories, story_id)),
        }
    }

    /// Effect of `delete_epic`: every story the epic lists leaves the stories
    /// map, then the epic entry itself is removed; the counter is untouched.
    pub open spec fn with_epic_deleted(self, epic_id: DbIndex) -> StateView {
        let i = key_index(self.epics, epic_id);
        StateView {
            last_item_id: self.last_item_id,
            epics: self.epics.remove(i),
            stories: seq_remove_keys(self.stories, self.epics[i].1.stories),
        }
    }

    /// Effect of `update_epic_status`.
    pub open spec fn with_epic_status(self, epic_id: DbIndex, status: Status) -> StateView {
        let i = key_index(self.epics, epic_id);
        let e = self.epics[i].1;
        StateView {
            last_item_id: self.last_item_id,
            epics: self.epics.update(i, (epic_id, EpicView { status: status, ..e })),
            stories: self.stories,
        }
    }

    /// Effect of `update_story_status`.
    pub open spec fn with_story_status(self, story_id: DbIndex, status: Status) -> StateView {
        let i = key_index(self.stories, story_id);
        let s = self.stories[i].1;
        StateView {
            last_item_id: self.last_item_id,
            epics: self.epics,
            stories: self.stories.update(i, (story_id, StoryView { status: status, ..s })),
        }
    }
}

/// Referential integrity: in a well-formed state — and every state a
/// database operation yields, or the decoder accepts, is well-formed — each
/// story id any epic lists is a key of the stories map.
pub proof fn lemma_referential_integrity(s: StateView, epic_id: DbIndex, j: int)
    requires
        s.wf(),
        s.epics_map().contains_key(epic_id),
        0 <= j < s.epics_map()[epic_id].stories.len(),
    ensures
        s.stories_map().contains_key(s.epics_map()[epic_id].stories[j]),
{
    lemma_to_map_contains(s.epics, epic_id);
    let i0 = key_index(s.epics, epic_id);
    assert(0 <= i0 < s.epics.len() && s.epics[i0].0 == epic_id);
    lemma_to_map_index(s.epics, i0);
    assert(has_key(s.stories, s.epics[i0].1.stories[j]));
    lemma_to_map_contains(s.stories, s.epics[i0].1.stories[j]);
}

/// Monotonic identifiers: a successful create issues an id strictly greater
/// than every id the state holds (and, because deletion never lowers the
/// counter, than every id ever issued), and the next create after it issues
/// a strictly greater id again.  That a rejected `create_story` leaves the
/// counter unchanged is part of that operation's contract.
pub proof fn lemma_monotonic_identifiers(s: StateView, e: EpicView)
    requires
        s.wf(),
        s.last_item_id + 2 <= DbIndex::MAX,
    ensures
        forall|k: DbIndex|
            s.epics_map().contains_key(k) || s.stories_map().contains_key(k) ==> k < s.next_id(),
        s.with_created_epic(e).last_item_id == s.next_id(),
        s.with_created_epic(e).next_id() > s.next_id(),
{
    assert forall|k: DbIndex|
        s.epics_map().contains_key(k) || s.stories_map().contains_key(k) implies k
        < s.next_id() by {
        lemma_to_map_contains(s.epics, k);
        lemma_to_map_contains(s.stories, k);
        if has_key(s.epics, k) {
            let i = choose|i: int| 0 <= i < s.epics.len() && s.epics[i].0 == k;
            assert(s.epics[i].0 <= s.last_item_id);
        }
        if has_key(s.stories, k) {
            let i = choose|i: int| 0 <= i < s.stories.len() && s.stories[i].0 == k;
            assert(s.stories[i].0 <= s.last_item_id);
        }
    }
}

/// Every story id an epic lists is bounded by the counter, because it is a
/// key of the stories map and all keys are bounded.
pub proof fn lemma_ref_bounded(s: StateView, a: int, b: int)
    requires
        s.wf(),
        0 <= a < s.epics.len(),
        0 <= b < s.epics[a].1.stories.len(),
    ensures
        s.epics[a].1.stories[b] <= s.last_item_id,
{
    let r = s.epics[a].1.stories[b];
    assert(has_key(s.stories, r));
    let k = choose|k: int| 0 <= k < s.stories.len() && s.stories[k].0 == r;
    assert(s.stories[k].0 <= s.last_item_id);
}

/// An id above the counter is fresh: it keys neither map.
pub proof fn lemma_fresh_key(s: StateView, k: DbIndex)
    requires
        s.wf(),
        k > s.last_item_id,
    ensures
        !has_key(s.epics, k),
        !has_key(s.stories, k),
{
    if has_key(s.epics, k) {
        let i = choose|i: int| 0 <= i < s.epics.len() && s.epics[i].0 == k;
        assert(s.epics[i].0 <= s.last_item_id);
    }
    if has_key(s.stories, k) {
        let i = choose|i: int| 0 <= i < s.stories.len() && s.stories[i].0 == k;
        assert(s.stories[i].0 <= s.last_item_id);
    }
}

/// Creating an epic whose story list is addable preserves well-formedness.
pub proof fn lemma_wf_create_epic(s: StateView, e: EpicView)
    requires
        s.wf(),
        s.last_item_id < DbIndex::MAX,
        s.epic_addable(e),
    ensures
        s.with_created_epic(e).wf(),
{
    let s2 = s.with_created_epic(e);
    let n = s.epics.len() as int;
    assert forall|i: int, j: int| 0 <= i < j < s2.epics.len() implies s2.epics[i].0
        != s2.epics[j].0 by {
        assert(s2.epics[i] == s.epics[i]);
        if j < n {
            assert(s2.epics[j] == s.epics[j]);
        } else {
            assert(s.epics[i].0 <= s.last_item_id);
        }
    }
    assert forall|i: int, j: int|
        0 <= i < s2.epics.len() && 0 <= j < s2.epics[i].1.stories.len() implies has_key(
        s2.stories,
        s2.epics[i].1.stories[j],
    ) by {
        if i < n {
            assert(s2.epics[i] == s.epics[i]);
        } else {
            assert(s2.epics[i].1 == e);
            assert(has_key(s.stories, e.stories[j]));
        }
    }
    assert forall|i1: int, j1: int, i2: int, j2: int|
        0 <= i1 < s2.epics.len() && 0 <= j1 < s2.epics[i1].1.stories.len() && 0 <= i2
            < s2.epics.len() && 0 <= j2 < s2.epics[i2].1.stories.len() && (i1 != i2 || j1
            != j2) implies s2.epics[i1].1.stories[j1] != s2.epics[i2].1.stories[j2] by {
        if i1 < n {
            assert(s2.epics[i1] == s.epics[i1]);
        } else {
            assert(s2.epics[i1].1 == e);
        }
        if i2 < n {
            assert(s2.epics[i2] == s.epics[i2]);
        } else {
            assert(s2.epics[i2].1 == e);
        }
        if i1 < n && i2 < n {
            assert(s.epics[i1].1.stories[j1] != s.epics[i2].1.stories[j2]);
        } else if i1 == n && i2 == n {
            if j1 < j2 {
                assert(e.stories[j1] != e.stories[j2]);
            } else {
                assert(e.stories[j2] != e.stories[j1]);
            }
        } else if i1 < n {
            assert(s.epics[i1].1.stories[j1] != e.stories[j2]);
        } else {
            assert(s.epics[i2].1.stories[j2] != e.stories[j1]);
        }
    }
    assert forall|i: int| 0 <= i < s2.epics.len() implies (#[trigger] s2.epics[i]).0
        <= s2.last_item_id by {
        if i < n {
            assert(s2.epics[i] == s.epics[i]);
            assert(s.epics[i].0 <= s.last_item_id);
        }
    }
}

/// Creating a story under an existing epic preserves well-formedness.
pub proof fn lemma_wf_create_story(s: StateView, st: StoryView, epic_id: DbIndex)
    requires
        s.wf(),
        s.last_item_id < DbIndex::MAX,
        has_key(s.epics, epic_id),
    ensures
        s.with_created_story(st, epic_id).wf(),
{
    let s2 = s.with_created_story(st, epic_id);
    let i0 = key_index(s.epics, epic_id);
    assert(0 <= i0 < s.epics.len() && s.epics[i0].0 == epic_id);
    let id = s.next_id();
    let e = s.epics[i0].1;
    let n = s.epics.len() as int;
    let m = e.stories.len() as int;
    // Keys of the epics map are unchanged.
    assert forall|i: int| 0 <= i < n implies (#[trigger] s2.epics[i]).0 == s.epics[i].0 by {}
    assert forall|i: int, j: int| 0 <= i < j < s2.epics.len() implies s2.epics[i].0
        != s2.epics[j].0 by {
        assert(s.epics[i].0 != s.epics[j].0);
    }
    // The stories map gains one entry under a fresh key.
    assert forall|i: int, j: int| 0 <= i < j < s2.stories.len() implies s2.stories[i].0
        != s2.stories[j].0 by {
        assert(s2.stories[i] == s.stories[i]);
        if j < s.stories.len() {
            assert(s2.stories[j] == s.stories[j]);
        } else {
            assert(s.stories[i].0 <= s.last_item_id);
        }
    }
    assert forall|i: int, j: int|
        0 <= i < s2.epics.len() && 0 <= j < s2.epics[i].1.stories.len() implies has_key(
        s2.stories,
        s2.epics[i].1.stories[j],
    ) by {
        if i == i0 && j == m {
            assert(s2.epics[i].1.stories[j] == id);
            assert(s2.stories[s.stories.len() as int].0 == id);
        } else {
            if i == i0 {
                assert(s2.epics[i].1.stories[j] == e.stories[j]);
                assert(s.epics[i].1.stories[j] == e.stories[j]);
            } else {
                assert(s2.epics[i] == s.epics[i]);
            }
            assert(has_key(s.stories, s.epics[i].1.stories[j]));
            let k = choose|k: int|
                0 <= k < s.stories.len() && s.stories[k].0 == s.epics[i].1.stories[j];
            assert(s2.stories[k].0 == s.epics[i].1.stories[j]);
        }
    }
    assert forall|i1: int, j1: int, i2: int, j2: int|
        0 <= i1 < s2.epics.len() && 0 <= j1 < s2.epics[i1].1.stories.len() && 0 <= i2
            < s2.epics.len() && 0 <= j2 < s2.epics[i2].1.stories.len() && (i1 != i2 || j1
            != j2) implies s2.epics[i1].1.stories[j1] != s2.epics[i2].1.stories[j2] by {
        let new1 = i1 == i0 && j1 == m;
        let new2 = i2 == i0 && j2 == m;
        if new1 && !new2 {
            if i2 == i0 {
                assert(s2.epics[i2].1.stories[j2] == s.epics[i2].1.stories[j2]);
            } else {
                assert(s2.epics[i2] == s.epics[i2]);
            }
            lemma_ref_bounded(s, i2, j2);
        } else if !new1 && new2 {
            if i1 == i0 {
                assert(s2.epics[i1].1.stories[j1] == s.epics[i1].1.stories[j1]);
            } else {
                assert(s2.epics[i1] == s.epics[i1]);
            }
            lemma_ref_bounded(s, i1, j1);
        } else if !new1 && !new2 {
            if i1 == i0 {
                assert(s2.epics[i1].1.stories[j1] == s.epics[i1].1.stories[j1]);
            } else {
                assert(s2.epics[i1] == s.epics[i1]);
            }
            if i2 == i0 {
                assert(s2.epics[i2].1.stories[j2] == s.epics[i2].1.stories[j2]);
            } else {
                assert(s2.epics[i2] == s.epics[i2]);
            }
            assert(s.epics[i1].1.stories[j1] != s.epics[i2].1.stories[j2]);
        }
    }
    assert forall|i: int| 0 <= i < s2.epics.len() implies (#[trigger] s2.epics[i]).0
        <= s2.last_item_id by {
        assert(s.epics[i].0 <= s.last_item_id);
    }
    assert forall|i: int| 0 <= i < s2.stories.len() implies (#[trigger] s2.stories[i]).0
        <= s2.last_item_id by {
        if i < s.stories.len() {
            assert(s2.stories[i] == s.stories[i]);
            assert(s.stories[i].0 <= s.last_item_id);
        }
    }
}

/// Removing a story (from the stories map and from its owning epic's list)
/// preserves well-formedness.
pub proof fn lemma_wf_story_removed(s: StateView, epic_id: DbIndex, story_id: DbIndex)
    requires
        s.wf(),
        has_key(s.epics, epic_id),
        has_key(s.stories, story_id),
        s.epics[key_index(s.epics, epic_id)].1.stories.contains(story_id),
    ensures
        s.with_story_removed(epic_id, story_id).wf(),
{
    let s2 = s.with_story_removed(epic_id, story_id);
    let i0 = key_index(s.epics, epic_id);
    assert(0 <= i0 < s.epics.len() && s.epics[i0].0 == epic_id);
    let e = s.epics[i0].1;
    let j0 = id_index(e.stories, story_id);
    assert(0 <= j0 < e.stories.len() && e.stories[j0] == story_id) by {
        let w = choose|w: int| 0 <= w < e.stories.len() && e.stories[w] == story_id;
        assert(e.stories[w] == story_id);
    }
    let k0 = key_index(s.stories, story_id);
    assert(0 <= k0 < s.stories.len() && s.stories[k0].0 == story_id);
    // Positions of the new epics map to positions of the old one.
    assert forall|i: int, j: int|
        #![trigger s2.epics[i].1.stories[j]]
        0 <= i < s2.epics.len() && 0 <= j < s2.epics[i].1.stories.len() implies {
        let oj = if i == i0 && j >= j0 { j + 1 } else { j };
        0 <= oj < s.epics[i].1.stories.len() && s2.epics[i].1.stories[j] == s.epics[i].1.stories[oj]
    } by {
        if i == i0 {
            assert(s2.epics[i].1.stories == e.stories.remove(j0));
        } else {
            assert(s2.epics[i] == s.epics[i]);
        }
    }
    assert forall|i: int, j: int| 0 <= i < j < s2.epics.len() implies s2.epics[i].0
        != s2.epics[j].0 by {
        assert(s.epics[i].0 != s.epics[j].0);
    }
    lemma_keys_unique_remove(s.stories, k0);
    assert forall|i: int, j: int|
        0 <= i < s2.epics.len() && 0 <= j < s2.epics[i].1.stories.len() implies has_key(
        s2.stories,
        s2.epics[i].1.stories[j],
    ) by {
        let oj = if i == i0 && j >= j0 { j + 1 } else { j };
        let r = s.epics[i].1.stories[oj];
        assert(s2.epics[i].1.stories[j] == r);
        // The removed story occurs only at (i0, j0), so r is a different key.
        assert(r != story_id);
        assert(has_key(s.stories, r));
        lemma_has_key_remove(s.stories, k0, r);
    }
    assert forall|i1: int, j1: int, i2: int, j2: int|
        0 <= i1 < s2.epics.len() && 0 <= j1 < s2.epics[i1].1.stories.len() && 0 <= i2
            < s2.epics.len() && 0 <= j2 < s2.epics[i2].1.stories.len() && (i1 != i2 || j1
            != j2) implies s2.epics[i1].1.stories[j1] != s2.epics[i2].1.stories[j2] by {
        let oj1 = if i1 == i0 && j1 >= j0 { j1 + 1 } else { j1 };
        let oj2 = if i2 == i0 && j2 >= j0 { j2 + 1 } else { j2 };
        assert(s2.epics[i1].1.stories[j1] == s.epics[i1].1.stories[oj1]);
        assert(s2.epics[i2].1.stories[j2] == s.epics[i2].1.stories[oj2]);
        assert(i1 != i2 || oj1 != oj2);
    }
    assert forall|i: int| 0 <= i < s2.epics.len() implies (#[trigger] s2.epics[i]).0
        <= s2.last_item_id by {
        assert(s.epics[i].0 <= s.last_item_id);
    }
    assert forall|i: int| 0 <= i < s2.stories.len() implies (#[trigger] s2.stories[i]).0
        <= s2.last_item_id by {
        let oi: int = if i < k0 {
            i
        } else {
            i + 1
        };
        assert(s2.stories[i] == s.stories[oi]);
        assert(s.stories[oi].0 <= s.last_item_id);
    }
}

/// Overwriting an epic's status preserves well-formedness.
pub proof fn lemma_wf_epic_status(s: StateView, epic_id: DbIndex, status: Status)
    requires
        s.wf(),
        has_key(s.epics, epic_id),
    ensures
        s.with_epic_status(epic_id, status).wf(),
{
    let s2 = s.with_epic_status(epic_id, status);
    let i0 = key_index(s.epics, epic_id);
    assert(0 <= i0 < s.epics.len() && s.epics[i0].0 == epic_id);
    assert forall|i: int| 0 <= i < s2.epics.len() implies (#[trigger] s2.epics[i]).0
        == s.epics[i].0 && s2.epics[i].1.stories == s.epics[i].1.stories by {}
    assert forall|i: int, j: int| 0 <= i < j < s2.epics.len() implies s2.epics[i].0
        != s2.epics[j].0 by {
        assert(s.epics[i].0 != s.epics[j].0);
    }
    assert forall|i: int, j: int|
        0 <= i < s2.epics.len() && 0 <= j < s2.epics[i].1.stories.len() implies has_key(
        s2.stories,
        s2.epics[i].1.stories[j],
    ) by {
        assert(s2.epics[i].1.stories[j] == s.epics[i].1.stories[j]);
        assert(has_key(s.stories, s.epics[i].1.stories[j]));
    }
    assert forall|i1: int, j1: int, i2: int, j2: int|
        0 <= i1 < s2.epics.len() && 0 <= j1 < s2.epics[i1].1.stories.len() && 0 <= i2
            < s2.epics.len() && 0 <= j2 < s2.epics[i2].1.stories.len() && (i1 != i2 || j1
            != j2) implies s2.epics[i1].1.stories[j1] != s2.epics[i2].1.stories[j2] by {
        assert(s2.epics[i1].1.stories[j1] == s.epics[i1].1.stories[j1]);
        assert(s2.epics[i2].1.stories[j2] == s.epics[i2].1.stories[j2]);
    }
    assert forall|i: int| 0 <= i < s2.epics.len() implies (#[trigger] s2.epics[i]).0
        <= s2.last_item_id by {
        assert(s.epics[i].0 <= s.last_item_id);
    }
}

/// Overwriting a story's status preserves well-formedness.
pub proof fn lemma_wf_story_status(s: StateView, story_id: DbIndex, status: Status)
    requires
        s.wf(),
        has_key(s.stories, story_id),
    ensures
        s.with_story_status(story_id, status).wf(),
{
    let s2 = s.with_story_status(story_id, status);
    let i0 = key_index(s.stories, story_id);
    assert(0 <= i0 < s.stories.len() && s.stories[i0].0 == story_id);
    assert forall|i: int| 0 <= i < s2.stories.len() implies (#[trigger] s2.stories[i]).0
        == s.stories[i].0 by {}
    assert forall|i: int, j: int| 0 <= i < j < s2.stories.len() implies s2.stories[i].0
        != s2.stories[j].0 by {
        assert(s.stories[i].0 != s.stories[j].0);
    }
    assert forall|i: int, j: int|
        0 <= i < s2.epics.len() && 0 <= j < s2.epics[i].1.stories.len() implies has_key(
        s2.stories,
        s2.epics[i].1.stories[j],
    ) by {
        assert(has_key(s.stories, s.epics[i].1.stories[j]));
        let k = choose|k: int|
            0 <= k < s.stories.len() && s.stories[k].0 == s.epics[i].1.stories[j];
        assert(s2.stories[k].0 == s.epics[i].1.stories[j]);
    }
    assert forall|i: int| 0 <= i < s2.stories.len() implies (#[trigger] s2.stories[i]).0
        <= s2.last_item_id by {
        assert(s.stories[i].0 <= s.last_item_id);
    }
}

/// Peeling one id off the back of a removal cascade.
pub proof fn lemma_seq_remove_keys_push(
    stories: Seq<(DbIndex, StoryView)>,
    ids: Seq<DbIndex>,
    x: DbIndex,
)
    ensures
        seq_remove_keys(stories, ids.push(x)) == seq_remove_keys(stories, ids).remove(
            key_index(seq_remove_keys(stories, ids), x),
        ),
    decreases ids.len(),
{
    if ids.len() == 0 {
        let s1 = stories.remove(key_index(stories, x));
        assert(ids.push(x)[0] == x);
        assert(ids.push(x).drop_first() =~= Seq::<DbIndex>::empty());
        assert(seq_remove_keys(stories, ids.push(x)) == seq_remove_keys(
            s1,
            ids.push(x).drop_first(),
        ));
        assert(seq_remove_keys(s1, ids.push(x).drop_first()) == s1);
        assert(seq_remove_keys(stories, ids) == stories);
    } else {
        let s1 = stories.remove(key_index(stories, ids[0]));
        assert(ids.push(x)[0] == ids[0]);
        assert(ids.push(x).drop_first() =~= ids.drop_first().push(x));
        assert(seq_remove_keys(stories, ids.push(x)) == seq_remove_keys(
            s1,
            ids.drop_first().push(x),
        ));
        lemma_seq_remove_keys_push(s1, ids.drop_first(), x);
        assert(seq_remove_keys(stories, ids) == seq_remove_keys(s1, ids.drop_first()));
    }
}

/// Copies a list of ids element by element.
pub(crate) fn copy_ids(v: &Vec<DbIndex>) -> (r: Vec<DbIndex>)
    ensures
        r@ == v@,
{
    let mut r: Vec<DbIndex> = Vec::new();
    let n = v.len();
    let mut i: usize = 0;
    while i < n
        invariant
            n == v@.len(),
            0 <= i <= n,
            r@ == v@.take(i as int),
        decreases n - i,
    {
        r.push(v[i]);
        proof {
            assert(r@ =~= v@.take(i as int + 1));
        }
        i += 1;
    }
    proof {
        assert(v@.take(n as int) =~= v@);
    }
    r
}

/// Finds an index holding `x`.
pub(crate) fn find_id(v: &Vec<DbIndex>, x: DbIndex) -> (r: Option<usize>)
    ensures
        match r {
            Some(i) => i < v@.len() && v@[i as int] == x,
            None => !v@.contains(x),
        },
{
    let n = v.len();
    let mut i: usize = 0;
    while i < n
        invariant
            n == v@.len(),
            0 <= i <= n,
            forall|j: int| 0 <= j < i ==> v@[j] != x,
        decreases n - i,
    {
        if v[i] == x {
            return Some(i);
        }
        i += 1;
    }
    None
}

/// `(a, b)` lexicographically precedes the frontier `(i, j)`.
spec fn before(a: int, b: int, i: int, j: int) -> bool {
    a < i || (a == i && b < j)
}

impl Epic {
    pub fn new(name: String, description: String) -> (r: Epic)
        ensures
            r@.name == name@,
            r@.description == description@,
            r@.status == Status::Open,
            r@.stories == Seq::<DbIndex>::empty(),
    {
        let r = Epic { name, description, status: Status::Open, stories: Vec::new() };
        proof {
            assert(r@.stories =~= Seq::<DbIndex>::empty());
        }
        r
    }

    /// Structural copy whose view equals the original's.
    pub fn duplicate(&self) -> (r: Epic)
        ensures
            r@ == self@,
    {
        let r = Epic {
            name: self.name.clone(),
            description: self.description.clone(),
            status: self.status,
            stories: copy_ids(&self.stories),
        };
        proof {
            assert(r@ =~= self@);
        }
        r
    }
}

impl Story {
    pub fn new(name: String, description: String) -> (r: Story)
        ensures
            r@.name == name@,
            r@.description == description@,
            r@.status == Status::Open,
    {
        Story { name, description, status: Status::Open }
    }

    /// Structural copy whose view equals the original's.
    pub fn duplicate(&self) -> (r: Story)
        ensures
            r@ == self@,
    {
        let r = Story {
            name: self.name.clone(),
            description: self.description.clone(),
            status: self.status,
        };
        proof {
            assert(r@ =~= self@);
        }
        r
    }
}

impl Table<Epic> {
    /// Structural copy whose view equals the original's.
    pub fn duplicate(&self) -> (r: Table<Epic>)
        ensures
            r@ == self@,
    {
        let mut out: Vec<(DbIndex, Epic)> = Vec::new();
        let n = self.entries.len();
        let mut i: usize = 0;
        while i < n
            invariant
                n == self.entries@.len(),
                0 <= i <= n,
                out@.len() == i,
                forall|j: int|
                    0 <= j < i ==> (#[trigger] out@[j]).0 == self.entries@[j].0 && out@[j].1@
                        == self.entries@[j].1@,
            decreases n - i,
        {
            let entry = &self.entries[i];
            out.push((entry.0, entry.1.duplicate()));
            i += 1;
        }
        let r = Table::from_entries(out);
        proof {
            assert(r@ =~= self@);
        }
        r
    }
}

impl Table<Story> {
    /// Structural copy whose view equals the original's.
    pub fn duplicate(&self) -> (r: Table<Story>)
        ensures
            r@ == self@,
    {
        let mut out: Vec<(DbIndex, Story)> = Vec::new();
        let n = self.entries.len();
        let mut i: usize = 0;
        while i < n
            invariant
                n == self.entries@.len(),
                0 <= i <= n,
                out@.len() == i,
                forall|j: int|
                    0 <= j < i ==> (#[trigger] out@[j]).0 == self.entries@[j].0 && out@[j].1@
                        == self.entries@[j].1@,
            decreases n - i,
        {
            let entry = &self.entries[i];
            out.push((entry.0, entry.1.duplicate()));
            i += 1;
        }
        let r = Table::from_entries(out);
        proof {
            assert(r@ =~= self@);
        }
        r
    }
}

impl DBState {
    /// The seeded empty state: counter at zero, both maps empty.
    pub fn new() -> (r: DBState)
        ensures
            r@ == StateView::empty(),
            r@.wf(),
    {
        let r = DBState { last_item_id: 0, epics: Table::new(), stories: Table::new() };
        proof {
            assert(r@ =~= StateView::empty());
        }
        r
    }

    /// Structural copy whose view equals the original's.
    pub fn duplicate(&self) -> (r: DBState)
        ensures
            r@ == self@,
    {
        let r = DBState {
            last_item_id: self.last_item_id,
            epics: self.epics.duplicate(),
            stories: self.stories.duplicate(),
        };
        proof {
            assert(r@ =~= self@);
        }
        r
    }

    /// Runtime check of the full well-formedness invariant; the decoder uses
    /// it to tell a valid state from a corrupt blob.
    #[verifier::loop_isolation(false)]
    pub fn is_well_formed(&self) -> (b: bool)
        ensures
            b == self@.wf(),
    {
        if !self.epics.check_keys_unique() {
            return false;
        }
        if !self.stories.check_keys_unique() {
            return false;
        }
        let ne = self.epics.entries.len();
        let ns = self.stories.entries.len();
        // Every issued id is bounded by the counter.
        let mut i: usize = 0;
        while i < ne
            invariant
                0 <= i <= ne,
                forall|a: int| 0 <= a < i ==> (#[trigger] self@.epics[a]).0 <= self@.last_item_id,
            decreases ne - i,
        {
            if self.epics.entries[i].0 > self.last_item_id {
                proof {
                    assert(self@.epics[i as int].0 > self@.last_item_id);
                }
                return false;
            }
            proof {
                assert(self@.epics[i as int].0 == self.epics.entries@[i as int].0);
            }
            i += 1;
        }
        let mut i: usize = 0;
        while i < ns
            invariant
                0 <= i <= ns,
                forall|a: int|
                    0 <= a < i ==> (#[trigger] self@.stories[a]).0 <= self@.last_item_id,
            decreases ns - i,
        {
            if self.stories.entries[i].0 > self.last_item_id {
                proof {
                    assert(self@.stories[i as int].0 > self@.last_item_id);
                }
                return false;
            }
            proof {
                assert(self@.stories[i as int].0 == self.stories.entries@[i as int].0);
            }
            i += 1;
        }
        // Referential integrity: every listed story id keys the stories map.
        let mut i: usize = 0;
        while i < ne
            invariant
                0 <= i <= ne,
                forall|a: int, b2: int|
                    0 <= a < i && 0 <= b2 < self@.epics[a].1.stories.len() ==> has_key(
                        self@.stories,
                        #[trigger] self@.epics[a].1.stories[b2],
                    ),
            decreases ne - i,
        {
            let list = &self.epics.entries[i].1.stories;
            let m = list.len();
            proof {
                assert(list@ == self@.epics[i as int].1.stories);
            }
            let mut j: usize = 0;
            while j < m
                invariant
                    0 <= j <= m,
                    forall|b2: int|
                        0 <= b2 < j ==> has_key(
                            self@.stories,
                            #[trigger] self@.epics[i as int].1.stories[b2],
                        ),
                decreases m - j,
            {
                if !self.stories.contains_key(&list[j]) {
                    proof {
                        assert(!has_key(
                            self@.stories,
                            self@.epics[i as int].1.stories[j as int],
                        ));
                    }
                    return false;
                }
                proof {
                    assert(list@[j as int] == self@.epics[i as int].1.stories[j as int]);
                }
                j += 1;
            }
            i += 1;
        }
        // Unique ownership: no story id occurs at two positions.  Ids seen so
        // far are collected; the ghost `owner` remembers where each came from.
        let mut claimed: Vec<DbIndex> = Vec::new();
        let ghost mut owner: Seq<(int, int)> = Seq::empty();
        let mut i: usize = 0;
        while i < ne
            invariant
                0 <= i <= ne,
                claimed@.len() == owner.len(),
                forall|t: int|
                    0 <= t < owner.len() ==> {
                        &&& 0 <= (#[trigger] owner[t]).0 < self@.epics.len()
                        &&& 0 <= owner[t].1 < self@.epics[owner[t].0].1.stories.len()
                        &&& before(owner[t].0, owner[t].1, i as int, 0)
                        &&& claimed@[t] == self@.epics[owner[t].0].1.stories[owner[t].1]
                    },
                forall|a: int, b2: int|
                    0 <= a < i && 0 <= b2 < self@.epics[a].1.stories.len() ==> claimed@.contains(
                        #[trigger] self@.epics[a].1.stories[b2],
                    ),
                forall|a1: int, b1: int, a2: int, b2: int|
                    #![trigger self@.epics[a1].1.stories[b1], self@.epics[a2].1.stories[b2]]
                    0 <= a1 < i && 0 <= b1 < self@.epics[a1].1.stories.len() && 0 <= a2 < i && 0
                        <= b2 < self@.epics[a2].1.stories.len() && (a1 != a2 || b1 != b2)
                        ==> self@.epics[a1].1.stories[b1] != self@.epics[a2].1.stories[b2],
            decreases ne - i,
        {
            let list = &self.epics.entries[i].1.stories;
            let m = list.len();
            proof {
                assert(list@ == self@.epics[i as int].1.stories);
            }
            let mut j: usize = 0;
            while j < m
                invariant
                    0 <= j <= m,
                    claimed@.len() == owner.len(),
                    forall|t: int|
                        0 <= t < owner.len() ==> {
                            &&& 0 <= (#[trigger] owner[t]).0 < self@.epics.len()
                            &&& 0 <= owner[t].1 < self@.epics[owner[t].0].1.stories.len()
                            &&& before(owner[t].0, owner[t].1, i as int, j as int)
                            &&& claimed@[t] == self@.epics[owner[t].0].1.stories[owner[t].1]
                        },
                    forall|a: int, b2: int|
                        before(a, b2, i as int, j as int) && 0 <= a < self@.epics.len() && 0 <= b2
                            < self@.epics[a].1.stories.len() ==> claimed@.contains(
                            #[trigger] self@.epics[a].1.stories[b2],
                        ),
                    forall|a1: int, b1: int, a2: int, b2: int|
                        #![trigger self@.epics[a1].1.stories[b1], self@.epics[a2].1.stories[b2]]
                        before(a1, b1, i as int, j as int) && 0 <= a1 < self@.epics.len() && 0
                            <= b1 < self@.epics[a1].1.stories.len() && before(
                            a2,
                            b2,
                            i as int,
                            j as int,
                        ) && 0 <= a2 < self@.epics.len() && 0 <= b2
                            < self@.epics[a2].1.stories.len() && (a1 != a2 || b1 != b2)
                            ==> self@.epics[a1].1.stories[b1] != self@.epics[a2].1.stories[b2],
                decreases m - j,
            {
                let id = list[j];
                proof {
                    assert(id == self@.epics[i as int].1.stories[j as int]);
                }
                match find_id(&claimed, id) {
                    Some(t) => {
                        proof {
                            let a = owner[t as int].0;
                            let b2 = owner[t as int].1;
                            assert(claimed@[t as int] == id);
                            let ji: int = j as int;
                            assert(self@.epics[a].1.stories[b2] == self@.epics[i as int].1.stories[ji]);
                            assert(a != i as int || b2 != ji);
                            assert(!self@.refs_unique());
                        }
                        return false;
                    },
                    None => {},
                }
                let ghost prev = claimed@;
                claimed.push(id);
                proof {
                    owner = owner.push((i as int, j as int));
                    assert forall|a: int, b2: int|
                        before(a, b2, i as int, j as int + 1) && 0 <= a < self@.epics.len() && 0
                            <= b2 < self@.epics[a].1.stories.len() implies claimed@.contains(
                        #[trigger] self@.epics[a].1.stories[b2],
                    ) by {
                        let v = self@.epics[a].1.stories[b2];
                        if before(a, b2, i as int, j as int) {
                            let t = choose|t: int| 0 <= t < prev.len() && prev[t] == v;
                            assert(claimed@[t] == v);
                        } else {
                            assert(a == i as int && b2 == j as int);
                            assert(claimed@[prev.len() as int] == id);
                        }
                    }
                    assert forall|a1: int, b1: int, a2: int, b2: int|
                        #![trigger self@.epics[a1].1.stories[b1], self@.epics[a2].1.stories[b2]]
                        before(a1, b1, i as int, j as int + 1) && 0 <= a1 < self@.epics.len() && 0
                            <= b1 < self@.epics[a1].1.stories.len() && before(
                        a2,
                        b2,
                        i as int,
                        j as int + 1,
                    ) && 0 <= a2 < self@.epics.len() && 0 <= b2 < self@.epics[a2].1.stories.len()
                        && (a1 != a2 || b1 != b2) implies self@.epics[a1].1.stories[b1]
                        != self@.epics[a2].1.stories[b2] by {
                        if before(a1, b1, i as int, j as int) && !before(
                            a2,
                            b2,
                            i as int,
                            j as int,
                        ) {
                            assert(prev.contains(self@.epics[a1].1.stories[b1]));
                            assert(!prev.contains(id));
                        } else if !before(a1, b1, i as int, j as int) && before(
                            a2,
                            b2,
                            i as int,
                            j as int,
                        ) {
                            assert(prev.contains(self@.epics[a2].1.stories[b2]));
                            assert(!prev.contains(id));
                        }
                    }
                }
                j += 1;
            }
            i += 1;
        }
        proof {
            assert(self@.refs_unique());
            assert(self@.wf());
        }
        true
    }
}

} // verus!
