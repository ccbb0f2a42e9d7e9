//! Storage port and database façade.
//!
//! Every façade operation runs one `load -> validate/mutate in memory -> save`
//! cycle against the storage port.  A validation failure aborts before any
//! save, and a failed save leaves the persisted state unchanged, so a caller
//! that sees an error knows the persisted state is exactly what it was before
//! the call.

use vstd::prelude::*;
use crate::models::{
    DBState, DbIndex, Epic, EpicView, StateView, Status, Story, copy_ids, find_id, id_index,
    seq_remove_keys,
    lemma_fresh_key, lemma_seq_remove_keys_push, lemma_wf_create_epic, lemma_wf_create_story, lemma_wf_epic_status,
    lemma_wf_story_removed, lemma_wf_story_status,
};
use crate::table::{
    has_key, key_index, lemma_key_index_of, lemma_keys_unique_remove,
    lemma_to_map_contains, lemma_to_map_index,
};

verus! {

/// Error kinds surfaced by the storage port and the database façade.
#[derive(Clone, Copy, Debug, PartialEq, Eq, Structural)]
pub enum DbError {
    /// The backing store could not be read.
    StorageUnavailable,
    /// The backing store was read but could not be decoded into a valid state.
    Corrupt,
    /// A referenced epic or story id does not exist, or a story id is not
    /// associated with the given epic.
    NotFound,
    /// The mutated state could not be persisted.
    StorageWriteFailed,
}

/// Storage port: the load/save pair the façade drives.  `persisted` is the
/// abstract content of the backing store; a successful load returns exactly
/// that state, and a save replaces it atomically — on error nothing changed.
pub trait Database {
    /// Abstract content of the backing store.  The default stands only so
    /// that ports outside the verifier need not provide this ghost member;
    /// every port verified code reasons about overrides it.
    open spec fn persisted(&self) -> StateView {
        StateView::empty()
    }

    fn read_db(&self) -> (r: Result<DBState, DbError>)
        ensures
            r matches Ok(s) ==> s@ == self.persisted() && s@.wf(),
            r matches Err(e) ==> e == DbError::StorageUnavailable || e == DbError::Corrupt,
    ;

    fn write_db(&mut self, db_state: &DBState) -> (r: Result<(), DbError>)
        requires
            db_state@.wf(),
        ensures
            r is Ok ==> final (self).persisted() == db_state@,
            r is Err ==> final (self).persisted() == old(self).persisted() && r == Err::<
                (),
                DbError,
            >(DbError::StorageWriteFailed),
    ;
}

/// In-memory storage port: keeps the last written state and never fails.
pub struct MockDB {
    last_written_state: DBState,
}

impl MockDB {
    #[verifier::type_invariant]
    spec fn inv(self) -> bool {
        self.last_written_state@.wf()
    }

    pub fn new() -> (r: MockDB)
        ensures
            r.persisted() == StateView::empty(),
    {
        MockDB { last_written_state: DBState::new() }
    }
}

impl Database for MockDB {
    closed spec fn persisted(&self) -> StateView {
        self.last_written_state@
    }

    fn read_db(&self) -> (r: Result<DBState, DbError>)
        ensures
            r is Ok,
    {
        proof {
            use_type_invariant(self);
        }
        Ok(self.last_written_state.duplicate())
    }

    fn write_db(&mut self, db_state: &DBState) -> (r: Result<(), DbError>)
        ensures
            r is Ok,
    {
        *self = MockDB { last_written_state: db_state.duplicate() };
        Ok(())
    }
}

/// In-memory steps of the façade operations.  Each one validates and
/// mutates a loaded state with an exact contract — success and the
/// `NotFound` kind are owed if and only if the stated conditions hold — so
/// that what a façade call returns is pinned one call down, beneath the
/// storage port's own failures.
impl DBState {
    /// Epic creation: bumps the counter and appends the epic under the
    /// fresh id.  Succeeds unconditionally.
    pub fn create_epic(&mut self, epic: Epic) -> (id: DbIndex)
        requires
            old(self)@.wf(),
            old(self)@.last_item_id < DbIndex::MAX,
            old(self)@.epic_addable(epic@),
        ensures
            id == old(self)@.next_id(),
            final (self)@ == old(self)@.with_created_epic(epic@),
            final (self)@.wf(),
    {
        let id = self.last_item_id + 1;
        self.last_item_id = id;
        proof {
            lemma_fresh_key(old(self)@, id);
        }
        self.epics.insert(id, epic);
        proof {
            lemma_wf_create_epic(old(self)@, epic@);
            assert(self@ =~= old(self)@.with_created_epic(epic@));
        }
        id
    }

    /// Story creation: succeeds exactly when the epic exists; the existence
    /// check happens before the counter moves, so a rejected call leaves the
    /// state — counter included — untouched, with exactly `NotFound`.
    pub fn create_story(&mut self, story: Story, epic_id: DbIndex) -> (r: Result<
        DbIndex,
        DbError,
    >)
        requires
            old(self)@.wf(),
            old(self)@.last_item_id < DbIndex::MAX,
        ensures
            r is Ok <==> old(self)@.epics_map().contains_key(epic_id),
            r matches Ok(id) ==> id == old(self)@.next_id() && final (self)@ == old(
                self,
            )@.with_created_story(story@, epic_id) && final (self)@.wf(),
            r is Err ==> final (self)@ == old(self)@ && r == Err::<DbIndex, DbError>(
                DbError::NotFound,
            ),
    {
        let ghost s0 = self@;
        proof {
            lemma_to_map_contains(s0.epics, epic_id);
        }
        let new_epic_opt = match self.epics.get(&epic_id) {
            None => None,
            Some(e) => {
                proof {
                    let i0 = key_index(s0.epics, epic_id);
                    assert(0 <= i0 < s0.epics.len() && s0.epics[i0].0 == epic_id);
                    lemma_to_map_index(s0.epics, i0);
                }
                let mut ids = copy_ids(&e.stories);
                ids.push(self.last_item_id + 1);
                Some(
                    Epic {
                        name: e.name.clone(),
                        description: e.description.clone(),
                        status: e.status,
                        stories: ids,
                    },
                )
            },
        };
        let new_epic = match new_epic_opt {
            None => {
                return Err(DbError::NotFound);
            },
            Some(x) => x,
        };
        let id = self.last_item_id + 1;
        self.last_item_id = id;
        proof {
            lemma_fresh_key(s0, id);
        }
        self.stories.insert(id, story);
        self.epics.set_value(&epic_id, new_epic);
        proof {
            lemma_wf_create_story(s0, story@, epic_id);
            assert(self@ =~~= s0.with_created_story(story@, epic_id));
        }
        Ok(id)
    }

    /// Validated story removal, shared by `delete_story` and the cascade in
    /// `delete_epic`: succeeds exactly when the epic exists, the story
    /// exists, and the epic actually lists the story; then the story leaves
    /// the stories map and its id leaves the epic's list.
    pub fn remove_story(&mut self, epic_id: DbIndex, story_id: DbIndex) -> (r: Result<
        (),
        DbError,
    >)
        requires
            old(self)@.wf(),
        ensures
            r is Ok <==> (old(self)@.epics_map().contains_key(epic_id)
                && old(self)@.stories_map().contains_key(story_id)
                && old(self)@.epics_map()[epic_id].stories.contains(story_id)),
            r is Ok ==> final (self)@ == old(self)@.with_story_removed(epic_id, story_id)
                && final (self)@.wf(),
            r is Err ==> final (self)@ == old(self)@ && r == Err::<(), DbError>(
                DbError::NotFound,
            ),
    {
        let ghost s0 = self@;
        let ghost mut gidx: int = 0;
        proof {
            lemma_to_map_contains(s0.epics, epic_id);
            lemma_to_map_contains(s0.stories, story_id);
        }
        let new_epic_opt = match self.epics.get(&epic_id) {
            None => None,
            Some(e) => {
                proof {
                    let i0 = key_index(s0.epics, epic_id);
                    assert(0 <= i0 < s0.epics.len() && s0.epics[i0].0 == epic_id);
                    lemma_to_map_index(s0.epics, i0);
                }
                match find_id(&e.stories, story_id) {
                    None => None,
                    Some(i) => {
                        proof {
                            gidx = i as int;
                        }
                        let mut ids = copy_ids(&e.stories);
                        ids.remove(i);
                        Some(
                            Epic {
                                name: e.name.clone(),
                                description: e.description.clone(),
                                status: e.status,
                                stories: ids,
                            },
                        )
                    },
                }
            },
        };
        let new_epic = match new_epic_opt {
            None => {
                return Err(DbError::NotFound);
            },
            Some(x) => x,
        };
        let removed = self.stories.remove(&story_id);
        if removed.is_none() {
            return Err(DbError::NotFound);
        }
        proof {
            let i0 = key_index(s0.epics, epic_id);
            lemma_to_map_index(s0.epics, i0);
        }
        self.epics.set_value(&epic_id, new_epic);
        proof {
            let i0 = key_index(s0.epics, epic_id);
            let e0 = s0.epics[i0].1;
            let j0 = id_index(e0.stories, story_id);
            assert(0 <= j0 < e0.stories.len() && e0.stories[j0] == story_id) by {
                assert(e0.stories[gidx] == story_id);
            }
            // The story occurs only once in the list, so the found index is
            // the one the transition names.
            assert(s0.epics[i0].1.stories[gidx] == s0.epics[i0].1.stories[j0]);
            assert(gidx == j0);
            assert(new_epic@.stories == e0.stories.remove(j0));
            lemma_wf_story_removed(s0, epic_id, story_id);
            assert(self@ =~~= s0.with_story_removed(epic_id, story_id));
        }
        Ok(())
    }

    /// Epic deletion: succeeds exactly when the epic exists.  The cascade
    /// reuses the validated story removal per referenced id, iterating over a
    /// snapshot of the epic's list taken before mutation, then drops the
    /// epic entry; the counter is never decremented.
    pub fn delete_epic(&mut self, epic_id: DbIndex) -> (r: Result<(), DbError>)
        requires
            old(self)@.wf(),
        ensures
            r is Ok <==> old(self)@.epics_map().contains_key(epic_id),
            r is Ok ==> final (self)@ == old(self)@.with_epic_deleted(epic_id) && final (
            self)@.wf(),
            r is Err ==> final (self)@ == old(self)@ && r == Err::<(), DbError>(
                DbError::NotFound,
            ),
    {
        let ghost s0 = self@;
        proof {
            lemma_to_map_contains(s0.epics, epic_id);
        }
        let snapshot = match self.epics.get(&epic_id) {
            None => {
                return Err(DbError::NotFound);
            },
            Some(e) => copy_ids(&e.stories),
        };
        let ghost i0 = key_index(s0.epics, epic_id);
        let ghost e0 = s0.epics[i0].1;
        proof {
            assert(0 <= i0 < s0.epics.len() && s0.epics[i0].0 == epic_id);
            lemma_to_map_index(s0.epics, i0);
            assert(snapshot@ == e0.stories);
            assert(s0.epics.update(i0, (epic_id, EpicView { stories: snapshot@.skip(0), ..e0 }))
                =~~= s0.epics);
            assert(snapshot@.take(0) =~= Seq::<DbIndex>::empty());
        }
        let n = snapshot.len();
        let mut k: usize = 0;
        while k < n
            invariant
                n == snapshot@.len(),
                0 <= k <= n,
                s0.wf(),
                has_key(s0.epics, epic_id),
                i0 == key_index(s0.epics, epic_id),
                0 <= i0 < s0.epics.len(),
                s0.epics[i0].0 == epic_id,
                e0 == s0.epics[i0].1,
                snapshot@ == e0.stories,
                self@.wf(),
                self@.last_item_id == s0.last_item_id,
                self@.epics == s0.epics.update(
                    i0,
                    (epic_id, EpicView { stories: snapshot@.skip(k as int), ..e0 }),
                ),
                self@.stories == seq_remove_keys(s0.stories, snapshot@.take(k as int)),
            decreases n - k,
        {
            let sid = snapshot[k];
            let ghost cur = self@;
            proof {
                // The epic is still present, still at the same position.
                assert(cur.epics[i0].0 == epic_id);
                lemma_key_index_of(cur.epics, i0);
                assert(key_index(cur.epics, epic_id) == i0);
                lemma_to_map_contains(cur.epics, epic_id);
                lemma_to_map_index(cur.epics, i0);
                // The next snapshot id heads the epic's remaining list.
                assert(cur.epics[i0].1.stories == snapshot@.skip(k as int));
                assert(cur.epics[i0].1.stories[0] == snapshot@[k as int]);
                // So the story exists and is listed.
                assert(has_key(cur.stories, sid));
                lemma_to_map_contains(cur.stories, sid);
                assert(cur.epics_map()[epic_id].stories.contains(sid));
            }
            match self.remove_story(epic_id, sid) {
                Ok(u) => {},
                Err(e) => {
                    proof {
                        assert(false);
                    }
                    return Err(e);
                },
            }
            proof {
                let s2 = cur.with_story_removed(epic_id, sid);
                let j0 = id_index(cur.epics[i0].1.stories, sid);
                // The id occurs only at the head of the remaining list.
                assert(0 <= j0 < cur.epics[i0].1.stories.len() && cur.epics[i0].1.stories[j0]
                    == sid) by {
                    assert(cur.epics[i0].1.stories[0] == sid);
                }
                assert(cur.epics[i0].1.stories[j0] == cur.epics[i0].1.stories[0]);
                assert(j0 == 0);
                assert(cur.epics[i0].1.stories.remove(0) =~= snapshot@.skip(k as int + 1));
                assert(s2.epics =~~= s0.epics.update(
                    i0,
                    (epic_id, EpicView { stories: snapshot@.skip(k as int + 1), ..e0 }),
                ));
                // Removal from the stories map extends the cascade by one id.
                lemma_seq_remove_keys_push(s0.stories, snapshot@.take(k as int), sid);
                assert(snapshot@.take(k as int).push(sid) =~= snapshot@.take(k as int + 1));
                assert(s2.stories == seq_remove_keys(s0.stories, snapshot@.take(k as int + 1)));
            }
            k += 1;
        }
        let ghost cur = self@;
        proof {
            assert(cur.epics[i0].0 == epic_id);
            lemma_key_index_of(cur.epics, i0);
        }
        let removed_epic = self.epics.remove(&epic_id);
        proof {
            assert(removed_epic is Some);
            // Dropping an epic whose list is empty preserves every clause of
            // well-formedness.
            let fin = self@;
            assert(fin.epics == cur.epics.remove(i0));
            lemma_keys_unique_remove(cur.epics, i0);
            assert forall|a: int, b: int|
                #![trigger fin.epics[a].1.stories[b]]
                0 <= a < fin.epics.len() && 0 <= b < fin.epics[a].1.stories.len() implies {
                let oa = if a < i0 { a } else { a + 1 };
                0 <= oa < cur.epics.len() && oa != i0 && fin.epics[a].1.stories[b]
                    == cur.epics[oa].1.stories[b]
            } by {
                let oa = if a < i0 { a } else { a + 1 };
                assert(fin.epics[a] == cur.epics[oa]);
                assert(cur.epics[i0].1.stories.len() == 0);
            }
            assert forall|a: int, b: int|
                0 <= a < fin.epics.len() && 0 <= b < fin.epics[a].1.stories.len() implies has_key(
                fin.stories,
                fin.epics[a].1.stories[b],
            ) by {
                let oa = if a < i0 { a } else { a + 1 };
                assert(fin.epics[a].1.stories[b] == cur.epics[oa].1.stories[b]);
                assert(has_key(cur.stories, cur.epics[oa].1.stories[b]));
            }
            assert forall|a1: int, b1: int, a2: int, b2: int|
                0 <= a1 < fin.epics.len() && 0 <= b1 < fin.epics[a1].1.stories.len() && 0 <= a2
                    < fin.epics.len() && 0 <= b2 < fin.epics[a2].1.stories.len() && (a1 != a2 || b1
                    != b2) implies fin.epics[a1].1.stories[b1] != fin.epics[a2].1.stories[b2] by {
                let oa1 = if a1 < i0 { a1 } else { a1 + 1 };
                let oa2 = if a2 < i0 { a2 } else { a2 + 1 };
                assert(fin.epics[a1].1.stories[b1] == cur.epics[oa1].1.stories[b1]);
                assert(fin.epics[a2].1.stories[b2] == cur.epics[oa2].1.stories[b2]);
            }
            assert forall|a: int| 0 <= a < fin.epics.len() implies (#[trigger] fin.epics[a]).0
                <= fin.last_item_id by {
                let oa = if a < i0 { a } else { a + 1 };
                assert(fin.epics[a] == cur.epics[oa]);
                assert(cur.epics[oa].0 <= cur.last_item_id);
            }
            assert(fin.wf());
            assert(snapshot@.take(n as int) =~= snapshot@);
            assert(s0.epics.update(i0, (epic_id, EpicView { stories: snapshot@.skip(n as int), ..e0
            })).remove(i0) =~= s0.epics.remove(i0));
            assert(fin =~~= s0.with_epic_deleted(epic_id));
        }
        Ok(())
    }

    /// Epic status update: succeeds exactly when the epic exists; only the
    /// status field changes.
    pub fn update_epic_status(&mut self, epic_id: DbIndex, status: Status) -> (r: Result<
        (),
        DbError,
    >)
        requires
            old(self)@.wf(),
        ensures
            r is Ok <==> old(self)@.epics_map().contains_key(epic_id),
            r is Ok ==> final (self)@ == old(self)@.with_epic_status(epic_id, status) && final (
            self)@.wf(),
            r is Err ==> final (self)@ == old(self)@ && r == Err::<(), DbError>(
                DbError::NotFound,
            ),
    {
        let ghost s0 = self@;
        proof {
            lemma_to_map_contains(s0.epics, epic_id);
        }
        let new_epic = match self.epics.get(&epic_id) {
            None => {
                return Err(DbError::NotFound);
            },
            Some(e) => {
                proof {
                    let i0 = key_index(s0.epics, epic_id);
                    assert(0 <= i0 < s0.epics.len() && s0.epics[i0].0 == epic_id);
                    lemma_to_map_index(s0.epics, i0);
                }
                Epic {
                    name: e.name.clone(),
                    description: e.description.clone(),
                    status: status,
                    stories: copy_ids(&e.stories),
                }
            },
        };
        self.epics.set_value(&epic_id, new_epic);
        proof {
            lemma_wf_epic_status(s0, epic_id, status);
            assert(self@ =~~= s0.with_epic_status(epic_id, status));
        }
        Ok(())
    }

    /// Story status update: succeeds exactly when the story exists; story
    /// ids are globally unique, so no epic id is needed.
    pub fn update_story_status(&mut self, story_id: DbIndex, status: Status) -> (r: Result<
        (),
        DbError,
    >)
        requires
            old(self)@.wf(),
        ensures
            r is Ok <==> old(self)@.stories_map().contains_key(story_id),
            r is Ok ==> final (self)@ == old(self)@.with_story_status(story_id, status)
                && final (self)@.wf(),
            r is Err ==> final (self)@ == old(self)@ && r == Err::<(), DbError>(
                DbError::NotFound,
            ),
    {
        let ghost s0 = self@;
        proof {
            lemma_to_map_contains(s0.stories, story_id);
        }
        let new_story = match self.stories.get(&story_id) {
            None => {
                return Err(DbError::NotFound);
            },
            Some(s) => {
                proof {
                    let i0 = key_index(s0.stories, story_id);
                    assert(0 <= i0 < s0.stories.len() && s0.stories[i0].0 == story_id);
                    lemma_to_map_index(s0.stories, i0);
                }
                Story { name: s.name.clone(), description: s.description.clone(), status: status }
            },
        };
        self.stories.set_value(&story_id, new_story);
        proof {
            lemma_wf_story_status(s0, story_id, status);
            assert(self@ =~~= s0.with_story_status(story_id, status));
        }
        Ok(())
    }
}

/// Database façade: enforces the integrity rules over the epic/story
/// hierarchy and drives the storage port.  Each operation loads the state,
/// applies the corresponding `DBState` step — whose contract owes success or
/// `NotFound` exactly — and saves.  The façade itself cannot owe success,
/// because the port may fail either call; its contracts instead confine each
/// error kind: `StorageUnavailable`/`Corrupt` only from the load,
/// `NotFound` exactly when the in-memory step rejects, and
/// `StorageWriteFailed` only after validation has passed.
pub struct JiraDatabase<D: Database> {
    database: D,
}

impl<D: Database> View for JiraDatabase<D> {
    type V = StateView;

    closed spec fn view(&self) -> StateView {
        self.database.persisted()
    }
}

impl<D: Database> JiraDatabase<D> {
    pub fn new(database: D) -> (r: JiraDatabase<D>)
        ensures
            r@ == database.persisted(),
    {
        JiraDatabase { database }
    }

    /// Loads the full persisted state.
    pub fn read_db(&self) -> (r: Result<DBState, DbError>)
        ensures
            r matches Ok(s) ==> s@ == self@ && s@.wf(),
            r matches Err(e) ==> e == DbError::StorageUnavailable || e == DbError::Corrupt,
    {
        self.database.read_db()
    }

    /// Creates an epic under a fresh id and returns that id.  Succeeds
    /// whenever the storage port cooperates: `NotFound` is never returned,
    /// and `StorageWriteFailed` means the creation itself had gone through.
    pub fn create_epic(&mut self, epic: Epic) -> (r: Result<DbIndex, DbError>)
        requires
            old(self)@.last_item_id < DbIndex::MAX,
            old(self)@.epic_addable(epic@),
        ensures
            match r {
                Ok(id) => {
                    &&& old(self)@.wf()
                    &&& id == old(self)@.next_id()
                    &&& final (self)@ == old(self)@.with_created_epic(epic@)
                    &&& final (self)@.wf()
                },
                Err(e) => {
                    &&& final (self)@ == old(self)@
                    &&& e != DbError::NotFound
                    &&& (e == DbError::StorageWriteFailed ==> old(self)@.wf())
                },
            },
    {
        let mut state = match self.database.read_db() {
            Ok(s) => s,
            Err(e) => {
                return Err(e);
            },
        };
        let id = state.create_epic(epic);
        match self.database.write_db(&state) {
            Ok(u) => Ok(id),
            Err(e) => Err(e),
        }
    }

    /// Creates a story under the given epic and returns its fresh id, or
    /// `NotFound` exactly when the epic does not exist — checked before the
    /// counter moves, so a rejected call leaves the counter untouched.
    pub fn create_story(&mut self, story: Story, epic_id: DbIndex) -> (r: Result<
        DbIndex,
        DbError,
    >)
        requires
            old(self)@.last_item_id < DbIndex::MAX,
        ensures
            match r {
                Ok(id) => {
                    &&& old(self)@.wf()
                    &&& old(self)@.epics_map().contains_key(epic_id)
                    &&& id == old(self)@.next_id()
                    &&& final (self)@ == old(self)@.with_created_story(story@, epic_id)
                    &&& final (self)@.wf()
                },
                Err(e) => {
                    &&& final (self)@ == old(self)@
                    &&& (e == DbError::NotFound ==> old(self)@.wf() && !old(
                        self,
                    )@.epics_map().contains_key(epic_id))
                    &&& (e == DbError::StorageWriteFailed ==> old(self)@.wf() && old(
                        self,
                    )@.epics_map().contains_key(epic_id))
                },
            },
    {
        let mut state = match self.database.read_db() {
            Ok(s) => s,
            Err(e) => {
                return Err(e);
            },
        };
        let id = match state.create_story(story, epic_id) {
            Ok(id) => id,
            Err(e) => {
                return Err(e);
            },
        };
        match self.database.write_db(&state) {
            Ok(u) => Ok(id),
            Err(e) => Err(e),
        }
    }

    /// Deletes a story.  `NotFound` comes exactly when the story does not
    /// exist or the given epic does not list it; on success both the stories
    /// map entry and the epic's reference are removed.
    pub fn delete_story(&mut self, epic_id: DbIndex, story_id: DbIndex) -> (r: Result<
        (),
        DbError,
    >)
        ensures
            r is Ok ==> old(self)@.wf() && old(self)@.epics_map().contains_key(epic_id) && old(
                self,
            )@.stories_map().contains_key(story_id) && old(
                self,
            )@.epics_map()[epic_id].stories.contains(story_id) && final (self)@ == old(
                self,
            )@.with_story_removed(epic_id, story_id) && final (self)@.wf(),
            r is Err ==> final (self)@ == old(self)@,
            r == Err::<(), DbError>(DbError::NotFound) ==> old(self)@.wf() && !(old(
                self,
            )@.epics_map().contains_key(epic_id) && old(self)@.stories_map().contains_key(story_id)
                && old(self)@.epics_map()[epic_id].stories.contains(story_id)),
            r == Err::<(), DbError>(DbError::StorageWriteFailed) ==> old(self)@.wf() && old(
                self,
            )@.epics_map().contains_key(epic_id) && old(self)@.stories_map().contains_key(story_id)
                && old(self)@.epics_map()[epic_id].stories.contains(story_id),
    {
        let mut state = match self.database.read_db() {
            Ok(s) => s,
            Err(e) => {
                return Err(e);
            },
        };
        match state.remove_story(epic_id, story_id) {
            Ok(u) => {},
            Err(e) => {
                return Err(e);
            },
        }
        match self.database.write_db(&state) {
            Ok(u) => Ok(()),
            Err(e) => Err(e),
        }
    }

    /// Deletes an epic together with every story it lists.  `NotFound` comes
    /// exactly when the epic does not exist; the cascade and the epic
    /// removal happen in memory and are persisted by one save, so no partial
    /// cascade is ever written.
    pub fn delete_epic(&mut self, epic_id: DbIndex) -> (r: Result<(), DbError>)
        ensures
            r is Ok ==> old(self)@.wf() && old(self)@.epics_map().contains_key(epic_id) && final (
            self)@ == old(self)@.with_epic_deleted(epic_id) && final (self)@.wf(),
            r is Err ==> final (self)@ == old(self)@,
            r == Err::<(), DbError>(DbError::NotFound) ==> old(self)@.wf() && !old(
                self,
            )@.epics_map().contains_key(epic_id),
            r == Err::<(), DbError>(DbError::StorageWriteFailed) ==> old(self)@.wf() && old(
                self,
            )@.epics_map().contains_key(epic_id),
    {
        let mut state = match self.database.read_db() {
            Ok(s) => s,
            Err(e) => {
                return Err(e);
            },
        };
        match state.delete_epic(epic_id) {
            Ok(u) => {},
            Err(e) => {
                return Err(e);
            },
        }
        match self.database.write_db(&state) {
            Ok(u) => Ok(()),
            Err(e) => Err(e),
        }
    }

    /// Overwrites an epic's status; `NotFound` exactly when the epic is
    /// absent.
    pub fn update_epic_status(&mut self, epic_id: DbIndex, status: Status) -> (r: Result<
        (),
        DbError,
    >)
        ensures
            r is Ok ==> old(self)@.wf() && old(self)@.epics_map().contains_key(epic_id) && final (
            self)@ == old(self)@.with_epic_status(epic_id, status) && final (self)@.wf(),
            r is Err ==> final (self)@ == old(self)@,
            r == Err::<(), DbError>(DbError::NotFound) ==> old(self)@.wf() && !old(
                self,
            )@.epics_map().contains_key(epic_id),
            r == Err::<(), DbError>(DbError::StorageWriteFailed) ==> old(self)@.wf() && old(
                self,
            )@.epics_map().contains_key(epic_id),
    {
        let mut state = match self.database.read_db() {
            Ok(s) => s,
            Err(e) => {
                return Err(e);
            },
        };
        match state.update_epic_status(epic_id, status) {
            Ok(u) => {},
            Err(e) => {
                return Err(e);
            },
        }
        match self.database.write_db(&state) {
            Ok(u) => Ok(()),
            Err(e) => Err(e),
        }
    }

    /// Overwrites a story's status; `NotFound` exactly when the story is
    /// absent.  Story ids are globally unique, so no epic id is needed.
    pub fn update_story_status(&mut self, story_id: DbIndex, status: Status) -> (r: Result<
        (),
        DbError,
    >)
        ensures
            r is Ok ==> old(self)@.wf() && old(self)@.stories_map().contains_key(story_id)
                && final (self)@ == old(self)@.with_story_status(story_id, status) && final (
            self)@.wf(),
            r is Err ==> final (self)@ == old(self)@,
            r == Err::<(), DbError>(DbError::NotFound) ==> old(self)@.wf() && !old(
                self,
            )@.stories_map().contains_key(story_id),
            r == Err::<(), DbError>(DbError::StorageWriteFailed) ==> old(self)@.wf() && old(
                self,
            )@.stories_map().contains_key(story_id),
    {
        let mut state = match self.database.read_db() {
            Ok(s) => s,
            Err(e) => {
                return Err(e);
            },
        };
        match state.update_story_status(story_id, status) {
            Ok(u) => {},
            Err(e) => {
                return Err(e);
            },
        }
        match self.database.write_db(&state) {
            Ok(u) => Ok(()),
            Err(e) => Err(e),
        }
    }
}

} // verus!
