use jira_db::db::{DbError, JiraDatabase, MockDB};
use jira_db::models::{DBState, Epic, Status, Story};

#[test]
fn create_epic_should_work() {
    let mut db = JiraDatabase::new(MockDB::new());
    let epic = Epic::new("".to_owned(), "".to_owned());

    let result = db.create_epic(epic.clone());

    assert_eq!(result.is_ok(), true);

    let id = result.unwrap();
    let db_state = db.read_db().unwrap();

    let expected_id = 1;

    assert_eq!(id, expected_id);
    assert_eq!(db_state.last_item_id, expected_id);
    assert_eq!(db_state.epics.get(&id), Some(&epic));
}

#[test]
fn create_story_should_error_if_invalid_epic_id() {
    let mut db = JiraDatabase::new(MockDB::new());
    let story = Story::new("".to_owned(), "".to_owned());

    let non_existent_epic_id = 999;

    let result = db.create_story(story, non_existent_epic_id);
    assert_eq!(result.is_err(), true);
}

#[test]
fn create_story_should_work() {
    let mut db = JiraDatabase::new(MockDB::new());
    let epic = Epic::new("".to_owned(), "".to_owned());
    let story = Story::new("".to_owned(), "".to_owned());

    let result = db.create_epic(epic);
    assert_eq!(result.is_ok(), true);

    let epic_id = result.unwrap();

    let result = db.create_story(story.clone(), epic_id);
    assert_eq!(result.is_ok(), true);

    let id = result.unwrap();
    let db_state = db.read_db().unwrap();

    let expected_id = 2;

    assert_eq!(id, expected_id);
    assert_eq!(db_state.last_item_id, expected_id);
    assert_eq!(
        db_state.epics.get(&epic_id).unwrap().stories.contains(&id),
        true
    );
    assert_eq!(db_state.stories.get(&id), Some(&story));
}

#[test]
fn delete_epic_should_error_if_invalid_epic_id() {
    let mut db = JiraDatabase::new(MockDB::new());

    let non_existent_epic_id = 999;

    let result = db.delete_epic(non_existent_epic_id);
    assert_eq!(result.is_err(), true);
}

#[test]
fn delete_epic_should_work() {
    let mut db = JiraDatabase::new(MockDB::new());
    let epic = Epic::new("".to_owned(), "".to_owned());
    let story = Story::new("".to_owned(), "".to_owned());

    let result = db.create_epic(epic);
    assert_eq!(result.is_ok(), true);

    let epic_id = result.unwrap();

    let result = db.create_story(story, epic_id);
    assert_eq!(result.is_ok(), true);

    let story_id = result.unwrap();

    let result = db.delete_epic(epic_id);
    assert_eq!(result.is_ok(), true);

    let db_state = db.read_db().unwrap();

    let expected_last_id = 2;

    assert_eq!(db_state.last_item_id, expected_last_id);
    assert_eq!(db_state.epics.get(&epic_id), None);
    assert_eq!(db_state.stories.get(&story_id), None);
}

#[test]
fn delete_story_should_error_if_invalid_epic_id() {
    let mut db = JiraDatabase::new(MockDB::new());
    let epic = Epic::new("".to_owned(), "".to_owned());
    let story = Story::new("".to_owned(), "".to_owned());

    let result = db.create_epic(epic);
    assert_eq!(result.is_ok(), true);

    let epic_id = result.unwrap();

    let result = db.create_story(story, epic_id);
    assert_eq!(result.is_ok(), true);

    let story_id = result.unwrap();

    let non_existent_epic_id = 999;

    let result = db.delete_story(non_existent_epic_id, story_id);
    assert_eq!(result.is_err(), true);
}

#[test]
fn delete_story_should_error_if_story_not_found_in_epic() {
    let mut db = JiraDatabase::new(MockDB::new());
    let epic = Epic::new("".to_owned(), "".to_owned());
    let story = Story::new("".to_owned(), "".to_owned());

    let result = db.create_epic(epic);
    assert_eq!(result.is_ok(), true);

    let epic_id = result.unwrap();

    let result = db.create_story(story, epic_id);
    assert_eq!(result.is_ok(), true);

    let non_existent_story_id = 999;

    let result = db.delete_story(epic_id, non_existent_story_id);
    assert_eq!(result.is_err(), true);
}

#[test]
fn delete_story_should_work() {
    let mut db = JiraDatabase::new(MockDB::new());
    let epic = Epic::new("".to_owned(), "".to_owned());
    let story = Story::new("".to_owned(), "".to_owned());

    let result = db.create_epic(epic);
    assert_eq!(result.is_ok(), true);

    let epic_id = result.unwrap();

    let result = db.create_story(story, epic_id);
    assert_eq!(result.is_ok(), true);

    let story_id = result.unwrap();

    let result = db.delete_story(epic_id, story_id);
    assert_eq!(result.is_ok(), true);

    let db_state = db.read_db().unwrap();

    let expected_last_id = 2;

    assert_eq!(db_state.last_item_id, expected_last_id);
    assert_eq!(
        db_state
            .epics
            .get(&epic_id)
            .unwrap()
            .stories
            .contains(&story_id),
        false
    );
    assert_eq!(db_state.stories.get(&story_id), None);
}

#[test]
fn update_epic_status_should_error_if_invalid_epic_id() {
    let mut db = JiraDatabase::new(MockDB::new());

    let non_existent_epic_id = 999;

    let result = db.update_epic_status(non_existent_epic_id, Status::Closed);
    assert_eq!(result.is_err(), true);
}

#[test]
fn update_epic_status_should_work() {
    let mut db = JiraDatabase::new(MockDB::new());
    let epic = Epic::new("".to_owned(), "".to_owned());

    let result = db.create_epic(epic);

    assert_eq!(result.is_ok(), true);

    let epic_id = result.unwrap();

    let result = db.update_epic_status(epic_id, Status::Closed);

    assert_eq!(result.is_ok(), true);

    let db_state = db.read_db().unwrap();

    assert_eq!(db_state.epics.get(&epic_id).unwrap().status, Status::Closed);
}

#[test]
fn update_story_status_should_error_if_invalid_story_id() {
    let mut db = JiraDatabase::new(MockDB::new());

    let non_existent_story_id = 999;

    let result = db.update_story_status(non_existent_story_id, Status::Closed);
    assert_eq!(result.is_err(), true);
}

#[test]
fn update_story_status_should_work() {
    let mut db = JiraDatabase::new(MockDB::new());
    let epic = Epic::new("".to_owned(), "".to_owned());
    let story = Story::new("".to_owned(), "".to_owned());

    let result = db.create_epic(epic);

    let epic_id = result.unwrap();

    let result = db.create_story(story, epic_id);

    let story_id = result.unwrap();

    let result = db.update_story_status(story_id, Status::Closed);

    assert_eq!(result.is_ok(), true);

    let db_state = db.read_db().unwrap();

    assert_eq!(
        db_state.stories.get(&story_id).unwrap().status,
        Status::Closed
    );
}

#[test]
fn scenario_create_epic_then_story_under_it() {
    let mut db = JiraDatabase::new(MockDB::new());
    let epic = Epic::new("e".to_owned(), "e".to_owned());
    assert_eq!(epic.status, Status::Open);
    assert_eq!(epic.stories, Vec::<u16>::new());

    let epic_id = db.create_epic(epic).unwrap();
    assert_eq!(epic_id, 1);

    let story = Story::new("s".to_owned(), "s".to_owned());
    let story_id = db.create_story(story, epic_id).unwrap();
    assert_eq!(story_id, 2);

    let db_state = db.read_db().unwrap();
    assert_eq!(db_state.epics.get(&1).unwrap().stories, vec![2]);
    assert_eq!(db_state.stories.get(&2).unwrap().status, Status::Open);
}

#[test]
fn scenario_rejected_create_story_keeps_counter() {
    let mut db = JiraDatabase::new(MockDB::new());
    let story = Story::new("s".to_owned(), "s".to_owned());

    let result = db.create_story(story, 999);
    assert_eq!(result, Err(DbError::NotFound));

    let db_state = db.read_db().unwrap();
    assert_eq!(db_state.last_item_id, 0);
}

#[test]
fn scenario_delete_story_empties_epic_list() {
    let mut db = JiraDatabase::new(MockDB::new());
    let epic_id = db
        .create_epic(Epic::new("e".to_owned(), "e".to_owned()))
        .unwrap();
    let story_id = db
        .create_story(Story::new("s".to_owned(), "s".to_owned()), epic_id)
        .unwrap();

    db.delete_story(epic_id, story_id).unwrap();

    let db_state = db.read_db().unwrap();
    assert_eq!(db_state.stories.get(&story_id), None);
    assert_eq!(db_state.epics.get(&epic_id).unwrap().stories, Vec::<u16>::new());
}

#[test]
fn scenario_update_missing_story_is_not_found() {
    let mut db = JiraDatabase::new(MockDB::new());
    let epic_id = db
        .create_epic(Epic::new("e".to_owned(), "e".to_owned()))
        .unwrap();
    let story_id = db
        .create_story(Story::new("s".to_owned(), "s".to_owned()), epic_id)
        .unwrap();

    db.update_story_status(story_id, Status::Closed).unwrap();
    let db_state = db.read_db().unwrap();
    assert_eq!(
        db_state.stories.get(&story_id).unwrap().status,
        Status::Closed
    );

    assert_eq!(db.update_story_status(999, Status::Closed), Err(DbError::NotFound));
}

#[test]
fn state_level_steps_work_in_memory() {
    let mut state = DBState::new();
    let id1 = state.create_epic(Epic::new("e".to_owned(), "".to_owned()));
    assert_eq!(id1, 1);
    let id2 = state
        .create_story(Story::new("s".to_owned(), "".to_owned()), 1)
        .unwrap();
    assert_eq!(id2, 2);
    assert_eq!(
        state.create_story(Story::new("t".to_owned(), "".to_owned()), 999),
        Err(DbError::NotFound)
    );
    assert_eq!(state.last_item_id, 2);
    state.update_story_status(2, Status::Closed).unwrap();
    assert_eq!(state.stories.get(&2).unwrap().status, Status::Closed);
    assert_eq!(state.update_epic_status(999, Status::Closed), Err(DbError::NotFound));
    state.delete_epic(1).unwrap();
    assert!(state.epics.get(&1).is_none());
    assert!(state.stories.get(&2).is_none());
    assert_eq!(state.last_item_id, 2);
    assert!(state.is_well_formed());
}
