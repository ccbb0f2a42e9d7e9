use jira_db::codec::{decode_state, encode_state};
use jira_db::db::{DbError, JiraDatabase, MockDB};
use jira_db::models::{DBState, Epic, Status, Story};
use jira_db::table::Table;

#[test]
fn round_trip_empty_state() {
    let state = DBState::new();
    let bytes = encode_state(&state);
    let decoded = decode_state(&bytes).unwrap();
    assert_eq!(decoded, state);
    assert_eq!(decoded.last_item_id, 0);
}

#[test]
fn round_trip_populated_state() {
    let mut db = JiraDatabase::new(MockDB::new());
    let epic_id = db
        .create_epic(Epic::new("épic one".to_owned(), "first".to_owned()))
        .unwrap();
    db.create_story(Story::new("story α".to_owned(), "a".to_owned()), epic_id)
        .unwrap();
    db.create_story(Story::new("story β".to_owned(), "b".to_owned()), epic_id)
        .unwrap();
    let second_epic = db
        .create_epic(Epic::new("second".to_owned(), "".to_owned()))
        .unwrap();
    db.create_story(Story::new("tail".to_owned(), "t".to_owned()), second_epic)
        .unwrap();
    db.update_story_status(3, Status::Resolved).unwrap();

    let state = db.read_db().unwrap();
    let bytes = encode_state(&state);
    let decoded = decode_state(&bytes).unwrap();
    assert_eq!(decoded, state);
    assert_eq!(decoded.epics.get(&1).unwrap().name, "épic one");
    assert_eq!(decoded.stories.get(&3).unwrap().status, Status::Resolved);
}

#[test]
fn decode_rejects_garbage() {
    let bytes = vec![7u8, 3, 255, 1];
    assert_eq!(decode_state(&bytes), Err(DbError::Corrupt));
}

#[test]
fn decode_rejects_empty_input() {
    let bytes: Vec<u8> = Vec::new();
    assert_eq!(decode_state(&bytes), Err(DbError::Corrupt));
}

#[test]
fn decode_rejects_trailing_bytes() {
    let mut bytes = encode_state(&DBState::new());
    bytes.push(0);
    assert_eq!(decode_state(&bytes), Err(DbError::Corrupt));
}

#[test]
fn decode_rejects_dangling_story_reference() {
    // An epic listing story 7 while the stories map is empty is not a valid
    // state, even though it encodes fine.
    let epic = Epic {
        name: "e".to_owned(),
        description: "".to_owned(),
        status: Status::Open,
        stories: vec![7],
    };
    let state = DBState {
        last_item_id: 7,
        epics: Table::from_entries(vec![(1, epic)]),
        stories: Table::from_entries(Vec::new()),
    };
    assert!(!state.is_well_formed());
    let bytes = encode_state(&state);
    assert_eq!(decode_state(&bytes), Err(DbError::Corrupt));
}

#[test]
fn decode_rejects_duplicate_keys() {
    let story = |n: &str| Story::new(n.to_owned(), "".to_owned());
    let state = DBState {
        last_item_id: 1,
        epics: Table::from_entries(Vec::new()),
        stories: Table::from_entries(vec![(1, story("a")), (1, story("b"))]),
    };
    assert!(!state.is_well_formed());
    let bytes = encode_state(&state);
    assert_eq!(decode_state(&bytes), Err(DbError::Corrupt));
}

#[test]
fn decode_rejects_bad_status_tag() {
    // One epic with no stories, then its status byte patched to an unknown
    // tag.
    let mut db = JiraDatabase::new(MockDB::new());
    db.create_epic(Epic::new("e".to_owned(), "".to_owned()))
        .unwrap();
    let state = db.read_db().unwrap();
    let mut bytes = encode_state(&state);
    // layout: counter (2) + epic count (8) + key (2) + name len (8) + "e" (1)
    // + description len (8) + status (1)
    let status_at = 2 + 8 + 2 + 8 + 1 + 8;
    assert_eq!(bytes[status_at], 0);
    bytes[status_at] = 9;
    assert_eq!(decode_state(&bytes), Err(DbError::Corrupt));
}

#[test]
fn well_formed_state_passes_check() {
    let mut db = JiraDatabase::new(MockDB::new());
    let epic_id = db
        .create_epic(Epic::new("e".to_owned(), "".to_owned()))
        .unwrap();
    db.create_story(Story::new("s".to_owned(), "".to_owned()), epic_id)
        .unwrap();
    let state = db.read_db().unwrap();
    assert!(state.is_well_formed());
}
