use ocr_index::database::{Data, StoreError};
use ocr_index::file::{File, FileIdentity, PersistedRow};
use ocr_index::search::SearchCandidate;
use ocr_index::timestamp::Timestamp;

fn identity(path: &str, name: &str) -> FileIdentity {
    FileIdentity { path: path.to_string(), name: name.to_string() }
}

fn file(path: &str, name: &str, text: &str, secs: i64) -> File {
    File {
        name: name.to_string(),
        path: path.to_string(),
        text: text.to_string(),
        ocr_date: Some(Timestamp { secs, nanos: 0 }),
        ocr_success: true,
        ocr_engine: "ocrs".to_string(),
    }
}

fn candidate(path: &str, name: &str, text: &str) -> SearchCandidate {
    SearchCandidate { identity: identity(path, name), text: text.to_string() }
}

#[test]
fn a_new_index_is_empty() {
    let data = Data::new();
    assert_eq!(data.len(), 0);
    assert!(!data.contains(&identity("/a", "x.png")));
    assert_eq!(data.get(&identity("/a", "x.png")), None);
    assert_eq!(data.files(), Vec::<File>::new());
    assert_eq!(data.query_global(), Vec::<SearchCandidate>::new());
    assert_eq!(data.query_scoped("/a"), Vec::<SearchCandidate>::new());
}

#[test]
fn upserting_the_same_record_twice_leaves_one_row() {
    let mut data = Data::new();
    data.upsert(file("/a", "x.png", "text", 10));
    data.upsert(file("/a", "x.png", "text", 10));
    assert_eq!(data.len(), 1);
    assert_eq!(data.files(), vec![file("/a", "x.png", "text", 10)]);
}

#[test]
fn the_second_write_for_a_file_replaces_the_first_as_a_whole() {
    let mut data = Data::new();
    data.upsert(file("/a", "x.png", "old text", 10));
    let mut second = file("/a", "x.png", "new text", 20);
    second.ocr_success = false;
    second.ocr_engine = "other".to_string();
    data.upsert(second.duplicate());
    assert_eq!(data.len(), 1);
    assert_eq!(data.get(&identity("/a", "x.png")), Some(second));
}

#[test]
fn a_row_that_is_written_again_moves_to_the_end() {
    let mut data = Data::new();
    data.upsert(file("/a", "1.png", "one", 1));
    data.upsert(file("/a", "2.png", "two", 2));
    data.upsert(file("/a", "3.png", "three", 3));
    data.upsert(file("/a", "1.png", "uno", 4));
    assert_eq!(
        data.files(),
        vec![file("/a", "2.png", "two", 2), file("/a", "3.png", "three", 3), file("/a", "1.png", "uno", 4)]
    );
}

#[test]
fn files_of_the_same_name_in_two_directories_are_two_files() {
    let mut data = Data::new();
    data.upsert(file("/a", "x.png", "in a", 1));
    data.upsert(file("/b", "x.png", "in b", 2));
    assert_eq!(data.len(), 2);
    assert!(data.contains(&identity("/a", "x.png")));
    assert!(data.contains(&identity("/b", "x.png")));
    assert!(!data.contains(&identity("/c", "x.png")));
    assert!(!data.contains(&identity("/a", "X.png")));
}

#[test]
fn get_extracted_at_gives_the_date_of_the_row() {
    let mut data = Data::new();
    data.upsert(file("/a", "x.png", "text", 1234));
    assert_eq!(data.get_extracted_at(&identity("/a", "x.png")), Ok(Timestamp { secs: 1234, nanos: 0 }));
}

#[test]
fn get_extracted_at_fails_with_not_found_without_a_row() {
    let mut data = Data::new();
    assert_eq!(data.get_extracted_at(&identity("/a", "x.png")), Err(StoreError::NotFound));
    data.upsert(file("/a", "y.png", "text", 1));
    assert_eq!(data.get_extracted_at(&identity("/a", "x.png")), Err(StoreError::NotFound));
}

#[test]
fn get_extracted_at_fails_with_invalid_timestamp_on_an_unreadable_date() {
    let mut data = Data::new();
    let mut undated = file("/a", "x.png", "text", 0);
    undated.ocr_date = None;
    data.upsert(undated);
    assert_eq!(data.get_extracted_at(&identity("/a", "x.png")), Err(StoreError::InvalidTimestamp));
}

#[test]
fn a_file_without_a_row_needs_indexing() {
    let mut data = Data::new();
    let whenever = Timestamp { secs: i64::MIN, nanos: 0 };
    assert_eq!(data.needs_indexing(&identity("/a", "x.png"), whenever), Ok(true));
    data.upsert(file("/a", "other.png", "text", 100));
    assert_eq!(data.needs_indexing(&identity("/a", "x.png"), whenever), Ok(true));
}

#[test]
fn a_file_needs_indexing_only_if_modified_after_the_extraction() {
    let mut data = Data::new();
    let at = Timestamp { secs: 100, nanos: 500 };
    let mut f = file("/a", "x.png", "text", 100);
    f.ocr_date = Some(at);
    data.upsert(f);
    let id = identity("/a", "x.png");
    assert_eq!(data.needs_indexing(&id, Timestamp { secs: 100, nanos: 501 }), Ok(true));
    assert_eq!(data.needs_indexing(&id, Timestamp { secs: 101, nanos: 0 }), Ok(true));
    assert_eq!(data.needs_indexing(&id, at), Ok(false));
    assert_eq!(data.needs_indexing(&id, Timestamp { secs: 100, nanos: 499 }), Ok(false));
    assert_eq!(data.needs_indexing(&id, Timestamp { secs: 99, nanos: 999_999_999 }), Ok(false));
}

#[test]
fn an_unreadable_date_is_an_error_not_a_guess() {
    let mut data = Data::new();
    let mut undated = file("/a", "x.png", "text", 0);
    undated.ocr_date = None;
    data.upsert(undated);
    let id = identity("/a", "x.png");
    assert_eq!(data.needs_indexing(&id, Timestamp { secs: 0, nanos: 0 }), Err(StoreError::InvalidTimestamp));
    assert_eq!(
        data.needs_indexing(&id, Timestamp { secs: i64::MAX, nanos: 0 }),
        Err(StoreError::InvalidTimestamp)
    );
}

#[test]
fn a_scoped_query_sees_its_directory_only_and_a_global_one_sees_all() {
    let mut data = Data::new();
    data.upsert(file("/a", "1.png", "one", 1));
    data.upsert(file("/b", "2.png", "two", 2));
    data.upsert(file("/a", "3.png", "three", 3));
    assert_eq!(data.query_scoped("/a"), vec![candidate("/a", "1.png", "one"), candidate("/a", "3.png", "three")]);
    assert_eq!(data.query_scoped("/b"), vec![candidate("/b", "2.png", "two")]);
    assert_eq!(
        data.query_global(),
        vec![candidate("/a", "1.png", "one"), candidate("/b", "2.png", "two"), candidate("/a", "3.png", "three")]
    );
}

#[test]
fn a_scoped_query_compares_the_directory_as_text() {
    let mut data = Data::new();
    data.upsert(file("/a/b", "1.png", "one", 1));
    assert_eq!(data.query_scoped("/a/b/"), Vec::<SearchCandidate>::new());
    assert_eq!(data.query_scoped("/a"), Vec::<SearchCandidate>::new());
    assert_eq!(data.query_scoped("/A/b"), Vec::<SearchCandidate>::new());
    assert_eq!(data.query_scoped("/a/b/../b"), Vec::<SearchCandidate>::new());
    assert_eq!(data.query_scoped("/a/b").len(), 1);
}

#[test]
fn what_is_stored_comes_back_from_a_scoped_query() {
    let mut data = Data::new();
    data.upsert(file("/a/b", "img.png", "hello world", 1));
    let found = data.query_scoped("/a/b");
    assert_eq!(found.len(), 1);
    assert_eq!(found[0].identity.name, "img.png");
    assert_eq!(found[0].text, "hello world");
    assert_eq!(found, vec![candidate("/a/b", "img.png", "hello world")]);
}

#[test]
fn candidates_can_be_copied() {
    let c = candidate("/a", "x.png", "text");
    assert_eq!(c.duplicate(), c);
}

fn row(path: &str, name: &str, text: &str, date: &str) -> PersistedRow {
    PersistedRow {
        filename: name.to_string(),
        path: path.to_string(),
        text: text.to_string(),
        ocr_date: date.to_string(),
        ocr_success: true,
        ocr_engine: "ocrs".to_string(),
    }
}

#[test]
fn restore_reads_the_rows_in_order() {
    let rows = vec![
        row("/a", "1.png", "one", "1970-01-01T00:00:01Z"),
        row("/b", "2.png", "two", "1970-01-01T00:00:02Z"),
    ];
    let data = Data::restore(&rows);
    assert_eq!(data.files(), vec![file("/a", "1.png", "one", 1), file("/b", "2.png", "two", 2)]);
}

#[test]
fn restore_keeps_the_later_of_two_rows_for_one_file() {
    let rows = vec![
        row("/a", "1.png", "one", "1970-01-01T00:00:01Z"),
        row("/a", "2.png", "two", "1970-01-01T00:00:02Z"),
        row("/a", "1.png", "uno", "1970-01-01T00:00:03Z"),
    ];
    let data = Data::restore(&rows);
    assert_eq!(data.files(), vec![file("/a", "2.png", "two", 2), file("/a", "1.png", "uno", 3)]);
}

#[test]
fn restore_keeps_a_row_with_an_unreadable_date_without_date() {
    let data = Data::restore(&vec![row("/a", "1.png", "one", "last week")]);
    let id = identity("/a", "1.png");
    assert!(data.contains(&id));
    assert_eq!(data.get_extracted_at(&id), Err(StoreError::InvalidTimestamp));
    assert_eq!(data.query_global(), vec![candidate("/a", "1.png", "one")]);
}

#[test]
fn restore_of_nothing_is_empty() {
    assert_eq!(Data::restore(&Vec::new()).len(), 0);
}
