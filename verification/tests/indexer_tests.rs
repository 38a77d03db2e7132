use ocr_index::database::{Data, StoreError};
use ocr_index::file::{File, FileIdentity, Route, SupportedFileType};
use ocr_index::indexer::{
    commit_all, commit_extraction, plan_entry, plan_entry_routed, Committed, EntryError, EntryInfo,
    ExtractError, Extraction, Plan, SkipReason,
};
use ocr_index::timestamp::Timestamp;

fn identity(name: &str) -> FileIdentity {
    FileIdentity { path: "/photos".to_string(), name: name.to_string() }
}

fn at(secs: i64) -> Timestamp {
    Timestamp { secs, nanos: 0 }
}

fn entry(name: &str, extension: Option<&str>, modified: i64) -> EntryInfo {
    EntryInfo {
        is_file: true,
        canonical: Some(identity(name)),
        extension: extension.map(|e| e.to_string()),
        modified: Some(at(modified)),
    }
}

fn failure() -> Result<String, ExtractError> {
    Err(ExtractError { message: "engine broke".to_string() })
}

fn stored(name: &str, text: &str, secs: i64) -> File {
    File {
        name: name.to_string(),
        path: "/photos".to_string(),
        text: text.to_string(),
        ocr_date: Some(at(secs)),
        ocr_success: true,
        ocr_engine: "ocrs".to_string(),
    }
}

#[test]
fn a_new_image_is_extracted() {
    let data = Data::new();
    assert_eq!(plan_entry(&data, &entry("a.png", Some("png"), 5)), Plan::Extract(identity("a.png"), Route::Direct));
    assert_eq!(
        plan_entry(&data, &entry("a.WebP", Some("WebP"), 5)),
        Plan::Extract(identity("a.WebP"), Route::Decode(SupportedFileType::Webp))
    );
}

#[test]
fn what_is_no_regular_file_is_passed_over() {
    let data = Data::new();
    let mut directory = entry("sub.png", Some("png"), 5);
    directory.is_file = false;
    assert_eq!(plan_entry(&data, &directory), Plan::Skip(SkipReason::NotAFile));
}

#[test]
fn an_entry_without_canonical_place_is_passed_over() {
    let data = Data::new();
    let mut broken = entry("link.png", Some("png"), 5);
    broken.canonical = None;
    assert_eq!(plan_entry(&data, &broken), Plan::Skip(SkipReason::NoCanonicalPath));
}

#[test]
fn other_files_than_images_are_passed_over() {
    let data = Data::new();
    assert_eq!(plan_entry(&data, &entry("notes.txt", Some("txt"), 5)), Plan::Skip(SkipReason::UnsupportedExtension));
    assert_eq!(plan_entry(&data, &entry("Makefile", None, 5)), Plan::Skip(SkipReason::UnsupportedExtension));
    assert_eq!(plan_entry(&data, &entry("icon.ico", Some("ico"), 5)), Plan::Skip(SkipReason::UnsupportedExtension));
}

#[test]
fn an_image_is_extracted_again_only_after_it_was_modified() {
    let mut data = Data::new();
    data.upsert(stored("a.png", "text", 100));
    assert_eq!(plan_entry(&data, &entry("a.png", Some("png"), 99)), Plan::Skip(SkipReason::UpToDate));
    assert_eq!(plan_entry(&data, &entry("a.png", Some("png"), 100)), Plan::Skip(SkipReason::UpToDate));
    assert_eq!(plan_entry(&data, &entry("a.png", Some("png"), 101)), Plan::Extract(identity("a.png"), Route::Direct));
}

#[test]
fn an_unreadable_modification_time_fails_the_entry() {
    let data = Data::new();
    let mut unreadable = entry("a.png", Some("png"), 0);
    unreadable.modified = None;
    assert_eq!(plan_entry(&data, &unreadable), Plan::Fail(EntryError::ModifiedTimeUnreadable));
}

#[test]
fn an_unreadable_stored_date_fails_the_entry() {
    let mut data = Data::new();
    let mut undated = stored("a.png", "text", 0);
    undated.ocr_date = None;
    data.upsert(undated);
    assert_eq!(
        plan_entry(&data, &entry("a.png", Some("png"), 5)),
        Plan::Fail(EntryError::Store(StoreError::InvalidTimestamp))
    );
}

#[test]
fn the_checks_come_in_order() {
    let data = Data::new();
    let nothing = EntryInfo { is_file: false, canonical: None, extension: None, modified: None };
    assert_eq!(plan_entry(&data, &nothing), Plan::Skip(SkipReason::NotAFile));
    let file = EntryInfo { is_file: true, canonical: None, extension: None, modified: None };
    assert_eq!(plan_entry(&data, &file), Plan::Skip(SkipReason::NoCanonicalPath));
    let placed = EntryInfo { is_file: true, canonical: Some(identity("a")), extension: None, modified: None };
    assert_eq!(plan_entry(&data, &placed), Plan::Skip(SkipReason::UnsupportedExtension));
}

#[test]
fn plan_entry_routed_takes_the_route_as_given() {
    let data = Data::new();
    let e = entry("a.txt", Some("txt"), 5);
    assert_eq!(plan_entry_routed(&data, &e, Some(Route::Direct)), Plan::Extract(identity("a.txt"), Route::Direct));
    assert_eq!(plan_entry_routed(&data, &e, None), Plan::Skip(SkipReason::UnsupportedExtension));
}

#[test]
fn a_text_is_stored_without_the_white_space_around_it() {
    let mut data = Data::new();
    let outcome = Ok("  hello\nworld \n".to_string());
    let report = commit_extraction(&mut data, &identity("a.png"), &outcome, at(7), "ocrs");
    assert_eq!(report, Committed::Stored);
    assert_eq!(data.files(), vec![stored("a.png", "hello\nworld", 7)]);
}

#[test]
fn white_space_alone_creates_no_row() {
    let mut data = Data::new();
    for text in ["", " ", "\n\n", " \t\r\n\u{a0}"] {
        let report = commit_extraction(&mut data, &identity("a.png"), &Ok(text.to_string()), at(7), "ocrs");
        assert_eq!(report, Committed::Empty);
    }
    assert_eq!(data.len(), 0);
    // the file is tried again at the next walk
    assert_eq!(plan_entry(&data, &entry("a.png", Some("png"), 1)), Plan::Extract(identity("a.png"), Route::Direct));
}

#[test]
fn white_space_alone_updates_no_row() {
    let mut data = Data::new();
    data.upsert(stored("a.png", "old text", 3));
    let report = commit_extraction(&mut data, &identity("a.png"), &Ok("  \n ".to_string()), at(7), "ocrs");
    assert_eq!(report, Committed::Empty);
    assert_eq!(data.files(), vec![stored("a.png", "old text", 3)]);
}

#[test]
fn a_failed_extraction_changes_nothing() {
    let mut data = Data::new();
    data.upsert(stored("a.png", "old text", 3));
    assert_eq!(commit_extraction(&mut data, &identity("a.png"), &failure(), at(7), "ocrs"), Committed::Failed);
    assert_eq!(commit_extraction(&mut data, &identity("b.png"), &failure(), at(7), "ocrs"), Committed::Failed);
    assert_eq!(data.files(), vec![stored("a.png", "old text", 3)]);
}

#[test]
fn a_later_extraction_replaces_the_row() {
    let mut data = Data::new();
    data.upsert(stored("a.png", "old text", 3));
    let report = commit_extraction(&mut data, &identity("a.png"), &Ok("new text".to_string()), at(9), "ocrs");
    assert_eq!(report, Committed::Stored);
    assert_eq!(data.files(), vec![stored("a.png", "new text", 9)]);
    assert_eq!(plan_entry(&data, &entry("a.png", Some("png"), 9)), Plan::Skip(SkipReason::UpToDate));
}

#[test]
fn one_failure_among_ten_files_leaves_nine_rows() {
    let mut data = Data::new();
    let mut done = Vec::new();
    for i in 0..10i64 {
        let outcome = if i == 3 { failure() } else { Ok(format!("text of file {i}")) };
        done.push(Extraction { identity: identity(&format!("{i}.png")), outcome, at: at(100 + i) });
    }
    let reports = commit_all(&mut data, &done, "ocrs");
    assert_eq!(reports.len(), 10);
    for i in 0..10usize {
        assert_eq!(reports[i], if i == 3 { Committed::Failed } else { Committed::Stored });
    }
    assert_eq!(data.len(), 9);
    assert!(!data.contains(&identity("3.png")));
    for i in [0i64, 1, 2, 4, 5, 6, 7, 8, 9] {
        assert_eq!(
            data.get(&identity(&format!("{i}.png"))),
            Some(stored(&format!("{i}.png"), &format!("text of file {i}"), 100 + i))
        );
    }
}

#[test]
fn a_walk_goes_on_after_each_kind_of_entry() {
    let mut data = Data::new();
    data.upsert(stored("fresh.png", "kept", 50));
    let entries = vec![
        entry("fresh.png", Some("png"), 50),
        entry("notes.txt", Some("txt"), 60),
        entry("broken.jpg", Some("jpg"), 60),
        entry("blank.gif", Some("gif"), 60),
        entry("new.JPEG", Some("JPEG"), 60),
    ];
    let mut extracted = Vec::new();
    for e in &entries {
        if let Plan::Extract(id, _) = plan_entry(&data, e) {
            let outcome = match id.name.as_str() {
                "broken.jpg" => failure(),
                "blank.gif" => Ok("   ".to_string()),
                _ => Ok(" found ".to_string()),
            };
            extracted.push((id.name.clone(), commit_extraction(&mut data, &id, &outcome, at(70), "ocrs")));
        }
    }
    assert_eq!(
        extracted,
        vec![
            ("broken.jpg".to_string(), Committed::Failed),
            ("blank.gif".to_string(), Committed::Empty),
            ("new.JPEG".to_string(), Committed::Stored),
        ]
    );
    assert_eq!(data.files(), vec![stored("fresh.png", "kept", 50), stored("new.JPEG", "found", 70)]);
}

#[test]
fn commit_all_takes_the_extractions_in_order() {
    let mut data = Data::new();
    let done = vec![
        Extraction { identity: identity("a.png"), outcome: Ok("first".to_string()), at: at(1) },
        Extraction { identity: identity("b.png"), outcome: Ok(" ".to_string()), at: at(2) },
        Extraction { identity: identity("a.png"), outcome: Ok("second".to_string()), at: at(3) },
    ];
    let reports = commit_all(&mut data, &done, "ocrs");
    assert_eq!(reports, vec![Committed::Stored, Committed::Empty, Committed::Stored]);
    assert_eq!(data.files(), vec![stored("a.png", "second", 3)]);
}

#[test]
fn commit_all_of_nothing_changes_nothing() {
    let mut data = Data::new();
    data.upsert(stored("a.png", "text", 1));
    assert_eq!(commit_all(&mut data, &Vec::new(), "ocrs"), Vec::<Committed>::new());
    assert_eq!(data.files(), vec![stored("a.png", "text", 1)]);
}
