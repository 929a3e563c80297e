use orf::storage::objects::commit::{Commit, CommitError, MAX_TIMESTAMP, MIN_TIMESTAMP};
use orf::storage::utils::{Loadable, Storable, VoxObject};

#[test]
fn test_commit_serialization() {
    let commit = Commit::new(
        "tree-hash".to_string(),
        Some("parent-hash".to_string()),
        "Author <author@example.com>".to_string(),
        "Test message".to_string(),
        chrono::Utc::now().timestamp(),
    );

    let serialized = commit.serialize().unwrap();
    assert!(serialized.len() > 0);
}

#[test]
fn commit_text_reads_back() {
    let commit = Commit {
        tree: "tree-hash".to_string(),
        parent: Some("parent-hash".to_string()),
        author: "Author <author@example.com>".to_string(),
        timestamp: 1700000000,
        message: "Test message".to_string(),
    };
    let text = commit.text();
    assert_eq!(
        text,
        "tree tree-hash\nparent parent-hash\nauthor Author <author@example.com> 1700000000\n\nTest message\n"
    );
    let parsed = Commit::parse(&text).unwrap();
    assert_eq!(parsed, commit);
}

#[test]
fn commit_without_parent_reads_back() {
    let commit = Commit {
        tree: "t".to_string(),
        parent: None,
        author: "A".to_string(),
        timestamp: -5,
        message: "line one\n\nline three".to_string(),
    };
    let parsed = Commit::parse(&commit.text()).unwrap();
    assert_eq!(parsed, commit);
}

#[test]
fn commit_unknown_field_is_reported() {
    let r = Commit::parse("tree t\nfoo bar\nauthor A 1\n\nm\n");
    assert_eq!(r, Err(CommitError::UnknownField("foo".to_string())));
}

#[test]
fn commit_line_without_space_is_reported() {
    assert_eq!(Commit::parse("tree\n"), Err(CommitError::InvalidFormat));
}

#[test]
fn commit_missing_fields_are_reported() {
    assert_eq!(Commit::parse("author A 1\n\nm"), Err(CommitError::MissingTree));
    assert_eq!(Commit::parse("tree t\n\nm"), Err(CommitError::MissingAuthor));
}

#[test]
fn commit_bad_timestamp_is_reported() {
    assert_eq!(
        Commit::parse("tree t\nauthor A x1\n\nm"),
        Err(CommitError::InvalidTimestamp)
    );
    assert_eq!(
        Commit::parse_checked("tree t\nauthor A\n\nm"),
        Err(CommitError::AuthorWithoutTimestamp)
    );
    assert_eq!(
        Commit::parse_checked("tree t\nauthor A 9223372036854775807\n\nm"),
        Err(CommitError::TimestampOutOfRange)
    );
}

#[test]
fn test_commit_save_load() {
    let commit = Commit::new(
        "tree-hash".to_string(),
        Some("parent-hash".to_string()),
        "Author <author@example.com>".to_string(),
        "Test message".to_string(),
        chrono::Utc::now().timestamp(),
    );

    let plan = commit.save(".vox/objects").unwrap();
    let loaded = Commit::from_stored(&plan.data).unwrap();

    assert_eq!(commit.tree, loaded.tree);
    assert_eq!(commit.parent, loaded.parent);
    assert_eq!(commit.author, loaded.author);
    assert_eq!(commit.message, loaded.message);
}

#[test]
fn timestamp_range_is_chronos() {
    assert_eq!(chrono::DateTime::<chrono::Utc>::MIN_UTC.timestamp(), MIN_TIMESTAMP);
    assert_eq!(chrono::DateTime::<chrono::Utc>::MAX_UTC.timestamp(), MAX_TIMESTAMP);
    assert!(chrono::DateTime::from_timestamp(MIN_TIMESTAMP, 0).is_some());
    assert!(chrono::DateTime::from_timestamp(MAX_TIMESTAMP, 0).is_some());
    assert!(chrono::DateTime::from_timestamp(MIN_TIMESTAMP - 1, 0).is_none());
    assert!(chrono::DateTime::from_timestamp(MAX_TIMESTAMP + 1, 0).is_none());
    let at_max = format!("tree t\nauthor A {}\n\nm\n", MAX_TIMESTAMP);
    assert_eq!(Commit::parse_checked(&at_max).unwrap().timestamp, MAX_TIMESTAMP);
    let past_max = format!("tree t\nauthor A {}\n\nm\n", MAX_TIMESTAMP + 1);
    assert!(Commit::parse_checked(&past_max).is_err());
}
