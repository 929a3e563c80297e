use orf::commands::history::diff::{changes_report, render_line_changes, text_diff, DiffTag, LineChange, ReportLine};
use orf::storage::objects::change::{ChangeSet, ChangeType, DiffSummary};

fn added(p: &str) -> ChangeType {
    ChangeType::ADDED { path: p.to_string(), new_hash: "n1".to_string() }
}

#[test]
fn change_sets_file_changes_by_path() {
    let mut cs = ChangeSet::new(Some("a1".to_string()), None);
    assert!(cs.is_empty());
    cs.add_change(added("src/a.rs"));
    cs.add_change(ChangeType::DELETED { path: "src/b.rs".to_string(), old_hash: "o2".to_string() });
    cs.add_change(ChangeType::RENAMED {
        old_path: "x.txt".to_string(),
        new_path: "docs/y.txt".to_string(),
        old_hash: "o3".to_string(),
        new_hash: "n3".to_string(),
        summary: None,
    });
    assert_eq!(cs.len(), 3);
    assert_eq!(cs.get_entry("src//a.rs/").unwrap().get_path(), "src/a.rs");
    assert!(cs.get_entry("./src/a.rs").is_none());
    assert_eq!(cs.collect_paths(), vec!["docs/y.txt", "src/a.rs", "src/b.rs"]);
    let under: Vec<&String> = cs.find_by_prefix("src").into_iter().map(|(k, _)| k).collect();
    assert_eq!(under, vec!["src/a.rs", "src/b.rs"]);
    assert_eq!(cs.find_by_prefix("sr").len(), 0);
    assert_eq!(cs.find_by_prefix("").len(), 3);
    assert!(cs.remove_change("src/b.rs").is_some());
    assert!(cs.remove_change("src/b.rs").is_none());
    assert_eq!(cs.get().len(), 2);
    assert_eq!(cs.from(), Some("a1"));
    assert_eq!(cs.to_ref(), None);
    cs.set_to(Some("b2".to_string()));
    assert_eq!(cs.to(), Some("b2"));
    cs.set_from(None);
    assert_eq!(cs.from_ref(), None);
}

#[test]
fn later_change_to_a_path_replaces_the_earlier() {
    let mut cs = ChangeSet::new(None, None);
    cs.add_change(added("f"));
    cs.add_change(ChangeType::DELETED { path: "f/".to_string(), old_hash: "o".to_string() });
    assert_eq!(cs.len(), 1);
    // A leading "./" makes another path, as with std::path::Path.
    cs.add_change(added("./f"));
    assert_eq!(cs.len(), 2);
    assert_eq!(cs.get_entry("f").unwrap().old_hash(), Some("o"));
}

#[test]
fn change_accessors_follow_the_variant() {
    let summary = DiffSummary::new(3, 1, Some("+a".to_string()));
    let m = ChangeType::MODIFIED {
        path: "dir/f/".to_string(),
        old_hash: "o".to_string(),
        new_hash: "n".to_string(),
        summary: Some(summary.clone()),
    };
    assert_eq!(m.get_path(), "dir/f/");
    assert_eq!(m.path(), "dir/f");
    assert_eq!(m.get_pathbuf(), "dir/f/");
    assert_eq!(m.old_path(), None);
    assert_eq!(m.get_old_pathbuf(), None);
    assert_eq!(m.new_hash(), Some("n"));
    assert_eq!(m.get_new_hash(), Some(&"n".to_string()));
    assert_eq!(m.old_hash(), Some("o"));
    assert_eq!(m.get_old_hash(), Some(&"o".to_string()));
    assert_eq!(m.summary().unwrap().insertions(), 3);
    assert_eq!(m.get_summary().unwrap().removals(), 1);
    let r = ChangeType::RENAMED {
        old_path: "a".to_string(),
        new_path: "b".to_string(),
        old_hash: "o".to_string(),
        new_hash: "n".to_string(),
        summary: None,
    };
    assert_eq!(r.get_path(), "b");
    assert_eq!(r.old_path(), Some("a"));
    assert_eq!(r.get_old_path(), Some(&"a".to_string()));
    assert!(r.summary().is_none());
    let d = ChangeType::DELETED { path: "d".to_string(), old_hash: "o".to_string() };
    assert_eq!(d.new_hash(), None);
}

#[test]
fn diff_summaries_get_and_set() {
    let mut s = DiffSummary::new(1, 2, None);
    assert_eq!(s.text_diff(), None);
    assert_eq!(s.get_text_diff(), None);
    s.set_insertions(5);
    s.set_removals(6);
    s.set_diff(Some("-x".to_string()));
    assert_eq!((s.insertions(), s.removals()), (5, 6));
    assert_eq!(s.text_diff(), Some("-x"));
}

#[test]
fn text_diff_marks_lines() {
    let (text, ins, del) = text_diff("a\nb\n", "a\nc\n");
    assert_eq!(text, " a\n\n-b\n\n+c\n\n");
    assert_eq!((ins, del), (1, 1));
    let (text, ins, del) = text_diff("same\n", "same\n");
    assert_eq!(text, " same\n\n");
    assert_eq!((ins, del), (0, 0));
}

#[test]
fn line_changes_render_in_order() {
    let changes = vec![
        LineChange { tag: DiffTag::Equal, text: "a\n".to_string() },
        LineChange { tag: DiffTag::Insert, text: "b\n".to_string() },
        LineChange { tag: DiffTag::Insert, text: "c\n".to_string() },
        LineChange { tag: DiffTag::Delete, text: "d\n".to_string() },
    ];
    let (text, ins, del) = render_line_changes(&changes);
    assert_eq!(text, " a\n\n+b\n\n+c\n\n-d\n\n");
    assert_eq!((ins, del), (2, 1));
}

#[test]
fn diff_report_lists_changes() {
    let empty = ChangeSet::new(None, None);
    assert_eq!(
        changes_report(&empty),
        vec![ReportLine::Header("initial".to_string(), "working".to_string()), ReportLine::NoChanges]
    );
    let mut cs = ChangeSet::new(Some("c1".to_string()), Some("c2".to_string()));
    cs.add_change(ChangeType::MODIFIED {
        path: "m".to_string(),
        old_hash: "o".to_string(),
        new_hash: "n".to_string(),
        summary: Some(DiffSummary::new(2, 1, Some("+x".to_string()))),
    });
    cs.add_change(ChangeType::RENAMED {
        old_path: "p".to_string(),
        new_path: "q".to_string(),
        old_hash: "o".to_string(),
        new_hash: "n".to_string(),
        summary: Some(DiffSummary::new(0, 0, Some("ignored".to_string()))),
    });
    assert_eq!(
        changes_report(&cs),
        vec![
            ReportLine::Header("c1".to_string(), "c2".to_string()),
            ReportLine::ChangesTitle,
            ReportLine::Modified("m".to_string()),
            ReportLine::Counts(true, 2, 1),
            ReportLine::Text("+x".to_string()),
            ReportLine::Renamed("p".to_string(), "q".to_string()),
            ReportLine::Counts(false, 0, 0),
        ]
    );
}
