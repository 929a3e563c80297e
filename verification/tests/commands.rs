use orf::commands::branching::checkout::{
    checkout_commit, checkout_refused, head_text, keeps_entry, should_update_file,
};
use orf::commands::core_commands::add::{AddCommand, AddError, StagedFile};
use orf::commands::core_commands::catfile::{
    cat_file_object_path, cat_file_show, content_text, parse_object_header, read_vox_object, CatFileError,
    CatFileShow,
};
use orf::storage::objects::blob::Blob;
use orf::storage::utils::Storable;
use orf::commands::core_commands::index::idx_main::{Index, IndexEntry};
use orf::commands::core_commands::status::{
    branch_from_head, get_status, status_report, status_walk_skips, walked_path, FileState,
};
use orf::commands::history::log::{LogAction, LogWalk};
use orf::commands::remote::remote::{is_valid_url, RemoteCommands};
use orf::storage::codec::object_hash;
use orf::storage::objects::branch::{Branch, BranchError};
use orf::storage::refs::{initial_head, read_head, read_ref_content, ref_file_text, HeadTarget};
use orf::text::HexError;

fn entry(path: &str, mtime: u64, size: u32) -> IndexEntry {
    IndexEntry { mtime, dev: 0, ino: 0, mode: 0, uid: 0, gid: 0, size, hash: [0; 20], flags: 0, path: path.to_string() }
}

#[test]
fn status_classifies_files() {
    let mut idx = Index::new();
    idx.add_entry(entry("a", 10, 1));
    idx.add_entry(entry("b", 10, 1));
    idx.add_entry(entry("c", 10, 1));
    let states = vec![
        Some(FileState { mtime: 10, size: 1 }),
        Some(FileState { mtime: 11, size: 1 }),
        None,
    ];
    let walked = vec!["a".to_string(), "b/".to_string(), "new.txt".to_string()];
    let (added, modified, deleted, untracked) = get_status(&idx, &states, &walked);
    assert_eq!(added, vec!["a"]);
    assert_eq!(modified, vec!["b"]);
    assert_eq!(deleted, vec!["c"]);
    assert_eq!(untracked, vec!["new.txt"]);
}

#[test]
fn status_report_text() {
    let clean = status_report("main", Some("0123456789abcdef"), &[], &[], &[], &[]);
    assert_eq!(clean, "On branch main\nCurrent commit [0123456]\n\u{2713} Working tree clean\n");
    let busy = status_report(
        "dev",
        None,
        &["a".to_string()],
        &["b".to_string()],
        &["c".to_string()],
        &["d".to_string()],
    );
    assert_eq!(
        busy,
        "On branch dev\n\
Changes to be committed:\n  (use \"vox reset HEAD <file>...\" to unstage)\n\n\t\x1b[32mnew file:   a\x1b[0m\n\n\
Changes not added for commit:\n  (use \"vox add <file>...\" to update what will be committed)\n  (use \"vox restore <file>...\" to discard changes)\n\n\t\x1b[31mmodified:   b\x1b[0m\n\t\x1b[31mdeleted:    c\x1b[0m\n\n\
Untracked files:\n  (use \"vox add <file>...\" to include in what will be committed)\n\n\t\x1b[31md\x1b[0m\n\n\
no changes added to commit (use \"vox add\" and/or \"vox commit -a\")\n"
    );
    assert_eq!(branch_from_head("ref: refs/heads/main\n"), Some("main".to_string()));
    assert_eq!(branch_from_head("ref: refs/heads/main"), None);
    assert_eq!(branch_from_head("abc\n"), None);
}

#[test]
fn heads_and_refs_are_read() {
    assert_eq!(read_head("ref: refs/heads/main\n"), HeadTarget::Branch(".vox/refs/heads/main".to_string()));
    assert_eq!(read_head("ref: ref: refs/x "), HeadTarget::Branch(".vox/refs/x".to_string()));
    assert_eq!(read_head("  abc123\n"), HeadTarget::Detached("abc123".to_string()));
    assert_eq!(ref_file_text("abc"), "abc\n");
    assert_eq!(read_ref_content(b"  abc\n".to_vec()), Some("abc".to_string()));
    assert_eq!(read_ref_content(vec![0xff]), None);
    let hash = "0123456789abcdef0123456789abcdef01234567";
    assert_eq!(read_ref_content(ref_file_text(hash).into_bytes()), Some(hash.to_string()));
    let head = initial_head();
    assert_eq!(head, "ref: refs/heads/main\n");
    assert_eq!(read_head(&head), HeadTarget::Branch(".vox/refs/heads/main".to_string()));
    assert_eq!(Branch::current_branch_name(&head), Some("main".to_string()));
    assert_eq!(read_head(&ref_file_text(hash)), HeadTarget::Detached(hash.to_string()));
}

#[test]
fn branches_live_under_refs_heads() {
    assert_eq!(Branch::get_branch_path("dev"), ".vox/refs/heads/dev");
    assert_eq!(Branch::get_branch_path("/abs"), "/abs");
    assert_eq!(Branch::current_branch_name("ref: refs/heads/dev\n"), Some("dev".to_string()));
    assert_eq!(Branch::current_branch_name("deadbeef"), None);
    let text = Branch::file_text("abc");
    assert_eq!(text, "\nabc");
    let b = Branch::from_file("dev", &text);
    assert_eq!((b.name.as_str(), b.commit_hash.as_str()), ("dev", "abc"));
}

#[test]
fn checkout_decides_targets() {
    let branches = vec![
        Branch { name: "dev".to_string(), commit_hash: "c1".to_string() },
        Branch { name: "main".to_string(), commit_hash: "c2".to_string() },
    ];
    let h40 = "0123456789012345678901234567890123456789";
    assert_eq!(checkout_commit("main", &branches), Some("c2".to_string()));
    assert_eq!(checkout_commit(h40, &branches), Some(h40.to_string()));
    assert_eq!(checkout_commit("nope", &branches), None);
    assert_eq!(head_text("main"), "ref: refs/heads/main\n");
    assert_eq!(head_text(h40), h40);
    assert!(keeps_entry(Some(".hidden"), false));
    assert!(keeps_entry(Some("target"), true));
    assert!(!keeps_entry(Some("target"), false));
    assert!(!keeps_entry(Some("src"), true));
    assert!(!keeps_entry(Some("file"), false));
    assert!(!keeps_entry(None, true));
    assert!(should_update_file(None, "x"));
    assert!(!should_update_file(Some(b"abc"), &object_hash(b"abc")));
    assert!(should_update_file(Some(b"abd"), &object_hash(b"abc")));
}

#[test]
fn cat_file_steps() {
    assert_eq!(cat_file_object_path(""), Err(CatFileError::EmptyHash));
    assert_eq!(cat_file_object_path("abcdef"), Ok(".vox/objects/ab/cdef".to_string()));
    assert_eq!(parse_object_header(b"blob 3"), Err(CatFileError::NoHeaderEnd));
    assert_eq!(parse_object_header(b"blob 3\0abc"), Ok(("blob".to_string(), 7)));
    assert_eq!(parse_object_header(b"commit 12\0"), Ok(("commit".to_string(), 10)));
    assert_eq!(parse_object_header(b"weird 3\0abc"), Ok(("unknown type".to_string(), 8)));
    assert_eq!(parse_object_header(b"blob\0abc"), Err(CatFileError::InvalidObjectFormat));
    assert_eq!(parse_object_header(b"blob \0abc"), Err(CatFileError::InvalidObjectFormat));
    assert_eq!(parse_object_header(b"blob 3x\0abc"), Err(CatFileError::InvalidObjectFormat));
    assert_eq!(cat_file_show(false, false, true), CatFileShow::Content);
    assert_eq!(cat_file_show(true, false, false), CatFileShow::Type);
    assert_eq!(cat_file_show(false, true, false), CatFileShow::Size);
    assert_eq!(cat_file_show(true, false, true), CatFileShow::TypeAndSize);
    assert_eq!(cat_file_show(false, false, false), CatFileShow::TypeAndSize);
}

#[test]
fn cat_file_prints_a_stored_blob() {
    let blob = Blob { data: b"test content\n".to_vec() };
    let plan = blob.save(".vox/objects").unwrap();
    let data = read_vox_object(&plan.data).unwrap();
    let (object_type, start) = parse_object_header(&data).unwrap();
    assert_eq!(object_type, "blob");
    assert_eq!(content_text(&data[start..]), "test content\n");
}

#[test]
fn remotes_and_urls() {
    assert!(is_valid_url("https://example.com/repo.git"));
    assert!(!is_valid_url("not a url"));
    assert!(RemoteCommands::Remove { name: "o".to_string() }.writes_config());
    assert!(!RemoteCommands::List.writes_config());
}

#[test]
fn add_stages_files() {
    let cmd = AddCommand::new("/repo".to_string(), "/repo/sub".to_string(), Index::new());
    assert_eq!(cmd.relative_base(), Ok("sub".to_string()));
    assert_eq!(cmd.file_path("/repo/x/y.txt", "sub"), "x/y.txt");
    assert_eq!(cmd.file_path("y.txt", "sub"), "sub/y.txt");
    assert_eq!(cmd.found_file_path("/repo/sub/d/f", "sub"), Some("sub/d/f".to_string()));
    let outside = AddCommand::new("/repo".to_string(), "/elsewhere".to_string(), Index::new());
    assert_eq!(outside.relative_base(), Err(AddError::OutsideRepository));

    let hash = object_hash(b"content");
    let staged = vec![StagedFile { entry: entry("/repo/sub/y.txt", 5, 7), rel_path: "sub/y.txt".to_string(), blob_hash: hash.clone() }];
    let (path, data) = cmd.execute(staged).unwrap();
    assert_eq!(path, "/repo/.vox/index");
    let mut back = Index::new();
    back.read_from_bytes(&data).unwrap();
    let e = back.get_entry("sub/y.txt").unwrap();
    assert_eq!(e.path, "sub/y.txt");
    assert_eq!(orf::text::to_hex(&e.hash), hash);

    let cmd = AddCommand::new("/repo".to_string(), "/repo".to_string(), Index::new());
    let bad = vec![StagedFile { entry: entry("f", 0, 0), rel_path: "f".to_string(), blob_hash: "xyz".to_string() }];
    assert_eq!(cmd.execute(bad), Err(AddError::Hex(HexError::OddLength)));
    assert!(AddCommand::load_or_create_index(None).unwrap().get_entries().is_empty());
}

#[test]
fn log_walks_parents_up_to_count() {
    let mut walk = LogWalk::new(Some("c4".to_string()), 2);
    assert_eq!(walk.next_action(), LogAction::Show("c4".to_string(), true));
    walk.shown_commit(Some("c3".to_string()));
    assert_eq!(walk.next_action(), LogAction::Show("c3".to_string(), false));
    walk.shown_commit(Some("c2".to_string()));
    assert_eq!(walk.next_action(), LogAction::Count("c2".to_string()));
    walk.counted_commit(Some("c1".to_string()));
    assert_eq!(walk.next_action(), LogAction::Count("c1".to_string()));
    walk.counted_commit(None);
    assert_eq!(walk.next_action(), LogAction::Done(Some(2)));

    let mut exact = LogWalk::new(Some("c2".to_string()), 2);
    exact.shown_commit(Some("c1".to_string()));
    exact.shown_commit(None);
    assert_eq!(exact.next_action(), LogAction::Done(None));

    let mut short = LogWalk::new(Some("c1".to_string()), 5);
    assert_eq!(short.next_action(), LogAction::Show("c1".to_string(), true));
    short.shown_commit(None);
    assert_eq!(short.next_action(), LogAction::Done(None));

    assert_eq!(LogWalk::new(None, 5).next_action(), LogAction::NoCommits);
    let mut none_shown = LogWalk::new(Some("c1".to_string()), 0);
    assert_eq!(none_shown.next_action(), LogAction::Count("c1".to_string()));
    none_shown.counted_commit(None);
    assert_eq!(none_shown.next_action(), LogAction::Done(Some(1)));
}

#[test]
fn branches_are_listed_by_name() {
    let branches = vec![
        Branch { name: "main".to_string(), commit_hash: "c1".to_string() },
        Branch { name: "dev".to_string(), commit_hash: "c2".to_string() },
        Branch { name: "Zeta".to_string(), commit_hash: "c3".to_string() },
        Branch { name: "de".to_string(), commit_hash: "c4".to_string() },
    ];
    let sorted = Branch::sort_by_name(branches);
    let names: Vec<&str> = sorted.iter().map(|b| b.name.as_str()).collect();
    assert_eq!(names, vec!["Zeta", "de", "dev", "main"]);
    assert_eq!(sorted[2].commit_hash, "c2");
}

#[test]
fn checkout_refuses_uncommitted_changes() {
    let none: Vec<String> = Vec::new();
    let one = vec!["a.txt".to_string()];
    assert!(checkout_refused(false, &one, &none, &none));
    assert!(checkout_refused(false, &none, &one, &none));
    assert!(checkout_refused(false, &none, &none, &one));
    assert!(!checkout_refused(false, &none, &none, &none));
    assert!(!checkout_refused(true, &one, &one, &one));
}

#[test]
fn branch_creation_and_deletion_are_checked() {
    let dev = Branch { name: "dev".to_string(), commit_hash: "c1".to_string() };
    assert_eq!(Branch::check_new(true), Err(BranchError::AlreadyExists));
    assert_eq!(Branch::check_new(false), Ok(()));
    assert_eq!(Branch::check_delete("dev", false, Some(&dev)), Err(BranchError::NotFound));
    assert_eq!(Branch::check_delete("dev", true, Some(&dev)), Err(BranchError::CurrentBranch));
    assert_eq!(Branch::check_delete("main", true, Some(&dev)), Ok(()));
    assert_eq!(Branch::check_delete("main", true, None), Ok(()));
}

#[test]
fn add_walk_skips_repository_internals() {
    let cmd = AddCommand::new("/repo".to_string(), "/repo".to_string(), Index::new());
    assert!(cmd.walk_skips("/repo/.vox"));
    assert!(cmd.walk_skips("/repo/.vox/objects/ab"));
    assert!(cmd.walk_skips("/repo/target/debug"));
    assert!(cmd.walk_skips("/repo/build"));
    assert!(cmd.walk_skips("/repo/.git/HEAD"));
    assert!(!cmd.walk_skips("/repo/src/main.rs"));
    assert!(!cmd.walk_skips("/repo/targets"));
    assert!(!cmd.walk_skips("/repo/sub/target"));
}

#[test]
fn status_walk_skips_and_relative_paths() {
    assert!(status_walk_skips(".", "./.vox/index"));
    assert!(status_walk_skips(".", "./target"));
    assert!(status_walk_skips(".", "./.git"));
    assert!(!status_walk_skips(".", "./build"));
    assert!(!status_walk_skips(".", "./src/lib.rs"));
    assert_eq!(walked_path(".", "./src/lib.rs"), Some("src/lib.rs".to_string()));
    assert_eq!(walked_path("/repo", "/repo/a/b"), Some("a/b".to_string()));
    assert_eq!(walked_path("/repo", "/other/a"), None);
}
