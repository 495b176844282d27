use grit::{hash_string, parse_head, parse_index, RepoError, Repository, StageOutcome};

fn s(x: &str) -> String {
    x.to_string()
}

#[test]
fn hash_is_sha1_hex_without_leading_zeros() {
    // SHA-1 of "abc" is a9993e364706816aba3e25717850c26c9cd0d89d; each byte
    // is rendered with {:x}, so the 0x06 byte contributes a single digit.
    let h = hash_string(&s("abc"));
    assert_eq!(h, "a9993e36476816aba3e25717850c26c9cd0d89d");
}

#[test]
fn store_then_load_round_trips() {
    let mut r = Repository::new();
    let h = r.store(s("some file contents\n"));
    assert_eq!(r.load(&h).unwrap(), "some file contents\n");
}

#[test]
fn storing_twice_dedups() {
    let mut r = Repository::new();
    let h1 = r.store(s("same bytes"));
    let n1 = r.object_count();
    let h2 = r.store(s("same bytes"));
    let n2 = r.object_count();
    assert_eq!(h1, h2);
    assert_eq!(n1, n2);
    assert_eq!(n1, 1);
}

#[test]
fn load_of_missing_object_fails() {
    let r = Repository::new();
    assert_eq!(r.load(&s("0123abcd")), Err(RepoError::NotFound));
}

#[test]
fn staging_queues_path_once() {
    let mut r = Repository::new();
    assert_eq!(r.stage(s("f1"), s("one")).unwrap(), StageOutcome::Staged);
    assert_eq!(r.stage(s("f1"), s("one changed")).unwrap(), StageOutcome::Staged);
    assert_eq!(r.get_index(), vec![s("f1")]);
}

#[test]
fn staging_unchanged_content_is_a_no_op() {
    let mut r = Repository::new();
    r.stage(s("f1"), s("one")).unwrap();
    r.commit(&s("first"), &vec![s("one")]).unwrap();
    let n = r.object_count();
    // The content hash matches what HEAD's tree records for the path:
    // nothing is stored, nothing is staged.
    assert_eq!(r.stage(s("f1"), s("one")).unwrap(), StageOutcome::NoChanges);
    assert_eq!(r.get_index(), Vec::<String>::new());
    assert_eq!(r.object_count(), n);
}

#[test]
fn staging_fails_where_head_tree_object_is_missing() {
    let mut r = Repository::new();
    r.insert_object(s("c0ffee"), s("tree\tabsent\n\nmsg"));
    r.set_head(Some(s("c0ffee")));
    assert_eq!(r.stage(s("f1"), s("one")), Err(RepoError::NotFound));
}

#[test]
fn overlay_gives_staged_entries_precedence() {
    let mut r = Repository::new();
    r.stage(s("a"), s("alpha")).unwrap();
    r.stage(s("b"), s("beta")).unwrap();
    r.commit(&s("first"), &vec![s("alpha"), s("beta")]).unwrap();
    r.stage(s("a"), s("alpha v2")).unwrap();
    r.commit(&s("second"), &vec![s("alpha v2")]).unwrap();
    let head = r.get_current_head();
    let th = r.get_tree_of_commit(head.as_ref());
    let tree = r.get_tree(th.as_ref()).unwrap();
    assert_eq!(tree.len(), 2);
    assert_eq!(tree.get(&s("a")), Some(hash_string(&s("alpha v2"))));
    assert_eq!(tree.get(&s("b")), Some(hash_string(&s("beta"))));
    assert_eq!(tree.get(&s("c")), None);
}

#[test]
fn commit_with_empty_index_changes_nothing() {
    let mut r = Repository::new();
    r.stage(s("f1"), s("one")).unwrap();
    let first = r.commit(&s("first"), &vec![s("one")]).unwrap();
    let n = r.object_count();
    let res = r.commit(&s("empty"), &Vec::new());
    assert_eq!(res.err(), Some(RepoError::NothingToCommit));
    assert_eq!(r.object_count(), n);
    assert_eq!(r.get_current_head(), Some(first.hash));
}

#[test]
fn commits_link_into_a_chain() {
    let mut r = Repository::new();
    r.stage(s("f1"), s("one")).unwrap();
    let c1 = r.commit(&s("first"), &vec![s("one")]).unwrap();
    assert_eq!(r.get_current_head(), Some(c1.hash.clone()));
    r.stage(s("f2"), s("two")).unwrap();
    let c2 = r.commit(&s("second"), &vec![s("two")]).unwrap();
    assert_eq!(r.get_current_head(), Some(c2.hash.clone()));
    assert_eq!(r.get_parent_of_commit(Some(&c2.hash)), Some(c1.hash.clone()));
    assert_eq!(r.get_parent_of_commit(Some(&c1.hash)), None);
}

#[test]
fn commit_messages_are_kept_whole() {
    let mut r = Repository::new();
    r.stage(s("f1"), s("one")).unwrap();
    let c1 = r.commit(&s("a message\nwith two lines"), &vec![s("one")]).unwrap();
    assert_eq!(r.get_commit_message(&c1.hash), Some(s("a message\nwith two lines")));
    r.stage(s("f2"), s("two")).unwrap();
    let c2 = r.commit(&s(""), &vec![s("two")]).unwrap();
    assert_eq!(r.get_commit_message(&c2.hash), Some(s("")));
}

#[test]
fn tree_identity_ignores_staging_order() {
    let mut r1 = Repository::new();
    r1.stage(s("a"), s("alpha")).unwrap();
    r1.stage(s("b"), s("beta")).unwrap();
    let c1 = r1.commit(&s("m"), &vec![s("alpha"), s("beta")]).unwrap();
    let mut r2 = Repository::new();
    r2.stage(s("b"), s("beta")).unwrap();
    r2.stage(s("a"), s("alpha")).unwrap();
    let c2 = r2.commit(&s("m"), &vec![s("beta"), s("alpha")]).unwrap();
    assert_eq!(c1.tree_hash, c2.tree_hash);
    assert_eq!(c1.tree_body, c2.tree_body);
}

#[test]
fn revert_restores_the_previous_snapshot() {
    let mut r = Repository::new();
    r.stage(s("f1"), s("one")).unwrap();
    let c1 = r.commit(&s("first"), &vec![s("one")]).unwrap();
    r.stage(s("f2"), s("two")).unwrap();
    r.commit(&s("second"), &vec![s("two")]).unwrap();
    let files = r.revert().unwrap();
    assert_eq!(files, vec![(s("f1"), s("one"))]);
    assert_eq!(r.get_current_head(), Some(c1.hash.clone()));
    // The chain cannot be walked past its first commit.
    assert_eq!(r.revert(), Err(RepoError::NoParent));
    assert_eq!(r.get_current_head(), Some(c1.hash));
}

#[test]
fn revert_without_any_commit_fails() {
    let mut r = Repository::new();
    assert_eq!(r.revert(), Err(RepoError::NoHead));
    assert_eq!(r.get_current_head(), None);
}

#[test]
fn revert_does_not_touch_the_index() {
    let mut r = Repository::new();
    r.stage(s("f1"), s("one")).unwrap();
    r.commit(&s("first"), &vec![s("one")]).unwrap();
    r.stage(s("f2"), s("two")).unwrap();
    r.commit(&s("second"), &vec![s("two")]).unwrap();
    r.stage(s("f3"), s("three")).unwrap();
    r.revert().unwrap();
    assert_eq!(r.get_index(), vec![s("f3")]);
}

#[test]
fn empty_tree_hash_reads_as_empty_tree() {
    let r = Repository::new();
    let tree = r.get_tree(Some(&s(""))).unwrap();
    assert_eq!(tree.len(), 0);
    let none = r.get_tree(None).unwrap();
    assert_eq!(none.len(), 0);
}

#[test]
fn missing_tree_object_fails_to_read() {
    let r = Repository::new();
    assert!(r.get_tree(Some(&s("abcdef"))).is_err());
}

#[test]
fn index_text_round_trips_through_parsing() {
    let mut r = Repository::new();
    r.stage(s("f1"), s("one")).unwrap();
    r.stage(s("f2"), s("two")).unwrap();
    let text = r.index_text();
    assert_eq!(text, "f1\nf2");
    assert_eq!(parse_index(&text), vec![s("f1"), s("f2")]);
}

#[test]
fn index_parsing_drops_empty_lines() {
    assert_eq!(parse_index(&s("a\n\nb\n")), vec![s("a"), s("b")]);
    assert_eq!(parse_index(&s("")), Vec::<String>::new());
}

#[test]
fn head_parsing_treats_blank_as_absent() {
    assert_eq!(parse_head(&s("")), None);
    assert_eq!(parse_head(&s("  \n")), None);
    assert_eq!(parse_head(&s("a9993e")), Some(s("a9993e")));
}

#[test]
fn create_new_tree_reports_nothing_on_empty_index() {
    let mut r = Repository::new();
    assert_eq!(r.create_new_tree(None, &Vec::new()), Ok(None));
}

#[test]
fn create_new_tree_stores_the_snapshot() {
    let mut r = Repository::new();
    r.stage(s("f1"), s("one")).unwrap();
    let th = r.create_new_tree(None, &vec![s("one")]).unwrap().unwrap();
    let body = r.load(&th).unwrap();
    assert_eq!(body, format!("blob\t{}\tf1", hash_string(&s("one"))));
}

#[test]
fn loading_a_persisted_index_keeps_only_usable_paths() {
    let mut r = Repository::new();
    r.set_index(vec![s("good"), s("bad\tpath"), s("also good")]);
    assert_eq!(r.get_index(), vec![s("good"), s("also good")]);
}
