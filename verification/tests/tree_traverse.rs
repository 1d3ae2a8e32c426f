//! Staging-tree behaviour, freezing, reconstitution and traversal.

use ostree_core::checksum::Checksum;
use ostree_core::checksum::ObjectName;
use ostree_core::checksum::ObjectType;
use ostree_core::codec::encode_commit;
use ostree_core::codec::CommitRecord;
use ostree_core::digest::checksum_bytes;
use ostree_core::error::StoreError;
use ostree_core::repo::Repo;
use ostree_core::tree::MutableTree;

fn meta_checksum(repo: &mut Repo) -> Checksum {
    repo.write_metadata(ObjectType::DirMeta, None, &vec![7, 7], None)
        .unwrap()
}

fn commit_on(repo: &mut Repo, tree: Checksum, meta: Checksum) -> Checksum {
    let rec = CommitRecord {
        tree_checksum: tree,
        meta_checksum: meta,
        parent: None,
        timestamp: 1,
        metadata: Vec::new(),
    };
    let bytes = encode_commit(&rec);
    repo.write_metadata(ObjectType::Commit, None, &bytes, None)
        .unwrap()
}

#[test]
fn lookup_replace_and_remove() {
    let mut t = MutableTree::new();
    let cs = Checksum::from_bytes([3u8; 32]);
    assert_eq!(t.lookup(0, "x"), (None, None));
    t.replace_file(0, "x", &cs).unwrap();
    assert_eq!(t.lookup(0, "x"), (Some(cs), None));
    let cs2 = Checksum::from_bytes([4u8; 32]);
    t.replace_file(0, "x", &cs2).unwrap();
    assert_eq!(t.lookup(0, "x"), (Some(cs2), None));
    t.remove(0, "x", false).unwrap();
    assert_eq!(t.lookup(0, "x"), (None, None));
    assert_eq!(t.remove(0, "x", false), Err(StoreError::NotFound));
    assert_eq!(t.remove(0, "x", true), Ok(()));
    assert_eq!(t.check_error(), Ok(()));
}

#[test]
fn namespace_collision_is_invalid_operation() {
    let mut t = MutableTree::new();
    let d = t.ensure_dir(0, "x").unwrap();
    let cs = Checksum::from_bytes([9u8; 32]);
    assert_eq!(t.replace_file(0, "x", &cs), Err(StoreError::InvalidOperation));
    // the tree is unchanged: "x" still denotes the same subdirectory
    assert_eq!(t.lookup(0, "x"), (None, Some(d)));
    // and the other direction collides too
    t.replace_file(0, "y", &cs).unwrap();
    assert_eq!(t.ensure_dir(0, "y"), Err(StoreError::InvalidOperation));
}

#[test]
fn ensure_dir_is_idempotent() {
    let mut t = MutableTree::new();
    let a = t.ensure_dir(0, "a").unwrap();
    let a2 = t.ensure_dir(0, "a").unwrap();
    assert_eq!(a, a2);
    assert_eq!(t.node_count(), 2);
}

#[test]
fn ensure_parent_dirs_returns_parent_of_last_segment() {
    let mut t = MutableTree::new();
    let meta = Checksum::from_bytes([5u8; 32]);
    let path: Vec<String> = vec!["a".to_string(), "b".to_string(), "c.txt".to_string()];
    let parent = t.ensure_parent_dirs(0, &path, &meta).unwrap();
    // the returned node is the one "a/b" walks to
    let ab: Vec<String> = vec!["a".to_string(), "b".to_string()];
    assert_eq!(t.walk(0, &ab, 0).unwrap(), parent);
    // every directory created along the way carries the default metadata
    let a = t.lookup(0, "a").1.unwrap();
    assert_eq!(t.metadata_checksum(a), Some(meta));
    assert_eq!(t.metadata_checksum(parent), Some(meta));
    // an empty path is refused
    let empty: Vec<String> = Vec::new();
    assert_eq!(
        t.ensure_parent_dirs(0, &empty, &meta),
        Err(StoreError::InvalidOperation)
    );
    // a file blocking the walk is a namespace conflict
    let f = Checksum::from_bytes([6u8; 32]);
    t.replace_file(parent, "blocked", &f).unwrap();
    let bad: Vec<String> = vec![
        "a".to_string(),
        "b".to_string(),
        "blocked".to_string(),
        "tail".to_string(),
    ];
    assert_eq!(
        t.ensure_parent_dirs(0, &bad, &meta),
        Err(StoreError::InvalidOperation)
    );
}

#[test]
fn walk_missing_segment_is_not_found() {
    let mut t = MutableTree::new();
    t.ensure_dir(0, "a").unwrap();
    let path: Vec<String> = vec!["a".to_string(), "nope".to_string()];
    assert_eq!(t.walk(0, &path, 0), Err(StoreError::NotFound));
    let skip: Vec<String> = vec!["ignored".to_string()];
    assert_eq!(t.walk(0, &skip, 1), Ok(0));
}

#[test]
fn tree_round_trip_through_the_store() {
    let mut repo = Repo::new();
    repo.prepare_transaction(None).unwrap();
    let meta = meta_checksum(&mut repo);
    let file1 = repo.write_content(None, &vec![1, 2], None).unwrap();
    let file2 = repo.write_content(None, &vec![3, 4], None).unwrap();

    let mut t = MutableTree::new();
    t.set_metadata_checksum(0, &meta);
    t.replace_file(0, "top.txt", &file1).unwrap();
    let sub = t.ensure_dir(0, "sub").unwrap();
    t.set_metadata_checksum(sub, &meta);
    t.replace_file(sub, "inner.txt", &file2).unwrap();

    let root_cs = repo.write_mtree(&mut t, None).unwrap();
    let back = MutableTree::from_checksum(&repo, &root_cs, &meta);
    assert_eq!(back.check_error(), Ok(()));
    assert_eq!(back.lookup(0, "top.txt"), (Some(file1), None));
    let sub2 = back.lookup(0, "sub").1.unwrap();
    assert_eq!(back.metadata_checksum(sub2), Some(meta));
    assert_eq!(back.lookup(sub2, "inner.txt"), (Some(file2), None));
    assert_eq!(back.node_count(), t.node_count());
    // freezing the reconstituted tree yields the identical checksum
    let mut back2 = back;
    let cs2 = repo.write_mtree(&mut back2, None).unwrap();
    assert_eq!(cs2, root_cs);
}

#[test]
fn from_checksum_defers_errors() {
    let repo = Repo::new();
    let absent = Checksum::from_bytes([0x11; 32]);
    let meta = Checksum::from_bytes([0x22; 32]);
    let t = MutableTree::from_checksum(&repo, &absent, &meta);
    assert_eq!(t.check_error(), Err(StoreError::NotFound));
}

#[test]
fn fill_empty_from_dirtree_fills_only_an_empty_root() {
    let mut repo = Repo::new();
    repo.prepare_transaction(None).unwrap();
    let meta = meta_checksum(&mut repo);
    let file1 = repo.write_content(None, &vec![8], None).unwrap();
    let mut t = MutableTree::new();
    t.set_metadata_checksum(0, &meta);
    t.replace_file(0, "f", &file1).unwrap();
    let root_cs = repo.write_mtree(&mut t, None).unwrap();

    let mut empty = MutableTree::new();
    assert!(empty.fill_empty_from_dirtree(&repo, &root_cs, &meta));
    assert_eq!(empty.check_error(), Ok(()));
    assert_eq!(empty.lookup(0, "f"), (Some(file1), None));
    // a tree that already has content refuses to be filled
    let mut full = MutableTree::new();
    full.replace_file(0, "g", &file1).unwrap();
    assert!(!full.fill_empty_from_dirtree(&repo, &root_cs, &meta));
}

#[test]
fn traversal_visits_each_object_exactly_once() {
    // the staged scenario: a/b/c.txt under shared directory metadata
    let mut repo = Repo::new();
    repo.prepare_transaction(None).unwrap();
    let meta = meta_checksum(&mut repo);
    let file_cs = repo.write_content(None, &vec![0xc0], None).unwrap();

    let mut t = MutableTree::new();
    t.set_metadata_checksum(0, &meta);
    let path: Vec<String> = vec!["a".to_string(), "b".to_string(), "c.txt".to_string()];
    let parent = t.ensure_parent_dirs(0, &path, &meta).unwrap();
    t.replace_file(parent, "c.txt", &file_cs).unwrap();
    let root_cs = repo.write_mtree(&mut t, None).unwrap();
    let commit_cs = commit_on(&mut repo, root_cs, meta);

    let visited = repo.traverse_commit(&commit_cs, -1, None).unwrap();
    // the commit, three distinct DirTrees, one shared DirMeta, one file
    assert_eq!(visited.len(), 6);
    let a_cs = t.contents_checksum(t.lookup(0, "a").1.unwrap()).unwrap();
    let b_cs = t.contents_checksum(parent).unwrap();
    let expect = vec![
        ObjectName::new(ObjectType::Commit, commit_cs),
        ObjectName::new(ObjectType::DirTree, root_cs),
        ObjectName::new(ObjectType::DirTree, a_cs),
        ObjectName::new(ObjectType::DirTree, b_cs),
        ObjectName::new(ObjectType::DirMeta, meta),
        ObjectName::new(ObjectType::File, file_cs),
    ];
    for e in &expect {
        assert!(visited.contains(e));
    }
    for (i, x) in visited.iter().enumerate() {
        for (j, y) in visited.iter().enumerate() {
            if i != j {
                assert_ne!(x, y);
            }
        }
    }
}

#[test]
fn traversal_reports_a_dangling_reference() {
    let mut repo = Repo::new();
    repo.prepare_transaction(None).unwrap();
    let dangling = Checksum::from_bytes([0x77; 32]);
    let meta = meta_checksum(&mut repo);
    let commit_cs = commit_on(&mut repo, dangling, meta);
    assert_eq!(
        repo.traverse_commit(&commit_cs, -1, None),
        Err(StoreError::NotFound)
    );
    let absent = Checksum::from_bytes([0x78; 32]);
    assert_eq!(
        repo.traverse_commit(&absent, -1, None),
        Err(StoreError::NotFound)
    );
}

#[test]
fn traversal_bounds_parent_commits_by_maxdepth() {
    let mut repo = Repo::new();
    repo.prepare_transaction(None).unwrap();
    let meta = meta_checksum(&mut repo);
    let mut t = MutableTree::new();
    t.set_metadata_checksum(0, &meta);
    let root_cs = repo.write_mtree(&mut t, None).unwrap();
    let parent_cs = commit_on(&mut repo, root_cs, meta);
    let child_rec = CommitRecord {
        tree_checksum: root_cs,
        meta_checksum: meta,
        parent: Some(parent_cs),
        timestamp: 2,
        metadata: Vec::new(),
    };
    let child_cs = repo
        .write_metadata(ObjectType::Commit, None, &encode_commit(&child_rec), None)
        .unwrap();
    // unbounded: both commits, the empty tree and the dirmeta
    let all = repo.traverse_commit(&child_cs, -1, None).unwrap();
    assert_eq!(all.len(), 4);
    // zero parent hops: the parent commit is not visited
    let shallow = repo.traverse_commit(&child_cs, 0, None).unwrap();
    assert_eq!(shallow.len(), 3);
    assert!(!shallow.contains(&ObjectName::new(ObjectType::Commit, parent_cs)));
}
