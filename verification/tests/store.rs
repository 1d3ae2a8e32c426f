//! Object store behaviour: content addressing, idempotent and validated
//! writes, the transaction protocol, refs and listings.

use ostree_core::checksum::Checksum;
use ostree_core::checksum::ObjectType;
use ostree_core::codec::encode_commit;
use ostree_core::codec::encode_dirmeta;
use ostree_core::codec::CommitRecord;
use ostree_core::codec::DirMetaParsed;
use ostree_core::digest::checksum_bytes;
use ostree_core::error::StoreError;
use ostree_core::repo::Cancellable;
use ostree_core::repo::RefPrior;
use ostree_core::repo::Repo;

fn open_repo() -> Repo {
    let mut repo = Repo::new();
    repo.prepare_transaction(None).unwrap();
    repo
}

#[test]
fn empty_content_has_known_checksum() {
    let cs = checksum_bytes(&Vec::new());
    assert_eq!(
        cs.to_hex(),
        "e3b0c44298fc1c149afbf4c8996fb92427ae41e4649b934ca495991b7852b855"
    );
}

#[test]
fn hex_round_trip() {
    let mut bytes = [0u8; 32];
    for i in 0..32 {
        bytes[i] = (7 * i + 3) as u8;
    }
    let cs = Checksum::from_bytes(bytes);
    let hex = cs.to_hex();
    assert_eq!(hex.len(), 64);
    let back = Checksum::from_hex(hex.as_str()).unwrap();
    assert_eq!(back, cs);
    assert!(Checksum::from_hex("abc").is_none());
    assert!(Checksum::from_hex(&"g".repeat(64)).is_none());
}

#[test]
fn content_addressing_same_bytes_same_checksum() {
    let b1: Vec<u8> = vec![1, 2, 3, 4];
    let b2: Vec<u8> = vec![1, 2, 3, 4];
    let b3: Vec<u8> = vec![1, 2, 3, 5];
    assert_eq!(checksum_bytes(&b1), checksum_bytes(&b2));
    assert_ne!(checksum_bytes(&b1), checksum_bytes(&b3));
    let mut repo = open_repo();
    let c1 = repo.write_content(None, &b1, None).unwrap();
    let c2 = repo.write_content(None, &b2, None).unwrap();
    assert_eq!(c1, c2);
}

#[test]
fn idempotent_write_is_a_no_op() {
    let mut repo = open_repo();
    let content: Vec<u8> = vec![9, 8, 7];
    let c1 = repo.write_content(None, &content, None).unwrap();
    assert_eq!(repo.staged.len(), 1);
    let c2 = repo.write_content(None, &content, None).unwrap();
    assert_eq!(c1, c2);
    assert_eq!(repo.staged.len(), 1);
    let stats = repo.commit_transaction(None).unwrap();
    assert_eq!(stats.objects_written, 1);
    assert_eq!(stats.bytes_written, 3);
}

#[test]
fn integrity_error_on_expected_mismatch() {
    let mut repo = open_repo();
    let content: Vec<u8> = vec![1, 2, 3];
    let wrong = Checksum::from_bytes([0u8; 32]);
    let r = repo.write_content(Some(&wrong), &content, None);
    assert_eq!(r, Err(StoreError::IntegrityError));
    assert_eq!(repo.staged.len(), 0);
    let right = checksum_bytes(&content);
    let r2 = repo.write_content(Some(&right), &content, None).unwrap();
    assert_eq!(r2, right);
}

#[test]
fn write_needs_open_transaction() {
    let mut repo = Repo::new();
    let r = repo.write_content(None, &vec![1], None);
    assert_eq!(r, Err(StoreError::InvalidState));
}

#[test]
fn nested_transaction_refused() {
    let mut repo = open_repo();
    assert_eq!(
        repo.prepare_transaction(None),
        Err(StoreError::TransactionInProgress)
    );
}

#[test]
fn commit_twice_and_abort_after_commit_refused() {
    let mut repo = open_repo();
    repo.write_content(None, &vec![5], None).unwrap();
    repo.commit_transaction(None).unwrap();
    assert_eq!(repo.commit_transaction(None), Err(StoreError::InvalidState));
    assert_eq!(repo.abort_transaction(None), Err(StoreError::InvalidState));
}

#[test]
fn abort_is_a_safe_no_op_when_nothing_is_open() {
    let mut repo = Repo::new();
    assert_eq!(repo.abort_transaction(None), Ok(()));
    assert_eq!(repo.abort_transaction(None), Ok(()));
}

#[test]
fn transaction_atomicity_abort_discards_batch() {
    let mut repo = open_repo();
    let c1 = repo.write_content(None, &vec![1], None).unwrap();
    // a failure strikes between the writes of the batch; the caller aborts
    let c2 = repo.write_content(None, &vec![2], None).unwrap();
    let target = checksum_bytes(&vec![1]);
    repo.queue_ref_update("main", &target, RefPrior::Any).unwrap();
    repo.abort_transaction(None).unwrap();
    assert!(!repo.has_object(ObjectType::File, &c1));
    assert!(!repo.has_object(ObjectType::File, &c2));
    assert_eq!(repo.require_rev("main"), Err(StoreError::NotFound));
    assert_eq!(repo.list_objects(None).unwrap().len(), 0);
}

#[test]
fn refs_resolve_after_commit() {
    let mut repo = open_repo();
    let content: Vec<u8> = vec![1, 1, 2];
    let cs = repo.write_content(None, &content, None).unwrap();
    repo.queue_ref_update("app/main", &cs, RefPrior::Absent).unwrap();
    repo.commit_transaction(None).unwrap();
    assert_eq!(repo.require_rev("app/main").unwrap(), cs);
    assert_eq!(repo.resolve_rev("missing", true).unwrap(), None);
    assert_eq!(repo.resolve_rev("missing", false), Err(StoreError::NotFound));
}

#[test]
fn ref_changed_when_precondition_fails() {
    let mut repo = open_repo();
    let cs = repo.write_content(None, &vec![3], None).unwrap();
    let other = Checksum::from_bytes([1u8; 32]);
    repo.queue_ref_update("main", &cs, RefPrior::At(other)).unwrap();
    assert_eq!(repo.commit_transaction(None), Err(StoreError::RefChanged));
    // the transaction is still open and can be aborted
    repo.abort_transaction(None).unwrap();
    assert_eq!(repo.list_objects(None).unwrap().len(), 0);
}

#[test]
fn cancellation_is_honored() {
    let mut repo = Repo::new();
    let mut c = Cancellable::new();
    c.cancel();
    assert!(c.is_cancelled());
    assert_eq!(
        repo.prepare_transaction(Some(&c)),
        Err(StoreError::Cancelled)
    );
    repo.prepare_transaction(None).unwrap();
    assert_eq!(
        repo.write_content(None, &vec![1], Some(&c)),
        Err(StoreError::Cancelled)
    );
    assert_eq!(
        repo.traverse_commit(&checksum_bytes(&vec![]), -1, Some(&c)),
        Err(StoreError::Cancelled)
    );
}

#[test]
fn load_and_query_file() {
    let mut repo = open_repo();
    let content: Vec<u8> = vec![10, 20, 30, 40];
    let cs = repo.write_content(None, &content, None).unwrap();
    assert_eq!(repo.load_file(&cs, None).unwrap(), content);
    assert_eq!(repo.query_file(&cs, None).unwrap(), 4);
    let absent = Checksum::from_bytes([0x5a; 32]);
    assert_eq!(repo.load_file(&absent, None), Err(StoreError::NotFound));
    // the same checksum under another kind is an integrity error
    assert_eq!(
        repo.read_object(ObjectType::DirMeta, &cs, None),
        Err(StoreError::IntegrityError)
    );
}

#[test]
fn list_refs_honors_prefix() {
    let mut repo = open_repo();
    let cs = repo.write_content(None, &vec![1], None).unwrap();
    repo.queue_ref_update("app/one", &cs, RefPrior::Any).unwrap();
    repo.queue_ref_update("os/two", &cs, RefPrior::Any).unwrap();
    repo.commit_transaction(None).unwrap();
    let all = repo.list_refs(None, None).unwrap();
    assert_eq!(all.len(), 2);
    let app = repo.list_refs(Some("app/"), None).unwrap();
    assert_eq!(app.len(), 1);
    assert_eq!(app[0].name, "app/one");
    assert_eq!(app[0].target, cs);
}

#[test]
fn list_objects_reports_loose_details() {
    let mut repo = open_repo();
    repo.write_content(None, &vec![1], None).unwrap();
    repo.write_metadata(ObjectType::DirMeta, None, &vec![2], None)
        .unwrap();
    repo.commit_transaction(None).unwrap();
    let objs = repo.list_objects(None).unwrap();
    assert_eq!(objs.len(), 2);
    for (_, details) in &objs {
        assert!(details.is_loose());
        assert_eq!(details.appearances().len(), 0);
    }
}

#[test]
fn list_commit_objects_by_hex_prefix() {
    let mut repo = open_repo();
    let rec = CommitRecord {
        tree_checksum: Checksum::from_bytes([1u8; 32]),
        meta_checksum: Checksum::from_bytes([2u8; 32]),
        parent: None,
        timestamp: 7,
        metadata: Vec::new(),
    };
    let bytes = encode_commit(&rec);
    let cs = repo
        .write_metadata(ObjectType::Commit, None, &bytes, None)
        .unwrap();
    repo.commit_transaction(None).unwrap();
    let hex = cs.to_hex();
    let all = repo.list_commit_objects_starting_with("", None).unwrap();
    assert_eq!(all.len(), 1);
    assert_eq!(all[0], cs);
    let some = repo
        .list_commit_objects_starting_with(&hex[0..2], None)
        .unwrap();
    assert_eq!(some.len(), 1);
    let none = if hex.starts_with("00") {
        repo.list_commit_objects_starting_with("ff", None).unwrap()
    } else {
        repo.list_commit_objects_starting_with("00", None).unwrap()
    };
    assert_eq!(none.len(), 0);
}

#[test]
fn dirmeta_round_trip() {
    let mut repo = open_repo();
    let meta = DirMetaParsed {
        uid: 1000,
        gid: 100,
        mode: 0o40755,
        xattrs: vec![1, 2, 3],
    };
    let bytes = encode_dirmeta(&meta);
    let cs = repo
        .write_metadata(ObjectType::DirMeta, None, &bytes, None)
        .unwrap();
    let back = repo.read_dirmeta(&cs, None).unwrap();
    assert_eq!(back.uid, 1000);
    assert_eq!(back.gid, 100);
    assert_eq!(back.mode, 0o40755);
    assert_eq!(back.xattrs, vec![1, 2, 3]);
    assert!(matches!(
        repo.read_dirmeta(&checksum_bytes(&vec![1]), None),
        Err(StoreError::NotFound)
    ));
}

#[test]
fn transaction_guard_commits_or_aborts() {
    let repo = Repo::new();
    let mut guard = match repo.auto_transaction(None) {
        Ok(g) => g,
        Err(_) => panic!("transaction refused"),
    };
    let cs = guard.repo.write_content(None, &vec![42], None).unwrap();
    assert!(guard.repo().has_object(ObjectType::File, &cs));
    let (repo, stats) = guard.commit(None);
    assert_eq!(stats.unwrap().objects_written, 1);
    assert!(repo.has_object(ObjectType::File, &cs));
    // a second guard, abandoned through abort, leaves no trace
    let mut guard2 = match repo.auto_transaction(None) {
        Ok(g) => g,
        Err(_) => panic!("transaction refused"),
    };
    let c2 = guard2.repo.write_content(None, &vec![43], None).unwrap();
    let repo = guard2.abort(None);
    assert!(!repo.has_object(ObjectType::File, &c2));
}
