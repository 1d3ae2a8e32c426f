//! The object store: durable checksum-addressed objects, named refs, and the
//! transactional write protocol that makes a batch of writes atomic.

use vstd::prelude::*;
use crate::checksum::Checksum;
use crate::checksum::ObjectName;
use crate::checksum::ObjectType;
use crate::object_details::ObjectDetails;
use crate::digest::checksum_bytes;
use crate::digest::digest_of;
use crate::error::StoreError;
use crate::util::bytes_eq;
use crate::util::clone_bytes;

verus! {

/// A cooperative cancellation signal handed to blocking store operations.
pub struct Cancellable {
    /// Whether cancellation has been requested.
    pub cancelled: bool,
}

impl Cancellable {
    /// A signal with no cancellation requested.
    pub fn new() -> (r: Cancellable)
        ensures
            !r.cancelled,
    {
        Cancellable { cancelled: false }
    }

    /// Request cancellation.
    pub fn cancel(&mut self)
        ensures
            final(self).cancelled,
    {
        self.cancelled = true;
    }

    /// Whether cancellation has been requested.
    pub fn is_cancelled(&self) -> (r: bool)
        ensures
            r == self.cancelled,
    {
        self.cancelled
    }
}

/// Whether an optional cancellation signal is set.
pub open spec fn spec_cancelled(c: Option<&Cancellable>) -> bool {
    match c {
        Some(x) => x.cancelled,
        None => false,
    }
}

pub(crate) fn check_cancelled(c: Option<&Cancellable>) -> (r: bool)
    ensures
        r == spec_cancelled(c),
{
    match c {
        Some(x) => x.cancelled,
        None => false,
    }
}

/// The transaction state of one store handle.
#[derive(Clone, Copy, Debug, PartialEq, Eq, Structural)]
pub enum TxnState {
    /// No transaction has been prepared yet.
    Idle,
    /// A transaction is open; writes are staged.
    Open,
    /// The most recent transaction was committed.
    Committed,
    /// The most recent transaction was aborted.
    Aborted,
}

/// What a committed transaction wrote.
#[derive(Clone, Copy, Debug, PartialEq, Eq, Structural)]
pub struct TransactionStats {
    /// How many new objects became durable.
    pub objects_written: u64,
    /// How many content bytes became durable (saturating).
    pub bytes_written: u64,
}

/// One stored object: its kind, checksum, canonical bytes and location info.
pub struct ObjectEntry {
    /// The kind the object is stored under.
    pub objtype: ObjectType,
    /// The digest of `content`.
    pub checksum: Checksum,
    /// The canonical object bytes.
    pub content: Vec<u8>,
    /// Whether the object is stored loose (one file per object).
    pub loose: bool,
    /// The packs the object also appears in.
    pub pack_appearances: Vec<Checksum>,
}

/// The key one object is addressed by: its kind and its digest.
pub open spec fn key_of(e: ObjectEntry) -> (ObjectType, Seq<u8>) {
    (e.objtype, e.checksum@)
}

/// The mapping from object keys to canonical bytes held by a sequence of
/// entries; later entries shadow earlier ones, though the store never holds
/// two entries with one key.
pub open spec fn entries_map(s: Seq<ObjectEntry>) -> Map<(ObjectType, Seq<u8>), Seq<u8>>
    decreases s.len(),
{
    if s.len() == 0 {
        Map::empty()
    } else {
        entries_map(s.drop_last()).insert(key_of(s.last()), s.last().content@)
    }
}

/// No two entries share a key.
pub open spec fn entries_unique(s: Seq<ObjectEntry>) -> bool {
    forall|i: int, j: int| 0 <= i < j < s.len() ==> key_of(s[i]) != key_of(s[j])
}

/// Every entry's checksum is the digest of its content.
pub open spec fn entries_valid(s: Seq<ObjectEntry>) -> bool {
    forall|i: int| 0 <= i < s.len() ==> (#[trigger] s[i]).checksum@ == digest_of(s[i].content@)
}

/// A key is in the map exactly when some entry carries it.
pub proof fn lemma_entries_map_exists(s: Seq<ObjectEntry>, k: (ObjectType, Seq<u8>))
    ensures
        entries_map(s).contains_key(k) <==> exists|i: int| 0 <= i < s.len() && key_of(s[i]) == k,
    decreases s.len(),
{
    if s.len() > 0 {
        lemma_entries_map_exists(s.drop_last(), k);
        if key_of(s.last()) == k {
            assert(key_of(s[s.len() - 1]) == k);
        } else if entries_map(s).contains_key(k) {
            let i = choose|i: int| 0 <= i < s.drop_last().len() && key_of(s.drop_last()[i]) == k;
            assert(key_of(s[i]) == k);
        } else {
            assert(forall|i: int| 0 <= i < s.len() - 1 ==> key_of(#[trigger] s[i]) == key_of(
                s.drop_last()[i],
            ));
        }
    }
}

/// With unique keys, each entry's key maps to that entry's content.
pub proof fn lemma_entries_map_value(s: Seq<ObjectEntry>, i: int)
    requires
        entries_unique(s),
        0 <= i < s.len(),
    ensures
        entries_map(s).contains_key(key_of(s[i])),
        entries_map(s)[key_of(s[i])] == s[i].content@,
    decreases s.len(),
{
    if i == s.len() - 1 {
    } else {
        assert(entries_unique(s.drop_last()));
        lemma_entries_map_value(s.drop_last(), i);
        assert(key_of(s[i]) != key_of(s.last()));
    }
}

/// The ref table: one named pointer at a commit checksum.
pub struct RefEntry {
    /// The ref name; unique in the catalog.
    pub name: String,
    /// The commit checksum the ref points at.
    pub target: Checksum,
}

impl Clone for RefEntry {
    fn clone(&self) -> (r: Self)
        ensures
            r == *self,
    {
        RefEntry { name: self.name.clone(), target: self.target }
    }
}

/// No two refs share a name.
pub open spec fn ref_names_unique(s: Seq<RefEntry>) -> bool {
    forall|i: int, j: int| 0 <= i < j < s.len() ==> s[i].name@ != s[j].name@
}

/// The name-to-target mapping held by a ref table.
pub open spec fn refs_map_of(s: Seq<RefEntry>) -> Map<Seq<char>, Seq<u8>>
    decreases s.len(),
{
    if s.len() == 0 {
        Map::empty()
    } else {
        refs_map_of(s.drop_last()).insert(s.last().name@, s.last().target@)
    }
}

/// A name is in the ref map exactly when some entry carries it.
pub proof fn lemma_refs_map_exists(s: Seq<RefEntry>, n: Seq<char>)
    ensures
        refs_map_of(s).contains_key(n) <==> exists|i: int| 0 <= i < s.len() && s[i].name@ == n,
    decreases s.len(),
{
    if s.len() > 0 {
        lemma_refs_map_exists(s.drop_last(), n);
        if s.last().name@ == n {
            assert(s[s.len() - 1].name@ == n);
        } else if refs_map_of(s).contains_key(n) {
            let i = choose|i: int| 0 <= i < s.drop_last().len() && s.drop_last()[i].name@ == n;
            assert(s[i].name@ == n);
        } else {
            assert(forall|i: int| 0 <= i < s.len() - 1 ==> (#[trigger] s[i]).name@ == s.drop_last()[i].name@);
        }
    }
}

/// With unique names, each ref maps to its own target.
pub proof fn lemma_refs_map_value(s: Seq<RefEntry>, i: int)
    requires
        ref_names_unique(s),
        0 <= i < s.len(),
    ensures
        refs_map_of(s).contains_key(s[i].name@),
        refs_map_of(s)[s[i].name@] == s[i].target@,
    decreases s.len(),
{
    if i == s.len() - 1 {
    } else {
        assert(ref_names_unique(s.drop_last()));
        lemma_refs_map_value(s.drop_last(), i);
        assert(s[i].name@ != s.last().name@);
    }
}

/// The precondition a queued ref update places on the ref's prior value.
pub enum RefPrior {
    /// Last-writer-wins: no precondition.
    Any,
    /// The ref must not exist yet.
    Absent,
    /// The ref must currently point at this checksum.
    At(Checksum),
}

/// One ref update queued inside an open transaction.
pub struct RefUpdate {
    /// The ref name to update.
    pub name: String,
    /// The commit checksum the ref will point at.
    pub target: Checksum,
    /// The optimistic precondition checked at commit time.
    pub prior: RefPrior,
}

/// Whether a queued update's precondition holds against a ref map.
pub open spec fn ref_update_ok(m: Map<Seq<char>, Seq<u8>>, u: RefUpdate) -> bool {
    match u.prior {
        RefPrior::Any => true,
        RefPrior::Absent => !m.contains_key(u.name@),
        RefPrior::At(c) => m.contains_key(u.name@) && m[u.name@] == c@,
    }
}

/// The ref map after applying a batch of updates in order.
pub open spec fn apply_ref_updates(m: Map<Seq<char>, Seq<u8>>, s: Seq<RefUpdate>) -> Map<
    Seq<char>,
    Seq<u8>,
>
    decreases s.len(),
{
    if s.len() == 0 {
        m
    } else {
        apply_ref_updates(m, s.drop_last()).insert(s.last().name@, s.last().target@)
    }
}

/// An open, in-memory handle on one object store.
pub struct Repo {
    /// Objects visible to every reader: the durable store.
    pub committed: Vec<ObjectEntry>,
    /// Objects written by the open transaction, not yet durable.
    pub staged: Vec<ObjectEntry>,
    /// The durable ref catalog.
    pub refs: Vec<RefEntry>,
    /// Ref updates queued by the open transaction.
    pub staged_refs: Vec<RefUpdate>,
    /// The transaction state of this handle.
    pub state: TxnState,
}

impl Repo {
    /// The well-formedness every operation preserves: unique object keys,
    /// checksums that really are digests of their content, unique ref names,
    /// and nothing staged outside an open transaction.
    pub open spec fn wf(&self) -> bool {
        &&& entries_unique(self.committed@ + self.staged@)
        &&& entries_valid(self.committed@ + self.staged@)
        &&& ref_names_unique(self.refs@)
        &&& (self.state != TxnState::Open ==> self.staged@.len() == 0 && self.staged_refs@.len()
            == 0)
    }

    /// The durable objects, as a map from (kind, checksum) to bytes.
    pub open spec fn committed_map(&self) -> Map<(ObjectType, Seq<u8>), Seq<u8>> {
        entries_map(self.committed@)
    }

    /// What this handle's reads see: durable objects plus its own staged
    /// writes (read-your-writes).
    pub open spec fn visible_map(&self) -> Map<(ObjectType, Seq<u8>), Seq<u8>> {
        entries_map(self.committed@ + self.staged@)
    }

    /// The durable ref catalog as a map from name to commit checksum.
    pub open spec fn refs_map(&self) -> Map<Seq<char>, Seq<u8>> {
        refs_map_of(self.refs@)
    }

    /// A fresh, empty store.
    pub fn new() -> (r: Repo)
        ensures
            r.wf(),
            r.state == TxnState::Idle,
            r.visible_map() =~= Map::<(ObjectType, Seq<u8>), Seq<u8>>::empty(),
            r.committed_map() =~= Map::<(ObjectType, Seq<u8>), Seq<u8>>::empty(),
            r.refs_map() =~= Map::<Seq<char>, Seq<u8>>::empty(),
    {
        let r = Repo {
            committed: Vec::new(),
            staged: Vec::new(),
            refs: Vec::new(),
            staged_refs: Vec::new(),
            state: TxnState::Idle,
        };
        proof {
            assert(r.committed@ + r.staged@ =~= Seq::<ObjectEntry>::empty());
        }
        r
    }

    /// Open a transaction on this handle. Fails with `TransactionInProgress`
    /// if one is already open; otherwise all subsequent object writes are
    /// staged until commit.
    pub fn prepare_transaction(&mut self, cancellable: Option<&Cancellable>) -> (r: Result<
        (),
        StoreError,
    >)
        requires
            old(self).wf(),
        ensures
            final(self).wf(),
            final(self).committed@ == old(self).committed@,
            final(self).refs@ == old(self).refs@,
            spec_cancelled(cancellable) ==> r == Err::<(), StoreError>(StoreError::Cancelled)
                && *final(self) == *old(self),
            !spec_cancelled(cancellable) && old(self).state == TxnState::Open ==> r == Err::<
                (),
                StoreError,
            >(StoreError::TransactionInProgress) && *final(self) == *old(self),
            !spec_cancelled(cancellable) && old(self).state != TxnState::Open ==> r == Ok::<
                (),
                StoreError,
            >(()) && final(self).state == TxnState::Open && final(self).staged@.len() == 0
                && final(self).staged_refs@.len() == 0,
    {
        if check_cancelled(cancellable) {
            return Err(StoreError::Cancelled);
        }
        if self.state == TxnState::Open {
            return Err(StoreError::TransactionInProgress);
        }
        self.state = TxnState::Open;
        Ok(())
    }

    /// Abort the open transaction: discard every staged object and queued ref
    /// update. A safety net, so it is a no-op when nothing is open; only a
    /// transaction already committed on this handle refuses it.
    pub fn abort_transaction(&mut self, _cancellable: Option<&Cancellable>) -> (r: Result<
        (),
        StoreError,
    >)
        requires
            old(self).wf(),
        ensures
            final(self).wf(),
            final(self).committed@ == old(self).committed@,
            final(self).refs@ == old(self).refs@,
            final(self).committed_map() == old(self).committed_map(),
            final(self).refs_map() == old(self).refs_map(),
            old(self).state == TxnState::Committed ==> r == Err::<(), StoreError>(
                StoreError::InvalidState,
            ) && *final(self) == *old(self),
            old(self).state != TxnState::Committed ==> r == Ok::<(), StoreError>(())
                && final(self).staged@.len() == 0 && final(self).staged_refs@.len() == 0
                && final(self).state == (if old(self).state == TxnState::Open {
                TxnState::Aborted
            } else {
                old(self).state
            }),
    {
        if self.state == TxnState::Committed {
            return Err(StoreError::InvalidState);
        }
        if self.state == TxnState::Open {
            self.state = TxnState::Aborted;
        }
        self.staged.clear();
        self.staged_refs.clear();
        proof {
            assert(self.committed@ + self.staged@ =~= self.committed@);
            let c = old(self).committed@ + old(self).staged@;
            assert forall|i: int, j: int|
                0 <= i < j < self.committed@.len() implies key_of(self.committed@[i]) != key_of(
                self.committed@[j],
            ) by {
                assert(c[i] == self.committed@[i]);
                assert(c[j] == self.committed@[j]);
            }
            assert forall|i: int|
                0 <= i < self.committed@.len() implies (#[trigger] self.committed@[i]).checksum@
                == digest_of(self.committed@[i].content@) by {
                assert(c[i] == self.committed@[i]);
            }
        }
        Ok(())
    }

    /// Find the entry holding `(objtype, checksum)` in one entry table.
    fn find_entry(v: &Vec<ObjectEntry>, objtype: ObjectType, checksum: &Checksum) -> (r: Option<
        usize,
    >)
        ensures
            match r {
                Some(i) => 0 <= i < v@.len() && key_of(v@[i as int]) == (objtype, checksum@),
                None => forall|i: int|
                    0 <= i < v@.len() ==> key_of(#[trigger] v@[i]) != (objtype, checksum@),
            },
    {
        let mut i: usize = 0;
        while i < v.len()
            invariant
                i <= v@.len(),
                forall|j: int| 0 <= j < i ==> key_of(#[trigger] v@[j]) != (objtype, checksum@),
            decreases v@.len() - i,
        {
            if v[i].objtype == objtype && v[i].checksum == *checksum {
                return Some(i);
            }
            i = i + 1;
        }
        None
    }

    /// Find any entry with this checksum, of whatever kind.
    fn find_any_type(v: &Vec<ObjectEntry>, checksum: &Checksum) -> (r: Option<usize>)
        ensures
            match r {
                Some(i) => 0 <= i < v@.len() && v@[i as int].checksum@ == checksum@,
                None => forall|i: int|
                    0 <= i < v@.len() ==> (#[trigger] v@[i]).checksum@ != checksum@,
            },
    {
        let mut i: usize = 0;
        while i < v.len()
            invariant
                i <= v@.len(),
                forall|j: int| 0 <= j < i ==> (#[trigger] v@[j]).checksum@ != checksum@,
            decreases v@.len() - i,
        {
            if v[i].checksum == *checksum {
                return Some(i);
            }
            i = i + 1;
        }
        None
    }

    /// Whether an object of this kind and checksum is visible to this handle.
    /// Never fails.
    pub fn has_object(&self, objtype: ObjectType, checksum: &Checksum) -> (r: bool)
        requires
            self.wf(),
        ensures
            r == self.visible_map().contains_key((objtype, checksum@)),
    {
        let ghost all = self.committed@ + self.staged@;
        proof {
            lemma_entries_map_exists(all, (objtype, checksum@));
        }
        if let Some(i) = Self::find_entry(&self.committed, objtype, checksum) {
            proof {
                assert(all[i as int] == self.committed@[i as int]);
            }
            return true;
        }
        if let Some(i) = Self::find_entry(&self.staged, objtype, checksum) {
            proof {
                assert(all[self.committed@.len() + i as int] == self.staged@[i as int]);
            }
            return true;
        }
        proof {
            assert(forall|i: int| 0 <= i < all.len() ==> key_of(#[trigger] all[i]) != (
            objtype,
            checksum@,
            )) by {
                assert(forall|i: int|
                    0 <= i < self.committed@.len() ==> all[i] == (#[trigger] self.committed@[i]));
                assert(forall|i: int|
                    0 <= i < self.staged@.len() ==> all[self.committed@.len() + i] == (
                    #[trigger] self.staged@[i]));
            }
        }
        false
    }

    /// Read the canonical bytes of the object stored under this kind and
    /// checksum. Fails with `NotFound` if the checksum is wholly absent, and
    /// with `IntegrityError` if it is stored only under a different kind.
    pub fn read_object(&self, objtype: ObjectType, checksum: &Checksum, cancellable: Option<
        &Cancellable,
    >) -> (r: Result<Vec<u8>, StoreError>)
        requires
            self.wf(),
        ensures
            spec_cancelled(cancellable) ==> r == Err::<Vec<u8>, StoreError>(StoreError::Cancelled),
            !spec_cancelled(cancellable) ==> match r {
                Ok(b) => self.visible_map().contains_key((objtype, checksum@)) && b@
                    == self.visible_map()[(objtype, checksum@)] && checksum@ == digest_of(b@),
                Err(e) => !self.visible_map().contains_key((objtype, checksum@)) && (e
                    == StoreError::IntegrityError <==> exists|t: ObjectType|
                    self.visible_map().contains_key((t, checksum@))) && (e == StoreError::NotFound
                    || e == StoreError::IntegrityError),
            },
    {
        if check_cancelled(cancellable) {
            return Err(StoreError::Cancelled);
        }
        let ghost all = self.committed@ + self.staged@;
        proof {
            lemma_entries_map_exists(all, (objtype, checksum@));
            assert(forall|i: int|
                0 <= i < self.committed@.len() ==> all[i] == (#[trigger] self.committed@[i]));
            assert(forall|i: int|
                0 <= i < self.staged@.len() ==> all[self.committed@.len() + i] == (
                #[trigger] self.staged@[i]));
        }
        if let Some(i) = Self::find_entry(&self.committed, objtype, checksum) {
            proof {
                lemma_entries_map_value(all, i as int);
            }
            return Ok(clone_bytes(&self.committed[i].content));
        }
        if let Some(i) = Self::find_entry(&self.staged, objtype, checksum) {
            proof {
                lemma_entries_map_value(all, self.committed@.len() + i as int);
            }
            return Ok(clone_bytes(&self.staged[i].content));
        }
        let other = match Self::find_any_type(&self.committed, checksum) {
            Some(i) => true,
            None => Self::find_any_type(&self.staged, checksum).is_some(),
        };
        if other {
            proof {
                assert(exists|j: int| 0 <= j < all.len() && (#[trigger] all[j]).checksum@
                    == checksum@);
                let j = choose|j: int| 0 <= j < all.len() && (#[trigger] all[j]).checksum@
                    == checksum@;
                lemma_entries_map_exists(all, key_of(all[j]));
                assert(self.visible_map().contains_key((all[j].objtype, checksum@)));
            }
            Err(StoreError::IntegrityError)
        } else {
            proof {
                assert(forall|t: ObjectType|
                    !self.visible_map().contains_key((t, checksum@))) by {
                    assert forall|t: ObjectType|
                        !self.visible_map().contains_key((t, checksum@)) by {
                        lemma_entries_map_exists(all, (t, checksum@));
                    }
                }
            }
            Err(StoreError::NotFound)
        }
    }

    /// Stage one object write. Computes the checksum, validates it against
    /// `expected` and against any object already stored under it, and stages
    /// the bytes if they are new.
    fn write_object(&mut self, objtype: ObjectType, expected: Option<&Checksum>, content: &Vec<
        u8,
    >, cancellable: Option<&Cancellable>) -> (r: Result<Checksum, StoreError>)
        requires
            old(self).wf(),
        ensures
            final(self).wf(),
            final(self).committed@ == old(self).committed@,
            final(self).refs@ == old(self).refs@,
            final(self).staged_refs@ == old(self).staged_refs@,
            final(self).state == old(self).state,
            spec_cancelled(cancellable) ==> r == Err::<Checksum, StoreError>(StoreError::Cancelled)
                && *final(self) == *old(self),
            !spec_cancelled(cancellable) && old(self).state != TxnState::Open ==> r == Err::<
                Checksum,
                StoreError,
            >(StoreError::InvalidState) && *final(self) == *old(self),
            !spec_cancelled(cancellable) && old(self).state == TxnState::Open ==> {
                let cs = digest_of(content@);
                let k = (objtype, cs);
                &&& (expected matches Some(e) && e@ != cs) ==> r == Err::<Checksum, StoreError>(
                    StoreError::IntegrityError,
                ) && *final(self) == *old(self)
                &&& !(expected matches Some(e) && e@ != cs) ==> {
                    &&& old(self).visible_map().contains_key(k) && old(self).visible_map()[k]
                        != content@ ==> r == Err::<Checksum, StoreError>(StoreError::IntegrityError)
                        && *final(self) == *old(self)
                    &&& old(self).visible_map().contains_key(k) && old(self).visible_map()[k]
                        == content@ ==> (r matches Ok(c) && c@ == cs) && *final(self) == *old(self)
                    &&& !old(self).visible_map().contains_key(k) ==> (r matches Ok(c) && c@ == cs)
                        && final(self).visible_map() == old(self).visible_map().insert(k, content@)
                        && final(self).staged@.len() == old(self).staged@.len() + 1
                }
            },
    {
        if check_cancelled(cancellable) {
            return Err(StoreError::Cancelled);
        }
        if self.state != TxnState::Open {
            return Err(StoreError::InvalidState);
        }
        let cs = checksum_bytes(content);
        if let Some(e) = expected {
            if !(*e == cs) {
                return Err(StoreError::IntegrityError);
            }
        }
        let ghost all = self.committed@ + self.staged@;
        let ghost k = (objtype, digest_of(content@));
        proof {
            lemma_entries_map_exists(all, k);
            assert(forall|i: int|
                0 <= i < self.committed@.len() ==> all[i] == (#[trigger] self.committed@[i]));
            assert(forall|i: int|
                0 <= i < self.staged@.len() ==> all[self.committed@.len() + i] == (
                #[trigger] self.staged@[i]));
        }
        let found = match Self::find_entry(&self.committed, objtype, &cs) {
            Some(i) => {
                proof {
                    lemma_entries_map_value(all, i as int);
                }
                Some(bytes_eq(&self.committed[i].content, content))
            },
            None => match Self::find_entry(&self.staged, objtype, &cs) {
                Some(i) => {
                    proof {
                        lemma_entries_map_value(all, self.committed@.len() + i as int);
                    }
                    Some(bytes_eq(&self.staged[i].content, content))
                },
                None => None,
            },
        };
        match found {
            Some(true) => Ok(cs),
            Some(false) => Err(StoreError::IntegrityError),
            None => {
                proof {
                    assert(!self.visible_map().contains_key(k));
                }
                let entry = ObjectEntry {
                    objtype,
                    checksum: cs,
                    content: clone_bytes(content),
                    loose: true,
                    pack_appearances: Vec::new(),
                };
                self.staged.push(entry);
                proof {
                    let all2 = self.committed@ + self.staged@;
                    assert(all2 =~= all.push(self.staged@.last()));
                    assert(all2.drop_last() =~= all);
                    assert(entries_map(all2) == entries_map(all).insert(k, content@));
                    assert(entries_unique(all2)) by {
                        assert(forall|i: int|
                            0 <= i < all.len() ==> all2[i] == (#[trigger] all[i]));
                        assert forall|i: int, j: int|
                            0 <= i < j < all2.len() implies key_of(all2[i]) != key_of(
                            all2[j],
                        ) by {
                            if j == all2.len() - 1 {
                                lemma_entries_map_exists(all, key_of(all2[i]));
                            }
                        }
                    }
                    assert(entries_valid(all2)) by {
                        assert(forall|i: int|
                            0 <= i < all.len() ==> all2[i] == (#[trigger] all[i]));
                    }
                }
                Ok(cs)
            },
        }
    }

    /// Write a content object (a regular file's bytes). If
    /// `expected_checksum` is supplied and does not match the computed
    /// digest, fails with `IntegrityError` and writes nothing; writing bytes
    /// already stored is a validated no-op.
    pub fn write_content(&mut self, expected_checksum: Option<&Checksum>, content: &Vec<u8>,
        cancellable: Option<&Cancellable>) -> (r: Result<Checksum, StoreError>)
        requires
            old(self).wf(),
        ensures
            final(self).wf(),
            final(self).committed@ == old(self).committed@,
            final(self).refs@ == old(self).refs@,
            final(self).staged_refs@ == old(self).staged_refs@,
            final(self).state == old(self).state,
            spec_cancelled(cancellable) ==> r == Err::<Checksum, StoreError>(StoreError::Cancelled)
                && *final(self) == *old(self),
            !spec_cancelled(cancellable) && old(self).state != TxnState::Open ==> r == Err::<
                Checksum,
                StoreError,
            >(StoreError::InvalidState) && *final(self) == *old(self),
            !spec_cancelled(cancellable) && old(self).state == TxnState::Open ==> {
                let cs = digest_of(content@);
                let k = (ObjectType::File, cs);
                &&& (expected_checksum matches Some(e) && e@ != cs) ==> r == Err::<
                    Checksum,
                    StoreError,
                >(StoreError::IntegrityError) && *final(self) == *old(self)
                &&& !(expected_checksum matches Some(e) && e@ != cs) ==> {
                    &&& old(self).visible_map().contains_key(k) && old(self).visible_map()[k]
                        != content@ ==> r == Err::<Checksum, StoreError>(StoreError::IntegrityError)
                        && *final(self) == *old(self)
                    &&& old(self).visible_map().contains_key(k) && old(self).visible_map()[k]
                        == content@ ==> (r matches Ok(c) && c@ == cs) && *final(self) == *old(self)
                    &&& !old(self).visible_map().contains_key(k) ==> (r matches Ok(c) && c@ == cs)
                        && final(self).visible_map() == old(self).visible_map().insert(k, content@)
                        && final(self).staged@.len() == old(self).staged@.len() + 1
                }
            },
    {
        self.write_object(ObjectType::File, expected_checksum, content, cancellable)
    }

    /// Write a metadata object of the given kind (dirtree, dirmeta, commit or
    /// detached commit metadata), with the same validation as
    /// [`Repo::write_content`].
    pub fn write_metadata(&mut self, objtype: ObjectType, expected_checksum: Option<&Checksum>,
        object: &Vec<u8>, cancellable: Option<&Cancellable>) -> (r: Result<Checksum, StoreError>)
        requires
            old(self).wf(),
        ensures
            final(self).wf(),
            final(self).committed@ == old(self).committed@,
            final(self).refs@ == old(self).refs@,
            final(self).staged_refs@ == old(self).staged_refs@,
            final(self).state == old(self).state,
            spec_cancelled(cancellable) ==> r == Err::<Checksum, StoreError>(StoreError::Cancelled)
                && *final(self) == *old(self),
            !spec_cancelled(cancellable) && old(self).state != TxnState::Open ==> r == Err::<
                Checksum,
                StoreError,
            >(StoreError::InvalidState) && *final(self) == *old(self),
            !spec_cancelled(cancellable) && old(self).state == TxnState::Open ==> {
                let cs = digest_of(object@);
                let k = (objtype, cs);
                &&& (expected_checksum matches Some(e) && e@ != cs) ==> r == Err::<
                    Checksum,
                    StoreError,
                >(StoreError::IntegrityError) && *final(self) == *old(self)
                &&& !(expected_checksum matches Some(e) && e@ != cs) ==> {
                    &&& old(self).visible_map().contains_key(k) && old(self).visible_map()[k]
                        != object@ ==> r == Err::<Checksum, StoreError>(StoreError::IntegrityError)
                        && *final(self) == *old(self)
                    &&& old(self).visible_map().contains_key(k) && old(self).visible_map()[k]
                        == object@ ==> (r matches Ok(c) && c@ == cs) && *final(self) == *old(self)
                    &&& !old(self).visible_map().contains_key(k) ==> (r matches Ok(c) && c@ == cs)
                        && final(self).visible_map() == old(self).visible_map().insert(k, object@)
                        && final(self).staged@.len() == old(self).staged@.len() + 1
                }
            },
    {
        self.write_object(objtype, expected_checksum, object, cancellable)
    }

    /// Load the content bytes of a regular-file object.
    pub fn load_file(&self, checksum: &Checksum, cancellable: Option<&Cancellable>) -> (r: Result<
        Vec<u8>,
        StoreError,
    >)
        requires
            self.wf(),
        ensures
            spec_cancelled(cancellable) ==> r == Err::<Vec<u8>, StoreError>(StoreError::Cancelled),
            !spec_cancelled(cancellable) ==> match r {
                Ok(b) => self.visible_map().contains_key((ObjectType::File, checksum@)) && b@
                    == self.visible_map()[(ObjectType::File, checksum@)],
                Err(e) => !self.visible_map().contains_key((ObjectType::File, checksum@)) && (e
                    == StoreError::IntegrityError <==> exists|t: ObjectType|
                    self.visible_map().contains_key((t, checksum@))) && (e == StoreError::NotFound
                    || e == StoreError::IntegrityError),
            },
    {
        self.read_object(ObjectType::File, checksum, cancellable)
    }

    /// Query the byte length of a regular-file object without copying its
    /// content.
    pub fn query_file(&self, checksum: &Checksum, cancellable: Option<&Cancellable>) -> (r: Result<
        u64,
        StoreError,
    >)
        requires
            self.wf(),
        ensures
            spec_cancelled(cancellable) ==> r == Err::<u64, StoreError>(StoreError::Cancelled),
            !spec_cancelled(cancellable) ==> match r {
                Ok(n) => self.visible_map().contains_key((ObjectType::File, checksum@)) && n
                    == self.visible_map()[(ObjectType::File, checksum@)].len(),
                Err(e) => !self.visible_map().contains_key((ObjectType::File, checksum@)) && (e
                    == StoreError::IntegrityError <==> exists|t: ObjectType|
                    self.visible_map().contains_key((t, checksum@))) && (e == StoreError::NotFound
                    || e == StoreError::IntegrityError),
            },
    {
        if check_cancelled(cancellable) {
            return Err(StoreError::Cancelled);
        }
        let ghost all = self.committed@ + self.staged@;
        proof {
            lemma_entries_map_exists(all, (ObjectType::File, checksum@));
            assert(forall|i: int|
                0 <= i < self.committed@.len() ==> all[i] == (#[trigger] self.committed@[i]));
            assert(forall|i: int|
                0 <= i < self.staged@.len() ==> all[self.committed@.len() + i] == (
                #[trigger] self.staged@[i]));
        }
        if let Some(i) = Self::find_entry(&self.committed, ObjectType::File, checksum) {
            proof {
                lemma_entries_map_value(all, i as int);
            }
            return Ok(self.committed[i].content.len() as u64);
        }
        if let Some(i) = Self::find_entry(&self.staged, ObjectType::File, checksum) {
            proof {
                lemma_entries_map_value(all, self.committed@.len() + i as int);
            }
            return Ok(self.staged[i].content.len() as u64);
        }
        let other = match Self::find_any_type(&self.committed, checksum) {
            Some(_) => true,
            None => Self::find_any_type(&self.staged, checksum).is_some(),
        };
        if other {
            proof {
                assert(exists|j: int| 0 <= j < all.len() && (#[trigger] all[j]).checksum@
                    == checksum@);
                let j = choose|j: int| 0 <= j < all.len() && (#[trigger] all[j]).checksum@
                    == checksum@;
                lemma_entries_map_exists(all, key_of(all[j]));
                assert(self.visible_map().contains_key((all[j].objtype, checksum@)));
            }
            Err(StoreError::IntegrityError)
        } else {
            proof {
                assert forall|t: ObjectType|
                    !self.visible_map().contains_key((t, checksum@)) by {
                    lemma_entries_map_exists(all, (t, checksum@));
                }
            }
            Err(StoreError::NotFound)
        }
    }
}

/// Everything a well-formed handle can see is stored under the digest of
/// its own bytes.
pub proof fn lemma_visible_valid(repo: &Repo)
    requires
        repo.wf(),
    ensures
        forall|k: (ObjectType, Seq<u8>)|
            #[trigger] repo.visible_map().contains_key(k) ==> digest_of(repo.visible_map()[k])
                == k.1,
{
    let all = repo.committed@ + repo.staged@;
    assert forall|k: (ObjectType, Seq<u8>)|
        #[trigger] repo.visible_map().contains_key(k) implies digest_of(repo.visible_map()[k])
        == k.1 by {
        lemma_entries_map_exists(all, k);
        let i = choose|i: int| 0 <= i < all.len() && key_of(#[trigger] all[i]) == k;
        lemma_entries_map_value(all, i);
        assert(all[i].checksum@ == digest_of(all[i].content@));
    }
}

/// The total content bytes held by a sequence of entries.
pub open spec fn staged_bytes(s: Seq<ObjectEntry>) -> nat
    decreases s.len(),
{
    if s.len() == 0 {
        0
    } else {
        staged_bytes(s.drop_last()) + s.last().content@.len()
    }
}

/// Every ref update queued in `pre` has its precondition met by `pre`'s
/// durable catalog.
pub open spec fn ref_updates_ok(pre: Repo) -> bool {
    forall|i: int|
        0 <= i < pre.staged_refs@.len() ==> ref_update_ok(
            pre.refs_map(),
            #[trigger] pre.staged_refs@[i],
        )
}

/// The relation between a store before and after a successful commit: the
/// whole staged batch becomes durable, every queued ref update is applied,
/// and the stats count exactly that batch.
pub open spec fn commit_applies(pre: Repo, post: Repo, st: TransactionStats) -> bool {
    &&& post.committed_map() == pre.visible_map()
    &&& post.refs_map() == apply_ref_updates(pre.refs_map(), pre.staged_refs@)
    &&& post.state == TxnState::Committed
    &&& post.staged@.len() == 0
    &&& post.staged_refs@.len() == 0
    &&& st.objects_written == pre.staged@.len()
    &&& st.bytes_written == (if staged_bytes(pre.staged@) > u64::MAX {
        u64::MAX as int
    } else {
        staged_bytes(pre.staged@) as int
    })
}

/// A ref table whose names and targets match a map holds exactly that map.
pub proof fn lemma_refs_map_ext(a: Seq<RefEntry>, b: Map<Seq<char>, Seq<u8>>)
    requires
        ref_names_unique(a),
        forall|n: Seq<char>| #[trigger] b.contains_key(n) <==> exists|i: int|
            0 <= i < a.len() && (#[trigger] a[i]).name@ == n,
        forall|i: int|
            0 <= i < a.len() ==> b.contains_key((#[trigger] a[i]).name@) && b[a[i].name@]
                == a[i].target@,
    ensures
        refs_map_of(a) == b,
{
    assert forall|n: Seq<char>| refs_map_of(a).contains_key(n) <==> b.contains_key(n) by {
        lemma_refs_map_exists(a, n);
    }
    assert forall|n: Seq<char>| refs_map_of(a).contains_key(n) implies refs_map_of(a)[n] == b[n] by {
        lemma_refs_map_exists(a, n);
        let i = choose|i: int| 0 <= i < a.len() && (#[trigger] a[i]).name@ == n;
        lemma_refs_map_value(a, i);
    }
    assert(refs_map_of(a) =~= b);
}

impl Repo {
    /// Find the ref with this name.
    fn find_ref(refs: &Vec<RefEntry>, name: &str) -> (r: Option<usize>)
        ensures
            match r {
                Some(i) => 0 <= i < refs@.len() && refs@[i as int].name@ == name@,
                None => forall|i: int| 0 <= i < refs@.len() ==> (#[trigger] refs@[i]).name@ != name@,
            },
    {
        let mut i: usize = 0;
        while i < refs.len()
            invariant
                i <= refs@.len(),
                forall|j: int| 0 <= j < i ==> (#[trigger] refs@[j]).name@ != name@,
            decreases refs@.len() - i,
        {
            if crate::text::str_eq(refs[i].name.as_str(), name) {
                return Some(i);
            }
            i = i + 1;
        }
        None
    }

    /// Point the named ref at `target`, inserting or replacing.
    fn set_ref_raw(refs: &mut Vec<RefEntry>, name: &String, target: Checksum)
        requires
            ref_names_unique(old(refs)@),
        ensures
            ref_names_unique(final(refs)@),
            refs_map_of(final(refs)@) == refs_map_of(old(refs)@).insert(name@, target@),
    {
        let ghost m2 = refs_map_of(old(refs)@).insert(name@, target@);
        match Self::find_ref(refs, name.as_str()) {
            Some(i) => {
                refs[i] = RefEntry { name: name.clone(), target };
                proof {
                    let a = refs@;
                    let a0 = old(refs)@;
                    assert forall|j: int, k: int|
                        0 <= j < k < a.len() implies a[j].name@ != a[k].name@ by {
                        assert(a[j].name@ == a0[j].name@);
                        assert(a[k].name@ == a0[k].name@);
                    }
                    assert forall|n: Seq<char>|
                        #[trigger] m2.contains_key(n) implies exists|j: int|
                        0 <= j < a.len() && (#[trigger] a[j]).name@ == n by {
                        if n == name@ {
                            assert(a[i as int].name@ == n);
                        } else {
                            lemma_refs_map_exists(a0, n);
                            let j = choose|j: int| 0 <= j < a0.len() && (#[trigger] a0[j]).name@
                                == n;
                            assert(a[j].name@ == n);
                        }
                    }
                    assert forall|n: Seq<char>|
                        (exists|j: int| 0 <= j < a.len() && (#[trigger] a[j]).name@ == n) implies
                        #[trigger] m2.contains_key(n) by {
                        let j = choose|j: int| 0 <= j < a.len() && (#[trigger] a[j]).name@ == n;
                        if j != i as int {
                            assert(a0[j].name@ == n);
                            lemma_refs_map_exists(a0, n);
                        }
                    }
                    assert forall|j: int|
                        0 <= j < a.len() implies m2.contains_key((#[trigger] a[j]).name@)
                        && m2[a[j].name@] == a[j].target@ by {
                        if j == i as int {
                        } else {
                            assert(a[j] == a0[j]);
                            assert(a0[j].name@ != a0[i as int].name@);
                            lemma_refs_map_value(a0, j);
                        }
                    }
                    lemma_refs_map_ext(a, m2);
                }
            },
            None => {
                refs.push(RefEntry { name: name.clone(), target });
                proof {
                    let a = refs@;
                    let a0 = old(refs)@;
                    assert(a.drop_last() =~= a0);
                    assert(a.last().name@ == name@);
                    assert forall|j: int, k: int|
                        0 <= j < k < a.len() implies a[j].name@ != a[k].name@ by {
                        if k == a.len() - 1 {
                            assert(a[j].name@ == a0[j].name@);
                        } else {
                            assert(a[j].name@ == a0[j].name@);
                            assert(a[k].name@ == a0[k].name@);
                        }
                    }
                }
            },
        }
    }

    /// Queue a ref update to be applied atomically when the open transaction
    /// commits. `prior` is the optimistic precondition checked at commit.
    pub fn queue_ref_update(&mut self, name: &str, target: &Checksum, prior: RefPrior) -> (r:
        Result<(), StoreError>)
        requires
            old(self).wf(),
        ensures
            final(self).wf(),
            final(self).committed@ == old(self).committed@,
            final(self).staged@ == old(self).staged@,
            final(self).refs@ == old(self).refs@,
            final(self).state == old(self).state,
            old(self).state != TxnState::Open ==> r == Err::<(), StoreError>(
                StoreError::InvalidState,
            ) && *final(self) == *old(self),
            old(self).state == TxnState::Open ==> r == Ok::<(), StoreError>(())
                && final(self).staged_refs@.len() == old(self).staged_refs@.len() + 1
                && final(self).staged_refs@.drop_last() == old(self).staged_refs@
                && final(self).staged_refs@.last().name@ == name@
                && final(self).staged_refs@.last().target@ == target@
                && final(self).staged_refs@.last().prior == prior,
    {
        if self.state != TxnState::Open {
            return Err(StoreError::InvalidState);
        }
        self.staged_refs.push(RefUpdate { name: name.to_owned(), target: *target, prior });
        proof {
            assert(self.staged_refs@.drop_last() =~= old(self).staged_refs@);
        }
        Ok(())
    }

    /// Whether one queued update's precondition holds against the table.
    fn ref_check(refs: &Vec<RefEntry>, u: &RefUpdate) -> (r: bool)
        requires
            ref_names_unique(refs@),
        ensures
            r == ref_update_ok(refs_map_of(refs@), *u),
    {
        match &u.prior {
            RefPrior::Any => true,
            RefPrior::Absent => {
                proof {
                    lemma_refs_map_exists(refs@, u.name@);
                }
                let found = Self::find_ref(refs, u.name.as_str());
                found.is_none()
            },
            RefPrior::At(c) => {
                proof {
                    lemma_refs_map_exists(refs@, u.name@);
                }
                match Self::find_ref(refs, u.name.as_str()) {
                    Some(i) => {
                        proof {
                            lemma_refs_map_value(refs@, i as int);
                        }
                        refs[i].target == *c
                    },
                    None => false,
                }
            },
        }
    }

    /// Commit the open transaction: every staged object becomes durable, then
    /// every queued ref update is applied, atomically as one batch. If any
    /// queued update's precondition fails, nothing is applied and the
    /// transaction stays open so the caller can abort it.
    pub fn commit_transaction(&mut self, cancellable: Option<&Cancellable>) -> (r: Result<
        TransactionStats,
        StoreError,
    >)
        requires
            old(self).wf(),
        ensures
            final(self).wf(),
            spec_cancelled(cancellable) ==> r == Err::<TransactionStats, StoreError>(
                StoreError::Cancelled,
            ) && *final(self) == *old(self),
            !spec_cancelled(cancellable) && old(self).state != TxnState::Open ==> r == Err::<
                TransactionStats,
                StoreError,
            >(StoreError::InvalidState) && *final(self) == *old(self),
            !spec_cancelled(cancellable) && old(self).state == TxnState::Open ==> {
                &&& !ref_updates_ok(*old(self)) ==> r == Err::<TransactionStats, StoreError>(
                    StoreError::RefChanged,
                ) && *final(self) == *old(self)
                &&& ref_updates_ok(*old(self)) ==> (r matches Ok(st) && commit_applies(
                    *old(self),
                    *final(self),
                    st,
                ))
            },
    {
        if check_cancelled(cancellable) {
            return Err(StoreError::Cancelled);
        }
        if self.state != TxnState::Open {
            return Err(StoreError::InvalidState);
        }
        // Validate every queued ref update against the pre-commit catalog.
        let mut i: usize = 0;
        while i < self.staged_refs.len()
            invariant
                i <= self.staged_refs@.len(),
                self == old(self),
                self.wf(),
                !spec_cancelled(cancellable),
                old(self).state == TxnState::Open,
                forall|j: int|
                    0 <= j < i ==> ref_update_ok(self.refs_map(), #[trigger] self.staged_refs@[j]),
            decreases self.staged_refs@.len() - i,
        {
            if !Self::ref_check(&self.refs, &self.staged_refs[i]) {
                return Err(StoreError::RefChanged);
            }
            i = i + 1;
        }
        // Compute the stats of this batch.
        let mut objects: u64 = 0;
        let mut bytes: u64 = 0;
        let mut k: usize = 0;
        while k < self.staged.len()
            invariant
                k <= self.staged@.len(),
                self == old(self),
                objects == k,
                bytes == (if staged_bytes(self.staged@.take(k as int)) > u64::MAX {
                    u64::MAX as int
                } else {
                    staged_bytes(self.staged@.take(k as int)) as int
                }),
            decreases self.staged@.len() - k,
        {
            objects = objects + 1;
            bytes = bytes.saturating_add(self.staged[k].content.len() as u64);
            proof {
                let t = self.staged@.take(k + 1 as int);
                assert(t.drop_last() =~= self.staged@.take(k as int));
                assert(t.last() == self.staged@[k as int]);
            }
            k = k + 1;
        }
        proof {
            assert(self.staged@.take(self.staged@.len() as int) =~= self.staged@);
        }
        let stats = TransactionStats { objects_written: objects, bytes_written: bytes };
        // Make the staged objects durable.
        let ghost old_concat = self.committed@ + self.staged@;
        self.committed.append(&mut self.staged);
        proof {
            assert(self.committed@ =~= old_concat);
            assert(self.committed@ + self.staged@ =~= self.committed@);
        }
        // Apply the queued ref updates in order.
        let ghost m0 = refs_map_of(self.refs@);
        let ghost updates = self.staged_refs@;
        let mut k2: usize = 0;
        while k2 < self.staged_refs.len()
            invariant
                k2 <= self.staged_refs@.len(),
                self.staged_refs@ == updates,
                ref_names_unique(self.refs@),
                refs_map_of(self.refs@) == apply_ref_updates(m0, updates.take(k2 as int)),
                self.committed@ == old_concat,
                self.staged@.len() == 0,
                self.state == old(self).state,
            decreases self.staged_refs@.len() - k2,
        {
            let name = self.staged_refs[k2].name.clone();
            let target = self.staged_refs[k2].target;
            Self::set_ref_raw(&mut self.refs, &name, target);
            proof {
                let t = updates.take(k2 + 1 as int);
                assert(t.drop_last() =~= updates.take(k2 as int));
                assert(t.last() == updates[k2 as int]);
            }
            k2 = k2 + 1;
        }
        proof {
            assert(updates.take(updates.len() as int) =~= updates);
        }
        self.staged_refs.clear();
        self.state = TxnState::Committed;
        proof {
            assert(entries_unique(self.committed@ + self.staged@)
                && entries_valid(self.committed@ + self.staged@)) by {
                assert(self.committed@ + self.staged@ =~= old_concat);
            }
        }
        Ok(stats)
    }

    /// Resolve a refspec to the commit checksum it names. With `allow_noent`,
    /// a missing ref resolves to `None` instead of failing.
    pub fn resolve_rev(&self, refspec: &str, allow_noent: bool) -> (r: Result<
        Option<Checksum>,
        StoreError,
    >)
        requires
            self.wf(),
        ensures
            match r {
                Ok(Some(c)) => self.refs_map().contains_key(refspec@) && c@
                    == self.refs_map()[refspec@],
                Ok(None) => allow_noent && !self.refs_map().contains_key(refspec@),
                Err(e) => e == StoreError::NotFound && !allow_noent
                    && !self.refs_map().contains_key(refspec@),
            },
    {
        proof {
            lemma_refs_map_exists(self.refs@, refspec@);
        }
        match Self::find_ref(&self.refs, refspec) {
            Some(i) => {
                proof {
                    lemma_refs_map_value(self.refs@, i as int);
                }
                Ok(Some(self.refs[i].target))
            },
            None => {
                if allow_noent {
                    Ok(None)
                } else {
                    Err(StoreError::NotFound)
                }
            },
        }
    }

    /// Resolve a refspec that must exist; a missing ref is `NotFound`.
    pub fn require_rev(&self, refspec: &str) -> (r: Result<Checksum, StoreError>)
        requires
            self.wf(),
        ensures
            match r {
                Ok(c) => self.refs_map().contains_key(refspec@) && c@
                    == self.refs_map()[refspec@],
                Err(e) => e == StoreError::NotFound && !self.refs_map().contains_key(refspec@),
            },
    {
        match self.resolve_rev(refspec, false)? {
            Some(c) => Ok(c),
            None => Err(StoreError::NotFound),
        }
    }

    /// List the durable refs, optionally only those whose name starts with
    /// the given prefix. The result holds each matching ref exactly once.
    pub fn list_refs(&self, refspec_prefix: Option<&str>, cancellable: Option<&Cancellable>) -> (r:
        Result<Vec<RefEntry>, StoreError>)
        requires
            self.wf(),
        ensures
            spec_cancelled(cancellable) ==> r == Err::<Vec<RefEntry>, StoreError>(
                StoreError::Cancelled,
            ),
            !spec_cancelled(cancellable) ==> (r matches Ok(v) && {
                &&& ref_names_unique(v@)
                &&& forall|j: int|
                    0 <= j < v@.len() ==> self.refs_map().contains_key((#[trigger] v@[j]).name@)
                        && self.refs_map()[v@[j].name@] == v@[j].target@ && prefix_matches(
                        refspec_prefix,
                        v@[j].name@,
                    )
                &&& forall|i: int|
                    0 <= i < self.refs@.len() && prefix_matches(
                        refspec_prefix,
                        (#[trigger] self.refs@[i]).name@,
                    ) ==> exists|j: int| 0 <= j < v@.len() && (#[trigger] v@[j]).name@
                        == self.refs@[i].name@
            }),
    {
        if check_cancelled(cancellable) {
            return Err(StoreError::Cancelled);
        }
        let mut v: Vec<RefEntry> = Vec::new();
        let ghost mut src: Seq<int> = Seq::empty();
        let ghost mut wit: Map<int, int> = Map::empty();
        let mut i: usize = 0;
        while i < self.refs.len()
            invariant
                i <= self.refs@.len(),
                self.wf(),
                v@.len() == src.len(),
                forall|j: int| 0 <= j < src.len() ==> 0 <= #[trigger] src[j] < i,
                forall|j1: int, j2: int| 0 <= j1 < j2 < src.len() ==> src[j1] < src[j2],
                forall|j: int|
                    0 <= j < src.len() ==> (#[trigger] v@[j]) == self.refs@[src[j]]
                        && prefix_matches(refspec_prefix, v@[j].name@),
                forall|i2: int|
                    0 <= i2 < i && prefix_matches(refspec_prefix, (#[trigger] self.refs@[i2]).name@)
                        ==> wit.contains_key(i2) && 0 <= wit[i2] < v@.len() && v@[wit[i2]].name@
                        == self.refs@[i2].name@,
            decreases self.refs@.len() - i,
        {
            let keep = match refspec_prefix {
                None => true,
                Some(p) => crate::text::str_has_prefix(self.refs[i].name.as_str(), p),
            };
            let ghost old_v = v@;
            if keep {
                v.push(self.refs[i].clone());
                proof {
                    src = src.push(i as int);
                    wit = wit.insert(i as int, v@.len() - 1);
                    assert(forall|j: int| 0 <= j < old_v.len() ==> (#[trigger] v@[j]) == old_v[j]);
                    assert(v@[v@.len() - 1] == self.refs@[i as int]);
                    assert(src[src.len() - 1] == i as int);
                }
            }
            i = i + 1;
        }
        proof {
            assert forall|j1: int, j2: int|
                0 <= j1 < j2 < v@.len() implies v@[j1].name@ != v@[j2].name@ by {
                assert(src[j1] < src[j2]);
            }
            assert forall|j: int|
                0 <= j < v@.len() implies self.refs_map().contains_key((#[trigger] v@[j]).name@)
                && self.refs_map()[v@[j].name@] == v@[j].target@ by {
                lemma_refs_map_value(self.refs@, src[j]);
            }
            assert forall|i2: int|
                0 <= i2 < self.refs@.len() && prefix_matches(
                refspec_prefix,
                (#[trigger] self.refs@[i2]).name@,
            ) implies exists|j: int| 0 <= j < v@.len() && (#[trigger] v@[j]).name@
                == self.refs@[i2].name@ by {
                assert(v@[wit[i2]].name@ == self.refs@[i2].name@);
            }
        }
        Ok(v)
    }

    /// Enumerate every durable object together with its location details.
    /// The listing is a consistent snapshot of the committed object space.
    pub fn list_objects(&self, cancellable: Option<&Cancellable>) -> (r: Result<
        Vec<(ObjectName, ObjectDetails)>,
        StoreError,
    >)
        requires
            self.wf(),
        ensures
            spec_cancelled(cancellable) ==> r == Err::<
                Vec<(ObjectName, ObjectDetails)>,
                StoreError,
            >(StoreError::Cancelled),
            !spec_cancelled(cancellable) ==> (r matches Ok(v) && v@.len() == self.committed@.len()
                && forall|i: int|
                0 <= i < v@.len() ==> {
                    let e = self.committed@[i];
                    &&& (#[trigger] v@[i]).0.objtype == e.objtype
                    &&& v@[i].0.checksum@ == e.checksum@
                    &&& v@[i].1.spec_loose() == e.loose
                    &&& v@[i].1.spec_appearances().len() == e.pack_appearances@.len()
                    &&& forall|k: int|
                        0 <= k < e.pack_appearances@.len() ==> (
                        #[trigger] v@[i].1.spec_appearances()[k])@ == crate::checksum::hex_of(
                            e.pack_appearances@[k]@,
                        )
                }),
    {
        if check_cancelled(cancellable) {
            return Err(StoreError::Cancelled);
        }
        let mut v: Vec<(ObjectName, ObjectDetails)> = Vec::new();
        let mut i: usize = 0;
        while i < self.committed.len()
            invariant
                i <= self.committed@.len(),
                v@.len() == i,
                forall|j: int|
                    0 <= j < i ==> {
                        let e = self.committed@[j];
                        &&& (#[trigger] v@[j]).0.objtype == e.objtype
                        &&& v@[j].0.checksum@ == e.checksum@
                        &&& v@[j].1.spec_loose() == e.loose
                        &&& v@[j].1.spec_appearances().len() == e.pack_appearances@.len()
                        &&& forall|k: int|
                            0 <= k < e.pack_appearances@.len() ==> (
                            #[trigger] v@[j].1.spec_appearances()[k])@ == crate::checksum::hex_of(
                                e.pack_appearances@[k]@,
                            )
                    },
            decreases self.committed@.len() - i,
        {
            let e = &self.committed[i];
            let mut hexes: Vec<String> = Vec::new();
            let mut k: usize = 0;
            while k < e.pack_appearances.len()
                invariant
                    k <= e.pack_appearances@.len(),
                    hexes@.len() == k,
                    forall|k2: int|
                        0 <= k2 < k ==> (#[trigger] hexes@[k2])@ == crate::checksum::hex_of(
                            e.pack_appearances@[k2]@,
                        ),
                decreases e.pack_appearances@.len() - k,
            {
                hexes.push(e.pack_appearances[k].to_hex());
                k = k + 1;
            }
            let name = ObjectName::new(e.objtype, e.checksum);
            let details = ObjectDetails::new(e.loose, hexes);
            v.push((name, details));
            i = i + 1;
        }
        Ok(v)
    }

    /// List the checksums of every durable commit object whose hex rendering
    /// starts with the given prefix; an empty prefix lists them all.
    #[verifier::rlimit(60)]
    pub fn list_commit_objects_starting_with(&self, prefix: &str, cancellable: Option<
        &Cancellable,
    >) -> (r: Result<Vec<Checksum>, StoreError>)
        requires
            self.wf(),
        ensures
            spec_cancelled(cancellable) ==> r == Err::<Vec<Checksum>, StoreError>(
                StoreError::Cancelled,
            ),
            !spec_cancelled(cancellable) ==> (r matches Ok(v) && {
                &&& forall|j1: int, j2: int| 0 <= j1 < j2 < v@.len() ==> v@[j1]@ != v@[j2]@
                &&& forall|j: int|
                    0 <= j < v@.len() ==> self.committed_map().contains_key(
                        (ObjectType::Commit, (#[trigger] v@[j])@),
                    ) && prefix_matches(Some(prefix), crate::checksum::hex_of(v@[j]@))
                &&& forall|i: int|
                    0 <= i < self.committed@.len() && (#[trigger] self.committed@[i]).objtype
                        == ObjectType::Commit && prefix_matches(
                        Some(prefix),
                        crate::checksum::hex_of(self.committed@[i].checksum@),
                    ) ==> exists|j: int| 0 <= j < v@.len() && (#[trigger] v@[j])@
                        == self.committed@[i].checksum@
            }),
    {
        if check_cancelled(cancellable) {
            return Err(StoreError::Cancelled);
        }
        let mut v: Vec<Checksum> = Vec::new();
        let ghost mut src: Seq<int> = Seq::empty();
        let ghost mut wit: Map<int, int> = Map::empty();
        let mut i: usize = 0;
        while i < self.committed.len()
            invariant
                i <= self.committed@.len(),
                self.wf(),
                v@.len() == src.len(),
                forall|j: int| 0 <= j < src.len() ==> 0 <= #[trigger] src[j] < i,
                forall|j1: int, j2: int| 0 <= j1 < j2 < src.len() ==> src[j1] < src[j2],
                forall|j: int|
                    0 <= j < src.len() ==> (#[trigger] v@[j])
                        == self.committed@[src[j]].checksum,
                forall|j: int|
                    0 <= j < src.len() ==> (#[trigger] self.committed@[src[j]]).objtype
                        == ObjectType::Commit,
                forall|j: int|
                    0 <= j < src.len() ==> prefix_matches(
                        Some(prefix),
                        crate::checksum::hex_of((#[trigger] self.committed@[src[j]]).checksum@),
                    ),
                forall|i2: int|
                    0 <= i2 < i && (#[trigger] self.committed@[i2]).objtype == ObjectType::Commit
                        && prefix_matches(
                        Some(prefix),
                        crate::checksum::hex_of(self.committed@[i2].checksum@),
                    ) ==> wit.contains_key(i2) && 0 <= wit[i2] < v@.len() && v@[wit[i2]]
                        == self.committed@[i2].checksum,
            decreases self.committed@.len() - i,
        {
            let ghost old_v = v@;
            let ghost old_src = src;
            if self.committed[i].objtype == ObjectType::Commit {
                let hex = self.committed[i].checksum.to_hex();
                if crate::text::str_has_prefix(hex.as_str(), prefix) {
                    v.push(self.committed[i].checksum);
                    proof {
                        src = src.push(i as int);
                        wit = wit.insert(i as int, v@.len() - 1);
                        assert(forall|j: int|
                            0 <= j < old_v.len() ==> (#[trigger] v@[j]) == old_v[j]);
                        assert(forall|j: int|
                            0 <= j < old_src.len() ==> (#[trigger] src[j]) == old_src[j]);
                        assert(v@[v@.len() - 1] == self.committed@[i as int].checksum);
                        assert(src[src.len() - 1] == i as int);
                        assert(hex@ == crate::checksum::hex_of(
                            self.committed@[i as int].checksum@,
                        ));
                    }
                }
            }
            i = i + 1;
        }
        proof {
            let all = self.committed@;
            assert(forall|x: int|
                0 <= x < all.len() ==> (all + self.staged@)[x] == (#[trigger] all[x]));
            assert forall|j1: int, j2: int|
                0 <= j1 < j2 < v@.len() implies v@[j1]@ != v@[j2]@ by {
                assert(src[j1] < src[j2]);
                assert(key_of((all + self.staged@)[src[j1]]) != key_of(
                    (all + self.staged@)[src[j2]],
                ));
                assert(v@[j1] == all[src[j1]].checksum);
                assert(v@[j2] == all[src[j2]].checksum);
            }
            assert forall|j: int|
                0 <= j < v@.len() implies self.committed_map().contains_key(
                (ObjectType::Commit, (#[trigger] v@[j])@),
            ) by {
                assert(v@[j] == all[src[j]].checksum);
                lemma_entries_map_exists(all, (ObjectType::Commit, v@[j]@));
                assert(key_of(all[src[j]]) == (ObjectType::Commit, v@[j]@));
            }
            assert forall|i2: int|
                0 <= i2 < all.len() && (#[trigger] all[i2]).objtype == ObjectType::Commit
                && prefix_matches(
                Some(prefix),
                crate::checksum::hex_of(all[i2].checksum@),
            ) implies exists|j: int| 0 <= j < v@.len() && (#[trigger] v@[j])@
                == all[i2].checksum@ by {
                assert(v@[wit[i2]] == all[i2].checksum);
                assert((v@[wit[i2]])@ == all[i2].checksum@);
            }
        }
        Ok(v)
    }
}

/// Whether an optional prefix matches the start of a name.
pub open spec fn prefix_matches(p: Option<&str>, n: Seq<char>) -> bool {
    match p {
        None => true,
        Some(s) => s@.len() <= n.len() && n.subrange(0, s@.len() as int) == s@,
    }
}

/// An open transaction, bundled with the store handle it runs on. Consuming
/// it through [`TransactionGuard::commit`] or [`TransactionGuard::abort`]
/// hands the store back; there is no path that leaves the transaction both
/// unfinished and usable.
pub struct TransactionGuard {
    /// The store handle the transaction is open on.
    pub repo: Repo,
}

impl Repo {
    /// Open a transaction and bundle this handle into a guard, so that every
    /// exit path must either commit or abort it.
    pub fn auto_transaction(self, cancellable: Option<&Cancellable>) -> (r: Result<
        TransactionGuard,
        (Repo, StoreError),
    >)
        requires
            self.wf(),
        ensures
            match r {
                Ok(g) => !spec_cancelled(cancellable) && self.state != TxnState::Open && g.repo.wf()
                    && g.repo.state == TxnState::Open && g.repo.committed@ == self.committed@
                    && g.repo.refs@ == self.refs@ && g.repo.staged@.len() == 0
                    && g.repo.staged_refs@.len() == 0,
                Err((repo, e)) => repo == self && (spec_cancelled(cancellable) ==> e
                    == StoreError::Cancelled) && (!spec_cancelled(cancellable) ==> self.state
                    == TxnState::Open && e == StoreError::TransactionInProgress),
            },
    {
        let mut repo = self;
        match repo.prepare_transaction(cancellable) {
            Ok(()) => Ok(TransactionGuard { repo }),
            Err(e) => Err((repo, e)),
        }
    }
}

impl TransactionGuard {
    /// A reference to the store handle this transaction runs on.
    pub fn repo(&self) -> (r: &Repo)
        ensures
            *r == self.repo,
    {
        &self.repo
    }

    /// Commit this transaction, handing the store handle back together with
    /// the outcome; on `RefChanged` the transaction stays open inside the
    /// returned handle so it can be aborted.
    pub fn commit(self, cancellable: Option<&Cancellable>) -> (r: (Repo, Result<
        TransactionStats,
        StoreError,
    >))
        requires
            self.repo.wf(),
        ensures
            r.0.wf(),
            spec_cancelled(cancellable) ==> r.1 == Err::<TransactionStats, StoreError>(
                StoreError::Cancelled,
            ) && r.0 == self.repo,
            !spec_cancelled(cancellable) && self.repo.state != TxnState::Open ==> r.1 == Err::<
                TransactionStats,
                StoreError,
            >(StoreError::InvalidState) && r.0 == self.repo,
            !spec_cancelled(cancellable) && self.repo.state == TxnState::Open ==> {
                &&& !ref_updates_ok(self.repo) ==> r.1 == Err::<TransactionStats, StoreError>(
                    StoreError::RefChanged,
                ) && r.0 == self.repo
                &&& ref_updates_ok(self.repo) ==> (r.1 matches Ok(st) && commit_applies(
                    self.repo,
                    r.0,
                    st,
                ))
            },
    {
        let mut repo = self.repo;
        let res = repo.commit_transaction(cancellable);
        (repo, res)
    }

    /// Abort this transaction and hand the store handle back; the durable
    /// store and catalog are exactly as they were before the transaction was
    /// prepared.
    pub fn abort(self, cancellable: Option<&Cancellable>) -> (r: Repo)
        requires
            self.repo.wf(),
        ensures
            r.wf(),
            r.committed@ == self.repo.committed@,
            r.refs@ == self.repo.refs@,
            r.committed_map() == self.repo.committed_map(),
            r.refs_map() == self.repo.refs_map(),
            r.staged@.len() == 0,
            r.staged_refs@.len() == 0,
            r.state != TxnState::Open,
    {
        let mut repo = self.repo;
        let _ = repo.abort_transaction(cancellable);
        repo
    }
}

} // verus!
