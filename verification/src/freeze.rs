//! Freezing a staging tree into immutable DirTree objects, and
//! reconstituting a staging tree from them.

use vstd::prelude::*;
use crate::checksum::Checksum;
use crate::checksum::ObjectType;
use crate::codec::decode_commit;
use crate::codec::decode_dirtree;
use crate::codec::dec_dirtree;
use crate::codec::dec_commit;
use crate::codec::dec_dirmeta;
use crate::codec::decode_dirmeta;
use crate::codec::enc_dirtree;
use crate::codec::encode_dirtree;
use crate::codec::fents_wf;
use crate::codec::dents_wf;
use crate::codec::fents_view;
use crate::codec::dents_view;
use crate::codec::lemma_dec_dirtree_enc;
use crate::codec::DirMetaParsed;
use crate::codec::DirTreeRecord;
use crate::codec::TreeDirEntry;
use crate::codec::TreeFileEntry;
use crate::digest::digest_of;
use crate::error::StoreError;
use crate::repo::Cancellable;
use crate::repo::Repo;
use crate::repo::TxnState;
use crate::repo::spec_cancelled;
use crate::tree::MutableTree;
use crate::tree::TreeNode;

verus! {

/// The file entries of one tree node, as the codec sees them.
pub open spec fn file_entries(t: &MutableTree, n: int) -> Seq<(Seq<u8>, Seq<u8>)> {
    t.files_of(n).map_values(|p: (Vec<u8>, Checksum)| (p.0@, p.1@))
}

/// The DirMeta checksum bytes assigned to one node; meaningful only when a
/// metadata checksum is set.
pub open spec fn meta_of(t: &MutableTree, n: int) -> Seq<u8> {
    t.nodes@[n].metadata_checksum.unwrap()@
}

/// The subdirectory entries of one node, given the child DirTree checksums.
pub open spec fn dir_entries(t: &MutableTree, n: int, css: Seq<Seq<u8>>) -> Seq<
    (Seq<u8>, Seq<u8>, Seq<u8>),
> {
    Seq::new(
        t.dirs_of(n).len(),
        |k: int| (t.dirs_of(n)[k].0@, css[k], meta_of(t, t.dirs_of(n)[k].1 as int)),
    )
}

/// The subtree rooted at node `n` is frozen in the store under checksum
/// `cs`, with every node of the subtree lying below index `hi`: the stored
/// record at `(DirTree, cs)` decodes to exactly the node's files and
/// subdirectories, and every subdirectory is recursively frozen under the
/// child checksum the record names, with the child's metadata checksum
/// recorded beside it.
pub open spec fn frozen_up_to(m: Map<(ObjectType, Seq<u8>), Seq<u8>>, t: &MutableTree, n: int,
    cs: Seq<u8>, hi: int) -> bool
    decreases hi - n,
{
    &&& 0 <= n < t.nodes@.len()
    &&& n < hi <= t.nodes@.len()
    &&& m.contains_key((ObjectType::DirTree, cs))
    &&& dec_dirtree(m[(ObjectType::DirTree, cs)]) is Some
    &&& dec_dirtree(m[(ObjectType::DirTree, cs)]).unwrap().0 == file_entries(t, n)
    &&& dec_dirtree(m[(ObjectType::DirTree, cs)]).unwrap().1.len() == t.dirs_of(n).len()
    &&& forall|k: int|
        0 <= k < t.dirs_of(n).len() ==> {
            let e = dec_dirtree(m[(ObjectType::DirTree, cs)]).unwrap().1[k];
            &&& e.0 == (#[trigger] t.dirs_of(n)[k]).0@
            &&& n < t.dirs_of(n)[k].1 < hi
            &&& t.nodes@[t.dirs_of(n)[k].1 as int].metadata_checksum is Some
            &&& e.2 == meta_of(t, t.dirs_of(n)[k].1 as int)
            &&& frozen_up_to(m, t, t.dirs_of(n)[k].1 as int, e.1, hi)
        }
}

/// The subtree rooted at node `n` is frozen in the store under `cs`.
pub open spec fn subtree_frozen(m: Map<(ObjectType, Seq<u8>), Seq<u8>>, t: &MutableTree, n: int,
    cs: Seq<u8>) -> bool {
    frozen_up_to(m, t, n, cs, t.nodes@.len() as int)
}

/// A subtree frozen below `hi1` is frozen below any larger bound.
pub proof fn lemma_frozen_widen(m: Map<(ObjectType, Seq<u8>), Seq<u8>>, t: &MutableTree, n: int,
    cs: Seq<u8>, hi1: int, hi2: int)
    requires
        frozen_up_to(m, t, n, cs, hi1),
        hi1 <= hi2 <= t.nodes@.len(),
    ensures
        frozen_up_to(m, t, n, cs, hi2),
    decreases hi1 - n,
{
    assert forall|k: int|
        0 <= k < t.dirs_of(n).len() implies {
        let e = dec_dirtree(m[(ObjectType::DirTree, cs)]).unwrap().1[k];
        &&& e.0 == (#[trigger] t.dirs_of(n)[k]).0@
        &&& n < t.dirs_of(n)[k].1 < hi2
        &&& t.nodes@[t.dirs_of(n)[k].1 as int].metadata_checksum is Some
        &&& e.2 == meta_of(t, t.dirs_of(n)[k].1 as int)
        &&& frozen_up_to(m, t, t.dirs_of(n)[k].1 as int, e.1, hi2)
    } by {
        let e = dec_dirtree(m[(ObjectType::DirTree, cs)]).unwrap().1[k];
        lemma_frozen_widen(m, t, t.dirs_of(n)[k].1 as int, e.1, hi1, hi2);
    }
}

/// Two staging trees frozen under one checksum have the same recursive
/// shape: identical file entries, subdirectory names, metadata checksums,
/// and recursively equal subdirectories.
pub open spec fn tree_eq(t1: &MutableTree, n1: int, t2: &MutableTree, n2: int) -> bool
    decreases t1.nodes@.len() - n1,
{
    &&& 0 <= n1 < t1.nodes@.len()
    &&& 0 <= n2 < t2.nodes@.len()
    &&& file_entries(t1, n1) == file_entries(t2, n2)
    &&& t1.dirs_of(n1).len() == t2.dirs_of(n2).len()
    &&& forall|k: int|
        0 <= k < t1.dirs_of(n1).len() ==> {
            &&& (#[trigger] t1.dirs_of(n1)[k]).0@ == t2.dirs_of(n2)[k].0@
            &&& meta_of(t1, t1.dirs_of(n1)[k].1 as int) == meta_of(t2, t2.dirs_of(n2)[k].1 as int)
            &&& (n1 < t1.dirs_of(n1)[k].1 < t1.nodes@.len() ==> tree_eq(
                t1,
                t1.dirs_of(n1)[k].1 as int,
                t2,
                t2.dirs_of(n2)[k].1 as int,
            ))
        }
}

/// One store map extends another without changing any existing object.
pub open spec fn submap_of(m1: Map<(ObjectType, Seq<u8>), Seq<u8>>, m2: Map<
    (ObjectType, Seq<u8>),
    Seq<u8>,
>) -> bool {
    forall|k: (ObjectType, Seq<u8>)|
        #[trigger] m1.contains_key(k) ==> m2.contains_key(k) && m2[k] == m1[k]
}

/// A frozen subtree stays frozen when the store only grows.
pub proof fn lemma_frozen_submap_up_to(m1: Map<(ObjectType, Seq<u8>), Seq<u8>>, m2: Map<
    (ObjectType, Seq<u8>),
    Seq<u8>,
>, t: &MutableTree, n: int, cs: Seq<u8>, hi: int)
    requires
        frozen_up_to(m1, t, n, cs, hi),
        submap_of(m1, m2),
    ensures
        frozen_up_to(m2, t, n, cs, hi),
    decreases hi - n,
{
    assert(m2[(ObjectType::DirTree, cs)] == m1[(ObjectType::DirTree, cs)]);
    assert forall|k: int|
        0 <= k < t.dirs_of(n).len() implies {
        let e = dec_dirtree(m2[(ObjectType::DirTree, cs)]).unwrap().1[k];
        &&& e.0 == (#[trigger] t.dirs_of(n)[k]).0@
        &&& n < t.dirs_of(n)[k].1 < hi
        &&& t.nodes@[t.dirs_of(n)[k].1 as int].metadata_checksum is Some
        &&& e.2 == meta_of(t, t.dirs_of(n)[k].1 as int)
        &&& frozen_up_to(m2, t, t.dirs_of(n)[k].1 as int, e.1, hi)
    } by {
        let e = dec_dirtree(m1[(ObjectType::DirTree, cs)]).unwrap().1[k];
        lemma_frozen_submap_up_to(m1, m2, t, t.dirs_of(n)[k].1 as int, e.1, hi);
    }
}

/// A frozen subtree stays frozen when the store only grows.
pub proof fn lemma_frozen_submap(m1: Map<(ObjectType, Seq<u8>), Seq<u8>>, m2: Map<
    (ObjectType, Seq<u8>),
    Seq<u8>,
>, t: &MutableTree, n: int, cs: Seq<u8>)
    requires
        subtree_frozen(m1, t, n, cs),
        submap_of(m1, m2),
    ensures
        subtree_frozen(m2, t, n, cs),
{
    lemma_frozen_submap_up_to(m1, m2, t, n, cs, t.nodes@.len() as int);
}

/// A frozen subtree stays frozen in a tree that agrees with the old one on
/// every node in `[bound, hi)`; a subtree frozen below `hi` looks only at
/// such nodes.
pub proof fn lemma_frozen_agree_up_to(m: Map<(ObjectType, Seq<u8>), Seq<u8>>, t1: &MutableTree,
    t2: &MutableTree, n: int, cs: Seq<u8>, bound: int, hi: int)
    requires
        frozen_up_to(m, t1, n, cs, hi),
        0 <= bound <= n,
        hi <= t2.nodes@.len(),
        forall|j: int|
            bound <= j < hi ==> t1.files_of(j) == t2.files_of(j) && t1.dirs_of(j) == t2.dirs_of(j)
                && (#[trigger] t1.nodes@[j]).metadata_checksum == t2.nodes@[j].metadata_checksum,
    ensures
        frozen_up_to(m, t2, n, cs, hi),
    decreases hi - n,
{
    assert(t1.files_of(n) == t2.files_of(n));
    assert(file_entries(t2, n) =~= file_entries(t1, n));
    assert(t1.dirs_of(n) == t2.dirs_of(n));
    assert forall|k: int|
        0 <= k < t2.dirs_of(n).len() implies {
        let e = dec_dirtree(m[(ObjectType::DirTree, cs)]).unwrap().1[k];
        &&& e.0 == (#[trigger] t2.dirs_of(n)[k]).0@
        &&& n < t2.dirs_of(n)[k].1 < hi
        &&& t2.nodes@[t2.dirs_of(n)[k].1 as int].metadata_checksum is Some
        &&& e.2 == meta_of(t2, t2.dirs_of(n)[k].1 as int)
        &&& frozen_up_to(m, t2, t2.dirs_of(n)[k].1 as int, e.1, hi)
    } by {
        let e = dec_dirtree(m[(ObjectType::DirTree, cs)]).unwrap().1[k];
        assert(t1.dirs_of(n)[k] == t2.dirs_of(n)[k]);
        assert(e.0 == t1.dirs_of(n)[k].0@);
        assert(n < t1.dirs_of(n)[k].1 < hi);
        assert(t1.nodes@[t1.dirs_of(n)[k].1 as int].metadata_checksum
            == t2.nodes@[t2.dirs_of(n)[k].1 as int].metadata_checksum);
        lemma_frozen_agree_up_to(m, t1, t2, t1.dirs_of(n)[k].1 as int, e.1, bound, hi);
    }
}

/// A frozen subtree stays frozen in a tree of the same shape.
pub proof fn lemma_frozen_same_shape(m: Map<(ObjectType, Seq<u8>), Seq<u8>>, t1: &MutableTree,
    t2: &MutableTree, n: int, cs: Seq<u8>)
    requires
        subtree_frozen(m, t1, n, cs),
        t1.same_shape(t2),
    ensures
        subtree_frozen(m, t2, n, cs),
{
    lemma_frozen_agree_up_to(m, t1, t2, n, cs, 0, t1.nodes@.len() as int);
}

/// Two subtrees frozen under one checksum in one store have the same
/// recursive shape: freezing and reconstituting round-trips the tree.
pub proof fn lemma_frozen_unique(m: Map<(ObjectType, Seq<u8>), Seq<u8>>, t1: &MutableTree, n1: int,
    t2: &MutableTree, n2: int, cs: Seq<u8>)
    requires
        subtree_frozen(m, t1, n1, cs),
        subtree_frozen(m, t2, n2, cs),
    ensures
        tree_eq(t1, n1, t2, n2),
    decreases t1.nodes@.len() - n1,
{
    assert forall|k: int|
        0 <= k < t1.dirs_of(n1).len() implies {
        &&& (#[trigger] t1.dirs_of(n1)[k]).0@ == t2.dirs_of(n2)[k].0@
        &&& meta_of(t1, t1.dirs_of(n1)[k].1 as int) == meta_of(t2, t2.dirs_of(n2)[k].1 as int)
        &&& (n1 < t1.dirs_of(n1)[k].1 < t1.nodes@.len() ==> tree_eq(
            t1,
            t1.dirs_of(n1)[k].1 as int,
            t2,
            t2.dirs_of(n2)[k].1 as int,
        ))
    } by {
        let e = dec_dirtree(m[(ObjectType::DirTree, cs)]).unwrap().1[k];
        assert(e.0 == t1.dirs_of(n1)[k].0@);
        assert(e.0 == t2.dirs_of(n2)[k].0@);
        lemma_frozen_unique(
            m,
            t1,
            t1.dirs_of(n1)[k].1 as int,
            t2,
            t2.dirs_of(n2)[k].1 as int,
            e.1,
        );
    }
}

impl Repo {
    /// Freeze a staging tree into immutable DirTree objects, depth-first so
    /// every record references only already-written children, and return the
    /// root DirTree checksum. Requires an open transaction; every directory
    /// must carry a metadata checksum, or the freeze fails with
    /// `InvalidOperation`. A deferred tree error surfaces here first.
    pub fn write_mtree(&mut self, tree: &mut MutableTree, cancellable: Option<&Cancellable>) -> (r:
        Result<Checksum, StoreError>)
        requires
            old(self).wf(),
            old(tree).wf(),
        ensures
            final(self).wf(),
            final(tree).wf(),
            final(tree).same_shape(old(tree)),
            final(tree).deferred == old(tree).deferred,
            final(self).committed@ == old(self).committed@,
            final(self).refs@ == old(self).refs@,
            final(self).staged_refs@ == old(self).staged_refs@,
            final(self).state == old(self).state,
            submap_of(old(self).visible_map(), final(self).visible_map()),
            spec_cancelled(cancellable) ==> r == Err::<Checksum, StoreError>(StoreError::Cancelled)
                && *final(self) == *old(self) && *final(tree) == *old(tree),
            !spec_cancelled(cancellable) ==> (old(tree).deferred matches Some(e) ==> r == Err::<
                Checksum,
                StoreError,
            >(e)),
            !spec_cancelled(cancellable) && old(tree).deferred is None && old(self).state
                != TxnState::Open ==> r == Err::<Checksum, StoreError>(StoreError::InvalidState)
                && *final(self) == *old(self) && *final(tree) == *old(tree),
            r matches Ok(cs) ==> subtree_frozen(final(self).visible_map(), final(tree), 0, cs@)
                && final(tree).nodes@[0].contents_checksum == Some(cs),
            r matches Err(e) ==> e == StoreError::Cancelled || e == StoreError::InvalidState || e
                == StoreError::InvalidOperation || e == StoreError::IntegrityError || Some(e)
                == old(tree).deferred,
            !spec_cancelled(cancellable) && old(tree).deferred is None && old(self).state
                == TxnState::Open ==> {
                &&& (r == Err::<Checksum, StoreError>(StoreError::InvalidOperation)
                    ==> exists|n: int|
                    0 <= n < old(tree).nodes@.len() && (#[trigger] old(
                        tree,
                    ).nodes@[n]).metadata_checksum is None)
                &&& (r == Err::<Checksum, StoreError>(StoreError::IntegrityError)
                    ==> exists|a: Seq<u8>, b: Seq<u8>|
                    a != b && #[trigger] digest_of(a) == #[trigger] digest_of(b))
                &&& ((forall|n: int|
                    0 <= n < old(tree).nodes@.len() ==> (#[trigger] old(
                        tree,
                    ).nodes@[n]).metadata_checksum is Some) && !(exists|a: Seq<u8>, b: Seq<u8>|
                    a != b && #[trigger] digest_of(a) == #[trigger] digest_of(b)) ==> r is Ok)
            },
    {
        if crate::repo::check_cancelled(cancellable) {
            return Err(StoreError::Cancelled);
        }
        match tree.check_error() {
            Ok(()) => (),
            Err(e) => {
                return Err(e);
            },
        }
        if !(self.state == TxnState::Open) {
            return Err(StoreError::InvalidState);
        }
        let n = tree.node_count();
        let mut idx = n;
        while idx > 0
            invariant
                tree.wf(),
                self.wf(),
                tree.same_shape(old(tree)),
                tree.deferred == old(tree).deferred,
                old(tree).deferred is None,
                !spec_cancelled(cancellable),
                idx <= tree.nodes@.len(),
                tree.nodes@.len() == old(tree).nodes@.len(),
                self.committed@ == old(self).committed@,
                self.refs@ == old(self).refs@,
                self.staged_refs@ == old(self).staged_refs@,
                self.state == TxnState::Open,
                old(self).state == TxnState::Open,
                submap_of(old(self).visible_map(), self.visible_map()),
                forall|k: int|
                    idx <= k < tree.nodes@.len() ==> (#[trigger] tree.nodes@[k]).contents_checksum
                        is Some && tree.nodes@[k].metadata_checksum is Some && subtree_frozen(
                        self.visible_map(),
                        tree,
                        k,
                        tree.nodes@[k].contents_checksum.unwrap()@,
                    ),
            decreases idx,
        {
            let node = idx - 1;
            if tree.metadata_checksum(node).is_none() {
                proof {
                    assert(old(tree).nodes@[node as int].metadata_checksum is None);
                }
                return Err(StoreError::InvalidOperation);
            }
            let mut rec = DirTreeRecord { files: Vec::new(), dirs: Vec::new() };
            let nf = tree.nodes[node].files.len();
            let mut i: usize = 0;
            while i < nf
                invariant
                    tree.wf(),
                    node < tree.nodes@.len(),
                    nf == tree.files_of(node as int).len(),
                    i <= nf,
                    rec.files@.len() == i,
                    rec.dirs@.len() == 0,
                    fents_view(rec.files@) =~= file_entries(tree, node as int).take(i as int),
                    fents_wf(fents_view(rec.files@)),
                decreases nf - i,
            {
                let nl = tree.nodes[node].files[i].0.len();
                let nm = crate::util::clone_bytes(&tree.nodes[node].files[i].0);
                let c = tree.nodes[node].files[i].1;
                rec.files.push(TreeFileEntry { name: nm, checksum: c });
                proof {
                    let fe = file_entries(tree, node as int);
                    assert(rec.files@.len() == i + 1);
                    assert(forall|j: int|
                        0 <= j < rec.files@.len() ==> (#[trigger] fents_view(rec.files@)[j]) == (
                        rec.files@[j].name@,
                        rec.files@[j].checksum@,
                    ));
                    assert(rec.files@.last().name@ == tree.files_of(node as int)[i as int].0@);
                    assert(fe[i as int] == (
                        tree.files_of(node as int)[i as int].0@,
                        tree.files_of(node as int)[i as int].1@,
                    ));
                    assert(fents_view(rec.files@) =~= fe.take(i + 1 as int));
                    assert(rec.files@.last().name@.len() == nl <= u64::MAX);
                    assert(fents_wf(fents_view(rec.files@)));
                }
                i = i + 1;
            }
            proof {
                assert(file_entries(tree, node as int).take(nf as int) =~= file_entries(
                    tree,
                    node as int,
                ));
            }
            let nd = tree.nodes[node].subdirs.len();
            let ghost mut css: Seq<Seq<u8>> = Seq::empty();
            let mut k: usize = 0;
            while k < nd
                invariant
                    tree.wf(),
                    self.wf(),
                    node < tree.nodes@.len(),
                    node + 1 == idx,
                    nd == tree.dirs_of(node as int).len(),
                    k <= nd,
                    css.len() == k,
                    rec.dirs@.len() == k,
                    rec.files@.len() == nf,
                    fents_view(rec.files@) == file_entries(tree, node as int),
                    fents_wf(fents_view(rec.files@)),
                    forall|j: int|
                        idx <= j < tree.nodes@.len() ==> (#[trigger] tree.nodes@[j]).contents_checksum
                            is Some && tree.nodes@[j].metadata_checksum is Some && subtree_frozen(
                            self.visible_map(),
                            tree,
                            j,
                            tree.nodes@[j].contents_checksum.unwrap()@,
                        ),
                    forall|j: int|
                        0 <= j < k ==> {
                            &&& (#[trigger] rec.dirs@[j]).name@ == tree.dirs_of(node as int)[j].0@
                            &&& rec.dirs@[j].name@.len() <= u64::MAX
                            &&& rec.dirs@[j].tree_checksum@ == css[j]
                            &&& rec.dirs@[j].meta_checksum@ == meta_of(
                                tree,
                                tree.dirs_of(node as int)[j].1 as int,
                            )
                            &&& subtree_frozen(
                                self.visible_map(),
                                tree,
                                tree.dirs_of(node as int)[j].1 as int,
                                css[j],
                            )
                        },
                decreases nd - k,
            {
                proof {
                    assert(tree.node_wf(node as int));
                    assert(node < tree.dirs_of(node as int)[k as int].1 < tree.nodes@.len());
                }
                let child = tree.nodes[node].subdirs[k].1;
                let ccs = match tree.contents_checksum(child) {
                    Some(c) => c,
                    None => {
                        proof {
                            assert(false);
                        }
                        return Err(StoreError::IntegrityError);
                    },
                };
                let cmeta = match tree.metadata_checksum(child) {
                    Some(c) => c,
                    None => {
                        proof {
                            assert(subtree_frozen(
                                self.visible_map(),
                                tree,
                                child as int,
                                tree.nodes@[child as int].contents_checksum.unwrap()@,
                            ));
                            assert(false);
                        }
                        return Err(StoreError::IntegrityError);
                    },
                };
                let nl = tree.nodes[node].subdirs[k].0.len();
                let nm = crate::util::clone_bytes(&tree.nodes[node].subdirs[k].0);
                rec.dirs.push(TreeDirEntry { name: nm, tree_checksum: ccs, meta_checksum: cmeta });
                proof {
                    css = css.push(ccs@);
                    assert(rec.dirs@.last().name@.len() == nl <= u64::MAX);
                    assert(forall|j: int|
                        0 <= j < k ==> (#[trigger] rec.dirs@[j]) == rec.dirs@.subrange(0, k as int)[j]);
                }
                k = k + 1;
            }
            let bytes = encode_dirtree(&rec);
            let ghost pre_m = self.visible_map();
            let cs = match self.write_metadata(ObjectType::DirTree, None, &bytes, None) {
                Ok(c) => c,
                Err(e) => {
                    proof {
                        assert(submap_of(old(self).visible_map(), self.visible_map()));
                        let k = (ObjectType::DirTree, digest_of(bytes@));
                        assert(e == StoreError::IntegrityError);
                        assert(self.visible_map().contains_key(k) && self.visible_map()[k]
                            != bytes@);
                        crate::repo::lemma_visible_valid(self);
                        assert(self.visible_map()[k] != bytes@ && digest_of(self.visible_map()[k])
                            == digest_of(bytes@));
                    }
                    return Err(e);
                },
            };
            proof {
                assert(submap_of(pre_m, self.visible_map())) by {
                    if !pre_m.contains_key((ObjectType::DirTree, cs@)) {
                        assert(self.visible_map() == pre_m.insert((ObjectType::DirTree, cs@), bytes@));
                    }
                }
                assert(self.visible_map().contains_key((ObjectType::DirTree, cs@))
                    && self.visible_map()[(ObjectType::DirTree, cs@)] == bytes@) by {
                    if pre_m.contains_key((ObjectType::DirTree, cs@)) {
                        assert(pre_m[(ObjectType::DirTree, cs@)] == bytes@);
                    } else {
                        assert(self.visible_map() == pre_m.insert((ObjectType::DirTree, cs@), bytes@));
                    }
                }
            }
            let ghost pre_tree = *tree;
            tree.set_contents_checksum(node, &cs);
            proof {
                // Children stay frozen across the store growth and the cache write.
                assert forall|j: int|
                    idx <= j < tree.nodes@.len() implies (#[trigger] tree.nodes@[j]).contents_checksum
                    is Some && tree.nodes@[j].metadata_checksum is Some && subtree_frozen(
                    self.visible_map(),
                    tree,
                    j,
                    tree.nodes@[j].contents_checksum.unwrap()@,
                ) by {
                    assert(tree.nodes@[j].contents_checksum
                        == pre_tree.nodes@[j].contents_checksum);
                    lemma_frozen_submap(
                        pre_m,
                        self.visible_map(),
                        &pre_tree,
                        j,
                        pre_tree.nodes@[j].contents_checksum.unwrap()@,
                    );
                    lemma_frozen_same_shape(
                        self.visible_map(),
                        &pre_tree,
                        tree,
                        j,
                        pre_tree.nodes@[j].contents_checksum.unwrap()@,
                    );
                }
                // The node itself is now frozen under `cs`.
                let fe = file_entries(tree, node as int);
                let de = dir_entries(tree, node as int, css);
                assert(fe =~= fents_view(rec.files@));
                assert(de =~= dents_view(rec.dirs@)) by {
                    assert(forall|j: int|
                        0 <= j < nd ==> (#[trigger] de[j]) == dents_view(rec.dirs@)[j]);
                }
                assert(self.visible_map()[(ObjectType::DirTree, cs@)] == enc_dirtree(fe, de));
                assert(dents_wf(de));
                assert(fents_wf(fe));
                lemma_dec_dirtree_enc(fe, de);
                assert(dec_dirtree(self.visible_map()[(ObjectType::DirTree, cs@)]) == Some(
                    (fe, de),
                ));
                assert forall|kk: int|
                    0 <= kk < css.len() implies ((node as int) < (#[trigger] tree.dirs_of(
                    node as int,
                )[kk]).1 < tree.nodes@.len() && subtree_frozen(
                    self.visible_map(),
                    tree,
                    tree.dirs_of(node as int)[kk].1 as int,
                    css[kk],
                )) by {
                    assert(tree.node_wf(node as int));
                    assert(rec.dirs@[kk].tree_checksum@ == css[kk]);
                    lemma_frozen_submap(
                        pre_m,
                        self.visible_map(),
                        &pre_tree,
                        pre_tree.dirs_of(node as int)[kk].1 as int,
                        css[kk],
                    );
                    lemma_frozen_same_shape(
                        self.visible_map(),
                        &pre_tree,
                        tree,
                        pre_tree.dirs_of(node as int)[kk].1 as int,
                        css[kk],
                    );
                }
                assert forall|kk: int|
                    0 <= kk < tree.dirs_of(node as int).len() implies {
                    let e = dec_dirtree(
                        self.visible_map()[(ObjectType::DirTree, cs@)],
                    ).unwrap().1[kk];
                    &&& e.0 == (#[trigger] tree.dirs_of(node as int)[kk]).0@
                    &&& (node as int) < tree.dirs_of(node as int)[kk].1 < tree.nodes@.len()
                    &&& tree.nodes@[tree.dirs_of(node as int)[kk].1 as int].metadata_checksum
                        is Some
                    &&& e.2 == meta_of(tree, tree.dirs_of(node as int)[kk].1 as int)
                    &&& subtree_frozen(
                        self.visible_map(),
                        tree,
                        tree.dirs_of(node as int)[kk].1 as int,
                        e.1,
                    )
                } by {
                    assert(tree.node_wf(node as int));
                    let child = tree.dirs_of(node as int)[kk].1;
                    assert((node as int) < child < tree.nodes@.len());
                    assert(child >= idx);
                    assert(tree.nodes@[child as int].metadata_checksum is Some);
                    assert(de[kk] == (
                        tree.dirs_of(node as int)[kk].0@,
                        css[kk],
                        meta_of(tree, child as int),
                    ));
                    assert(dec_dirtree(self.visible_map()[(ObjectType::DirTree, cs@)]).unwrap().1
                        == de);
                    assert(subtree_frozen(self.visible_map(), tree, child as int, css[kk]));
                }
                assert(subtree_frozen(self.visible_map(), tree, node as int, cs@));
            }
            idx = node;
        }
        let root_cs = match tree.contents_checksum(0) {
            Some(c) => c,
            None => {
                proof {
                    assert(false);
                }
                return Err(StoreError::IntegrityError);
            },
        };
        Ok(root_cs)
    }
}

/// The store holds a whole, well-formed DirTree graph under `cs`, nested no
/// deeper than `fuel` levels: the record is present and decodes, its names
/// are unique and shared by no file and subdirectory, and every child tree
/// is recursively complete. This is exactly the condition under which
/// hydration succeeds.
pub open spec fn tree_complete(m: Map<(ObjectType, Seq<u8>), Seq<u8>>, cs: Seq<u8>, fuel: nat)
    -> bool
    decreases fuel,
{
    &&& fuel > 0
    &&& m.contains_key((ObjectType::DirTree, cs))
    &&& dec_dirtree(m[(ObjectType::DirTree, cs)]) is Some
    &&& (forall|i: int, j: int|
        0 <= i < j < dec_dirtree(m[(ObjectType::DirTree, cs)]).unwrap().0.len()
            ==> dec_dirtree(m[(ObjectType::DirTree, cs)]).unwrap().0[i].0 != dec_dirtree(
            m[(ObjectType::DirTree, cs)],
        ).unwrap().0[j].0)
    &&& (forall|i: int, j: int|
        0 <= i < j < dec_dirtree(m[(ObjectType::DirTree, cs)]).unwrap().1.len()
            ==> dec_dirtree(m[(ObjectType::DirTree, cs)]).unwrap().1[i].0 != dec_dirtree(
            m[(ObjectType::DirTree, cs)],
        ).unwrap().1[j].0)
    &&& (forall|i: int, j: int|
        0 <= i < dec_dirtree(m[(ObjectType::DirTree, cs)]).unwrap().0.len() && 0 <= j
            < dec_dirtree(m[(ObjectType::DirTree, cs)]).unwrap().1.len() ==> dec_dirtree(
            m[(ObjectType::DirTree, cs)],
        ).unwrap().0[i].0 != dec_dirtree(m[(ObjectType::DirTree, cs)]).unwrap().1[j].0)
    &&& (forall|k: int|
        0 <= k < dec_dirtree(m[(ObjectType::DirTree, cs)]).unwrap().1.len() ==> tree_complete(
            m,
            (#[trigger] dec_dirtree(m[(ObjectType::DirTree, cs)]).unwrap().1[k]).1,
            (fuel - 1) as nat,
        ))
}

/// The recursion depth a hydration of this store allows: one level per
/// object the handle can see, plus one, saturating at the machine bound. A
/// well-formed DirTree graph never nests deeper, since every level names a
/// distinct stored record.
pub open spec fn hydration_fuel(repo: &Repo) -> nat {
    if repo.committed@.len() + repo.staged@.len() + 1 <= usize::MAX {
        (repo.committed@.len() + repo.staged@.len() + 1) as nat
    } else {
        usize::MAX as nat
    }
}

/// Freezing guarantees reconstitution: a frozen subtree of a well-formed
/// tree is a complete stored graph, for any depth allowance beyond the
/// subtree's own nesting. Together with [`lemma_frozen_unique`], freezing a
/// tree and reconstituting from its checksum yields the same tree shape.
pub proof fn lemma_frozen_tree_complete(m: Map<(ObjectType, Seq<u8>), Seq<u8>>, t: &MutableTree,
    n: int, cs: Seq<u8>, fuel: nat)
    requires
        subtree_frozen(m, t, n, cs),
        t.wf(),
        fuel > t.nodes@.len() - n,
    ensures
        tree_complete(m, cs, fuel),
    decreases t.nodes@.len() - n,
{
    let fs = dec_dirtree(m[(ObjectType::DirTree, cs)]).unwrap().0;
    let ds = dec_dirtree(m[(ObjectType::DirTree, cs)]).unwrap().1;
    assert(t.node_wf(n));
    assert forall|i: int, j: int| 0 <= i < j < fs.len() implies fs[i].0 != fs[j].0 by {
        assert(fs[i] == file_entries(t, n)[i]);
        assert(fs[j] == file_entries(t, n)[j]);
        assert(t.files_of(n)[i].0@ != t.files_of(n)[j].0@);
    }
    assert forall|i: int, j: int| 0 <= i < j < ds.len() implies ds[i].0 != ds[j].0 by {
        assert(ds[i].0 == t.dirs_of(n)[i].0@);
        assert(ds[j].0 == t.dirs_of(n)[j].0@);
        assert(t.dirs_of(n)[i].0@ != t.dirs_of(n)[j].0@);
    }
    assert forall|i: int, j: int|
        0 <= i < fs.len() && 0 <= j < ds.len() implies fs[i].0 != ds[j].0 by {
        assert(fs[i] == file_entries(t, n)[i]);
        assert(ds[j].0 == t.dirs_of(n)[j].0@);
        assert(t.files_of(n)[i].0@ != t.dirs_of(n)[j].0@);
    }
    assert forall|k: int|
        0 <= k < ds.len() implies tree_complete(m, (#[trigger] ds[k]).1, (fuel - 1) as nat) by {
        assert(ds[k].0 == t.dirs_of(n)[k].0@);
        assert(n < t.dirs_of(n)[k].1 < t.nodes@.len());
        assert(subtree_frozen(m, t, t.dirs_of(n)[k].1 as int, ds[k].1));
        lemma_frozen_tree_complete(m, t, t.dirs_of(n)[k].1 as int, ds[k].1, (fuel - 1) as nat);
    }
}

impl MutableTree {
    /// Fill one empty directory node from the DirTree record stored under
    /// `cs`, creating and filling subdirectory nodes recursively. `fuel`
    /// bounds the recursion depth; a store whose records nest deeper than it
    /// holds objects is cyclic, which is corruption.
    fn hydrate_into(&mut self, repo: &Repo, node: usize, cs: &Checksum, fuel: usize) -> (r: Result<
        (),
        StoreError,
    >)
        requires
            old(self).wf(),
            repo.wf(),
            node < old(self).nodes@.len(),
            old(self).files_of(node as int).len() == 0,
            old(self).dirs_of(node as int).len() == 0,
        ensures
            final(self).wf(),
            final(self).deferred == old(self).deferred,
            final(self).nodes@.len() >= old(self).nodes@.len(),
            forall|j: int|
                0 <= j < old(self).nodes@.len() && j != node ==> final(self).files_of(j) == old(self).files_of(j) && final(self).dirs_of(j) == old(self).dirs_of(j) && (#[trigger] final(self).nodes@[j]).metadata_checksum == old(self).nodes@[j].metadata_checksum,
            final(self).nodes@[node as int].metadata_checksum == old(self).nodes@[node as int].metadata_checksum,
            r is Ok <==> tree_complete(repo.visible_map(), cs@, fuel as nat),
            r matches Err(e) ==> e == StoreError::NotFound || e == StoreError::IntegrityError,
            r is Ok ==> subtree_frozen(repo.visible_map(), final(self), node as int, cs@),
        decreases fuel,
    {
        let ghost m = repo.visible_map();
        if fuel == 0 {
            proof {
                assert(!tree_complete(m, cs@, fuel as nat));
            }
            return Err(StoreError::IntegrityError);
        }
        let bytes = match repo.read_object(ObjectType::DirTree, cs, None) {
            Ok(b) => b,
            Err(e) => {
                proof {
                    assert(!m.contains_key((ObjectType::DirTree, cs@)));
                    assert(!tree_complete(m, cs@, fuel as nat));
                }
                return Err(e);
            },
        };
        let rec = match decode_dirtree(&bytes) {
            Some(r) => r,
            None => {
                proof {
                    assert(dec_dirtree(m[(ObjectType::DirTree, cs@)]) is None);
                    assert(!tree_complete(m, cs@, fuel as nat));
                }
                return Err(StoreError::IntegrityError);
            },
        };
        let ghost fs = fents_view(rec.files@);
        let ghost ds = dents_view(rec.dirs@);
        let mut i: usize = 0;
        while i < rec.files.len()
            invariant
                self.wf(),
                repo.wf(),
                m == repo.visible_map(),
                node < self.nodes@.len(),
                self.nodes@.len() == old(self).nodes@.len(),
                self.deferred == old(self).deferred,
                i <= rec.files@.len(),
                fuel >= 1,
                m.contains_key((ObjectType::DirTree, cs@)),
                dec_dirtree(m[(ObjectType::DirTree, cs@)]) == Some((fs, ds)),
                fs == fents_view(rec.files@),
                ds == dents_view(rec.dirs@),
                self.files_of(node as int).len() == i,
                file_entries(self, node as int) =~= fs.take(i as int),
                self.dirs_of(node as int).len() == 0,
                forall|j: int|
                    0 <= j < old(self).nodes@.len() && j != node ==> self.files_of(j) == old(self).files_of(j) && self.dirs_of(j) == old(self).dirs_of(j) && (#[trigger] self.nodes@[j]).metadata_checksum
                        == old(self).nodes@[j].metadata_checksum,
                self.nodes@[node as int].metadata_checksum == old(self).nodes@[node as int].metadata_checksum,
            decreases rec.files@.len() - i,
        {
            let nm = crate::util::clone_bytes(&rec.files[i].name);
            if let Some(i0) = MutableTree::find_f(&self.nodes[node].files, &nm) {
                proof {
                    assert(file_entries(self, node as int)[i0 as int].0 == fs[i0 as int].0);
                    assert(fs[i0 as int].0 == fs[i as int].0);
                    assert(dec_dirtree(m[(ObjectType::DirTree, cs@)]).unwrap().0[i0 as int].0
                        == dec_dirtree(m[(ObjectType::DirTree, cs@)]).unwrap().0[i as int].0);
                    assert(!tree_complete(m, cs@, fuel as nat));
                }
                return Err(StoreError::IntegrityError);
            }
            let ghost pre = *self;
            let c = rec.files[i].checksum;
            self.nodes[node].files.push((nm, c));
            proof {
                assert forall|n2: int| 0 <= n2 < self.nodes@.len() implies self.node_wf(n2) by {
                    assert(pre.node_wf(n2));
                    if n2 != node {
                        assert(self.nodes@[n2] == pre.nodes@[n2]);
                    } else {
                        let s0 = pre.files_of(n2);
                        let s1 = self.files_of(n2);
                        assert(forall|a: int| 0 <= a < s0.len() ==> s1[a] == s0[a]);
                        assert(s1.last().0@ == rec.files@[i as int].name@);
                    }
                }
                assert(self.files_of(node as int).len() == i + 1);
                assert(forall|a: int|
                    0 <= a < self.files_of(node as int).len() ==> (#[trigger] file_entries(
                        self,
                        node as int,
                    )[a]) == (self.files_of(node as int)[a].0@, self.files_of(node as int)[a].1@));
                assert(self.files_of(node as int).last().0@ == rec.files@[i as int].name@);
                assert(self.files_of(node as int).last().1 == rec.files@[i as int].checksum);
                assert(fs[i as int] == (rec.files@[i as int].name@, rec.files@[i as int].checksum@));
                assert(file_entries(self, node as int) =~= fs.take(i + 1 as int));
            }
            i = i + 1;
        }
        proof {
            assert(fs.take(rec.files@.len() as int) =~= fs);
        }
        let mut k: usize = 0;
        while k < rec.dirs.len()
            invariant
                self.wf(),
                repo.wf(),
                m == repo.visible_map(),
                node < self.nodes@.len(),
                self.nodes@.len() >= old(self).nodes@.len(),
                self.deferred == old(self).deferred,
                k <= rec.dirs@.len(),
                fuel >= 1,
                m.contains_key((ObjectType::DirTree, cs@)),
                dec_dirtree(m[(ObjectType::DirTree, cs@)]) == Some((fs, ds)),
                fs == fents_view(rec.files@),
                ds == dents_view(rec.dirs@),
                file_entries(self, node as int) == fs,
                self.dirs_of(node as int).len() == k,
                forall|j: int|
                    0 <= j < old(self).nodes@.len() && j != node ==> self.files_of(j) == old(self).files_of(j) && self.dirs_of(j) == old(self).dirs_of(j) && (#[trigger] self.nodes@[j]).metadata_checksum
                        == old(self).nodes@[j].metadata_checksum,
                self.nodes@[node as int].metadata_checksum == old(self).nodes@[node as int].metadata_checksum,
                forall|j: int|
                    0 <= j < k ==> {
                        &&& (#[trigger] self.dirs_of(node as int)[j]).0@ == ds[j].0
                        &&& node < self.dirs_of(node as int)[j].1 < self.nodes@.len()
                        &&& self.nodes@[self.dirs_of(node as int)[j].1 as int].metadata_checksum
                            is Some
                        &&& meta_of(self, self.dirs_of(node as int)[j].1 as int) == ds[j].2
                        &&& subtree_frozen(m, self, self.dirs_of(node as int)[j].1 as int, ds[j].1)
                        &&& tree_complete(m, ds[j].1, (fuel - 1) as nat)
                    },
            decreases rec.dirs@.len() - k,
        {
            let nm = crate::util::clone_bytes(&rec.dirs[k].name);
            if let Some(i0) = MutableTree::find_f(&self.nodes[node].files, &nm) {
                proof {
                    assert(file_entries(self, node as int)[i0 as int].0 == fs[i0 as int].0);
                    assert(fs[i0 as int].0 == ds[k as int].0);
                    assert(dec_dirtree(m[(ObjectType::DirTree, cs@)]).unwrap().0[i0 as int].0
                        == dec_dirtree(m[(ObjectType::DirTree, cs@)]).unwrap().1[k as int].0);
                    assert(!tree_complete(m, cs@, fuel as nat));
                }
                return Err(StoreError::IntegrityError);
            }
            if let Some(j0) = MutableTree::find_d(&self.nodes[node].subdirs, &nm) {
                proof {
                    assert(self.dirs_of(node as int)[j0 as int].0@ == ds[j0 as int].0);
                    assert(ds[j0 as int].0 == ds[k as int].0);
                    assert(dec_dirtree(m[(ObjectType::DirTree, cs@)]).unwrap().1[j0 as int].0
                        == dec_dirtree(m[(ObjectType::DirTree, cs@)]).unwrap().1[k as int].0);
                    assert(!tree_complete(m, cs@, fuel as nat));
                }
                return Err(StoreError::IntegrityError);
            }
            let ghost pre = *self;
            let child = self.nodes.len();
            let fresh = TreeNode {
                files: Vec::new(),
                subdirs: Vec::new(),
                contents_checksum: None,
                metadata_checksum: Some(rec.dirs[k].meta_checksum),
            };
            self.nodes.push(fresh);
            self.nodes[node].subdirs.push((nm, child));
            proof {
                assert forall|n2: int| 0 <= n2 < self.nodes@.len() implies self.node_wf(n2) by {
                    if n2 < pre.nodes@.len() {
                        assert(pre.node_wf(n2));
                        if n2 != node {
                            assert(self.nodes@[n2] == pre.nodes@[n2]);
                        } else {
                            let s0 = pre.dirs_of(n2);
                            let s1 = self.dirs_of(n2);
                            assert(forall|a: int| 0 <= a < s0.len() ==> s1[a] == s0[a]);
                            assert(s1.last().0@ == rec.dirs@[k as int].name@);
                            assert(s1.last().1 == child);
                        }
                    }
                }
                // Previously hydrated children keep their shape; their
                // subtrees lie wholly below the fresh node.
                assert forall|j: int|
                    0 <= j < k implies {
                    &&& (#[trigger] self.dirs_of(node as int)[j]).0@ == ds[j].0
                    &&& node < self.dirs_of(node as int)[j].1 < self.nodes@.len()
                    &&& self.nodes@[self.dirs_of(node as int)[j].1 as int].metadata_checksum
                        is Some
                    &&& meta_of(self, self.dirs_of(node as int)[j].1 as int) == ds[j].2
                    &&& frozen_up_to(
                        m,
                        self,
                        self.dirs_of(node as int)[j].1 as int,
                        ds[j].1,
                        pre.nodes@.len() as int,
                    )
                } by {
                    assert(self.dirs_of(node as int)[j] == pre.dirs_of(node as int)[j]);
                    let cj = pre.dirs_of(node as int)[j].1;
                    assert(self.nodes@[cj as int] == pre.nodes@[cj as int]);
                    lemma_frozen_agree_up_to(
                        m,
                        &pre,
                        self,
                        cj as int,
                        ds[j].1,
                        cj as int,
                        pre.nodes@.len() as int,
                    );
                }
            }
            let ghost mid = *self;
            match self.hydrate_into(repo, child, &rec.dirs[k].tree_checksum, fuel - 1) {
                Ok(()) => (),
                Err(e) => {
                    proof {
                        assert(!tree_complete(m, ds[k as int].1, (fuel - 1) as nat));
                        assert(dec_dirtree(m[(ObjectType::DirTree, cs@)]).unwrap().1[k as int].1
                            == ds[k as int].1);
                        assert(!tree_complete(m, cs@, fuel as nat));
                    }
                    return Err(e);
                },
            }
            proof {
                assert forall|j: int|
                    0 <= j < k + 1 implies {
                    &&& (#[trigger] self.dirs_of(node as int)[j]).0@ == ds[j].0
                    &&& node < self.dirs_of(node as int)[j].1 < self.nodes@.len()
                    &&& self.nodes@[self.dirs_of(node as int)[j].1 as int].metadata_checksum
                        is Some
                    &&& meta_of(self, self.dirs_of(node as int)[j].1 as int) == ds[j].2
                    &&& subtree_frozen(m, self, self.dirs_of(node as int)[j].1 as int, ds[j].1)
                } by {
                    assert(self.dirs_of(node as int) == mid.dirs_of(node as int));
                    if j < k {
                        let cj = mid.dirs_of(node as int)[j].1;
                        assert(cj != child);
                        assert(self.nodes@[cj as int].metadata_checksum
                            == mid.nodes@[cj as int].metadata_checksum);
                        assert(frozen_up_to(m, &mid, cj as int, ds[j].1, child as int));
                        lemma_frozen_agree_up_to(
                            m,
                            &mid,
                            self,
                            cj as int,
                            ds[j].1,
                            cj as int,
                            child as int,
                        );
                        lemma_frozen_widen(
                            m,
                            self,
                            cj as int,
                            ds[j].1,
                            child as int,
                            self.nodes@.len() as int,
                        );
                    } else {
                        assert(self.dirs_of(node as int)[j].1 == child);
                        assert(self.nodes@[child as int].metadata_checksum
                            == mid.nodes@[child as int].metadata_checksum);
                        assert(meta_of(self, child as int) == rec.dirs@[k as int].meta_checksum@);
                        assert(ds[j] == (
                            rec.dirs@[k as int].name@,
                            rec.dirs@[k as int].tree_checksum@,
                            rec.dirs@[k as int].meta_checksum@,
                        ));
                    }
                }
            }
            k = k + 1;
        }
        proof {
            assert(m.contains_key((ObjectType::DirTree, cs@)) && m[(ObjectType::DirTree, cs@)]
                == bytes@);
            assert(dec_dirtree(m[(ObjectType::DirTree, cs@)]) == Some((fs, ds)));
            assert(self.dirs_of(node as int).len() == ds.len());
            assert forall|kk: int|
                0 <= kk < self.dirs_of(node as int).len() implies {
                let e = dec_dirtree(m[(ObjectType::DirTree, cs@)]).unwrap().1[kk];
                &&& e.0 == (#[trigger] self.dirs_of(node as int)[kk]).0@
                &&& (node as int) < self.dirs_of(node as int)[kk].1 < self.nodes@.len()
                &&& self.nodes@[self.dirs_of(node as int)[kk].1 as int].metadata_checksum is Some
                &&& e.2 == meta_of(self, self.dirs_of(node as int)[kk].1 as int)
                &&& subtree_frozen(m, self, self.dirs_of(node as int)[kk].1 as int, e.1)
            } by {
                assert(self.dirs_of(node as int)[kk].0@ == ds[kk].0);
            }
            assert(subtree_frozen(m, self, node as int, cs@));
            assert(tree_complete(m, cs@, fuel as nat)) by {
                assert(self.node_wf(node as int));
                assert forall|i2: int, j2: int|
                    0 <= i2 < j2 < fs.len() implies fs[i2].0 != fs[j2].0 by {
                    assert(fs[i2] == file_entries(self, node as int)[i2]);
                    assert(fs[j2] == file_entries(self, node as int)[j2]);
                    assert(self.files_of(node as int)[i2].0@ != self.files_of(node as int)[j2].0@);
                }
                assert forall|i2: int, j2: int|
                    0 <= i2 < j2 < ds.len() implies ds[i2].0 != ds[j2].0 by {
                    assert(self.dirs_of(node as int)[i2].0@ == ds[i2].0);
                    assert(self.dirs_of(node as int)[j2].0@ == ds[j2].0);
                    assert(self.dirs_of(node as int)[i2].0@ != self.dirs_of(node as int)[j2].0@);
                }
                assert forall|i2: int, j2: int|
                    0 <= i2 < fs.len() && 0 <= j2 < ds.len() implies fs[i2].0 != ds[j2].0 by {
                    assert(fs[i2] == file_entries(self, node as int)[i2]);
                    assert(self.dirs_of(node as int)[j2].0@ == ds[j2].0);
                    assert(self.files_of(node as int)[i2].0@ != self.dirs_of(node as int)[j2].0@);
                }
                assert forall|k2: int|
                    0 <= k2 < ds.len() implies tree_complete(
                    m,
                    (#[trigger] dec_dirtree(m[(ObjectType::DirTree, cs@)]).unwrap().1[k2]).1,
                    (fuel - 1) as nat,
                ) by {
                    assert(self.dirs_of(node as int)[k2].0@ == ds[k2].0);
                    assert(tree_complete(m, ds[k2].1, (fuel - 1) as nat));
                }
            }
        }
        Ok(())
    }

    /// Reconstitute a staging tree from a frozen DirTree checksum and the
    /// metadata checksum for its root. The tree is always returned;
    /// hydration succeeds exactly when the store holds a whole, well-formed
    /// DirTree graph under the checksum, and otherwise the error is deferred
    /// until [`MutableTree::check_error`].
    pub fn from_checksum(repo: &Repo, contents_checksum: &Checksum, metadata_checksum: &Checksum)
        -> (r: MutableTree)
        requires
            repo.wf(),
        ensures
            r.wf(),
            r.nodes@[0].metadata_checksum == Some(*metadata_checksum),
            r.deferred is None <==> tree_complete(
                repo.visible_map(),
                contents_checksum@,
                hydration_fuel(repo),
            ),
            r.deferred matches Some(e) ==> e == StoreError::NotFound || e
                == StoreError::IntegrityError,
            r.deferred is None ==> subtree_frozen(repo.visible_map(), &r, 0, contents_checksum@)
                && r.nodes@[0].contents_checksum == Some(*contents_checksum),
    {
        let mut t = MutableTree::new();
        t.set_metadata_checksum(0, metadata_checksum);
        let oc = repo.object_count();
        let fuel = if oc < usize::MAX {
            oc + 1
        } else {
            usize::MAX
        };
        match t.hydrate_into(repo, 0, contents_checksum, fuel) {
            Ok(()) => {
                let ghost pre = t;
                t.set_contents_checksum(0, contents_checksum);
                proof {
                    assert(pre.same_shape(&t));
                    lemma_frozen_same_shape(repo.visible_map(), &pre, &t, 0, contents_checksum@);
                }
                t
            },
            Err(e) => {
                let mut t2 = MutableTree::new();
                t2.set_metadata_checksum(0, metadata_checksum);
                t2.deferred = Some(e);
                t2
            },
        }
    }

    /// Reconstitute a staging tree from the root tree of a commit object.
    /// Fails with the store's error when the commit is absent or malformed;
    /// the returned tree hydrates exactly when the commit's root DirTree
    /// graph is whole and well formed, and defers the error otherwise.
    pub fn from_commit(repo: &Repo, commit_checksum: &Checksum) -> (r: Result<
        MutableTree,
        StoreError,
    >)
        requires
            repo.wf(),
        ensures
            r is Ok <==> (repo.visible_map().contains_key((ObjectType::Commit, commit_checksum@))
                && dec_commit(
                repo.visible_map()[(ObjectType::Commit, commit_checksum@)],
            ) is Some),
            r matches Ok(t) ==> t.wf() && (t.deferred is None <==> tree_complete(
                repo.visible_map(),
                dec_commit(
                    repo.visible_map()[(ObjectType::Commit, commit_checksum@)],
                ).unwrap().0,
                hydration_fuel(repo),
            )) && (t.deferred is None ==> subtree_frozen(
                repo.visible_map(),
                &t,
                0,
                dec_commit(
                    repo.visible_map()[(ObjectType::Commit, commit_checksum@)],
                ).unwrap().0,
            )),
            r matches Err(e) ==> e == StoreError::NotFound || e == StoreError::IntegrityError,
    {
        let bytes = match repo.read_object(ObjectType::Commit, commit_checksum, None) {
            Ok(b) => b,
            Err(e) => {
                return Err(e);
            },
        };
        let rec = match decode_commit(&bytes) {
            Some(rc) => rc,
            None => {
                return Err(StoreError::IntegrityError);
            },
        };
        Ok(MutableTree::from_checksum(repo, &rec.tree_checksum, &rec.meta_checksum))
    }

    /// If this tree is a single empty root, fill it from the given DirTree
    /// and DirMeta checksums and report success; otherwise leave the tree
    /// unchanged and report failure.
    pub fn fill_empty_from_dirtree(&mut self, repo: &Repo, contents_checksum: &Checksum,
        metadata_checksum: &Checksum) -> (r: bool)
        requires
            old(self).wf(),
            repo.wf(),
        ensures
            final(self).wf(),
            r == (old(self).nodes@.len() == 1 && old(self).files_of(0).len() == 0 && old(self).dirs_of(0).len() == 0),
            r ==> final(self).nodes@[0].metadata_checksum == Some(*metadata_checksum) && (final(self).deferred is None <==> tree_complete(
                repo.visible_map(),
                contents_checksum@,
                hydration_fuel(repo),
            )),
            r ==> final(self).deferred is None ==> subtree_frozen(
                repo.visible_map(),
                final(self),
                0,
                contents_checksum@,
            ),
            !r ==> *final(self) == *old(self),
    {
        if self.node_count() != 1 {
            return false;
        }
        if self.nodes[0].files.len() != 0 || self.nodes[0].subdirs.len() != 0 {
            return false;
        }
        let t = MutableTree::from_checksum(repo, contents_checksum, metadata_checksum);
        *self = t;
        true
    }
}

impl Repo {
    /// How many objects this handle can see, staged writes included,
    /// saturating at the machine bound.
    pub fn object_count(&self) -> (r: usize)
        ensures
            r == (if self.committed@.len() + self.staged@.len() <= usize::MAX {
                self.committed@.len() + self.staged@.len() as int
            } else {
                usize::MAX as int
            }),
    {
        let a = self.committed.len();
        let b = self.staged.len();
        if usize::MAX - a >= b {
            a + b
        } else {
            usize::MAX
        }
    }

    /// Load and parse the directory metadata stored under a checksum,
    /// returning uid, gid and mode in host byte order together with the
    /// serialized extended attributes.
    pub fn read_dirmeta(&self, checksum: &Checksum, cancellable: Option<&Cancellable>) -> (r:
        Result<DirMetaParsed, StoreError>)
        requires
            self.wf(),
        ensures
            spec_cancelled(cancellable) ==> r == Err::<DirMetaParsed, StoreError>(
                StoreError::Cancelled,
            ),
            !spec_cancelled(cancellable) ==> match r {
                Ok(d) => self.visible_map().contains_key((ObjectType::DirMeta, checksum@))
                    && dec_dirmeta(self.visible_map()[(ObjectType::DirMeta, checksum@)]) == Some(
                    (d.uid, d.gid, d.mode, d.xattrs@),
                ),
                Err(e) => (e == StoreError::NotFound || e == StoreError::IntegrityError) && !(
                self.visible_map().contains_key((ObjectType::DirMeta, checksum@)) && dec_dirmeta(
                    self.visible_map()[(ObjectType::DirMeta, checksum@)],
                ) is Some) && (e == StoreError::NotFound <==> !exists|t: ObjectType|
                    self.visible_map().contains_key((t, checksum@))),
            },
    {
        let bytes = self.read_object(ObjectType::DirMeta, checksum, cancellable)?;
        match decode_dirmeta(&bytes) {
            Some(d) => Ok(d),
            None => Err(StoreError::IntegrityError),
        }
    }
}

} // verus!
