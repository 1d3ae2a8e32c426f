//! The mutable staging tree: an in-memory directory hierarchy assembled
//! before it is frozen into immutable tree objects.
//!
//! Nodes live in an arena and are named by index; every subdirectory edge
//! points at a strictly higher index, so the structure is acyclic by
//! construction and freezing can walk it from the highest index down.

use vstd::prelude::*;
use crate::checksum::Checksum;
use crate::error::StoreError;
use crate::util::bytes_eq;
use vstd::string::StrSliceExecFns;
use vstd::string::StringSliceAdditionalSpecFns;

verus! {

/// One directory node of the staging tree.
pub struct TreeNode {
    /// Child files: name to content checksum. Names are unique.
    pub files: Vec<(Vec<u8>, Checksum)>,
    /// Child subdirectories: name to arena index. Names are unique, never
    /// shared with a file, and every index is strictly greater than the
    /// node's own.
    pub subdirs: Vec<(Vec<u8>, usize)>,
    /// The cached DirTree checksum; cleared by any mutation.
    pub contents_checksum: Option<Checksum>,
    /// The DirMeta checksum assigned to this directory.
    pub metadata_checksum: Option<Checksum>,
}

/// Whether some file entry carries this name.
pub open spec fn has_fname(s: Seq<(Vec<u8>, Checksum)>, name: Seq<u8>) -> bool {
    exists|i: int| 0 <= i < s.len() && (#[trigger] s[i]).0@ == name
}

/// The index of the file entry carrying this name.
pub open spec fn fidx(s: Seq<(Vec<u8>, Checksum)>, name: Seq<u8>) -> int {
    choose|i: int| 0 <= i < s.len() && (#[trigger] s[i]).0@ == name
}

/// The checksum bytes mapped to this file name.
pub open spec fn fcs(s: Seq<(Vec<u8>, Checksum)>, name: Seq<u8>) -> Seq<u8> {
    s[fidx(s, name)].1@
}

/// Whether some subdirectory entry carries this name.
pub open spec fn has_dname(s: Seq<(Vec<u8>, usize)>, name: Seq<u8>) -> bool {
    exists|i: int| 0 <= i < s.len() && (#[trigger] s[i]).0@ == name
}

/// The index of the subdirectory entry carrying this name.
pub open spec fn didx(s: Seq<(Vec<u8>, usize)>, name: Seq<u8>) -> int {
    choose|i: int| 0 <= i < s.len() && (#[trigger] s[i]).0@ == name
}

/// The arena index mapped to this subdirectory name.
pub open spec fn dchild(s: Seq<(Vec<u8>, usize)>, name: Seq<u8>) -> int {
    s[didx(s, name)].1 as int
}

/// File names are pairwise distinct.
pub open spec fn funique(s: Seq<(Vec<u8>, Checksum)>) -> bool {
    forall|i: int, j: int| 0 <= i < j < s.len() ==> s[i].0@ != s[j].0@
}

/// Subdirectory names are pairwise distinct.
pub open spec fn dunique(s: Seq<(Vec<u8>, usize)>) -> bool {
    forall|i: int, j: int| 0 <= i < j < s.len() ==> s[i].0@ != s[j].0@
}

/// The staging tree. `nodes[0]` is the root directory.
pub struct MutableTree {
    /// The arena of directory nodes.
    pub nodes: Vec<TreeNode>,
    /// A deferred error recorded by a hydration that could not fail
    /// immediately; surfaced by [`MutableTree::check_error`].
    pub deferred: Option<StoreError>,
}

impl MutableTree {
    /// The file entries of one node.
    pub open spec fn files_of(&self, n: int) -> Seq<(Vec<u8>, Checksum)> {
        self.nodes@[n].files@
    }

    /// The subdirectory entries of one node.
    pub open spec fn dirs_of(&self, n: int) -> Seq<(Vec<u8>, usize)> {
        self.nodes@[n].subdirs@
    }

    /// The per-node invariant: unique names, one namespace for files and
    /// subdirectories, and edges that strictly increase the arena index.
    pub open spec fn node_wf(&self, n: int) -> bool {
        &&& funique(self.files_of(n))
        &&& dunique(self.dirs_of(n))
        &&& (forall|i: int, j: int|
            0 <= i < self.files_of(n).len() && 0 <= j < self.dirs_of(n).len()
                ==> (#[trigger] self.files_of(n)[i]).0@ != (#[trigger] self.dirs_of(n)[j]).0@)
        &&& (forall|j: int|
            0 <= j < self.dirs_of(n).len() ==> n < (#[trigger] self.dirs_of(n)[j]).1
                < self.nodes@.len())
    }

    /// The whole-tree invariant.
    pub open spec fn wf(&self) -> bool {
        &&& 1 <= self.nodes@.len()
        &&& forall|n: int| 0 <= n < self.nodes@.len() ==> self.node_wf(n)
    }

    /// Two trees have the same shape: equal node counts, and equal files,
    /// subdirectories and metadata per node. Cached contents checksums may
    /// differ.
    pub open spec fn same_shape(&self, other: &MutableTree) -> bool {
        &&& self.nodes@.len() == other.nodes@.len()
        &&& forall|n: int|
            0 <= n < self.nodes@.len() ==> self.files_of(n) == other.files_of(n)
                && self.dirs_of(n) == other.dirs_of(n) && (#[trigger] self.nodes@[n]).metadata_checksum
                == other.nodes@[n].metadata_checksum
    }

    /// A new tree holding one empty root directory.
    pub fn new() -> (r: MutableTree)
        ensures
            r.wf(),
            r.nodes@.len() == 1,
            r.files_of(0).len() == 0,
            r.dirs_of(0).len() == 0,
            r.nodes@[0].metadata_checksum is None,
            r.nodes@[0].contents_checksum is None,
            r.deferred is None,
    {
        let root = TreeNode {
            files: Vec::new(),
            subdirs: Vec::new(),
            contents_checksum: None,
            metadata_checksum: None,
        };
        let mut nodes: Vec<TreeNode> = Vec::new();
        nodes.push(root);
        MutableTree { nodes, deferred: None }
    }

    /// How many directory nodes the arena holds.
    pub fn node_count(&self) -> (r: usize)
        ensures
            r == self.nodes@.len(),
    {
        self.nodes.len()
    }

    /// Surface a deferred error recorded by a prior operation that did not
    /// fail immediately. Callers must check this before trusting checksums
    /// computed from the tree.
    pub fn check_error(&self) -> (r: Result<(), StoreError>)
        ensures
            match self.deferred {
                Some(e) => r == Err::<(), StoreError>(e),
                None => r == Ok::<(), StoreError>(()),
            },
    {
        match self.deferred {
            Some(e) => Err(e),
            None => Ok(()),
        }
    }

    /// The cached DirTree checksum of one node, if one is set.
    pub fn contents_checksum(&self, node: usize) -> (r: Option<Checksum>)
        requires
            node < self.nodes@.len(),
        ensures
            r == self.nodes@[node as int].contents_checksum,
    {
        self.nodes[node].contents_checksum
    }

    /// The DirMeta checksum of one node, if one is set.
    pub fn metadata_checksum(&self, node: usize) -> (r: Option<Checksum>)
        requires
            node < self.nodes@.len(),
        ensures
            r == self.nodes@[node as int].metadata_checksum,
    {
        self.nodes[node].metadata_checksum
    }

    /// Set the cached DirTree checksum of one node.
    pub fn set_contents_checksum(&mut self, node: usize, checksum: &Checksum)
        requires
            node < old(self).nodes@.len(),
            old(self).wf(),
        ensures
            final(self).wf(),
            final(self).same_shape(old(self)),
            final(self).deferred == old(self).deferred,
            final(self).nodes@[node as int].contents_checksum == Some(*checksum),
            forall|n: int|
                0 <= n < final(self).nodes@.len() && n != node
                    ==> (#[trigger] final(self).nodes@[n]).contents_checksum
                    == old(self).nodes@[n].contents_checksum,
    {
        self.nodes[node].contents_checksum = Some(*checksum);
        proof {
            assert forall|n: int| 0 <= n < self.nodes@.len() implies self.node_wf(n) by {
                assert(old(self).node_wf(n));
                if n != node {
                    assert(self.nodes@[n] == old(self).nodes@[n]);
                }
            }
        }
    }

    /// Set the DirMeta checksum of one node.
    pub fn set_metadata_checksum(&mut self, node: usize, checksum: &Checksum)
        requires
            node < old(self).nodes@.len(),
            old(self).wf(),
        ensures
            final(self).wf(),
            final(self).nodes@.len() == old(self).nodes@.len(),
            final(self).deferred == old(self).deferred,
            final(self).nodes@[node as int].metadata_checksum == Some(*checksum),
            final(self).nodes@[node as int].contents_checksum == old(self).nodes@[node as int].contents_checksum,
            forall|n: int|
                0 <= n < final(self).nodes@.len() ==> final(self).files_of(n) == old(self).files_of(
                    n,
                ) && final(self).dirs_of(n) == old(self).dirs_of(n),
            forall|n: int|
                0 <= n < final(self).nodes@.len() && n != node
                    ==> (#[trigger] final(self).nodes@[n]) == old(self).nodes@[n],
    {
        self.nodes[node].metadata_checksum = Some(*checksum);
        proof {
            assert forall|n: int| 0 <= n < self.nodes@.len() implies self.node_wf(n) by {
                assert(old(self).node_wf(n));
                if n != node {
                    assert(self.nodes@[n] == old(self).nodes@[n]);
                }
            }
        }
    }

    /// Find the file entry carrying `name`.
    pub(crate) fn find_f(s: &Vec<(Vec<u8>, Checksum)>, name: &Vec<u8>) -> (r: Option<usize>)
        ensures
            match r {
                Some(i) => 0 <= i < s@.len() && s@[i as int].0@ == name@,
                None => !has_fname(s@, name@),
            },
    {
        let mut i: usize = 0;
        while i < s.len()
            invariant
                i <= s@.len(),
                forall|j: int| 0 <= j < i ==> (#[trigger] s@[j]).0@ != name@,
            decreases s@.len() - i,
        {
            if bytes_eq(&s[i].0, name) {
                return Some(i);
            }
            i = i + 1;
        }
        None
    }

    /// Find the subdirectory entry carrying `name`.
    pub(crate) fn find_d(s: &Vec<(Vec<u8>, usize)>, name: &Vec<u8>) -> (r: Option<usize>)
        ensures
            match r {
                Some(i) => 0 <= i < s@.len() && s@[i as int].0@ == name@,
                None => !has_dname(s@, name@),
            },
    {
        let mut i: usize = 0;
        while i < s.len()
            invariant
                i <= s@.len(),
                forall|j: int| 0 <= j < i ==> (#[trigger] s@[j]).0@ != name@,
            decreases s@.len() - i,
        {
            if bytes_eq(&s[i].0, name) {
                return Some(i);
            }
            i = i + 1;
        }
        None
    }

    /// Look one name up in one node. Exactly one of the results is present
    /// when the name exists, both are absent when it does not; never fails.
    pub fn lookup(&self, node: usize, name: &str) -> (r: (Option<Checksum>, Option<usize>))
        requires
            self.wf(),
            node < self.nodes@.len(),
        ensures
            r.0 is Some <==> has_fname(self.files_of(node as int), name.spec_bytes()),
            r.1 is Some <==> (!has_fname(self.files_of(node as int), name.spec_bytes())
                && has_dname(self.dirs_of(node as int), name.spec_bytes())),
            r.0 matches Some(c) ==> c@ == fcs(self.files_of(node as int), name.spec_bytes()),
            r.1 matches Some(d) ==> d == dchild(self.dirs_of(node as int), name.spec_bytes()),
    {
        let name = name.as_bytes_vec();
        let name = &name;
        if let Some(i) = Self::find_f(&self.nodes[node].files, name) {
            proof {
                assert(self.node_wf(node as int));
                let s = self.files_of(node as int);
                let k = fidx(s, name@);
                assert(0 <= k < s.len() && s[k].0@ == name@);
                if k < i as int {
                    assert(s[k].0@ != s[i as int].0@);
                } else if k > i as int {
                    assert(s[i as int].0@ != s[k].0@);
                }
            }
            return (Some(self.nodes[node].files[i].1), None);
        }
        if let Some(i) = Self::find_d(&self.nodes[node].subdirs, name) {
            proof {
                assert(self.node_wf(node as int));
                let s = self.dirs_of(node as int);
                let k = didx(s, name@);
                assert(0 <= k < s.len() && s[k].0@ == name@);
                if k < i as int {
                    assert(s[k].0@ != s[i as int].0@);
                } else if k > i as int {
                    assert(s[i as int].0@ != s[k].0@);
                }
            }
            return (None, Some(self.nodes[node].subdirs[i].1));
        }
        (None, None)
    }

    /// Clear every cached DirTree checksum: any mutation invalidates them.
    fn clear_contents_caches(&mut self)
        requires
            old(self).wf(),
        ensures
            final(self).wf(),
            final(self).same_shape(old(self)),
            final(self).deferred == old(self).deferred,
            forall|n: int|
                0 <= n < final(self).nodes@.len() ==> (#[trigger] final(self).nodes@[n]).contents_checksum is None,
    {
        let mut i: usize = 0;
        while i < self.nodes.len()
            invariant
                i <= self.nodes@.len(),
                self.nodes@.len() == old(self).nodes@.len(),
                self.deferred == old(self).deferred,
                self.same_shape(old(self)),
                self.wf(),
                forall|n: int|
                    0 <= n < i ==> (#[trigger] self.nodes@[n]).contents_checksum is None,
            decreases self.nodes@.len() - i,
        {
            let ghost prev = *self;
            self.nodes[i].contents_checksum = None;
            proof {
                assert forall|n: int| 0 <= n < self.nodes@.len() implies self.node_wf(n) by {
                    assert(prev.node_wf(n));
                    if n != i {
                        assert(self.nodes@[n] == prev.nodes@[n]);
                    }
                }
            }
            i = i + 1;
        }
    }

    /// Replace or insert the file mapping for `name`. Fails with
    /// `InvalidOperation`, leaving the tree unchanged, when `name` already
    /// denotes a subdirectory: files and subdirectories share one namespace.
    pub fn replace_file(&mut self, node: usize, name: &str, checksum: &Checksum) -> (r: Result<
        (),
        StoreError,
    >)
        requires
            old(self).wf(),
            node < old(self).nodes@.len(),
        ensures
            final(self).wf(),
            final(self).deferred == old(self).deferred,
            has_dname(old(self).dirs_of(node as int), name.spec_bytes()) ==> r == Err::<(), StoreError>(
                StoreError::InvalidOperation,
            ) && *final(self) == *old(self),
            !has_dname(old(self).dirs_of(node as int), name.spec_bytes()) ==> r == Ok::<(), StoreError>(()) && {
                &&& final(self).nodes@.len() == old(self).nodes@.len()
                &&& forall|n: int|
                    0 <= n < old(self).nodes@.len() && n != node ==> final(self).files_of(n) == old(self).files_of(n) && final(self).dirs_of(n) == old(self).dirs_of(n)
                &&& forall|n: int|
                    0 <= n < old(self).nodes@.len() ==> (#[trigger] final(self).nodes@[n]).metadata_checksum == old(self).nodes@[n].metadata_checksum
                        && final(self).nodes@[n].contents_checksum is None
                &&& final(self).dirs_of(node as int) == old(self).dirs_of(node as int)
                &&& has_fname(final(self).files_of(node as int), name.spec_bytes())
                &&& fcs(final(self).files_of(node as int), name.spec_bytes()) == checksum@
                &&& forall|j: int|
                    0 <= j < final(self).files_of(node as int).len() ==> (#[trigger] final(self).files_of(node as int)[j]).0@ == name.spec_bytes() || (0 <= j < old(self).files_of(
                        node as int,
                    ).len() && final(self).files_of(node as int)[j] == old(self).files_of(
                        node as int,
                    )[j])
                &&& (has_fname(old(self).files_of(node as int), name.spec_bytes()) ==> final(self).files_of(
                    node as int,
                ).len() == old(self).files_of(node as int).len())
                &&& (!has_fname(old(self).files_of(node as int), name.spec_bytes()) ==> final(self).files_of(
                    node as int,
                ).len() == old(self).files_of(node as int).len() + 1)
            },
    {
        let nb = name.as_bytes_vec();
        if Self::find_d(&self.nodes[node].subdirs, &nb).is_some() {
            return Err(StoreError::InvalidOperation);
        }
        let ghost pre = *self;
        match Self::find_f(&self.nodes[node].files, &nb) {
            Some(i) => {
                self.nodes[node].files[i] = (nb, *checksum);
                proof {
                    assert(pre.node_wf(node as int));
                    let s0 = pre.files_of(node as int);
                    let s1 = self.files_of(node as int);
                    assert(s1[i as int].0@ == name.spec_bytes());
                    assert(forall|j: int| 0 <= j < s1.len() && j != i ==> s1[j] == s0[j]);
                    assert forall|n: int| 0 <= n < self.nodes@.len() implies self.node_wf(n) by {
                        assert(pre.node_wf(n));
                        if n != node {
                            assert(self.nodes@[n] == pre.nodes@[n]);
                        } else {
                            assert(forall|a: int|
                                0 <= a < s1.len() ==> (#[trigger] s1[a]).0@ == s0[a].0@);
                        }
                    }
                    let k = fidx(s1, name.spec_bytes());
                    assert(0 <= k < s1.len() && s1[k].0@ == name.spec_bytes());
                    if k != i as int {
                        assert(s1[k].0@ == s0[k].0@ && s0[k].0@ != s0[i as int].0@);
                    }
                }
            },
            None => {
                self.nodes[node].files.push((nb, *checksum));
                proof {
                    assert(pre.node_wf(node as int));
                    let s0 = pre.files_of(node as int);
                    let s1 = self.files_of(node as int);
                    assert(s1.len() == s0.len() + 1);
                    assert(forall|j: int| 0 <= j < s0.len() ==> s1[j] == s0[j]);
                    assert(s1[s1.len() - 1].0@ == name.spec_bytes() && s1[s1.len() - 1].1@ == checksum@);
                    assert forall|n: int| 0 <= n < self.nodes@.len() implies self.node_wf(n) by {
                        assert(pre.node_wf(n));
                        if n != node {
                            assert(self.nodes@[n] == pre.nodes@[n]);
                        }
                    }
                    let k = fidx(s1, name.spec_bytes());
                    assert(0 <= k < s1.len() && s1[k].0@ == name.spec_bytes());
                    if k != s1.len() - 1 {
                        assert(!has_fname(s0, name.spec_bytes()));
                        assert(s0[k].0@ == name.spec_bytes());
                    }
                }
            },
        }
        self.clear_contents_caches();
        Ok(())
    }

    /// Remove the file or subdirectory entry named `name`. A missing name is
    /// `NotFound` unless `allow_missing` makes it a silent no-op.
    pub fn remove(&mut self, node: usize, name: &str, allow_missing: bool) -> (r: Result<
        (),
        StoreError,
    >)
        requires
            old(self).wf(),
            node < old(self).nodes@.len(),
        ensures
            final(self).wf(),
            final(self).deferred == old(self).deferred,
            final(self).nodes@.len() == old(self).nodes@.len(),
            !has_fname(old(self).files_of(node as int), name.spec_bytes()) && !has_dname(
                old(self).dirs_of(node as int),
                name.spec_bytes(),
            ) ==> *final(self) == *old(self) && (if allow_missing {
                r == Ok::<(), StoreError>(())
            } else {
                r == Err::<(), StoreError>(StoreError::NotFound)
            }),
            has_fname(old(self).files_of(node as int), name.spec_bytes()) ==> r == Ok::<(), StoreError>(())
                && final(self).files_of(node as int) == old(self).files_of(node as int).remove(
                fidx(old(self).files_of(node as int), name.spec_bytes()),
            ) && final(self).dirs_of(node as int) == old(self).dirs_of(node as int),
            !has_fname(old(self).files_of(node as int), name.spec_bytes()) && has_dname(
                old(self).dirs_of(node as int),
                name.spec_bytes(),
            ) ==> r == Ok::<(), StoreError>(()) && final(self).dirs_of(node as int) == old(self).dirs_of(node as int).remove(didx(old(self).dirs_of(node as int), name.spec_bytes())) && final(self).files_of(node as int) == old(self).files_of(node as int),
            r == Ok::<(), StoreError>(()) ==> forall|n: int|
                0 <= n < old(self).nodes@.len() && n != node ==> final(self).files_of(n) == old(self).files_of(n) && final(self).dirs_of(n) == old(self).dirs_of(n),
            forall|n: int|
                0 <= n < old(self).nodes@.len() ==> (#[trigger] final(self).nodes@[n]).metadata_checksum == old(self).nodes@[n].metadata_checksum,
            has_fname(old(self).files_of(node as int), name.spec_bytes()) || has_dname(
                old(self).dirs_of(node as int),
                name.spec_bytes(),
            ) ==> forall|n: int|
                0 <= n < final(self).nodes@.len() ==> (#[trigger] final(self).nodes@[n]).contents_checksum is None,
    {
        let nb = name.as_bytes_vec();
        let ghost pre = *self;
        if let Some(i) = Self::find_f(&self.nodes[node].files, &nb) {
            let _ = self.nodes[node].files.remove(i);
            proof {
                assert(pre.node_wf(node as int));
                let s0 = pre.files_of(node as int);
                let s1 = self.files_of(node as int);
                s0.remove_ensures(i as int);
                let k = fidx(s0, name.spec_bytes());
                assert(0 <= k < s0.len() && s0[k].0@ == name.spec_bytes());
                if k < i as int {
                    assert(s0[k].0@ != s0[i as int].0@);
                } else if k > i as int {
                    assert(s0[i as int].0@ != s0[k].0@);
                }
                assert forall|n: int| 0 <= n < self.nodes@.len() implies self.node_wf(n) by {
                    assert(pre.node_wf(n));
                    if n != node {
                        assert(self.nodes@[n] == pre.nodes@[n]);
                    } else {
                        assert(forall|a: int|
                            0 <= a < s1.len() ==> s1[a] == (if a < i as int {
                                s0[a]
                            } else {
                                s0[a + 1]
                            }));
                    }
                }
            }
            self.clear_contents_caches();
            return Ok(());
        }
        if let Some(i) = Self::find_d(&self.nodes[node].subdirs, &nb) {
            let _ = self.nodes[node].subdirs.remove(i);
            proof {
                assert(pre.node_wf(node as int));
                let s0 = pre.dirs_of(node as int);
                let s1 = self.dirs_of(node as int);
                s0.remove_ensures(i as int);
                let k = didx(s0, name.spec_bytes());
                assert(0 <= k < s0.len() && s0[k].0@ == name.spec_bytes());
                if k < i as int {
                    assert(s0[k].0@ != s0[i as int].0@);
                } else if k > i as int {
                    assert(s0[i as int].0@ != s0[k].0@);
                }
                assert forall|n: int| 0 <= n < self.nodes@.len() implies self.node_wf(n) by {
                    assert(pre.node_wf(n));
                    if n != node {
                        assert(self.nodes@[n] == pre.nodes@[n]);
                    } else {
                        assert(forall|a: int|
                            0 <= a < s1.len() ==> s1[a] == (if a < i as int {
                                s0[a]
                            } else {
                                s0[a + 1]
                            }));
                    }
                }
            }
            self.clear_contents_caches();
            return Ok(());
        }
        if allow_missing {
            Ok(())
        } else {
            Err(StoreError::NotFound)
        }
    }

    /// Return the subdirectory node for `name`, creating an empty one if it
    /// is absent. Idempotent; fails with `InvalidOperation` when `name`
    /// already denotes a file.
    pub fn ensure_dir(&mut self, node: usize, name: &str) -> (r: Result<usize, StoreError>)
        requires
            old(self).wf(),
            node < old(self).nodes@.len(),
        ensures
            final(self).wf(),
            final(self).deferred == old(self).deferred,
            has_fname(old(self).files_of(node as int), name.spec_bytes()) ==> r == Err::<usize, StoreError>(
                StoreError::InvalidOperation,
            ) && *final(self) == *old(self),
            !has_fname(old(self).files_of(node as int), name.spec_bytes()) && has_dname(
                old(self).dirs_of(node as int),
                name.spec_bytes(),
            ) ==> r == Ok::<usize, StoreError>(
                dchild(old(self).dirs_of(node as int), name.spec_bytes()) as usize,
            ) && *final(self) == *old(self),
            !has_fname(old(self).files_of(node as int), name.spec_bytes()) && !has_dname(
                old(self).dirs_of(node as int),
                name.spec_bytes(),
            ) ==> r == Ok::<usize, StoreError>(old(self).nodes@.len() as usize) && {
                &&& final(self).nodes@.len() == old(self).nodes@.len() + 1
                &&& forall|n: int|
                    0 <= n < old(self).nodes@.len() && n != node ==> final(self).files_of(n) == old(self).files_of(n) && final(self).dirs_of(n) == old(self).dirs_of(n)
                &&& forall|n: int|
                    0 <= n < old(self).nodes@.len() ==> (#[trigger] final(self).nodes@[n]).metadata_checksum == old(self).nodes@[n].metadata_checksum
                &&& final(self).files_of(node as int) == old(self).files_of(node as int)
                &&& final(self).dirs_of(node as int).len() == old(self).dirs_of(node as int).len()
                    + 1
                &&& (forall|j: int|
                    0 <= j < old(self).dirs_of(node as int).len() ==> final(self).dirs_of(
                        node as int,
                    )[j] == old(self).dirs_of(node as int)[j])
                &&& final(self).dirs_of(node as int).last().0@ == name.spec_bytes()
                &&& final(self).dirs_of(node as int).last().1 == old(self).nodes@.len()
                &&& final(self).files_of(old(self).nodes@.len() as int).len() == 0
                &&& final(self).dirs_of(old(self).nodes@.len() as int).len() == 0
                &&& final(self).nodes@.last().metadata_checksum is None
                &&& forall|n: int|
                    0 <= n < final(self).nodes@.len() ==> (#[trigger] final(self).nodes@[n]).contents_checksum is None
            },
    {
        let nb = name.as_bytes_vec();
        if Self::find_f(&self.nodes[node].files, &nb).is_some() {
            return Err(StoreError::InvalidOperation);
        }
        if let Some(i) = Self::find_d(&self.nodes[node].subdirs, &nb) {
            proof {
                assert(self.node_wf(node as int));
                let s = self.dirs_of(node as int);
                let k = didx(s, name.spec_bytes());
                assert(0 <= k < s.len() && s[k].0@ == name.spec_bytes());
                if k < i as int {
                    assert(s[k].0@ != s[i as int].0@);
                } else if k > i as int {
                    assert(s[i as int].0@ != s[k].0@);
                }
            }
            return Ok(self.nodes[node].subdirs[i].1);
        }
        let ghost pre = *self;
        let fresh = TreeNode {
            files: Vec::new(),
            subdirs: Vec::new(),
            contents_checksum: None,
            metadata_checksum: None,
        };
        let new_idx = self.nodes.len();
        self.nodes.push(fresh);
        self.nodes[node].subdirs.push((nb, new_idx));
        proof {
            assert forall|n: int| 0 <= n < self.nodes@.len() implies self.node_wf(n) by {
                if n < pre.nodes@.len() {
                    assert(pre.node_wf(n));
                    if n != node {
                        assert(self.nodes@[n] == pre.nodes@[n]);
                    } else {
                        let s0 = pre.dirs_of(n);
                        let s1 = self.dirs_of(n);
                        assert(forall|j: int| 0 <= j < s0.len() ==> s1[j] == s0[j]);
                        assert(s1.last().0@ == name.spec_bytes() && s1.last().1 == new_idx);
                    }
                }
            }
        }
        self.clear_contents_caches();
        Ok(new_idx)
    }
}

/// Where descending through existing subdirectories along
/// `path[start..]` leads: the node reached, or nothing when a segment does
/// not name an existing subdirectory.
pub open spec fn walk_spec(t: &MutableTree, n: int, path: Seq<Seq<u8>>, k: int) -> Option<int>
    decreases path.len() - k,
{
    if k < 0 || k >= path.len() {
        Some(n)
    } else if 0 <= n < t.nodes@.len() && has_dname(t.dirs_of(n), path[k]) {
        walk_spec(t, dchild(t.dirs_of(n), path[k]), path, k + 1)
    } else {
        None
    }
}

/// The byte sequences of a vector of path segments.
pub open spec fn seg_views(path: Seq<String>) -> Seq<Seq<u8>> {
    path.map_values(|s: String| vstd::utf8::encode_utf8(s@))
}

impl MutableTree {
    /// Descend through existing subdirectories named by
    /// `path[start..]`; fails with `NotFound` when an intermediate segment
    /// does not denote an existing subdirectory.
    pub fn walk(&self, node: usize, path: &Vec<String>, start: usize) -> (r: Result<
        usize,
        StoreError,
    >)
        requires
            self.wf(),
            node < self.nodes@.len(),
        ensures
            match r {
                Ok(d) => 0 <= d < self.nodes@.len() && walk_spec(
                    self,
                    node as int,
                    seg_views(path@),
                    start as int,
                ) == Some(d as int),
                Err(e) => e == StoreError::NotFound && walk_spec(
                    self,
                    node as int,
                    seg_views(path@),
                    start as int,
                ) is None,
            },
    {
        let mut cur = node;
        let mut k = start;
        if start >= path.len() {
            return Ok(cur);
        }
        while k < path.len()
            invariant
                self.wf(),
                start <= k <= path@.len(),
                0 <= cur < self.nodes@.len(),
                walk_spec(self, node as int, seg_views(path@), start as int) == walk_spec(
                    self,
                    cur as int,
                    seg_views(path@),
                    k as int,
                ),
            decreases path@.len() - k,
        {
            let nb = path[k].as_bytes_vec();
            match Self::find_d(&self.nodes[cur].subdirs, &nb) {
                Some(i) => {
                    proof {
                        assert(self.node_wf(cur as int));
                        let s = self.dirs_of(cur as int);
                        let kk = didx(s, vstd::utf8::encode_utf8(path@[k as int]@));
                        assert(seg_views(path@)[k as int] == vstd::utf8::encode_utf8(path@[k as int]@));
                        assert(0 <= kk < s.len() && s[kk].0@ == vstd::utf8::encode_utf8(path@[k as int]@));
                        if kk < i as int {
                            assert(s[kk].0@ != s[i as int].0@);
                        } else if kk > i as int {
                            assert(s[i as int].0@ != s[kk].0@);
                        }
                    }
                    cur = self.nodes[cur].subdirs[i].1;
                },
                None => {
                    proof {
                        assert(seg_views(path@)[k as int] == vstd::utf8::encode_utf8(path@[k as int]@));
                    }
                    return Err(StoreError::NotFound);
                },
            }
            k = k + 1;
        }
        Ok(cur)
    }
}

/// Whether creating the directories named by `path[k..end]` under node `n`
/// would collide with an existing file: along the walk through existing
/// subdirectories, some segment already names a file.
pub open spec fn epd_blocked(t: &MutableTree, n: int, path: Seq<Seq<u8>>, k: int, end: int) -> bool
    decreases end - k,
{
    if k < 0 || k >= end || !(0 <= n < t.nodes@.len()) {
        false
    } else if has_fname(t.files_of(n), path[k]) {
        true
    } else if has_dname(t.dirs_of(n), path[k]) {
        epd_blocked(t, dchild(t.dirs_of(n), path[k]), path, k + 1, end)
    } else {
        false
    }
}

/// Blocking looks only at nodes at or above `n`; two trees that agree on
/// every node from `bound` up, where all edges climb, agree on blocking.
pub proof fn lemma_blocked_agree(t1: &MutableTree, t2: &MutableTree, n: int, path: Seq<Seq<u8>>,
    k: int, end: int, bound: int)
    requires
        t1.wf(),
        0 <= bound <= n,
        t1.nodes@.len() <= t2.nodes@.len(),
        forall|m: int|
            bound <= m < t1.nodes@.len() ==> t1.files_of(m) == t2.files_of(m) && t1.dirs_of(m)
                == t2.dirs_of(m),
        n < t1.nodes@.len(),
    ensures
        epd_blocked(t1, n, path, k, end) == epd_blocked(t2, n, path, k, end),
    decreases end - k,
{
    if 0 <= k < end {
        assert(t1.node_wf(n));
        if !has_fname(t1.files_of(n), path[k]) && has_dname(t1.dirs_of(n), path[k]) {
            let c = dchild(t1.dirs_of(n), path[k]);
            let kk = didx(t1.dirs_of(n), path[k]);
            assert(0 <= kk < t1.dirs_of(n).len());
            assert(n < t1.dirs_of(n)[kk].1 < t1.nodes@.len());
            lemma_blocked_agree(t1, t2, c, path, k + 1, end, bound);
        }
    }
}

impl MutableTree {
    /// Walk and create every directory along `path` except the last
    /// segment, assigning `default_metadata` to each directory created along
    /// the way, and return the immediate parent node of the final segment.
    /// Fails with `InvalidOperation` on an empty path, or when a segment of
    /// the parent path already names a file; on that collision the walk stops
    /// where it stands and directories already created remain.
    pub fn ensure_parent_dirs(&mut self, node: usize, path: &Vec<String>, default_metadata:
        &Checksum) -> (r: Result<usize, StoreError>)
        requires
            old(self).wf(),
            node < old(self).nodes@.len(),
        ensures
            final(self).wf(),
            final(self).deferred == old(self).deferred,
            final(self).nodes@.len() >= old(self).nodes@.len(),
            path@.len() == 0 ==> r == Err::<usize, StoreError>(StoreError::InvalidOperation)
                && *final(self) == *old(self),
            path@.len() > 0 ==> {
                &&& (r is Ok <==> !epd_blocked(
                    old(self),
                    node as int,
                    seg_views(path@),
                    0,
                    path@.len() - 1,
                ))
                &&& (r matches Err(e) ==> e == StoreError::InvalidOperation)
                &&& (r matches Ok(p) ==> 0 <= p < final(self).nodes@.len() && walk_spec(
                    final(self),
                    node as int,
                    seg_views(path@).take(path@.len() - 1),
                    0,
                ) == Some(p as int))
            },
            forall|n: int|
                0 <= n < old(self).nodes@.len() ==> final(self).files_of(n) == old(self).files_of(
                    n,
                ),
            forall|n: int|
                old(self).nodes@.len() <= n < final(self).nodes@.len()
                    ==> (#[trigger] final(self).nodes@[n]).metadata_checksum == Some(
                    *default_metadata,
                ),
            forall|n: int|
                0 <= n < old(self).nodes@.len() ==> (#[trigger] final(self).nodes@[n]).metadata_checksum == old(self).nodes@[n].metadata_checksum,
            forall|n: int|
                0 <= n < node ==> final(self).dirs_of(n) == old(self).dirs_of(n),
            forall|n: int|
                node <= n < old(self).nodes@.len() ==> final(self).dirs_of(n).len() <= old(self).dirs_of(n).len() + 1 && (forall|j: int|
                    0 <= j < old(self).dirs_of(n).len() ==> final(self).dirs_of(n)[j] == old(self).dirs_of(n)[j]),
            forall|n: int|
                old(self).nodes@.len() <= n < final(self).nodes@.len() ==> (#[trigger] final(self).nodes@[n]).contents_checksum is None && final(self).files_of(n).len() == 0
                    && final(self).dirs_of(n).len() <= 1,
            r matches Ok(p) ==> node <= p && ((p < old(self).nodes@.len() && final(self).files_of(
                p as int,
            ) == old(self).files_of(p as int) && final(self).dirs_of(p as int) == old(self).dirs_of(p as int)) || (old(self).nodes@.len() <= p && final(self).files_of(
                p as int,
            ).len() == 0 && final(self).dirs_of(p as int).len() == 0)),
            final(self).nodes@.len() > old(self).nodes@.len() ==> forall|n: int|
                0 <= n < final(self).nodes@.len() ==> (#[trigger] final(self).nodes@[n]).contents_checksum is None,
            final(self).nodes@.len() == old(self).nodes@.len() ==> forall|n: int|
                0 <= n < final(self).nodes@.len() ==> (#[trigger] final(self).nodes@[n]).contents_checksum == old(self).nodes@[n].contents_checksum,
    {
        if path.len() == 0 {
            return Err(StoreError::InvalidOperation);
        }
        let end = path.len() - 1;
        self.epd_rec(node, path, 0, end, default_metadata)
    }

    /// The recursive worker behind [`MutableTree::ensure_parent_dirs`]:
    /// ensure the directories named by `path[k..end]` exist under `node` and
    /// return the deepest one.
    fn epd_rec(&mut self, node: usize, path: &Vec<String>, k: usize, end: usize, default_metadata:
        &Checksum) -> (r: Result<usize, StoreError>)
        requires
            old(self).wf(),
            node < old(self).nodes@.len(),
            k <= end < path@.len(),
        ensures
            final(self).wf(),
            final(self).deferred == old(self).deferred,
            final(self).nodes@.len() >= old(self).nodes@.len(),
            r is Ok <==> !epd_blocked(old(self), node as int, seg_views(path@), k as int, end as int),
            r matches Err(e) ==> e == StoreError::InvalidOperation,
            r matches Ok(p) ==> 0 <= p < final(self).nodes@.len() && walk_spec(
                final(self),
                node as int,
                seg_views(path@).take(end as int),
                k as int,
            ) == Some(p as int),
            forall|n: int|
                0 <= n < old(self).nodes@.len() ==> final(self).files_of(n) == old(self).files_of(
                    n,
                ),
            forall|n: int, name: Seq<u8>|
                0 <= n < old(self).nodes@.len() && #[trigger] has_dname(old(self).dirs_of(n), name)
                    ==> has_dname(final(self).dirs_of(n), name) && dchild(
                    final(self).dirs_of(n),
                    name,
                ) == dchild(old(self).dirs_of(n), name),
            forall|n: int|
                old(self).nodes@.len() <= n < final(self).nodes@.len()
                    ==> (#[trigger] final(self).nodes@[n]).metadata_checksum == Some(
                    *default_metadata,
                ),
            forall|n: int|
                0 <= n < old(self).nodes@.len() ==> (#[trigger] final(self).nodes@[n]).metadata_checksum == old(self).nodes@[n].metadata_checksum,
            forall|n: int|
                0 <= n < node ==> final(self).dirs_of(n) == old(self).dirs_of(n),
            forall|n: int|
                node <= n < old(self).nodes@.len() ==> final(self).dirs_of(n).len() <= old(self).dirs_of(n).len() + 1 && (forall|j: int|
                    0 <= j < old(self).dirs_of(n).len() ==> final(self).dirs_of(n)[j] == old(self).dirs_of(n)[j]),
            forall|n: int|
                old(self).nodes@.len() <= n < final(self).nodes@.len() ==> (#[trigger] final(self).nodes@[n]).contents_checksum is None && final(self).files_of(n).len() == 0
                    && final(self).dirs_of(n).len() <= 1,
            r matches Ok(p) ==> node <= p && ((p < old(self).nodes@.len() && final(self).files_of(
                p as int,
            ) == old(self).files_of(p as int) && final(self).dirs_of(p as int) == old(self).dirs_of(p as int)) || (old(self).nodes@.len() <= p && final(self).files_of(
                p as int,
            ).len() == 0 && final(self).dirs_of(p as int).len() == 0)),
            final(self).nodes@.len() > old(self).nodes@.len() ==> forall|n: int|
                0 <= n < final(self).nodes@.len() ==> (#[trigger] final(self).nodes@[n]).contents_checksum is None,
            final(self).nodes@.len() == old(self).nodes@.len() ==> forall|n: int|
                0 <= n < final(self).nodes@.len() ==> (#[trigger] final(self).nodes@[n]).contents_checksum == old(self).nodes@[n].contents_checksum,
        decreases end - k,
    {
        if k >= end {
            return Ok(node);
        }
        let ghost pre = *self;
        let ghost segs = seg_views(path@);
        proof {
            assert(segs[k as int] == vstd::utf8::encode_utf8(path@[k as int]@));
        }
        let pre_len = self.nodes.len();
        let child = match self.ensure_dir(node, path[k].as_str()) {
            Ok(c) => c,
            Err(e) => {
                proof {
                    assert(has_fname(pre.files_of(node as int), segs[k as int]));
                    assert(epd_blocked(&pre, node as int, segs, k as int, end as int));
                }
                return Err(StoreError::InvalidOperation);
            },
        };
        proof {
            if has_dname(pre.dirs_of(node as int), segs[k as int]) {
                assert(pre.node_wf(node as int));
                let kk = didx(pre.dirs_of(node as int), segs[k as int]);
                assert(0 <= kk < pre.dirs_of(node as int).len());
                assert(pre.dirs_of(node as int)[kk].1 < pre.nodes@.len());
            }
            assert(child < self.nodes@.len());
        }
        let created = child == pre_len;
        if created {
            self.set_metadata_checksum(child, default_metadata);
        }
        let ghost mid = *self;
        proof {
            assert(mid.wf());
            assert(0 <= child < mid.nodes@.len());
        }
        let res = self.epd_rec(child, path, k + 1, end, default_metadata);
        proof {
            // The edge from `node` to `child` survives the recursive call.
            assert(has_dname(mid.dirs_of(node as int), segs[k as int]) && dchild(
                mid.dirs_of(node as int),
                segs[k as int],
            ) == child as int) by {
                if has_dname(pre.dirs_of(node as int), segs[k as int]) {
                } else {
                    let s1 = mid.dirs_of(node as int);
                    assert(s1.last().0@ == segs[k as int] && s1.last().1 == child);
                    assert(has_dname(s1, segs[k as int]));
                    let kk = didx(s1, segs[k as int]);
                    assert(0 <= kk < s1.len() && s1[kk].0@ == segs[k as int]);
                    assert(mid.node_wf(node as int));
                    if kk < s1.len() - 1 {
                        assert(s1[kk].0@ != s1[s1.len() - 1].0@);
                    }
                }
            }
            assert(has_dname(self.dirs_of(node as int), segs[k as int]) && dchild(
                self.dirs_of(node as int),
                segs[k as int],
            ) == child as int);
            // Relate blocking over the original tree to the recursive call.
            if has_fname(pre.files_of(node as int), segs[k as int]) {
                assert(false);
            } else if has_dname(pre.dirs_of(node as int), segs[k as int]) {
                assert(child as int == dchild(pre.dirs_of(node as int), segs[k as int]));
                assert(epd_blocked(&pre, node as int, segs, k as int, end as int) == epd_blocked(
                    &pre,
                    child as int,
                    segs,
                    k + 1 as int,
                    end as int,
                ));
                assert(epd_blocked(&mid, child as int, segs, k + 1 as int, end as int)
                    == epd_blocked(&pre, child as int, segs, k + 1 as int, end as int)) by {
                    lemma_blocked_agree(&pre, &mid, child as int, segs, k + 1 as int, end as int,
                        node as int + 1);
                }
            } else {
                assert(!epd_blocked(&pre, node as int, segs, k as int, end as int));
                assert(mid.files_of(child as int).len() == 0 && mid.dirs_of(child as int).len()
                    == 0);
                assert(!epd_blocked(&mid, child as int, segs, k + 1 as int, end as int));
            }
            // Subdirectory edges of the original nodes survive the call.
            assert forall|n: int, name: Seq<u8>|
                0 <= n < pre.nodes@.len() && #[trigger] has_dname(pre.dirs_of(n), name) implies
                has_dname(self.dirs_of(n), name) && dchild(self.dirs_of(n), name) == dchild(
                pre.dirs_of(n),
                name,
            ) by {
                let i0 = didx(pre.dirs_of(n), name);
                assert(0 <= i0 < pre.dirs_of(n).len() && pre.dirs_of(n)[i0].0@ == name);
                if mid.dirs_of(n) == pre.dirs_of(n) {
                } else {
                    assert(n == node);
                    let s0 = pre.dirs_of(n);
                    let s1 = mid.dirs_of(n);
                    assert(s1[i0] == s0[i0]);
                    assert(has_dname(s1, name));
                    assert(mid.node_wf(n));
                    let i1 = didx(s1, name);
                    assert(0 <= i1 < s1.len() && s1[i1].0@ == name);
                    if i1 < i0 {
                        assert(s1[i1].0@ != s1[i0].0@);
                    } else if i1 > i0 {
                        assert(s1[i0].0@ != s1[i1].0@);
                    }
                }
                assert(has_dname(mid.dirs_of(n), name) && dchild(mid.dirs_of(n), name) == dchild(
                    pre.dirs_of(n),
                    name,
                ));
            }
            // The walk from `node` in the final tree descends to `child`.
            if res is Ok {
                let t = segs.take(end as int);
                assert(t[k as int] == segs[k as int]);
                assert(walk_spec(self, node as int, t, k as int) == walk_spec(
                    self,
                    child as int,
                    t,
                    k + 1 as int,
                ));
            }
        }
        res
    }
}

} // verus!
