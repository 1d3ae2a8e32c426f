//! Reachability traversal: everything a commit depends on, each object
//! visited at most once no matter how many paths lead to it.

use vstd::prelude::*;
use crate::checksum::Checksum;
use crate::checksum::ObjectName;
use crate::checksum::ObjectType;
use crate::codec::dec_commit;
use crate::codec::dec_dirtree;
use crate::codec::decode_commit;
use crate::codec::decode_dirtree;
use crate::codec::fents_view;
use crate::codec::dents_view;
use crate::error::StoreError;
use crate::repo::Cancellable;
use crate::repo::check_cancelled;
use crate::repo::Repo;
use crate::repo::entries_map;
use crate::repo::key_of;
use crate::repo::spec_cancelled;
use crate::repo::ObjectEntry;

verus! {

/// The store key an object name denotes.
pub open spec fn key_view(x: ObjectName) -> (ObjectType, Seq<u8>) {
    (x.objtype, x.checksum@)
}

/// One reference edge of the object graph: `from`'s stored record names
/// `to`. Commits expand to their root tree, root dirmeta and parent; a
/// DirTree expands to its files' content, its subdirectories' trees and
/// their dirmeta. Files, dirmeta and detached commit metadata are terminal.
pub open spec fn expands_to(m: Map<(ObjectType, Seq<u8>), Seq<u8>>, from: (ObjectType, Seq<u8>),
    to: (ObjectType, Seq<u8>)) -> bool {
    &&& m.contains_key(from)
    &&& match from.0 {
        ObjectType::Commit => match dec_commit(m[from]) {
            Some((tree, meta, parent, ts, md)) => to == (ObjectType::DirTree, tree) || to == (
                ObjectType::DirMeta,
                meta,
            ) || (parent matches Some(p) && to == (ObjectType::Commit, p)),
            None => false,
        },
        ObjectType::DirTree => match dec_dirtree(m[from]) {
            Some((fs, ds)) => (exists|i: int|
                0 <= i < fs.len() && to == (ObjectType::File, (#[trigger] fs[i]).1)) || (exists|
                i: int,
            |
                0 <= i < ds.len() && (to == (ObjectType::DirTree, (#[trigger] ds[i]).1) || to == (
                    ObjectType::DirMeta,
                    ds[i].2,
                ))),
            None => false,
        },
        _ => false,
    }
}

/// Whether a chain of reference edges links its elements in order.
pub open spec fn is_chain(m: Map<(ObjectType, Seq<u8>), Seq<u8>>, c: Seq<(ObjectType, Seq<u8>)>)
    -> bool {
    forall|i: int| 0 <= i < c.len() - 1 ==> expands_to(m, #[trigger] c[i], c[i + 1])
}

/// Whether `x` is reachable from `root` through reference edges; `root`
/// reaches itself.
pub open spec fn reachable(m: Map<(ObjectType, Seq<u8>), Seq<u8>>, root: (ObjectType, Seq<u8>),
    x: (ObjectType, Seq<u8>)) -> bool {
    exists|c: Seq<(ObjectType, Seq<u8>)>|
        c.len() > 0 && #[trigger] is_chain(m, c) && c[0] == root && c.last() == x
}

/// The parent named by the commit record stored under `c`, if the commit is
/// present, decodes and names one.
pub open spec fn parent_of(m: Map<(ObjectType, Seq<u8>), Seq<u8>>, c: Seq<u8>) -> Option<Seq<u8>> {
    if m.contains_key((ObjectType::Commit, c)) && dec_commit(m[(ObjectType::Commit, c)]) is Some {
        dec_commit(m[(ObjectType::Commit, c)]).unwrap().2
    } else {
        None
    }
}

/// The commit `i` parent hops up the ancestry chain from `c`, if the chain
/// reaches that far.
pub open spec fn nth_ancestor(m: Map<(ObjectType, Seq<u8>), Seq<u8>>, c: Seq<u8>, i: nat)
    -> Option<Seq<u8>>
    decreases i,
{
    if i == 0 {
        Some(c)
    } else {
        match nth_ancestor(m, c, (i - 1) as nat) {
            Some(a) => parent_of(m, a),
            None => None,
        }
    }
}

/// A chain of reference edges that leaves its initial object and never
/// passes through another commit: the walk inside one commit's tree.
pub open spec fn tree_chain(m: Map<(ObjectType, Seq<u8>), Seq<u8>>, c: Seq<(ObjectType, Seq<u8>)>)
    -> bool {
    &&& is_chain(m, c)
    &&& forall|i: int| 1 <= i < c.len() ==> (#[trigger] c[i]).0 != ObjectType::Commit
}

/// Whether `y` is reachable from the commit at `root_cs` following at most
/// `d` parent hops: `y` is some ancestor within `d` hops, or lies in such an
/// ancestor's tree.
#[verifier::opaque]
pub open spec fn reachable_within(m: Map<(ObjectType, Seq<u8>), Seq<u8>>, root_cs: Seq<u8>, y: (
    ObjectType,
    Seq<u8>,
), d: int) -> bool {
    exists|i: int, c: Seq<(ObjectType, Seq<u8>)>|
        #![trigger tree_chain(m, c), nth_ancestor(m, root_cs, i as nat)]
        {
            &&& 0 <= i <= d
            &&& nth_ancestor(m, root_cs, i as nat) is Some
            &&& c.len() > 0
            &&& tree_chain(m, c)
            &&& c[0] == (ObjectType::Commit, nth_ancestor(m, root_cs, i as nat).unwrap())
            &&& c.last() == y
        }
}

/// Whether `csum` is an ancestor of the root commit within `d - b` hops:
/// the bookkeeping a traversal work item with `b` hops of budget left keeps.
#[verifier::opaque]
pub open spec fn ancestor_item(m: Map<(ObjectType, Seq<u8>), Seq<u8>>, root_cs: Seq<u8>, csum: Seq<
    u8,
>, b: int, d: int) -> bool {
    exists|i: int|
        0 <= i <= d - b && #[trigger] nth_ancestor(m, root_cs, i as nat) == Some(csum)
}

/// Depth-bounded reachability only grows with the bound.
pub proof fn lemma_within_monotone(m: Map<(ObjectType, Seq<u8>), Seq<u8>>, root_cs: Seq<u8>, y: (
    ObjectType,
    Seq<u8>,
), d1: int, d2: int)
    requires
        reachable_within(m, root_cs, y, d1),
        d1 <= d2,
    ensures
        reachable_within(m, root_cs, y, d2),
{
    reveal(reachable_within);
}

/// Extending a depth-bounded-reachable object by one non-commit edge keeps
/// it reachable within the same bound.
pub proof fn lemma_within_step(m: Map<(ObjectType, Seq<u8>), Seq<u8>>, root_cs: Seq<u8>, x: (
    ObjectType,
    Seq<u8>,
), y: (ObjectType, Seq<u8>), d: int)
    requires
        reachable_within(m, root_cs, x, d),
        expands_to(m, x, y),
        y.0 != ObjectType::Commit,
    ensures
        reachable_within(m, root_cs, y, d),
{
    reveal(reachable_within);
    let (i, c) = choose|i: int, c: Seq<(ObjectType, Seq<u8>)>|
        #![trigger tree_chain(m, c), nth_ancestor(m, root_cs, i as nat)]
        {
            &&& 0 <= i <= d
            &&& nth_ancestor(m, root_cs, i as nat) is Some
            &&& c.len() > 0
            &&& tree_chain(m, c)
            &&& c[0] == (ObjectType::Commit, nth_ancestor(m, root_cs, i as nat).unwrap())
            &&& c.last() == x
        };
    let c2 = c.push(y);
    assert(is_chain(m, c2)) by {
        assert forall|j: int| 0 <= j < c2.len() - 1 implies expands_to(
            m,
            #[trigger] c2[j],
            c2[j + 1],
        ) by {
            if j < c.len() - 1 {
                assert(c2[j] == c[j] && c2[j + 1] == c[j + 1]);
            } else {
                assert(c2[j] == c.last() && c2[j + 1] == y);
            }
        }
    }
    assert(tree_chain(m, c2)) by {
        assert(forall|j: int| 1 <= j < c.len() ==> (#[trigger] c2[j]) == c[j]);
    }
    assert(c2[0] == c[0] && c2.last() == y);
    assert({
        &&& 0 <= i <= d
        &&& nth_ancestor(m, root_cs, i as nat) is Some
        &&& c2.len() > 0
        &&& tree_chain(m, c2)
        &&& c2[0] == (ObjectType::Commit, nth_ancestor(m, root_cs, i as nat).unwrap())
        &&& c2.last() == y
    });
}

/// An object that is present and whose record, if it is a structured kind,
/// decodes.
pub open spec fn wf_object(m: Map<(ObjectType, Seq<u8>), Seq<u8>>, x: (ObjectType, Seq<u8>))
    -> bool {
    &&& m.contains_key(x)
    &&& match x.0 {
        ObjectType::Commit => dec_commit(m[x]) is Some,
        ObjectType::DirTree => dec_dirtree(m[x]) is Some,
        _ => true,
    }
}

/// The whole graph under `root` is present and well formed: the root exists
/// and decodes, and so does everything any reachable object references.
pub open spec fn graph_complete(m: Map<(ObjectType, Seq<u8>), Seq<u8>>, root: (
    ObjectType,
    Seq<u8>,
)) -> bool {
    &&& wf_object(m, root)
    &&& forall|x: (ObjectType, Seq<u8>), y: (ObjectType, Seq<u8>)|
        reachable(m, root, x) && #[trigger] expands_to(m, x, y) ==> wf_object(m, y)
}

/// Extending a reachable object by one edge keeps it reachable.
pub proof fn lemma_reachable_step(m: Map<(ObjectType, Seq<u8>), Seq<u8>>, root: (
    ObjectType,
    Seq<u8>,
), x: (ObjectType, Seq<u8>), y: (ObjectType, Seq<u8>))
    requires
        reachable(m, root, x),
        expands_to(m, x, y),
    ensures
        reachable(m, root, y),
{
    let c = choose|c: Seq<(ObjectType, Seq<u8>)>|
        c.len() > 0 && #[trigger] is_chain(m, c) && c[0] == root && c.last() == x;
    let c2 = c.push(y);
    assert(is_chain(m, c2)) by {
        assert forall|i: int| 0 <= i < c2.len() - 1 implies expands_to(
            m,
            #[trigger] c2[i],
            c2[i + 1],
        ) by {
            if i < c.len() - 1 {
                assert(c2[i] == c[i] && c2[i + 1] == c[i + 1]);
            } else {
                assert(c2[i] == c.last() && c2[i + 1] == y);
            }
        }
    }
    assert(c2.len() > 0 && is_chain(m, c2) && c2[0] == root && c2.last() == y);
}

/// Every chain from a member of a closed set stays inside the set.
pub proof fn lemma_chain_closed(m: Map<(ObjectType, Seq<u8>), Seq<u8>>, s: Set<
    (ObjectType, Seq<u8>),
>, c: Seq<(ObjectType, Seq<u8>)>)
    requires
        c.len() > 0,
        is_chain(m, c),
        s.contains(c[0]),
        forall|x: (ObjectType, Seq<u8>), y: (ObjectType, Seq<u8>)|
            s.contains(x) && #[trigger] expands_to(m, x, y) ==> s.contains(y),
    ensures
        s.contains(c.last()),
    decreases c.len(),
{
    if c.len() > 1 {
        let c0 = c.drop_last();
        assert(is_chain(m, c0)) by {
            assert(forall|i: int|
                0 <= i < c0.len() - 1 ==> (#[trigger] c0[i]) == c[i] && c0[i + 1] == c[i + 1]);
        }
        lemma_chain_closed(m, s, c0);
        assert(expands_to(m, c[c.len() - 2], c[c.len() - 1]));
    }
}

/// The number of distinct object keys a table can hold.
pub proof fn lemma_entries_map_card(s: Seq<ObjectEntry>)
    ensures
        entries_map(s).dom().finite(),
        entries_map(s).dom().len() <= s.len(),
    decreases s.len(),
{
    if s.len() > 0 {
        lemma_entries_map_card(s.drop_last());
        vstd::set::axiom_set_insert_len(entries_map(s.drop_last()).dom(), key_of(s.last()));
    }
}

/// Whether some listed object name denotes key `y`.
pub open spec fn in_names(v: Seq<ObjectName>, y: (ObjectType, Seq<u8>)) -> bool {
    exists|j: int| 0 <= j < v.len() && key_view(#[trigger] v[j]) == y
}

/// Whether some work item denotes key `y`.
pub open spec fn in_work(w: Seq<(ObjectName, i32)>, y: (ObjectType, Seq<u8>)) -> bool {
    exists|j: int| 0 <= j < w.len() && key_view((#[trigger] w[j]).0) == y
}

fn contains_name(v: &Vec<ObjectName>, x: &ObjectName) -> (r: bool)
    ensures
        r == in_names(v@, key_view(*x)),
{
    let mut i: usize = 0;
    while i < v.len()
        invariant
            i <= v@.len(),
            forall|j: int| 0 <= j < i ==> key_view(#[trigger] v@[j]) != key_view(*x),
        decreases v@.len() - i,
    {
        if v[i].objtype == x.objtype && v[i].checksum == x.checksum {
            proof {
                assert(key_view(v@[i as int]) == key_view(*x));
            }
            return true;
        }
        i = i + 1;
    }
    false
}

fn push_tree_targets(work: &mut Vec<(ObjectName, i32)>, rec: &crate::codec::DirTreeRecord,
    budget: i32)
    ensures
        final(work)@.len() == old(work)@.len() + rec.files@.len() + 2 * rec.dirs@.len(),
        forall|j: int| 0 <= j < old(work)@.len() ==> (#[trigger] final(work)@[j]) == old(work)@[j],
        forall|i: int|
            0 <= i < rec.files@.len() ==> (#[trigger] final(work)@[old(work)@.len() + i]).0.objtype
                == ObjectType::File && final(work)@[old(work)@.len() + i].0.checksum@
                == rec.files@[i].checksum@,
        forall|i: int|
            0 <= i < rec.dirs@.len() ==> {
                &&& (#[trigger] final(work)@[old(work)@.len() + rec.files@.len() + 2 * i]).0.objtype
                    == ObjectType::DirTree
                &&& final(work)@[old(work)@.len() + rec.files@.len() + 2 * i].0.checksum@
                    == rec.dirs@[i].tree_checksum@
                &&& final(work)@[old(work)@.len() + rec.files@.len() + 2 * i + 1].0.objtype
                    == ObjectType::DirMeta
                &&& final(work)@[old(work)@.len() + rec.files@.len() + 2 * i + 1].0.checksum@
                    == rec.dirs@[i].meta_checksum@
            },
        forall|j: int|
            old(work)@.len() <= j < final(work)@.len() ==> (#[trigger] final(work)@[j]).1 == budget,
{
    let base = work.len();
    let mut i: usize = 0;
    while i < rec.files.len()
        invariant
            i <= rec.files@.len(),
            base == old(work)@.len(),
            work@.len() == base + i,
            forall|j: int| 0 <= j < base ==> (#[trigger] work@[j]) == old(work)@[j],
            forall|k: int|
                0 <= k < i ==> (#[trigger] work@[base + k]).0.objtype == ObjectType::File
                    && work@[base + k].0.checksum@ == rec.files@[k].checksum@ && work@[base + k].1
                    == budget,
        decreases rec.files@.len() - i,
    {
        work.push((ObjectName::new(ObjectType::File, rec.files[i].checksum), budget));
        i = i + 1;
    }
    let base2 = work.len();
    let mut k: usize = 0;
    while k < rec.dirs.len()
        invariant
            k <= rec.dirs@.len(),
            base == old(work)@.len(),
            base2 == base + rec.files@.len(),
            work@.len() == base2 + 2 * k,
            forall|j: int| 0 <= j < base ==> (#[trigger] work@[j]) == old(work)@[j],
            forall|kk: int|
                0 <= kk < rec.files@.len() ==> (#[trigger] work@[base + kk]).0.objtype
                    == ObjectType::File && work@[base + kk].0.checksum@ == rec.files@[kk].checksum@
                    && work@[base + kk].1 == budget,
            forall|kk: int|
                0 <= kk < k ==> (#[trigger] work@[base2 + 2 * kk]).0.objtype == ObjectType::DirTree
                    && work@[base2 + 2 * kk].0.checksum@ == rec.dirs@[kk].tree_checksum@
                    && work@[base2 + 2 * kk].1 == budget && work@[base2 + 2 * kk + 1].0.objtype
                    == ObjectType::DirMeta && work@[base2 + 2 * kk + 1].0.checksum@
                    == rec.dirs@[kk].meta_checksum@ && work@[base2 + 2 * kk + 1].1 == budget,
        decreases rec.dirs@.len() - k,
    {
        work.push((ObjectName::new(ObjectType::DirTree, rec.dirs[k].tree_checksum), budget));
        work.push((ObjectName::new(ObjectType::DirMeta, rec.dirs[k].meta_checksum), budget));
        k = k + 1;
    }
    proof {
        assert forall|j: int|
            old(work)@.len() <= j < work@.len() implies (#[trigger] work@[j]).1 == budget by {
            if j < base2 {
                let kk = j - base;
                assert(j == base as int + kk);
                assert(work@[base as int + kk].1 == budget);
            } else {
                let i = (j - base2) / 2;
                if (j - base2) % 2 == 0 {
                    assert(j == base2 + 2 * i);
                    assert(work@[base2 as int + 2 * i].1 == budget);
                } else {
                    assert(j == base2 + 2 * i + 1);
                    assert(work@[base2 as int + 2 * i].1 == budget);
                    assert(work@[base2 as int + 2 * i + 1].1 == budget);
                }
            }
        }
    }
}

impl Repo {
    /// Compute the full set of objects reachable from a commit: its tree,
    /// every subdirectory, every file content, every dirmeta, and — as far
    /// as `maxdepth` permits — its ancestor commits. `maxdepth` bounds how
    /// many parent-commit hops are followed; any negative value follows the
    /// whole chain. Each object is visited at most once however many paths
    /// reach it. A dangling reference is `NotFound`; a checksum stored under
    /// the wrong kind, or an undecodable record, is `IntegrityError`.
    #[verifier::rlimit(100)]
    pub fn traverse_commit(&self, commit_checksum: &Checksum, maxdepth: i32, cancellable: Option<
        &Cancellable,
    >) -> (r: Result<Vec<ObjectName>, StoreError>)
        requires
            self.wf(),
        ensures
            spec_cancelled(cancellable) ==> r == Err::<Vec<ObjectName>, StoreError>(
                StoreError::Cancelled,
            ),
            !spec_cancelled(cancellable) ==> {
                let m = self.visible_map();
                let root = (ObjectType::Commit, commit_checksum@);
                &&& graph_complete(m, root) ==> r is Ok
                &&& (r matches Err(e) ==> !graph_complete(m, root) && (e == StoreError::NotFound
                    || e == StoreError::IntegrityError))
                &&& (r matches Ok(v) ==> {
                    &&& forall|j1: int, j2: int|
                        0 <= j1 < j2 < v@.len() ==> key_view(v@[j1]) != key_view(v@[j2])
                    &&& forall|j: int|
                        0 <= j < v@.len() ==> reachable(m, root, key_view(#[trigger] v@[j]))
                    &&& (maxdepth >= 0 ==> forall|j: int|
                        0 <= j < v@.len() ==> reachable_within(
                            m,
                            commit_checksum@,
                            key_view(#[trigger] v@[j]),
                            maxdepth as int,
                        ))
                    &&& (maxdepth < 0 ==> graph_complete(m, root) && forall|y: (ObjectType, Seq<u8>)|
                        #[trigger] reachable(m, root, y) ==> in_names(v@, y))
                })
                &&& (r == Err::<Vec<ObjectName>, StoreError>(StoreError::NotFound)
                    ==> exists|y: (ObjectType, Seq<u8>)|
                    #[trigger] reachable(m, root, y) && (forall|t: ObjectType|
                        !m.contains_key((t, y.1))))
                &&& (r == Err::<Vec<ObjectName>, StoreError>(StoreError::IntegrityError)
                    ==> exists|y: (ObjectType, Seq<u8>)|
                    #[trigger] reachable(m, root, y) && !wf_object(m, y))
            },
    {
        if check_cancelled(cancellable) {
            return Err(StoreError::Cancelled);
        }
        let ghost m = self.visible_map();
        let ghost root: (ObjectType, Seq<u8>) = (ObjectType::Commit, commit_checksum@);
        let ghost nmax: int = self.committed@.len() + self.staged@.len() as int;
        let mut visited: Vec<ObjectName> = Vec::new();
        let mut work: Vec<(ObjectName, i32)> = Vec::new();
        work.push((ObjectName::new(ObjectType::Commit, *commit_checksum), maxdepth));
        let ghost mut seen: Set<(ObjectType, Seq<u8>)> = Set::empty();
        proof {
            let c0: Seq<(ObjectType, Seq<u8>)> = seq![root];
            assert(c0.len() > 0 && is_chain(m, c0) && c0[0] == root && c0.last() == root);
            assert(reachable(m, root, root));
            assert(key_view(work@[0].0) == root);
            if maxdepth >= 0 {
                reveal(ancestor_item);
                let i0: int = 0;
                assert(nth_ancestor(m, commit_checksum@, i0 as nat) == Some(commit_checksum@));
                assert(work@[0].0.checksum@ == commit_checksum@ && work@[0].1 == maxdepth);
                assert(ancestor_item(
                    m,
                    commit_checksum@,
                    work@[0].0.checksum@,
                    work@[0].1 as int,
                    maxdepth as int,
                ));
            }
        }
        while work.len() > 0
            invariant
                self.wf(),
                m == self.visible_map(),
                root == (ObjectType::Commit, commit_checksum@),
                nmax == self.committed@.len() + self.staged@.len(),
                !spec_cancelled(cancellable),
                seen.finite(),
                seen.len() == visited@.len(),
                visited@.len() <= nmax,
                forall|j: int|
                    0 <= j < visited@.len() ==> seen.contains(key_view(#[trigger] visited@[j])),
                forall|y: (ObjectType, Seq<u8>)|
                    #[trigger] seen.contains(y) ==> in_names(visited@, y),
                forall|j1: int, j2: int|
                    0 <= j1 < j2 < visited@.len() ==> key_view(visited@[j1]) != key_view(
                        visited@[j2],
                    ),
                forall|j: int|
                    0 <= j < visited@.len() ==> wf_object(m, key_view(#[trigger] visited@[j])),
                forall|j: int|
                    0 <= j < visited@.len() ==> reachable(m, root, key_view(#[trigger] visited@[j])),
                forall|j: int|
                    0 <= j < work@.len() ==> reachable(m, root, key_view((#[trigger] work@[j]).0)),
                graph_complete(m, root) ==> forall|j: int|
                    0 <= j < work@.len() ==> wf_object(m, key_view((#[trigger] work@[j]).0)),
                maxdepth < 0 ==> forall|j: int| 0 <= j < work@.len() ==> (#[trigger] work@[j]).1 < 0,
                maxdepth >= 0 ==> forall|j: int|
                    0 <= j < work@.len() ==> 0 <= (#[trigger] work@[j]).1 <= maxdepth,
                maxdepth >= 0 ==> forall|j: int|
                    0 <= j < work@.len() ==> ((#[trigger] work@[j]).0.objtype == ObjectType::Commit
                        ==> ancestor_item(
                        m,
                        commit_checksum@,
                        work@[j].0.checksum@,
                        work@[j].1 as int,
                        maxdepth as int,
                    )),
                maxdepth >= 0 ==> forall|j: int|
                    0 <= j < work@.len() ==> ((#[trigger] work@[j]).0.objtype != ObjectType::Commit
                        ==> reachable_within(
                        m,
                        commit_checksum@,
                        key_view(work@[j].0),
                        maxdepth as int,
                    )),
                maxdepth >= 0 ==> forall|j: int|
                    0 <= j < visited@.len() ==> reachable_within(
                        m,
                        commit_checksum@,
                        key_view(#[trigger] visited@[j]),
                        maxdepth as int,
                    ),
                in_names(visited@, root) || in_work(work@, root),
                maxdepth < 0 ==> forall|j: int, y: (ObjectType, Seq<u8>)|
                    0 <= j < visited@.len() && #[trigger] expands_to(m, key_view(visited@[j]), y)
                        ==> (in_names(visited@, y) || in_work(work@, y)),
            decreases nmax - visited@.len(), work@.len(),
        {
            let ghost pre_work = work@;
            let (x, budget) = match work.pop() {
                Some(p) => p,
                None => {
                    proof {
                        assert(false);
                    }
                    return Err(StoreError::NotFound);
                },
            };
            proof {
                assert(key_view(x) == key_view(pre_work.last().0));
            }
            if contains_name(&visited, &x) {
                proof {
                    assert forall|y: (ObjectType, Seq<u8>)|
                        #[trigger] in_work(pre_work, y) implies (in_names(visited@, y) || in_work(
                        work@,
                        y,
                    )) by {
                        let j = choose|j: int|
                            0 <= j < pre_work.len() && key_view((#[trigger] pre_work[j]).0) == y;
                        if j < pre_work.len() - 1 {
                            assert(work@[j] == pre_work[j]);
                            assert(in_work(work@, y));
                        } else {
                            assert(y == key_view(x));
                        }
                    }
                    if in_work(pre_work, root) {
                        assert(in_names(visited@, root) || in_work(work@, root));
                    }
                }
            } else {
                let content = match self.read_object(x.objtype, &x.checksum, None) {
                    Ok(b) => b,
                    Err(e) => {
                        proof {
                            if graph_complete(m, root) {
                                assert(wf_object(m, key_view(pre_work.last().0)));
                            }
                            let y = key_view(x);
                            assert(reachable(m, root, y));
                            if e == StoreError::NotFound {
                                assert(forall|t: ObjectType| !m.contains_key((t, y.1)));
                            } else {
                                assert(!m.contains_key(y));
                                assert(!wf_object(m, y));
                            }
                        }
                        return Err(e);
                    },
                };
                let ghost xkey = key_view(x);
                let ghost old_visited = visited@;
                let ghost old_seen = seen;
                visited.push(x);
                proof {
                    seen = seen.insert(xkey);
                    vstd::set::axiom_set_insert_len(old_seen, xkey);
                    if old_seen.contains(xkey) {
                        assert(in_names(old_visited, xkey));
                        assert(false);
                    }
                    assert(forall|j: int|
                        0 <= j < old_visited.len() ==> (#[trigger] visited@[j]) == old_visited[j]);
                    // The visited keys all sit in the store, which bounds them.
                    lemma_entries_map_card(self.committed@ + self.staged@);
                    assert(seen.subset_of(m.dom())) by {
                        assert forall|y: (ObjectType, Seq<u8>)| seen.contains(y) implies
                            m.dom().contains(y) by {
                            if y == xkey {
                            } else {
                                assert(in_names(old_visited, y));
                                let j = choose|j: int|
                                    0 <= j < old_visited.len() && key_view(
                                        #[trigger] old_visited[j],
                                    ) == y;
                                assert(wf_object(m, key_view(old_visited[j])));
                            }
                        }
                    }
                    vstd::set_lib::lemma_len_subset(seen, m.dom());
                    assert forall|y: (ObjectType, Seq<u8>)| #[trigger] seen.contains(y) implies
                        in_names(visited@, y) by {
                        if y == xkey {
                            assert(key_view(visited@[visited@.len() - 1]) == xkey);
                        } else {
                            assert(old_seen.contains(y));
                            let j = choose|j: int|
                                0 <= j < old_visited.len() && key_view(#[trigger] old_visited[j])
                                    == y;
                            assert(key_view(visited@[j]) == y);
                        }
                    }
                    if maxdepth >= 0 {
                        reveal(reachable_within);
                        reveal(ancestor_item);
                        if x.objtype == ObjectType::Commit {
                            let i = choose|i: int|
                                0 <= i <= maxdepth - budget && #[trigger] nth_ancestor(
                                    m,
                                    commit_checksum@,
                                    i as nat,
                                ) == Some(x.checksum@);
                            let c0: Seq<(ObjectType, Seq<u8>)> = seq![xkey];
                            assert(tree_chain(m, c0));
                            assert(c0[0] == (
                                ObjectType::Commit,
                                nth_ancestor(m, commit_checksum@, i as nat).unwrap(),
                            ));
                            assert(c0.last() == xkey);
                            assert(reachable_within(m, commit_checksum@, xkey, maxdepth as int));
                        } else {
                            assert(reachable_within(m, commit_checksum@, xkey, maxdepth as int));
                        }
                        assert forall|j: int|
                            0 <= j < visited@.len() implies reachable_within(
                            m,
                            commit_checksum@,
                            key_view(#[trigger] visited@[j]),
                            maxdepth as int,
                        ) by {
                            if j < old_visited.len() {
                                assert(visited@[j] == old_visited[j]);
                            } else {
                                assert(key_view(visited@[j]) == xkey);
                            }
                        }
                    }
                }
                match x.objtype {
                    ObjectType::Commit => {
                        let rec = match decode_commit(&content) {
                            Some(rc) => rc,
                            None => {
                                proof {
                                    if graph_complete(m, root) {
                                        assert(wf_object(m, xkey));
                                    }
                                }
                                return Err(StoreError::IntegrityError);
                            },
                        };
                        let ghost work0 = work@;
                        work.push((ObjectName::new(ObjectType::DirTree, rec.tree_checksum), budget));
                        work.push((ObjectName::new(ObjectType::DirMeta, rec.meta_checksum), budget));
                        let mut pushed_parent = false;
                        match &rec.parent {
                            Some(par) => {
                                if budget != 0 {
                                    let nb = if budget > 0 {
                                        budget - 1
                                    } else {
                                        budget
                                    };
                                    work.push((ObjectName::new(ObjectType::Commit, *par), nb));
                                    pushed_parent = true;
                                }
                            },
                            None => {},
                        }
                        proof {
                            let dec = dec_commit(m[xkey]).unwrap();
                            assert(forall|j: int|
                                0 <= j < work0.len() ==> (#[trigger] work@[j]) == work0[j]);
                            assert(key_view(work@[work0.len() as int].0) == (
                                ObjectType::DirTree,
                                dec.0,
                            ));
                            assert(key_view(work@[work0.len() as int + 1].0) == (ObjectType::DirMeta, dec.1));
                            assert(wf_object(m, xkey));
                            assert(reachable(m, root, xkey));
                            if maxdepth >= 0 {
                                reveal(ancestor_item);
                                let i = choose|i: int|
                                    0 <= i <= maxdepth - budget && #[trigger] nth_ancestor(
                                        m,
                                        commit_checksum@,
                                        i as nat,
                                    ) == Some(x.checksum@);
                                assert(parent_of(m, x.checksum@) == dec.2);
                                assert forall|j: int|
                                    0 <= j < work@.len() implies 0 <= (#[trigger] work@[j]).1
                                    <= maxdepth by {
                                    if j < work0.len() {
                                        assert(work@[j] == pre_work[j]);
                                    }
                                }
                                assert forall|j: int|
                                    0 <= j < work@.len() implies ((#[trigger] work@[j]).0.objtype
                                    == ObjectType::Commit ==> ancestor_item(
                                    m,
                                    commit_checksum@,
                                    work@[j].0.checksum@,
                                    work@[j].1 as int,
                                    maxdepth as int,
                                )) by {
                                    if j < work0.len() {
                                        assert(work@[j] == pre_work[j]);
                                    } else if j >= work0.len() + 2 {
                                        assert(dec.2 matches Some(p) && work@[j].0.checksum@ == p);
                                        assert(nth_ancestor(m, commit_checksum@, (i + 1) as nat)
                                            == parent_of(
                                            m,
                                            nth_ancestor(m, commit_checksum@, i as nat).unwrap(),
                                        ));
                                        assert(nth_ancestor(m, commit_checksum@, (i + 1) as nat)
                                            == Some(work@[j].0.checksum@));
                                        assert(work@[j].1 == budget - 1);
                                        assert(0 <= i + 1 <= maxdepth - work@[j].1);
                                    }
                                }
                                assert forall|j: int|
                                    0 <= j < work@.len() implies ((#[trigger] work@[j]).0.objtype
                                    != ObjectType::Commit ==> reachable_within(
                                    m,
                                    commit_checksum@,
                                    key_view(work@[j].0),
                                    maxdepth as int,
                                )) by {
                                    if j < work0.len() {
                                        assert(work@[j] == pre_work[j]);
                                    } else if j < work0.len() + 2 {
                                        assert(expands_to(m, xkey, key_view(work@[j].0)));
                                        lemma_within_step(
                                            m,
                                            commit_checksum@,
                                            xkey,
                                            key_view(work@[j].0),
                                            maxdepth as int,
                                        );
                                    }
                                }
                            }

                            assert(in_names(visited@, root) || in_work(work@, root)) by {
                                if in_names(old_visited, root) {
                                    let j = choose|j: int|
                                        0 <= j < old_visited.len() && key_view(
                                            #[trigger] old_visited[j],
                                        ) == root;
                                    assert(key_view(visited@[j]) == root);
                                } else {
                                    let j2 = choose|j2: int|
                                        0 <= j2 < pre_work.len() && key_view(
                                            (#[trigger] pre_work[j2]).0,
                                        ) == root;
                                    if j2 < pre_work.len() - 1 {
                                        assert(work@[j2] == pre_work[j2]);
                                    } else {
                                        assert(root == xkey);
                                        assert(key_view(visited@[visited@.len() - 1]) == root);
                                    }
                                }
                            }

                            assert forall|j: int|
                                0 <= j < work@.len() implies reachable(
                                m,
                                root,
                                key_view((#[trigger] work@[j]).0),
                            ) by {
                                if j >= work0.len() {
                                    assert(expands_to(m, xkey, key_view(work@[j].0)));
                                    lemma_reachable_step(m, root, xkey, key_view(work@[j].0));
                                }
                            }
                            if graph_complete(m, root) {
                                assert forall|j: int|
                                    0 <= j < work@.len() implies wf_object(
                                    m,
                                    key_view((#[trigger] work@[j]).0),
                                ) by {
                                    if j >= work0.len() {
                                        assert(expands_to(m, xkey, key_view(work@[j].0)));
                                    }
                                }
                            }
                            if maxdepth < 0 {
                                assert forall|j: int, y: (ObjectType, Seq<u8>)|
                                    0 <= j < visited@.len() && #[trigger] expands_to(
                                    m,
                                    key_view(visited@[j]),
                                    y,
                                ) implies (in_names(visited@, y) || in_work(work@, y)) by {
                                    if j < visited@.len() - 1 {
                                        assert(visited@[j] == old_visited[j]);
                                        if in_names(old_visited, y) {
                                            let j2 = choose|j2: int|
                                                0 <= j2 < old_visited.len() && key_view(
                                                    #[trigger] old_visited[j2],
                                                ) == y;
                                            assert(key_view(visited@[j2]) == y);
                                        } else if in_work(pre_work, y) {
                                            let j2 = choose|j2: int|
                                                0 <= j2 < pre_work.len() && key_view(
                                                    (#[trigger] pre_work[j2]).0,
                                                ) == y;
                                            if j2 < pre_work.len() - 1 {
                                                assert(work@[j2] == pre_work[j2]);
                                            } else {
                                                assert(y == xkey);
                                                assert(key_view(visited@.last()) == y);
                                            }
                                        }
                                    } else {
                                        // expansions of the newly visited commit
                                        assert(key_view(visited@[j]) == xkey);
                                        if y == (ObjectType::DirTree, dec.0) {
                                            assert(in_work(work@, y));
                                        } else if y == (ObjectType::DirMeta, dec.1) {
                                            assert(in_work(work@, y));
                                        } else {
                                            assert(dec.2 matches Some(p) && y == (
                                                ObjectType::Commit,
                                                p,
                                            ));
                                            assert(budget < 0);
                                            assert(key_view(work@[work0.len() as int + 2].0) == y);
                                        }
                                    }
                                }
                            }
                        }
                    },
                    ObjectType::DirTree => {
                        let rec = match decode_dirtree(&content) {
                            Some(rc) => rc,
                            None => {
                                proof {
                                    if graph_complete(m, root) {
                                        assert(wf_object(m, xkey));
                                    }
                                }
                                return Err(StoreError::IntegrityError);
                            },
                        };
                        let ghost work0 = work@;
                        push_tree_targets(&mut work, &rec, budget);
                        proof {
                            let fs = fents_view(rec.files@);
                            let ds = dents_view(rec.dirs@);
                            assert(dec_dirtree(m[xkey]) == Some((fs, ds)));
                            assert(wf_object(m, xkey));
                            assert(reachable(m, root, xkey));
                            let nf = rec.files@.len() as int;
                            let ndd = rec.dirs@.len() as int;

                            assert(in_names(visited@, root) || in_work(work@, root)) by {
                                if in_names(old_visited, root) {
                                    let j = choose|j: int|
                                        0 <= j < old_visited.len() && key_view(
                                            #[trigger] old_visited[j],
                                        ) == root;
                                    assert(key_view(visited@[j]) == root);
                                } else {
                                    let j2 = choose|j2: int|
                                        0 <= j2 < pre_work.len() && key_view(
                                            (#[trigger] pre_work[j2]).0,
                                        ) == root;
                                    if j2 < pre_work.len() - 1 {
                                        assert(work@[j2] == pre_work[j2]);
                                    } else {
                                        assert(root == xkey);
                                        assert(key_view(visited@[visited@.len() - 1]) == root);
                                    }
                                }
                            }

                            assert forall|j: int|
                                work0.len() <= j < work@.len() implies expands_to(
                                m,
                                xkey,
                                key_view((#[trigger] work@[j]).0),
                            ) by {
                                let off = j - work0.len();
                                assert(j == work0.len() as int + off);
                                if off < nf {
                                    assert(work@[j].0.checksum@ == rec.files@[off].checksum@);
                                    assert(fs[off].1 == rec.files@[off].checksum@);
                                    assert(key_view(work@[j].0) == (ObjectType::File, fs[off].1));
                                } else {
                                    let i = (off - nf) / 2;
                                    assert(0 <= i < ndd);
                                    if (off - nf) % 2 == 0 {
                                        assert(j == work0.len() + nf + 2 * i);
                                        assert(ds[i].1 == rec.dirs@[i].tree_checksum@);
                                        assert(key_view(work@[j].0) == (ObjectType::DirTree, ds[i].1));
                                    } else {
                                        assert(j == work0.len() + nf + 2 * i + 1);
                                        assert(work@[work0.len() as int + nf + 2 * i].0.objtype
                                            == ObjectType::DirTree);
                                        assert(ds[i].2 == rec.dirs@[i].meta_checksum@);
                                        assert(key_view(work@[j].0) == (ObjectType::DirMeta, ds[i].2));
                                    }
                                }
                            }
                            assert forall|j: int|
                                0 <= j < work@.len() implies reachable(
                                m,
                                root,
                                key_view((#[trigger] work@[j]).0),
                            ) by {
                                if j >= work0.len() {
                                    lemma_reachable_step(m, root, xkey, key_view(work@[j].0));
                                }
                            }
                            if maxdepth >= 0 {
                                assert forall|j: int|
                                    0 <= j < work@.len() implies 0 <= (#[trigger] work@[j]).1
                                    <= maxdepth by {
                                    if j < work0.len() {
                                        assert(work@[j] == pre_work[j]);
                                    }
                                }
                                assert forall|j: int|
                                    0 <= j < work@.len() implies ((#[trigger] work@[j]).0.objtype
                                    == ObjectType::Commit ==> ancestor_item(
                                    m,
                                    commit_checksum@,
                                    work@[j].0.checksum@,
                                    work@[j].1 as int,
                                    maxdepth as int,
                                )) by {
                                    if j < work0.len() {
                                        assert(work@[j] == pre_work[j]);
                                    } else {
                                        assert(work@[j].0.objtype != ObjectType::Commit);
                                    }
                                }
                                assert forall|j: int|
                                    0 <= j < work@.len() implies ((#[trigger] work@[j]).0.objtype
                                    != ObjectType::Commit ==> reachable_within(
                                    m,
                                    commit_checksum@,
                                    key_view(work@[j].0),
                                    maxdepth as int,
                                )) by {
                                    if j < work0.len() {
                                        assert(work@[j] == pre_work[j]);
                                    } else {
                                        assert(expands_to(m, xkey, key_view(work@[j].0)));
                                        lemma_within_step(
                                            m,
                                            commit_checksum@,
                                            xkey,
                                            key_view(work@[j].0),
                                            maxdepth as int,
                                        );
                                    }
                                }
                            }
                            if maxdepth < 0 {
                                assert forall|j: int, y: (ObjectType, Seq<u8>)|
                                    0 <= j < visited@.len() && #[trigger] expands_to(
                                    m,
                                    key_view(visited@[j]),
                                    y,
                                ) implies (in_names(visited@, y) || in_work(work@, y)) by {
                                    if j < visited@.len() - 1 {
                                        assert(visited@[j] == old_visited[j]);
                                        if in_names(old_visited, y) {
                                            let j2 = choose|j2: int|
                                                0 <= j2 < old_visited.len() && key_view(
                                                    #[trigger] old_visited[j2],
                                                ) == y;
                                            assert(key_view(visited@[j2]) == y);
                                        } else if in_work(pre_work, y) {
                                            let j2 = choose|j2: int|
                                                0 <= j2 < pre_work.len() && key_view(
                                                    (#[trigger] pre_work[j2]).0,
                                                ) == y;
                                            if j2 < pre_work.len() - 1 {
                                                assert(work@[j2] == pre_work[j2]);
                                            } else {
                                                assert(y == xkey);
                                                assert(key_view(visited@.last()) == y);
                                            }
                                        }
                                    } else {
                                        assert(key_view(visited@[j]) == xkey);
                                        if exists|i: int|
                                            0 <= i < fs.len() && y == (
                                                ObjectType::File,
                                                (#[trigger] fs[i]).1,
                                            ) {
                                            let i = choose|i: int|
                                                0 <= i < fs.len() && y == (
                                                    ObjectType::File,
                                                    (#[trigger] fs[i]).1,
                                                );
                                            assert(key_view(work@[work0.len() + i].0) == y);
                                        } else {
                                            let i = choose|i: int|
                                                0 <= i < ds.len() && (y == (
                                                    ObjectType::DirTree,
                                                    (#[trigger] ds[i]).1,
                                                ) || y == (ObjectType::DirMeta, ds[i].2));
                                            assert(work@[work0.len() as int + nf + 2 * i].0.objtype
                                                == ObjectType::DirTree);
                                            if y == (ObjectType::DirTree, ds[i].1) {
                                                assert(key_view(work@[work0.len() + nf + 2 * i].0)
                                                    == y);
                                            } else {
                                                assert(key_view(
                                                    work@[work0.len() + nf + 2 * i + 1].0,
                                                ) == y);
                                            }
                                        }
                                    }
                                }
                            }
                        }
                    },
                    _ => {
                        proof {
                            assert(forall|y: (ObjectType, Seq<u8>)| !expands_to(m, xkey, y));

                            assert(in_names(visited@, root) || in_work(work@, root)) by {
                                if in_names(old_visited, root) {
                                    let j = choose|j: int|
                                        0 <= j < old_visited.len() && key_view(
                                            #[trigger] old_visited[j],
                                        ) == root;
                                    assert(key_view(visited@[j]) == root);
                                } else {
                                    let j2 = choose|j2: int|
                                        0 <= j2 < pre_work.len() && key_view(
                                            (#[trigger] pre_work[j2]).0,
                                        ) == root;
                                    if j2 < pre_work.len() - 1 {
                                        assert(work@[j2] == pre_work[j2]);
                                    } else {
                                        assert(root == xkey);
                                        assert(key_view(visited@[visited@.len() - 1]) == root);
                                    }
                                }
                            }

                            if maxdepth < 0 {
                                assert forall|j: int, y: (ObjectType, Seq<u8>)|
                                    0 <= j < visited@.len() && #[trigger] expands_to(
                                    m,
                                    key_view(visited@[j]),
                                    y,
                                ) implies (in_names(visited@, y) || in_work(work@, y)) by {
                                    if j < visited@.len() - 1 {
                                        assert(visited@[j] == old_visited[j]);
                                        if in_names(old_visited, y) {
                                            let j2 = choose|j2: int|
                                                0 <= j2 < old_visited.len() && key_view(
                                                    #[trigger] old_visited[j2],
                                                ) == y;
                                            assert(key_view(visited@[j2]) == y);
                                        } else if in_work(pre_work, y) {
                                            let j2 = choose|j2: int|
                                                0 <= j2 < pre_work.len() && key_view(
                                                    (#[trigger] pre_work[j2]).0,
                                                ) == y;
                                            if j2 < pre_work.len() - 1 {
                                                assert(work@[j2] == pre_work[j2]);
                                            } else {
                                                assert(y == xkey);
                                                assert(key_view(visited@.last()) == y);
                                            }
                                        }
                                    } else {
                                        assert(key_view(visited@[j]) == xkey);
                                        assert(false);
                                    }
                                }
                            }
                        }
                    },
                }
            }
        }
        proof {
            let vs: Set<(ObjectType, Seq<u8>)> = Set::new(
                |y: (ObjectType, Seq<u8>)| in_names(visited@, y),
            );
            if maxdepth < 0 {
                assert(vs.contains(root));
                assert forall|x: (ObjectType, Seq<u8>), y: (ObjectType, Seq<u8>)|
                    vs.contains(x) && #[trigger] expands_to(m, x, y) implies vs.contains(y) by {
                    let j = choose|j: int|
                        0 <= j < visited@.len() && key_view(#[trigger] visited@[j]) == x;
                    assert(expands_to(m, key_view(visited@[j]), y));
                    assert(in_names(visited@, y) || in_work(work@, y));
                }
                assert forall|y: (ObjectType, Seq<u8>)| #[trigger] reachable(m, root, y) implies
                    in_names(visited@, y) by {
                    let c = choose|c: Seq<(ObjectType, Seq<u8>)>|
                        c.len() > 0 && #[trigger] is_chain(m, c) && c[0] == root && c.last() == y;
                    lemma_chain_closed(m, vs, c);
                }
                assert(graph_complete(m, root)) by {
                    let j = choose|j: int|
                        0 <= j < visited@.len() && key_view(#[trigger] visited@[j]) == root;
                    assert(wf_object(m, key_view(visited@[j])));
                    assert forall|x: (ObjectType, Seq<u8>), y: (ObjectType, Seq<u8>)|
                        reachable(m, root, x) && #[trigger] expands_to(m, x, y) implies wf_object(
                        m,
                        y,
                    ) by {
                        assert(in_names(visited@, x));
                        assert(vs.contains(x));
                        assert(vs.contains(y));
                        let j2 = choose|j2: int|
                            0 <= j2 < visited@.len() && key_view(#[trigger] visited@[j2]) == y;
                        assert(wf_object(m, key_view(visited@[j2])));
                    }
                }
            }
        }
        Ok(visited)
    }
}

} // verus!
