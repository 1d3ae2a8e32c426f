//! Canonical on-disk encodings of the metadata records: directory trees,
//! directory metadata and commits. Identical logical content always encodes
//! to identical bytes, so content addressing is well defined.

use vstd::prelude::*;
use crate::checksum::Checksum;
use crate::util::clone_bytes;
use vstd::bytes::spec_u32_to_le_bytes;
use vstd::bytes::spec_u32_from_le_bytes;
use vstd::bytes::spec_u64_to_le_bytes;
use vstd::bytes::spec_u64_from_le_bytes;
use vstd::bytes::u32_from_le_bytes;
use vstd::bytes::u32_to_le_bytes;
use vstd::bytes::u64_from_le_bytes;
use vstd::bytes::u64_to_le_bytes;
use vstd::slice::slice_subrange;

verus! {

/// One file entry of a DirTree record: a name and a content checksum.
pub struct TreeFileEntry {
    /// The child name, as raw bytes.
    pub name: Vec<u8>,
    /// The checksum of the file content object.
    pub checksum: Checksum,
}

/// One subdirectory entry of a DirTree record.
pub struct TreeDirEntry {
    /// The child name, as raw bytes.
    pub name: Vec<u8>,
    /// The checksum of the subdirectory's DirTree object.
    pub tree_checksum: Checksum,
    /// The checksum of the subdirectory's DirMeta object.
    pub meta_checksum: Checksum,
}

/// A decoded DirTree record.
pub struct DirTreeRecord {
    /// The file entries, in stored order.
    pub files: Vec<TreeFileEntry>,
    /// The subdirectory entries, in stored order.
    pub dirs: Vec<TreeDirEntry>,
}

/// A decoded commit record.
pub struct CommitRecord {
    /// The root DirTree checksum.
    pub tree_checksum: Checksum,
    /// The root DirMeta checksum.
    pub meta_checksum: Checksum,
    /// The parent commit checksum, if any.
    pub parent: Option<Checksum>,
    /// Seconds since the epoch.
    pub timestamp: u64,
    /// Free-form commit metadata bytes.
    pub metadata: Vec<u8>,
}

/// Parsed directory metadata, in host byte order.
pub struct DirMetaParsed {
    /// The owning user id.
    pub uid: u32,
    /// The owning group id.
    pub gid: u32,
    /// The file mode.
    pub mode: u32,
    /// Serialized extended attributes.
    pub xattrs: Vec<u8>,
}

/// The mathematical view of a sequence of file entries.
pub open spec fn fents_view(v: Seq<TreeFileEntry>) -> Seq<(Seq<u8>, Seq<u8>)> {
    v.map_values(|e: TreeFileEntry| (e.name@, e.checksum@))
}

/// The mathematical view of a sequence of subdirectory entries.
pub open spec fn dents_view(v: Seq<TreeDirEntry>) -> Seq<(Seq<u8>, Seq<u8>, Seq<u8>)> {
    v.map_values(|e: TreeDirEntry| (e.name@, e.tree_checksum@, e.meta_checksum@))
}

/// An eight-byte little-endian integer.
pub open spec fn enc_u64(x: u64) -> Seq<u8> {
    spec_u64_to_le_bytes(x)
}

/// A four-byte little-endian integer.
pub open spec fn enc_u32(x: u32) -> Seq<u8> {
    spec_u32_to_le_bytes(x)
}

/// A length-prefixed byte string.
pub open spec fn enc_bytes(b: Seq<u8>) -> Seq<u8> {
    enc_u64(b.len() as u64) + b
}

/// One encoded file entry: the name, then the 32 checksum bytes.
pub open spec fn enc_fent(e: (Seq<u8>, Seq<u8>)) -> Seq<u8> {
    enc_bytes(e.0) + e.1
}

/// The encoded file entries, in order.
pub open spec fn enc_fents(s: Seq<(Seq<u8>, Seq<u8>)>) -> Seq<u8>
    decreases s.len(),
{
    if s.len() == 0 {
        Seq::empty()
    } else {
        enc_fents(s.drop_last()) + enc_fent(s.last())
    }
}

/// One encoded subdirectory entry: the name, the DirTree checksum, the
/// DirMeta checksum.
pub open spec fn enc_dent(e: (Seq<u8>, Seq<u8>, Seq<u8>)) -> Seq<u8> {
    enc_bytes(e.0) + e.1 + e.2
}

/// The encoded subdirectory entries, in order.
pub open spec fn enc_dents(s: Seq<(Seq<u8>, Seq<u8>, Seq<u8>)>) -> Seq<u8>
    decreases s.len(),
{
    if s.len() == 0 {
        Seq::empty()
    } else {
        enc_dents(s.drop_last()) + enc_dent(s.last())
    }
}

/// The canonical DirTree record: the file count and entries, then the
/// subdirectory count and entries.
pub open spec fn enc_dirtree(fs: Seq<(Seq<u8>, Seq<u8>)>, ds: Seq<(Seq<u8>, Seq<u8>, Seq<u8>)>)
    -> Seq<u8> {
    enc_u64(fs.len() as u64) + enc_fents(fs) + enc_u64(ds.len() as u64) + enc_dents(ds)
}

/// The canonical commit record: root tree and dirmeta checksums, an optional
/// parent, the timestamp, and length-prefixed metadata.
pub open spec fn enc_commit(tree: Seq<u8>, meta: Seq<u8>, parent: Option<Seq<u8>>, ts: u64, md: Seq<
    u8,
>) -> Seq<u8> {
    tree + meta + (match parent {
        Some(p) => enc_u64(1) + p,
        None => enc_u64(0),
    }) + enc_u64(ts) + enc_bytes(md)
}

/// The canonical DirMeta record: uid, gid and mode, then length-prefixed
/// extended attributes.
pub open spec fn enc_dirmeta(uid: u32, gid: u32, mode: u32, xattrs: Seq<u8>) -> Seq<u8> {
    enc_u32(uid) + enc_u32(gid) + enc_u32(mode) + enc_bytes(xattrs)
}

/// A file-entry sequence fit to encode: 32-byte checksums and name lengths
/// a length prefix can carry.
pub open spec fn fents_wf(s: Seq<(Seq<u8>, Seq<u8>)>) -> bool {
    forall|i: int|
        0 <= i < s.len() ==> (#[trigger] s[i]).1.len() == 32 && s[i].0.len() <= u64::MAX
}

/// A subdirectory-entry sequence fit to encode.
pub open spec fn dents_wf(s: Seq<(Seq<u8>, Seq<u8>, Seq<u8>)>) -> bool {
    forall|i: int|
        0 <= i < s.len() ==> (#[trigger] s[i]).1.len() == 32 && s[i].2.len() == 32
            && s[i].0.len() <= u64::MAX
}

/// Read an eight-byte little-endian integer at `p`.
pub open spec fn dec_u64_at(d: Seq<u8>, p: int) -> Option<(u64, int)> {
    if 0 <= p && p + 8 <= d.len() {
        Some((spec_u64_from_le_bytes(d.subrange(p, p + 8)), p + 8))
    } else {
        None
    }
}

/// Read a four-byte little-endian integer at `p`.
pub open spec fn dec_u32_at(d: Seq<u8>, p: int) -> Option<(u32, int)> {
    if 0 <= p && p + 4 <= d.len() {
        Some((spec_u32_from_le_bytes(d.subrange(p, p + 4)), p + 4))
    } else {
        None
    }
}

/// Read 32 raw checksum bytes at `p`.
pub open spec fn dec_cs_at(d: Seq<u8>, p: int) -> Option<(Seq<u8>, int)> {
    if 0 <= p && p + 32 <= d.len() {
        Some((d.subrange(p, p + 32), p + 32))
    } else {
        None
    }
}

/// Read a length-prefixed byte string at `p`.
pub open spec fn dec_bytes_at(d: Seq<u8>, p: int) -> Option<(Seq<u8>, int)> {
    match dec_u64_at(d, p) {
        None => None,
        Some((n, q)) => if q + n <= d.len() {
            Some((d.subrange(q, q + n), q + n))
        } else {
            None
        },
    }
}

/// Read `n` file entries at `p`.
pub open spec fn dec_fents_at(d: Seq<u8>, p: int, n: nat) -> Option<(Seq<(Seq<u8>, Seq<u8>)>, int)>
    decreases n,
{
    if n == 0 {
        Some((Seq::empty(), p))
    } else {
        match dec_bytes_at(d, p) {
            None => None,
            Some((nm, q)) => match dec_cs_at(d, q) {
                None => None,
                Some((cs, q2)) => match dec_fents_at(d, q2, (n - 1) as nat) {
                    None => None,
                    Some((rest, q3)) => Some((seq![(nm, cs)] + rest, q3)),
                },
            },
        }
    }
}

/// Read `n` subdirectory entries at `p`.
pub open spec fn dec_dents_at(d: Seq<u8>, p: int, n: nat) -> Option<(
    Seq<(Seq<u8>, Seq<u8>, Seq<u8>)>,
    int,
)>
    decreases n,
{
    if n == 0 {
        Some((Seq::empty(), p))
    } else {
        match dec_bytes_at(d, p) {
            None => None,
            Some((nm, q)) => match dec_cs_at(d, q) {
                None => None,
                Some((t, q2)) => match dec_cs_at(d, q2) {
                    None => None,
                    Some((m, q3)) => match dec_dents_at(d, q3, (n - 1) as nat) {
                        None => None,
                        Some((rest, q4)) => Some((seq![(nm, t, m)] + rest, q4)),
                    },
                },
            },
        }
    }
}

/// Decode a whole DirTree record; every byte must be consumed.
pub open spec fn dec_dirtree(d: Seq<u8>) -> Option<(
    Seq<(Seq<u8>, Seq<u8>)>,
    Seq<(Seq<u8>, Seq<u8>, Seq<u8>)>,
)> {
    match dec_u64_at(d, 0) {
        None => None,
        Some((nf, p)) => match dec_fents_at(d, p, nf as nat) {
            None => None,
            Some((fs, p2)) => match dec_u64_at(d, p2) {
                None => None,
                Some((nd, p3)) => match dec_dents_at(d, p3, nd as nat) {
                    None => None,
                    Some((ds, p4)) => if p4 == d.len() {
                        Some((fs, ds))
                    } else {
                        None
                    },
                },
            },
        },
    }
}

/// Decode a whole commit record; every byte must be consumed.
pub open spec fn dec_commit(d: Seq<u8>) -> Option<(Seq<u8>, Seq<u8>, Option<Seq<u8>>, u64, Seq<u8>)> {
    match dec_cs_at(d, 0) {
        None => None,
        Some((tree, p)) => match dec_cs_at(d, p) {
            None => None,
            Some((meta, p2)) => match dec_u64_at(d, p2) {
                None => None,
                Some((flag, p3)) => if flag == 0 {
                    match dec_u64_at(d, p3) {
                        None => None,
                        Some((ts, p4)) => match dec_bytes_at(d, p4) {
                            None => None,
                            Some((md, p5)) => if p5 == d.len() {
                                Some((tree, meta, None, ts, md))
                            } else {
                                None
                            },
                        },
                    }
                } else if flag == 1 {
                    match dec_cs_at(d, p3) {
                        None => None,
                        Some((par, p4)) => match dec_u64_at(d, p4) {
                            None => None,
                            Some((ts, p5)) => match dec_bytes_at(d, p5) {
                                None => None,
                                Some((md, p6)) => if p6 == d.len() {
                                    Some((tree, meta, Some(par), ts, md))
                                } else {
                                    None
                                },
                            },
                        },
                    }
                } else {
                    None
                },
            },
        },
    }
}

/// Decode a whole DirMeta record; every byte must be consumed.
pub open spec fn dec_dirmeta(d: Seq<u8>) -> Option<(u32, u32, u32, Seq<u8>)> {
    match dec_u32_at(d, 0) {
        None => None,
        Some((uid, p)) => match dec_u32_at(d, p) {
            None => None,
            Some((gid, p2)) => match dec_u32_at(d, p2) {
                None => None,
                Some((mode, p3)) => match dec_bytes_at(d, p3) {
                    None => None,
                    Some((xa, p4)) => if p4 == d.len() {
                        Some((uid, gid, mode, xa))
                    } else {
                        None
                    },
                },
            },
        },
    }
}

/// An encoded integer reads back as itself wherever it stands.
pub proof fn lemma_dec_u64_enc(d: Seq<u8>, p: int, x: u64)
    requires
        0 <= p,
        p + 8 <= d.len(),
        d.subrange(p, p + 8) == enc_u64(x),
    ensures
        dec_u64_at(d, p) == Some((x, p + 8)),
{
    vstd::bytes::lemma_auto_spec_u64_to_from_le_bytes();
}

/// An encoded integer reads back as itself wherever it stands.
pub proof fn lemma_dec_u32_enc(d: Seq<u8>, p: int, x: u32)
    requires
        0 <= p,
        p + 4 <= d.len(),
        d.subrange(p, p + 4) == enc_u32(x),
    ensures
        dec_u32_at(d, p) == Some((x, p + 4)),
{
    vstd::bytes::lemma_auto_spec_u32_to_from_le_bytes();
    assert(spec_u32_to_le_bytes(x).len() == 4);
    assert(spec_u32_from_le_bytes(spec_u32_to_le_bytes(x)) == x);
    assert(d.subrange(p, p + 4) == spec_u32_to_le_bytes(x));
}

/// The length of an encoded integer.
pub proof fn lemma_enc_u64_len(x: u64)
    ensures
        enc_u64(x).len() == 8,
{
    vstd::bytes::lemma_auto_spec_u64_to_from_le_bytes();
}

/// An encoded length-prefixed byte string reads back as itself.
pub proof fn lemma_dec_bytes_enc(d: Seq<u8>, p: int, b: Seq<u8>)
    requires
        0 <= p,
        b.len() <= u64::MAX,
        p + 8 + b.len() <= d.len(),
        d.subrange(p, p + 8 + b.len()) == enc_bytes(b),
    ensures
        dec_bytes_at(d, p) == Some((b, p + 8 + b.len())),
{
    lemma_enc_u64_len(b.len() as u64);
    assert(d.subrange(p, p + 8) =~= enc_bytes(b).subrange(0, 8)) by {
        assert(forall|i: int|
            0 <= i < 8 ==> d.subrange(p, p + 8 + b.len() as int)[i] == (#[trigger] d.subrange(
                p,
                p + 8,
            )[i]));
    }
    assert(enc_bytes(b).subrange(0, 8) =~= enc_u64(b.len() as u64));
    lemma_dec_u64_enc(d, p, b.len() as u64);
    assert(d.subrange(p + 8, p + 8 + b.len()) =~= b) by {
        assert(forall|i: int|
            0 <= i < b.len() ==> (#[trigger] d.subrange(p + 8, p + 8 + b.len() as int)[i])
                == d.subrange(p, p + 8 + b.len() as int)[i + 8]);
        assert(forall|i: int|
            0 <= i < b.len() ==> enc_bytes(b)[i + 8] == (#[trigger] b[i]));
    }
}

/// Encoded raw checksum bytes read back as themselves.
pub proof fn lemma_dec_cs_enc(d: Seq<u8>, p: int, b: Seq<u8>)
    requires
        0 <= p,
        b.len() == 32,
        p + 32 <= d.len(),
        d.subrange(p, p + 32) == b,
    ensures
        dec_cs_at(d, p) == Some((b, p + 32)),
{
}

/// Splitting a subrange at an interior point.
pub proof fn lemma_split(d: Seq<u8>, p: int, m: int, q: int)
    requires
        0 <= p <= m <= q <= d.len(),
    ensures
        d.subrange(p, q) == d.subrange(p, m) + d.subrange(m, q),
{
    assert(d.subrange(p, q) =~= d.subrange(p, m) + d.subrange(m, q));
}

/// Concatenations with equally long first parts have equal parts.
pub proof fn lemma_concat_parts(a1: Seq<u8>, b1: Seq<u8>, a2: Seq<u8>, b2: Seq<u8>)
    requires
        a1.len() == a2.len(),
        a1 + b1 == a2 + b2,
    ensures
        a1 == a2,
        b1 == b2,
{
    assert forall|i: int| 0 <= i < a1.len() implies a1[i] == a2[i] by {
        assert((a1 + b1)[i] == a1[i]);
        assert((a2 + b2)[i] == a2[i]);
    }
    assert(a1 =~= a2);
    assert((a1 + b1).len() == a1.len() + b1.len());
    assert((a2 + b2).len() == a2.len() + b2.len());
    assert(b1.len() == b2.len());
    assert forall|i: int| 0 <= i < b1.len() implies b1[i] == b2[i] by {
        assert((a1 + b1)[a1.len() + i] == b1[i]);
        assert((a2 + b2)[a2.len() + i] == b2[i]);
    }
    assert(b1 =~= b2);
}

/// Entry sequences also encode front-first.
pub proof fn lemma_enc_fents_front(s: Seq<(Seq<u8>, Seq<u8>)>)
    requires
        s.len() > 0,
    ensures
        enc_fents(s) == enc_fent(s[0]) + enc_fents(s.drop_first()),
    decreases s.len(),
{
    if s.len() == 1 {
        assert(s.drop_last() =~= Seq::<(Seq<u8>, Seq<u8>)>::empty());
        assert(s.drop_first() =~= Seq::<(Seq<u8>, Seq<u8>)>::empty());
        assert(enc_fents(s) =~= enc_fent(s[0]) + enc_fents(s.drop_first()));
    } else {
        lemma_enc_fents_front(s.drop_last());
        assert(s.drop_last()[0] == s[0]);
        assert(s.drop_last().drop_first() =~= s.drop_first().drop_last());
        assert(s.drop_first().last() == s.last());
        assert(enc_fents(s) == enc_fents(s.drop_last()) + enc_fent(s.last()));
        assert(enc_fents(s.drop_first()) == enc_fents(s.drop_first().drop_last()) + enc_fent(
            s.drop_first().last(),
        ));
        assert(enc_fents(s) =~= enc_fent(s[0]) + enc_fents(s.drop_first()));
    }
}

/// Entry sequences also encode front-first.
pub proof fn lemma_enc_dents_front(s: Seq<(Seq<u8>, Seq<u8>, Seq<u8>)>)
    requires
        s.len() > 0,
    ensures
        enc_dents(s) == enc_dent(s[0]) + enc_dents(s.drop_first()),
    decreases s.len(),
{
    if s.len() == 1 {
        assert(s.drop_last() =~= Seq::<(Seq<u8>, Seq<u8>, Seq<u8>)>::empty());
        assert(s.drop_first() =~= Seq::<(Seq<u8>, Seq<u8>, Seq<u8>)>::empty());
        assert(enc_dents(s) =~= enc_dent(s[0]) + enc_dents(s.drop_first()));
    } else {
        lemma_enc_dents_front(s.drop_last());
        assert(s.drop_last()[0] == s[0]);
        assert(s.drop_last().drop_first() =~= s.drop_first().drop_last());
        assert(s.drop_first().last() == s.last());
        assert(enc_dents(s) =~= enc_dent(s[0]) + enc_dents(s.drop_first()));
    }
}

/// Encoded file entries read back as themselves wherever they stand.
pub proof fn lemma_dec_fents_enc(d: Seq<u8>, p: int, s: Seq<(Seq<u8>, Seq<u8>)>)
    requires
        fents_wf(s),
        0 <= p,
        p + enc_fents(s).len() <= d.len(),
        d.subrange(p, p + enc_fents(s).len()) == enc_fents(s),
    ensures
        dec_fents_at(d, p, s.len()) == Some((s, p + enc_fents(s).len())),
    decreases s.len(),
{
    if s.len() == 0 {
    } else {
        lemma_enc_fents_front(s);
        lemma_enc_u64_len(s[0].0.len() as u64);
        let nl = s[0].0.len() as int;
        let l0 = 8 + nl + 32;
        let lt = enc_fents(s).len() as int;
        assert(enc_fent(s[0]).len() == l0);
        lemma_split(d, p, p + l0, p + lt);
        lemma_concat_parts(
            d.subrange(p, p + l0),
            d.subrange(p + l0, p + lt),
            enc_fent(s[0]),
            enc_fents(s.drop_first()),
        );
        lemma_split(d, p, p + 8 + nl, p + l0);
        lemma_concat_parts(
            d.subrange(p, p + 8 + nl),
            d.subrange(p + 8 + nl, p + l0),
            enc_bytes(s[0].0),
            s[0].1,
        );
        lemma_dec_bytes_enc(d, p, s[0].0);
        lemma_dec_cs_enc(d, p + 8 + nl, s[0].1);
        assert(fents_wf(s.drop_first())) by {
            assert(forall|i: int|
                0 <= i < s.drop_first().len() ==> (#[trigger] s.drop_first()[i]) == s[i + 1]);
        }
        lemma_dec_fents_enc(d, p + l0, s.drop_first());
        assert(seq![(s[0].0, s[0].1)] + s.drop_first() =~= s);
    }
}

/// Encoded subdirectory entries read back as themselves.
pub proof fn lemma_dec_dents_enc(d: Seq<u8>, p: int, s: Seq<(Seq<u8>, Seq<u8>, Seq<u8>)>)
    requires
        dents_wf(s),
        0 <= p,
        p + enc_dents(s).len() <= d.len(),
        d.subrange(p, p + enc_dents(s).len()) == enc_dents(s),
    ensures
        dec_dents_at(d, p, s.len()) == Some((s, p + enc_dents(s).len())),
    decreases s.len(),
{
    if s.len() == 0 {
    } else {
        lemma_enc_dents_front(s);
        lemma_enc_u64_len(s[0].0.len() as u64);
        let nl = s[0].0.len() as int;
        let l0 = 8 + nl + 64;
        let lt = enc_dents(s).len() as int;
        assert(enc_dent(s[0]).len() == l0);
        lemma_split(d, p, p + l0, p + lt);
        lemma_concat_parts(
            d.subrange(p, p + l0),
            d.subrange(p + l0, p + lt),
            enc_dent(s[0]),
            enc_dents(s.drop_first()),
        );
        lemma_split(d, p, p + 8 + nl, p + l0);
        assert(enc_dent(s[0]) =~= enc_bytes(s[0].0) + (s[0].1 + s[0].2));
        lemma_concat_parts(
            d.subrange(p, p + 8 + nl),
            d.subrange(p + 8 + nl, p + l0),
            enc_bytes(s[0].0),
            s[0].1 + s[0].2,
        );
        lemma_split(d, p + 8 + nl, p + 8 + nl + 32, p + l0);
        lemma_concat_parts(
            d.subrange(p + 8 + nl, p + 8 + nl + 32),
            d.subrange(p + 8 + nl + 32, p + l0),
            s[0].1,
            s[0].2,
        );
        lemma_dec_bytes_enc(d, p, s[0].0);
        lemma_dec_cs_enc(d, p + 8 + nl, s[0].1);
        lemma_dec_cs_enc(d, p + 8 + nl + 32, s[0].2);
        assert(dents_wf(s.drop_first())) by {
            assert(forall|i: int|
                0 <= i < s.drop_first().len() ==> (#[trigger] s.drop_first()[i]) == s[i + 1]);
        }
        lemma_dec_dents_enc(d, p + l0, s.drop_first());
        assert(seq![(s[0].0, s[0].1, s[0].2)] + s.drop_first() =~= s);
    }
}

/// A DirTree record decodes back to exactly what was encoded.
pub proof fn lemma_dec_dirtree_enc(fs: Seq<(Seq<u8>, Seq<u8>)>, ds: Seq<(Seq<u8>, Seq<u8>, Seq<u8>)>)
    requires
        fents_wf(fs),
        dents_wf(ds),
        fs.len() <= u64::MAX,
        ds.len() <= u64::MAX,
    ensures
        dec_dirtree(enc_dirtree(fs, ds)) == Some((fs, ds)),
{
    let d = enc_dirtree(fs, ds);
    assert(d.subrange(0, d.len() as int) =~= d);
    lemma_enc_u64_len(fs.len() as u64);
    lemma_enc_u64_len(ds.len() as u64);
    let lf = enc_fents(fs).len() as int;
    let ld = enc_dents(ds).len() as int;
    assert(d.len() == 16 + lf + ld);
    assert(d =~= enc_u64(fs.len() as u64) + (enc_fents(fs) + (enc_u64(ds.len() as u64) + enc_dents(
        ds,
    ))));
    lemma_split(d, 0, 8, d.len() as int);
    lemma_concat_parts(
        d.subrange(0, 8),
        d.subrange(8, d.len() as int),
        enc_u64(fs.len() as u64),
        enc_fents(fs) + (enc_u64(ds.len() as u64) + enc_dents(ds)),
    );
    lemma_dec_u64_enc(d, 0, fs.len() as u64);
    lemma_split(d, 8, 8 + lf, d.len() as int);
    lemma_concat_parts(
        d.subrange(8, 8 + lf),
        d.subrange(8 + lf, d.len() as int),
        enc_fents(fs),
        enc_u64(ds.len() as u64) + enc_dents(ds),
    );
    lemma_dec_fents_enc(d, 8, fs);
    lemma_split(d, 8 + lf, 16 + lf, d.len() as int);
    lemma_concat_parts(
        d.subrange(8 + lf, 16 + lf),
        d.subrange(16 + lf, d.len() as int),
        enc_u64(ds.len() as u64),
        enc_dents(ds),
    );
    lemma_dec_u64_enc(d, 8 + lf, ds.len() as u64);
    lemma_dec_dents_enc(d, 16 + lf, ds);
}

/// A commit record decodes back to exactly what was encoded.
pub proof fn lemma_dec_commit_enc(tree: Seq<u8>, meta: Seq<u8>, parent: Option<Seq<u8>>, ts: u64,
    md: Seq<u8>)
    requires
        tree.len() == 32,
        meta.len() == 32,
        parent matches Some(p) ==> p.len() == 32,
        md.len() <= u64::MAX,
    ensures
        dec_commit(enc_commit(tree, meta, parent, ts, md)) == Some((tree, meta, parent, ts, md)),
{
    let d = enc_commit(tree, meta, parent, ts, md);
    assert(d.subrange(0, d.len() as int) =~= d);
    lemma_enc_u64_len(ts);
    lemma_enc_u64_len(0);
    lemma_enc_u64_len(1);
    lemma_enc_u64_len(md.len() as u64);
    match parent {
        None => {
            assert(d =~= tree + (meta + (enc_u64(0) + (enc_u64(ts) + enc_bytes(md)))));
            assert(d.len() == 80 + 8 + md.len());
            lemma_split(d, 0, 32, d.len() as int);
            lemma_concat_parts(
                d.subrange(0, 32),
                d.subrange(32, d.len() as int),
                tree,
                meta + (enc_u64(0) + (enc_u64(ts) + enc_bytes(md))),
            );
            lemma_dec_cs_enc(d, 0, tree);
            lemma_split(d, 32, 64, d.len() as int);
            lemma_concat_parts(
                d.subrange(32, 64),
                d.subrange(64, d.len() as int),
                meta,
                enc_u64(0) + (enc_u64(ts) + enc_bytes(md)),
            );
            lemma_dec_cs_enc(d, 32, meta);
            lemma_split(d, 64, 72, d.len() as int);
            lemma_concat_parts(
                d.subrange(64, 72),
                d.subrange(72, d.len() as int),
                enc_u64(0),
                enc_u64(ts) + enc_bytes(md),
            );
            lemma_dec_u64_enc(d, 64, 0);
            lemma_split(d, 72, 80, d.len() as int);
            lemma_concat_parts(
                d.subrange(72, 80),
                d.subrange(80, d.len() as int),
                enc_u64(ts),
                enc_bytes(md),
            );
            lemma_dec_u64_enc(d, 72, ts);
            lemma_dec_bytes_enc(d, 80, md);
        },
        Some(par) => {
            assert(d =~= tree + (meta + ((enc_u64(1) + par) + (enc_u64(ts) + enc_bytes(md)))));
            assert(d.len() == 112 + 8 + md.len());
            lemma_split(d, 0, 32, d.len() as int);
            lemma_concat_parts(
                d.subrange(0, 32),
                d.subrange(32, d.len() as int),
                tree,
                meta + ((enc_u64(1) + par) + (enc_u64(ts) + enc_bytes(md))),
            );
            lemma_dec_cs_enc(d, 0, tree);
            lemma_split(d, 32, 64, d.len() as int);
            lemma_concat_parts(
                d.subrange(32, 64),
                d.subrange(64, d.len() as int),
                meta,
                (enc_u64(1) + par) + (enc_u64(ts) + enc_bytes(md)),
            );
            lemma_dec_cs_enc(d, 32, meta);
            lemma_split(d, 64, 72, d.len() as int);
            assert((enc_u64(1) + par) + (enc_u64(ts) + enc_bytes(md)) =~= enc_u64(1) + (par + (
            enc_u64(ts) + enc_bytes(md))));
            lemma_concat_parts(
                d.subrange(64, 72),
                d.subrange(72, d.len() as int),
                enc_u64(1),
                par + (enc_u64(ts) + enc_bytes(md)),
            );
            lemma_dec_u64_enc(d, 64, 1);
            lemma_split(d, 72, 104, d.len() as int);
            lemma_concat_parts(
                d.subrange(72, 104),
                d.subrange(104, d.len() as int),
                par,
                enc_u64(ts) + enc_bytes(md),
            );
            lemma_dec_cs_enc(d, 72, par);
            lemma_split(d, 104, 112, d.len() as int);
            lemma_concat_parts(
                d.subrange(104, 112),
                d.subrange(112, d.len() as int),
                enc_u64(ts),
                enc_bytes(md),
            );
            lemma_dec_u64_enc(d, 104, ts);
            lemma_dec_bytes_enc(d, 112, md);
        },
    }
}

/// A DirMeta record decodes back to exactly what was encoded.
pub proof fn lemma_dec_dirmeta_enc(uid: u32, gid: u32, mode: u32, xattrs: Seq<u8>)
    requires
        xattrs.len() <= u64::MAX,
    ensures
        dec_dirmeta(enc_dirmeta(uid, gid, mode, xattrs)) == Some((uid, gid, mode, xattrs)),
{
    let d = enc_dirmeta(uid, gid, mode, xattrs);
    assert(d.subrange(0, d.len() as int) =~= d);
    vstd::bytes::lemma_auto_spec_u32_to_from_le_bytes();
    lemma_enc_u64_len(xattrs.len() as u64);
    assert(enc_u32(uid).len() == 4 && enc_u32(gid).len() == 4 && enc_u32(mode).len() == 4);
    assert(d =~= enc_u32(uid) + (enc_u32(gid) + (enc_u32(mode) + enc_bytes(xattrs))));
    lemma_split(d, 0, 4, d.len() as int);
    lemma_concat_parts(
        d.subrange(0, 4),
        d.subrange(4, d.len() as int),
        enc_u32(uid),
        enc_u32(gid) + (enc_u32(mode) + enc_bytes(xattrs)),
    );
    lemma_dec_u32_enc(d, 0, uid);
    lemma_split(d, 4, 8, d.len() as int);
    lemma_concat_parts(
        d.subrange(4, 8),
        d.subrange(8, d.len() as int),
        enc_u32(gid),
        enc_u32(mode) + enc_bytes(xattrs),
    );
    lemma_dec_u32_enc(d, 4, gid);
    lemma_split(d, 8, 12, d.len() as int);
    lemma_concat_parts(
        d.subrange(8, 12),
        d.subrange(12, d.len() as int),
        enc_u32(mode),
        enc_bytes(xattrs),
    );
    lemma_dec_u32_enc(d, 8, mode);
    lemma_dec_bytes_enc(d, 12, xattrs);
}

/// The checksum bytes of an optional parent.
pub open spec fn opt_cs_view(o: Option<Checksum>) -> Option<Seq<u8>> {
    match o {
        Some(c) => Some(c@),
        None => None,
    }
}

fn push_u64(out: &mut Vec<u8>, x: u64)
    ensures
        final(out)@ == old(out)@ + enc_u64(x),
{
    let mut b = u64_to_le_bytes(x);
    out.append(&mut b);
}

fn push_u32(out: &mut Vec<u8>, x: u32)
    ensures
        final(out)@ == old(out)@ + enc_u32(x),
{
    let mut b = u32_to_le_bytes(x);
    out.append(&mut b);
}

fn push_cs(out: &mut Vec<u8>, c: &Checksum)
    ensures
        final(out)@ == old(out)@ + c@,
{
    let mut i: usize = 0;
    while i < 32
        invariant
            i <= 32,
            out@ == old(out)@ + c.bytes@.take(i as int),
        decreases 32 - i,
    {
        out.push(c.bytes[i]);
        proof {
            assert(c.bytes@.take(i + 1 as int) =~= c.bytes@.take(i as int).push(
                c.bytes@[i as int],
            ));
            assert(out@ =~= old(out)@ + c.bytes@.take(i + 1 as int));
        }
        i = i + 1;
    }
    proof {
        assert(c.bytes@.take(32) =~= c@);
    }
}

fn push_field(out: &mut Vec<u8>, b: &Vec<u8>)
    ensures
        final(out)@ == old(out)@ + enc_bytes(b@),
{
    push_u64(out, b.len() as u64);
    let mut c = clone_bytes(b);
    out.append(&mut c);
    proof {
        assert(out@ =~= old(out)@ + enc_bytes(b@));
    }
}

/// Encode a DirTree record into its canonical bytes.
pub fn encode_dirtree(rec: &DirTreeRecord) -> (out: Vec<u8>)
    ensures
        out@ == enc_dirtree(fents_view(rec.files@), dents_view(rec.dirs@)),
{
    let mut out: Vec<u8> = Vec::new();
    let ghost fv = fents_view(rec.files@);
    let ghost dv = dents_view(rec.dirs@);
    push_u64(&mut out, rec.files.len() as u64);
    let ghost base = out@;
    let mut i: usize = 0;
    while i < rec.files.len()
        invariant
            i <= rec.files@.len(),
            base == enc_u64(rec.files@.len() as u64),
            fv == fents_view(rec.files@),
            out@ == base + enc_fents(fv.take(i as int)),
        decreases rec.files@.len() - i,
    {
        push_field(&mut out, &rec.files[i].name);
        push_cs(&mut out, &rec.files[i].checksum);
        proof {
            let t = fv.take(i + 1 as int);
            assert(t.drop_last() =~= fv.take(i as int));
            assert(t.last() == (rec.files@[i as int].name@, rec.files@[i as int].checksum@));
            assert(out@ =~= base + enc_fents(t));
        }
        i = i + 1;
    }
    proof {
        assert(fv.take(fv.len() as int) =~= fv);
    }
    push_u64(&mut out, rec.dirs.len() as u64);
    let ghost base2 = out@;
    let mut k: usize = 0;
    while k < rec.dirs.len()
        invariant
            k <= rec.dirs@.len(),
            base2 == enc_u64(rec.files@.len() as u64) + enc_fents(fents_view(rec.files@))
                + enc_u64(rec.dirs@.len() as u64),
            dv == dents_view(rec.dirs@),
            out@ == base2 + enc_dents(dv.take(k as int)),
        decreases rec.dirs@.len() - k,
    {
        push_field(&mut out, &rec.dirs[k].name);
        push_cs(&mut out, &rec.dirs[k].tree_checksum);
        push_cs(&mut out, &rec.dirs[k].meta_checksum);
        proof {
            let t = dv.take(k + 1 as int);
            assert(t.drop_last() =~= dv.take(k as int));
            assert(t.last() == (
                rec.dirs@[k as int].name@,
                rec.dirs@[k as int].tree_checksum@,
                rec.dirs@[k as int].meta_checksum@,
            ));
            assert(out@ =~= base2 + enc_dents(t));
        }
        k = k + 1;
    }
    proof {
        assert(dv.take(dv.len() as int) =~= dv);
        assert(out@ =~= enc_dirtree(fv, dv));
    }
    out
}

/// Encode a commit record into its canonical bytes.
pub fn encode_commit(rec: &CommitRecord) -> (out: Vec<u8>)
    ensures
        out@ == enc_commit(
            rec.tree_checksum@,
            rec.meta_checksum@,
            opt_cs_view(rec.parent),
            rec.timestamp,
            rec.metadata@,
        ),
{
    let mut out: Vec<u8> = Vec::new();
    push_cs(&mut out, &rec.tree_checksum);
    push_cs(&mut out, &rec.meta_checksum);
    match &rec.parent {
        Some(p) => {
            push_u64(&mut out, 1);
            push_cs(&mut out, p);
        },
        None => {
            push_u64(&mut out, 0);
        },
    }
    push_u64(&mut out, rec.timestamp);
    push_field(&mut out, &rec.metadata);
    proof {
        assert(out@ =~= enc_commit(
            rec.tree_checksum@,
            rec.meta_checksum@,
            opt_cs_view(rec.parent),
            rec.timestamp,
            rec.metadata@,
        ));
    }
    out
}

/// Encode a DirMeta record into its canonical bytes.
pub fn encode_dirmeta(rec: &DirMetaParsed) -> (out: Vec<u8>)
    ensures
        out@ == enc_dirmeta(rec.uid, rec.gid, rec.mode, rec.xattrs@),
{
    let mut out: Vec<u8> = Vec::new();
    push_u32(&mut out, rec.uid);
    push_u32(&mut out, rec.gid);
    push_u32(&mut out, rec.mode);
    push_field(&mut out, &rec.xattrs);
    proof {
        assert(out@ =~= enc_dirmeta(rec.uid, rec.gid, rec.mode, rec.xattrs@));
    }
    out
}

fn read_u64(d: &Vec<u8>, p: usize) -> (r: Option<(u64, usize)>)
    ensures
        match r {
            Some((x, q)) => dec_u64_at(d@, p as int) == Some((x, q as int)),
            None => dec_u64_at(d@, p as int) is None,
        },
{
    if p <= d.len() && d.len() - p >= 8 {
        let s = slice_subrange(d.as_slice(), p, p + 8);
        Some((u64_from_le_bytes(s), p + 8))
    } else {
        None
    }
}

fn read_u32(d: &Vec<u8>, p: usize) -> (r: Option<(u32, usize)>)
    ensures
        match r {
            Some((x, q)) => dec_u32_at(d@, p as int) == Some((x, q as int)),
            None => dec_u32_at(d@, p as int) is None,
        },
{
    if p <= d.len() && d.len() - p >= 4 {
        let s = slice_subrange(d.as_slice(), p, p + 4);
        Some((u32_from_le_bytes(s), p + 4))
    } else {
        None
    }
}

fn read_cs(d: &Vec<u8>, p: usize) -> (r: Option<(Checksum, usize)>)
    ensures
        match r {
            Some((c, q)) => dec_cs_at(d@, p as int) == Some((c@, q as int)),
            None => dec_cs_at(d@, p as int) is None,
        },
{
    if p <= d.len() && d.len() - p >= 32 {
        let mut b = [0u8; 32];
        let mut i: usize = 0;
        while i < 32
            invariant
                i <= 32,
                p + 32 <= d@.len(),
                p + 32 <= usize::MAX,
                forall|j: int| 0 <= j < i ==> b@[j] == d@[p + j],
            decreases 32 - i,
        {
            let ghost prev = b@;
            b[i] = d[p + i];
            proof {
                assert(forall|j: int| 0 <= j < i ==> b@[j] == prev[j]);
            }
            i = i + 1;
        }
        proof {
            assert(b@ =~= d@.subrange(p as int, p as int + 32));
        }
        Some((Checksum::from_bytes(b), p + 32))
    } else {
        None
    }
}

fn read_field(d: &Vec<u8>, p: usize) -> (r: Option<(Vec<u8>, usize)>)
    ensures
        match r {
            Some((b, q)) => dec_bytes_at(d@, p as int) == Some((b@, q as int)),
            None => dec_bytes_at(d@, p as int) is None,
        },
{
    match read_u64(d, p) {
        None => None,
        Some((n, q)) => {
            if n <= (d.len() - q) as u64 {
                let nn = n as usize;
                let s = slice_subrange(d.as_slice(), q, q + nn);
                Some((vstd::slice::slice_to_vec(s), q + nn))
            } else {
                None
            }
        },
    }
}

/// Decode a DirTree record from its canonical bytes. Returns `None` exactly
/// when the bytes are not a whole well-formed record.
pub fn decode_dirtree(d: &Vec<u8>) -> (r: Option<DirTreeRecord>)
    ensures
        match r {
            Some(rec) => dec_dirtree(d@) == Some((fents_view(rec.files@), dents_view(rec.dirs@))),
            None => dec_dirtree(d@) is None,
        },
{
    let (nf, p0) = match read_u64(d, 0) {
        Some(x) => x,
        None => {
            return None;
        },
    };
    let mut files: Vec<TreeFileEntry> = Vec::new();
    let mut p = p0;
    let mut i: u64 = 0;
    while i < nf
        invariant
            i <= nf,
            dec_u64_at(d@, 0) == Some((nf, p0 as int)),
            match dec_fents_at(d@, p as int, (nf - i) as nat) {
                Some((rest, q)) => dec_fents_at(d@, p0 as int, nf as nat) == Some((
                    fents_view(files@) + rest,
                    q,
                )),
                None => dec_fents_at(d@, p0 as int, nf as nat) is None,
            },
        decreases nf - i,
    {
        let ghost old_files = files@;
        let (nm, q) = match read_field(d, p) {
            Some(x) => x,
            None => {
                return None;
            },
        };
        let (cs, q2) = match read_cs(d, q) {
            Some(x) => x,
            None => {
                return None;
            },
        };
        files.push(TreeFileEntry { name: nm, checksum: cs });
        proof {
            let e = files@.last();
            assert(fents_view(files@) =~= fents_view(old_files).push((e.name@, e.checksum@)));
            assert(forall|a: Seq<(Seq<u8>, Seq<u8>)>, x: (Seq<u8>, Seq<u8>), b: Seq<
                (Seq<u8>, Seq<u8>),
            >| (a.push(x)) + b =~= a + (seq![x] + b));
        }
        p = q2;
        i = i + 1;
    }
    proof {
        assert(fents_view(files@) + Seq::<(Seq<u8>, Seq<u8>)>::empty() =~= fents_view(files@));
    }
    let (nd, p2) = match read_u64(d, p) {
        Some(x) => x,
        None => {
            return None;
        },
    };
    let mut dirs: Vec<TreeDirEntry> = Vec::new();
    let mut p3 = p2;
    let mut k: u64 = 0;
    while k < nd
        invariant
            k <= nd,
            dec_u64_at(d@, 0) == Some((nf, p0 as int)),
            dec_fents_at(d@, p0 as int, nf as nat) == Some((fents_view(files@), p as int)),
            dec_u64_at(d@, p as int) == Some((nd, p2 as int)),
            match dec_dents_at(d@, p3 as int, (nd - k) as nat) {
                Some((rest, q)) => dec_dents_at(d@, p2 as int, nd as nat) == Some((
                    dents_view(dirs@) + rest,
                    q,
                )),
                None => dec_dents_at(d@, p2 as int, nd as nat) is None,
            },
        decreases nd - k,
    {
        let ghost old_dirs = dirs@;
        let (nm, q) = match read_field(d, p3) {
            Some(x) => x,
            None => {
                return None;
            },
        };
        let (t, q2) = match read_cs(d, q) {
            Some(x) => x,
            None => {
                return None;
            },
        };
        let (m, q3) = match read_cs(d, q2) {
            Some(x) => x,
            None => {
                return None;
            },
        };
        dirs.push(TreeDirEntry { name: nm, tree_checksum: t, meta_checksum: m });
        proof {
            let e = dirs@.last();
            assert(dents_view(dirs@) =~= dents_view(old_dirs).push(
                (e.name@, e.tree_checksum@, e.meta_checksum@),
            ));
            assert(forall|a: Seq<(Seq<u8>, Seq<u8>, Seq<u8>)>, x: (Seq<u8>, Seq<u8>, Seq<u8>), b:
                Seq<(Seq<u8>, Seq<u8>, Seq<u8>)>| (a.push(x)) + b =~= a + (seq![x] + b));
        }
        p3 = q3;
        k = k + 1;
    }
    proof {
        assert(dents_view(dirs@) + Seq::<(Seq<u8>, Seq<u8>, Seq<u8>)>::empty() =~= dents_view(
            dirs@,
        ));
    }
    if p3 != d.len() {
        return None;
    }
    Some(DirTreeRecord { files, dirs })
}

/// Decode a commit record from its canonical bytes.
pub fn decode_commit(d: &Vec<u8>) -> (r: Option<CommitRecord>)
    ensures
        match r {
            Some(rec) => dec_commit(d@) == Some(
                (
                    rec.tree_checksum@,
                    rec.meta_checksum@,
                    opt_cs_view(rec.parent),
                    rec.timestamp,
                    rec.metadata@,
                ),
            ),
            None => dec_commit(d@) is None,
        },
{
    let (tree, p) = match read_cs(d, 0) {
        Some(x) => x,
        None => {
            return None;
        },
    };
    let (meta, p2) = match read_cs(d, p) {
        Some(x) => x,
        None => {
            return None;
        },
    };
    let (flag, p3) = match read_u64(d, p2) {
        Some(x) => x,
        None => {
            return None;
        },
    };
    if flag == 0 {
        let (ts, p4) = match read_u64(d, p3) {
            Some(x) => x,
            None => {
                return None;
            },
        };
        let (md, p5) = match read_field(d, p4) {
            Some(x) => x,
            None => {
                return None;
            },
        };
        if p5 != d.len() {
            return None;
        }
        Some(CommitRecord { tree_checksum: tree, meta_checksum: meta, parent: None, timestamp: ts,
            metadata: md })
    } else if flag == 1 {
        let (par, p4) = match read_cs(d, p3) {
            Some(x) => x,
            None => {
                return None;
            },
        };
        let (ts, p5) = match read_u64(d, p4) {
            Some(x) => x,
            None => {
                return None;
            },
        };
        let (md, p6) = match read_field(d, p5) {
            Some(x) => x,
            None => {
                return None;
            },
        };
        if p6 != d.len() {
            return None;
        }
        Some(CommitRecord { tree_checksum: tree, meta_checksum: meta, parent: Some(par),
            timestamp: ts, metadata: md })
    } else {
        None
    }
}

/// Decode a DirMeta record from its canonical bytes.
pub fn decode_dirmeta(d: &Vec<u8>) -> (r: Option<DirMetaParsed>)
    ensures
        match r {
            Some(rec) => dec_dirmeta(d@) == Some((rec.uid, rec.gid, rec.mode, rec.xattrs@)),
            None => dec_dirmeta(d@) is None,
        },
{
    let (uid, p) = match read_u32(d, 0) {
        Some(x) => x,
        None => {
            return None;
        },
    };
    let (gid, p2) = match read_u32(d, p) {
        Some(x) => x,
        None => {
            return None;
        },
    };
    let (mode, p3) = match read_u32(d, p2) {
        Some(x) => x,
        None => {
            return None;
        },
    };
    let (xa, p4) = match read_field(d, p3) {
        Some(x) => x,
        None => {
            return None;
        },
    };
    if p4 != d.len() {
        return None;
    }
    Some(DirMetaParsed { uid, gid, mode, xattrs: xa })
}

} // verus!
