//! The store-wide laws that relate several operations.

use vstd::prelude::*;
use crate::checksum::ObjectType;
use crate::digest::digest_of;

verus! {

/// Content addressing: equal byte sequences always produce equal checksums,
/// so two writes of the same bytes name the same object. (That distinct
/// bytes produce distinct checksums holds only with overwhelming
/// probability, and is not provable.)
pub proof fn lemma_content_addressing(b1: Seq<u8>, b2: Seq<u8>)
    requires
        b1 == b2,
    ensures
        digest_of(b1) == digest_of(b2),
{
}

/// Idempotent write: staging the same kind and content twice leaves exactly
/// the store that one write leaves. Together with the write contract — a
/// write whose key is already present with equal bytes returns `Ok` and
/// changes nothing — the second write is a validated no-op.
pub proof fn lemma_idempotent_write(m: Map<(ObjectType, Seq<u8>), Seq<u8>>, t: ObjectType, c: Seq<
    u8,
>)
    ensures
        m.insert((t, digest_of(c)), c).insert((t, digest_of(c)), c) == m.insert(
            (t, digest_of(c)),
            c,
        ),
{
    assert(m.insert((t, digest_of(c)), c).insert((t, digest_of(c)), c) =~= m.insert(
        (t, digest_of(c)),
        c,
    ));
}

} // verus!
