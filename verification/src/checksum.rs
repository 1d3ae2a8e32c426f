//! Checksums: 256-bit content identifiers, and the object kinds they name.

use vstd::prelude::*;
use vstd::string::StrSliceExecFns;

verus! {

/// The closed set of object kinds the store is partitioned by.
#[derive(Clone, Copy, Debug, PartialEq, Eq, Structural)]
pub enum ObjectType {
    /// Regular file content.
    File,
    /// Ownership, mode and extended attributes of one directory.
    DirMeta,
    /// An immutable record mapping child names to file and subdirectory
    /// checksums.
    DirTree,
    /// A root tree checksum, a root dirmeta checksum, an optional parent
    /// commit, free-form metadata and a timestamp.
    Commit,
    /// Detached metadata keyed by a commit checksum.
    CommitMeta,
}

/// A 32-byte content digest. Two objects with equal canonical bytes have
/// equal checksums; a checksum is never recomputed after creation.
#[derive(Clone, Copy, Debug)]
pub struct Checksum {
    /// The raw digest bytes.
    pub bytes: [u8; 32],
}

impl View for Checksum {
    type V = Seq<u8>;

    open spec fn view(&self) -> Seq<u8> {
        self.bytes@
    }
}

impl PartialEq for Checksum {
    fn eq(&self, o: &Checksum) -> (r: bool) {
        let mut i: usize = 0;
        while i < 32
            invariant
                i <= 32,
                forall|j: int| 0 <= j < i ==> self.bytes@[j] == o.bytes@[j],
            decreases 32 - i,
        {
            if self.bytes[i] != o.bytes[i] {
                return false;
            }
            i = i + 1;
        }
        proof {
            assert(self.bytes@ =~= o.bytes@);
        }
        true
    }
}

impl Eq for Checksum {}

impl vstd::std_specs::cmp::PartialEqSpecImpl for Checksum {
    open spec fn obeys_eq_spec() -> bool {
        true
    }

    open spec fn eq_spec(&self, o: &Checksum) -> bool {
        self.bytes@ == o.bytes@
    }
}

/// The full name of a stored object: its kind together with its checksum.
#[derive(Clone, Copy, Debug)]
pub struct ObjectName {
    /// The kind the object was stored under.
    pub objtype: ObjectType,
    /// The content digest of the object.
    pub checksum: Checksum,
}

impl PartialEq for ObjectName {
    fn eq(&self, o: &ObjectName) -> (r: bool) {
        self.objtype == o.objtype && self.checksum == o.checksum
    }
}

impl Eq for ObjectName {}

impl vstd::std_specs::cmp::PartialEqSpecImpl for ObjectName {
    open spec fn obeys_eq_spec() -> bool {
        true
    }

    open spec fn eq_spec(&self, o: &ObjectName) -> bool {
        self.objtype == o.objtype && self.checksum.bytes@ == o.checksum.bytes@
    }
}

impl ObjectName {
    /// Pair a kind with a checksum.
    pub fn new(objtype: ObjectType, checksum: Checksum) -> (r: ObjectName)
        ensures
            r.objtype == objtype,
            r.checksum == checksum,
    {
        ObjectName { objtype, checksum }
    }
}

/// The lower-case hex character for one value below 16.
pub open spec fn hex_digit(n: u8) -> char {
    if n == 0 {
        '0'
    } else if n == 1 {
        '1'
    } else if n == 2 {
        '2'
    } else if n == 3 {
        '3'
    } else if n == 4 {
        '4'
    } else if n == 5 {
        '5'
    } else if n == 6 {
        '6'
    } else if n == 7 {
        '7'
    } else if n == 8 {
        '8'
    } else if n == 9 {
        '9'
    } else if n == 10 {
        'a'
    } else if n == 11 {
        'b'
    } else if n == 12 {
        'c'
    } else if n == 13 {
        'd'
    } else if n == 14 {
        'e'
    } else {
        'f'
    }
}

/// The value of one hex character, or 16 for any other character.
pub open spec fn hex_val(c: char) -> u8 {
    if c == '0' {
        0
    } else if c == '1' {
        1
    } else if c == '2' {
        2
    } else if c == '3' {
        3
    } else if c == '4' {
        4
    } else if c == '5' {
        5
    } else if c == '6' {
        6
    } else if c == '7' {
        7
    } else if c == '8' {
        8
    } else if c == '9' {
        9
    } else if c == 'a' {
        10
    } else if c == 'b' {
        11
    } else if c == 'c' {
        12
    } else if c == 'd' {
        13
    } else if c == 'e' {
        14
    } else if c == 'f' {
        15
    } else {
        16
    }
}

/// The lower-case hex rendering of a byte sequence: two characters per byte.
pub open spec fn hex_of(b: Seq<u8>) -> Seq<char>
    decreases b.len(),
{
    if b.len() == 0 {
        Seq::empty()
    } else {
        hex_of(b.drop_last()).push(hex_digit(b.last() / 16)).push(hex_digit(b.last() % 16))
    }
}

/// Every character that `hex_of` produces parses back to its nibble.
pub proof fn lemma_hex_of_valid(b: Seq<u8>)
    ensures
        hex_of(b).len() == 2 * b.len(),
        forall|i: int| 0 <= i < hex_of(b).len() ==> hex_val(#[trigger] hex_of(b)[i]) < 16,
    decreases b.len(),
{
    if b.len() > 0 {
        lemma_hex_of_valid(b.drop_last());
    }
}

/// A valid hex character is recovered from its own value.
pub proof fn lemma_hex_digit_val(c: char)
    requires
        hex_val(c) < 16,
    ensures
        hex_digit(hex_val(c)) == c,
{
}

/// The executable twin of [`hex_digit`].
fn hex_digit_char(n: u8) -> (c: char)
    requires
        n < 16,
    ensures
        c == hex_digit(n),
{
    if n == 0 {
        '0'
    } else if n == 1 {
        '1'
    } else if n == 2 {
        '2'
    } else if n == 3 {
        '3'
    } else if n == 4 {
        '4'
    } else if n == 5 {
        '5'
    } else if n == 6 {
        '6'
    } else if n == 7 {
        '7'
    } else if n == 8 {
        '8'
    } else if n == 9 {
        '9'
    } else if n == 10 {
        'a'
    } else if n == 11 {
        'b'
    } else if n == 12 {
        'c'
    } else if n == 13 {
        'd'
    } else if n == 14 {
        'e'
    } else {
        'f'
    }
}

/// The executable twin of [`hex_val`].
fn hex_val_of(c: char) -> (n: u8)
    ensures
        n == hex_val(c),
{
    if c == '0' {
        0
    } else if c == '1' {
        1
    } else if c == '2' {
        2
    } else if c == '3' {
        3
    } else if c == '4' {
        4
    } else if c == '5' {
        5
    } else if c == '6' {
        6
    } else if c == '7' {
        7
    } else if c == '8' {
        8
    } else if c == '9' {
        9
    } else if c == 'a' {
        10
    } else if c == 'b' {
        11
    } else if c == 'c' {
        12
    } else if c == 'd' {
        13
    } else if c == 'e' {
        14
    } else if c == 'f' {
        15
    } else {
        16
    }
}

impl Checksum {
    /// Wrap raw digest bytes.
    pub fn from_bytes(bytes: [u8; 32]) -> (r: Checksum)
        ensures
            r@ == bytes@,
    {
        Checksum { bytes }
    }

    /// The 64-character lower-case hex rendering of this checksum.
    pub fn to_hex(&self) -> (r: String)
        ensures
            r@ == hex_of(self@),
            r@.len() == 64,
    {
        let mut s = String::new();
        let mut i: usize = 0;
        while i < 32
            invariant
                i <= 32,
                s@ == hex_of(self.bytes@.take(i as int)),
            decreases 32 - i,
        {
            let b = self.bytes[i];
            s.push(hex_digit_char(b / 16));
            s.push(hex_digit_char(b % 16));
            proof {
                let t = self.bytes@.take(i + 1 as int);
                assert(t.drop_last() =~= self.bytes@.take(i as int));
                assert(t.last() == self.bytes@[i as int]);
            }
            i = i + 1;
        }
        proof {
            assert(self.bytes@.take(32) =~= self.bytes@);
            lemma_hex_of_valid(self@);
        }
        s
    }

    /// Parse a 64-character hex string back into a checksum. Returns `None`
    /// exactly when the string is not 64 lower-case hex characters.
    pub fn from_hex(s: &str) -> (r: Option<Checksum>)
        ensures
            r is Some <==> (s@.len() == 64 && forall|i: int|
                0 <= i < 64 ==> hex_val(#[trigger] s@[i]) < 16),
            r matches Some(c) ==> hex_of(c@) == s@,
    {
        let n = s.unicode_len();
        if n != 64 {
            return None;
        }
        let mut bytes: [u8; 32] = [0; 32];
        let mut i: usize = 0;
        while i < 32
            invariant
                i <= 32,
                s@.len() == 64,
                hex_of(bytes@.take(i as int)) == s@.subrange(0, 2 * i as int),
                forall|j: int| 0 <= j < 2 * i ==> hex_val(#[trigger] s@[j]) < 16,
            decreases 32 - i,
        {
            let hi = hex_val_of(s.get_char(2 * i));
            let lo = hex_val_of(s.get_char(2 * i + 1));
            if hi >= 16 || lo >= 16 {
                return None;
            }
            let b = hi * 16 + lo;
            let ghost prev_bytes = bytes@;
            bytes[i] = b;
            proof {
                assert(bytes@.take(i as int) =~= prev_bytes.take(i as int));
                assert(b / 16 == hi && b % 16 == lo);
                lemma_hex_digit_val(s@[2 * i as int]);
                lemma_hex_digit_val(s@[2 * i + 1 as int]);
                let t = bytes@.take(i + 1 as int);
                assert(t.drop_last() =~= bytes@.take(i as int));
                assert(t.last() == b);
                assert(s@.subrange(0, 2 * (i + 1) as int) =~= s@.subrange(0, 2 * i as int)
                    .push(s@[2 * i as int]).push(s@[2 * i + 1 as int]));
            }
            i = i + 1;
        }
        proof {
            assert(bytes@.take(32) =~= bytes@);
            assert(s@.subrange(0, 64) =~= s@);
        }
        Some(Checksum { bytes })
    }
}

} // verus!
