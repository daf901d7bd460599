//! Keys: values with a canonical byte representation, which is what gets
//! hashed and what decides whether two keys are the same.
use vstd::prelude::*;

verus! {

/// A value that can serve as a key.
///
/// Two keys are the same key exactly when their canonical bytes agree.
pub trait PhfKey: Sized {
    /// The canonical bytes of this key.
    spec fn key_bytes(&self) -> Seq<u8>;

    /// The canonical bytes of this key.
    fn to_bytes(&self) -> (bytes: Vec<u8>)
        ensures
            bytes@ == self.key_bytes(),
    ;

    /// Whether `self` and `other` are the same key.
    fn same_key(&self, other: &Self) -> (same: bool)
        ensures
            same == (self.key_bytes() == other.key_bytes()),
    ;
}

/// Whether two byte strings hold the same bytes.
pub fn bytes_equal(a: &[u8], b: &[u8]) -> (same: bool)
    ensures
        same == (a@ == b@),
{
    if a.len() != b.len() {
        return false;
    }
    let mut i: usize = 0;
    while i < a.len()
        invariant
            i <= a.len(),
            a.len() == b.len(),
            forall|j: int| 0 <= j < i ==> a@[j] == b@[j],
        decreases a.len() - i,
    {
        if a[i] != b[i] {
            return false;
        }
        i += 1;
    }
    assert(a@ =~= b@);
    true
}

/// A copy of a byte string.
pub fn copy_bytes(source: &[u8]) -> (bytes: Vec<u8>)
    ensures
        bytes@ == source@,
{
    let mut bytes: Vec<u8> = Vec::with_capacity(source.len());
    let mut i: usize = 0;
    while i < source.len()
        invariant
            i <= source.len(),
            bytes@ == source@.subrange(0, i as int),
        decreases source.len() - i,
    {
        bytes.push(source[i]);
        i += 1;
        assert(source@.subrange(0, i as int) == source@.subrange(0, i - 1).push(source@[i - 1]));
    }
    assert(source@.subrange(0, i as int) == source@);
    bytes
}

impl<'a, K: PhfKey> PhfKey for &'a K {
    open spec fn key_bytes(&self) -> Seq<u8> {
        (**self).key_bytes()
    }

    fn to_bytes(&self) -> (bytes: Vec<u8>) {
        (**self).to_bytes()
    }

    fn same_key(&self, other: &Self) -> (same: bool) {
        (**self).same_key(*other)
    }
}

impl PhfKey for Vec<u8> {
    open spec fn key_bytes(&self) -> Seq<u8> {
        self@
    }

    fn to_bytes(&self) -> (bytes: Vec<u8>) {
        copy_bytes(self.as_slice())
    }

    fn same_key(&self, other: &Self) -> (same: bool) {
        bytes_equal(self.as_slice(), other.as_slice())
    }
}

impl PhfKey for u8 {
    open spec fn key_bytes(&self) -> Seq<u8> {
        seq![*self]
    }

    fn to_bytes(&self) -> (bytes: Vec<u8>) {
        let mut bytes: Vec<u8> = Vec::new();
        bytes.push(*self);
        assert(bytes@ =~= self.key_bytes());
        bytes
    }

    fn same_key(&self, other: &Self) -> (same: bool) {
        assert(self.key_bytes()[0] == *self);
        assert(other.key_bytes()[0] == *other);
        *self == *other
    }
}

impl PhfKey for u16 {
    /// The bytes of the number, least significant first.
    open spec fn key_bytes(&self) -> Seq<u8> {
        seq![
            (*self & 0xFF) as u8,
            ((*self >> 8) & 0xFF) as u8,
        ]
    }

    fn to_bytes(&self) -> (bytes: Vec<u8>) {
        let x: u16 = *self;
        assert((x & 0xFF) < 256) by (bit_vector);
        assert(((x >> 8) & 0xFF) < 256) by (bit_vector);
        let mut bytes: Vec<u8> = Vec::with_capacity(2);
        bytes.push((*self & 0xFF) as u8);
        bytes.push(((*self >> 8) & 0xFF) as u8);
        assert(bytes@ =~= self.key_bytes());
        bytes
    }

    fn same_key(&self, other: &Self) -> (same: bool) {
        let x: u16 = *self;
        let y: u16 = *other;
        proof {
            assert((x & 0xFF) < 256) by (bit_vector);
            assert(((x >> 8) & 0xFF) < 256) by (bit_vector);
            assert((y & 0xFF) < 256) by (bit_vector);
            assert(((y >> 8) & 0xFF) < 256) by (bit_vector);
            if self.key_bytes() == other.key_bytes() {
                assert(self.key_bytes()[0] == other.key_bytes()[0]);
                assert(self.key_bytes()[1] == other.key_bytes()[1]);
                assert((x & 0xFF) == (y & 0xFF) && ((x >> 8) & 0xFF) == ((y >> 8) & 0xFF) ==> x == y) by (bit_vector);
            }
        }
        x == y
    }
}

impl PhfKey for u32 {
    /// The bytes of the number, least significant first.
    open spec fn key_bytes(&self) -> Seq<u8> {
        seq![
            (*self & 0xFF) as u8,
            ((*self >> 8) & 0xFF) as u8,
            ((*self >> 16) & 0xFF) as u8,
            ((*self >> 24) & 0xFF) as u8,
        ]
    }

    fn to_bytes(&self) -> (bytes: Vec<u8>) {
        let x: u32 = *self;
        assert((x & 0xFF) < 256) by (bit_vector);
        assert(((x >> 8) & 0xFF) < 256) by (bit_vector);
        assert(((x >> 16) & 0xFF) < 256) by (bit_vector);
        assert(((x >> 24) & 0xFF) < 256) by (bit_vector);
        let mut bytes: Vec<u8> = Vec::with_capacity(4);
        bytes.push((*self & 0xFF) as u8);
        bytes.push(((*self >> 8) & 0xFF) as u8);
        bytes.push(((*self >> 16) & 0xFF) as u8);
        bytes.push(((*self >> 24) & 0xFF) as u8);
        assert(bytes@ =~= self.key_bytes());
        bytes
    }

    fn same_key(&self, other: &Self) -> (same: bool) {
        let x: u32 = *self;
        let y: u32 = *other;
        proof {
            assert((x & 0xFF) < 256) by (bit_vector);
            assert(((x >> 8) & 0xFF) < 256) by (bit_vector);
            assert(((x >> 16) & 0xFF) < 256) by (bit_vector);
            assert(((x >> 24) & 0xFF) < 256) by (bit_vector);
            assert((y & 0xFF) < 256) by (bit_vector);
            assert(((y >> 8) & 0xFF) < 256) by (bit_vector);
            assert(((y >> 16) & 0xFF) < 256) by (bit_vector);
            assert(((y >> 24) & 0xFF) < 256) by (bit_vector);
            if self.key_bytes() == other.key_bytes() {
                assert(self.key_bytes()[0] == other.key_bytes()[0]);
                assert(self.key_bytes()[1] == other.key_bytes()[1]);
                assert(self.key_bytes()[2] == other.key_bytes()[2]);
                assert(self.key_bytes()[3] == other.key_bytes()[3]);
                assert((x & 0xFF) == (y & 0xFF) && ((x >> 8) & 0xFF) == ((y >> 8) & 0xFF) && ((x >> 16) & 0xFF) == ((y >> 16) & 0xFF) && ((x >> 24) & 0xFF) == ((y >> 24) & 0xFF) ==> x == y) by (bit_vector);
            }
        }
        x == y
    }
}

impl PhfKey for u64 {
    /// The bytes of the number, least significant first.
    open spec fn key_bytes(&self) -> Seq<u8> {
        seq![
            (*self & 0xFF) as u8,
            ((*self >> 8) & 0xFF) as u8,
            ((*self >> 16) & 0xFF) as u8,
            ((*self >> 24) & 0xFF) as u8,
            ((*self >> 32) & 0xFF) as u8,
            ((*self >> 40) & 0xFF) as u8,
            ((*self >> 48) & 0xFF) as u8,
            ((*self >> 56) & 0xFF) as u8,
        ]
    }

    fn to_bytes(&self) -> (bytes: Vec<u8>) {
        let x: u64 = *self;
        assert((x & 0xFF) < 256) by (bit_vector);
        assert(((x >> 8) & 0xFF) < 256) by (bit_vector);
        assert(((x >> 16) & 0xFF) < 256) by (bit_vector);
        assert(((x >> 24) & 0xFF) < 256) by (bit_vector);
        assert(((x >> 32) & 0xFF) < 256) by (bit_vector);
        assert(((x >> 40) & 0xFF) < 256) by (bit_vector);
        assert(((x >> 48) & 0xFF) < 256) by (bit_vector);
        assert(((x >> 56) & 0xFF) < 256) by (bit_vector);
        let mut bytes: Vec<u8> = Vec::with_capacity(8);
        bytes.push((*self & 0xFF) as u8);
        bytes.push(((*self >> 8) & 0xFF) as u8);
        bytes.push(((*self >> 16) & 0xFF) as u8);
        bytes.push(((*self >> 24) & 0xFF) as u8);
        bytes.push(((*self >> 32) & 0xFF) as u8);
        bytes.push(((*self >> 40) & 0xFF) as u8);
        bytes.push(((*self >> 48) & 0xFF) as u8);
        bytes.push(((*self >> 56) & 0xFF) as u8);
        assert(bytes@ =~= self.key_bytes());
        bytes
    }

    fn same_key(&self, other: &Self) -> (same: bool) {
        let x: u64 = *self;
        let y: u64 = *other;
        proof {
            assert((x & 0xFF) < 256) by (bit_vector);
            assert(((x >> 8) & 0xFF) < 256) by (bit_vector);
            assert(((x >> 16) & 0xFF) < 256) by (bit_vector);
            assert(((x >> 24) & 0xFF) < 256) by (bit_vector);
            assert(((x >> 32) & 0xFF) < 256) by (bit_vector);
            assert(((x >> 40) & 0xFF) < 256) by (bit_vector);
            assert(((x >> 48) & 0xFF) < 256) by (bit_vector);
            assert(((x >> 56) & 0xFF) < 256) by (bit_vector);
            assert((y & 0xFF) < 256) by (bit_vector);
            assert(((y >> 8) & 0xFF) < 256) by (bit_vector);
            assert(((y >> 16) & 0xFF) < 256) by (bit_vector);
            assert(((y >> 24) & 0xFF) < 256) by (bit_vector);
            assert(((y >> 32) & 0xFF) < 256) by (bit_vector);
            assert(((y >> 40) & 0xFF) < 256) by (bit_vector);
            assert(((y >> 48) & 0xFF) < 256) by (bit_vector);
            assert(((y >> 56) & 0xFF) < 256) by (bit_vector);
            if self.key_bytes() == other.key_bytes() {
                assert(self.key_bytes()[0] == other.key_bytes()[0]);
                assert(self.key_bytes()[1] == other.key_bytes()[1]);
                assert(self.key_bytes()[2] == other.key_bytes()[2]);
                assert(self.key_bytes()[3] == other.key_bytes()[3]);
                assert(self.key_bytes()[4] == other.key_bytes()[4]);
                assert(self.key_bytes()[5] == other.key_bytes()[5]);
                assert(self.key_bytes()[6] == other.key_bytes()[6]);
                assert(self.key_bytes()[7] == other.key_bytes()[7]);
                assert((x & 0xFF) == (y & 0xFF) && ((x >> 8) & 0xFF) == ((y >> 8) & 0xFF) && ((x >> 16) & 0xFF) == ((y >> 16) & 0xFF) && ((x >> 24) & 0xFF) == ((y >> 24) & 0xFF) && ((x >> 32) & 0xFF) == ((y >> 32) & 0xFF) && ((x >> 40) & 0xFF) == ((y >> 40) & 0xFF) && ((x >> 48) & 0xFF) == ((y >> 48) & 0xFF) && ((x >> 56) & 0xFF) == ((y >> 56) & 0xFF) ==> x == y) by (bit_vector);
            }
        }
        x == y
    }
}

impl<'a> PhfKey for &'a str {
    /// The UTF-8 encoding of the string.
    open spec fn key_bytes(&self) -> Seq<u8> {
        vstd::utf8::encode_utf8((*self)@)
    }

    fn to_bytes(&self) -> (bytes: Vec<u8>) {
        copy_bytes((*self).as_bytes())
    }

    fn same_key(&self, other: &Self) -> (same: bool) {
        bytes_equal((*self).as_bytes(), (*other).as_bytes())
    }
}

impl PhfKey for String {
    /// The UTF-8 encoding of the string.
    open spec fn key_bytes(&self) -> Seq<u8> {
        vstd::utf8::encode_utf8(self@)
    }

    fn to_bytes(&self) -> (bytes: Vec<u8>) {
        copy_bytes(self.as_str().as_bytes())
    }

    fn same_key(&self, other: &Self) -> (same: bool) {
        bytes_equal(self.as_str().as_bytes(), other.as_str().as_bytes())
    }
}


} // verus!
