pub mod sha3;

use vstd::prelude::*;

verus! {

/// The lowercase hexadecimal digit of a value below 16.
pub open spec fn hex_digit(d: u8) -> char {
    if d < 10 {
        (48 + d) as char
    } else {
        (87 + d) as char
    }
}

/// Lowercase hexadecimal rendering of bytes: two digits per byte, high nibble first.
pub open spec fn hex_of(bytes: Seq<u8>) -> Seq<char>
    decreases bytes.len(),
{
    if bytes.len() == 0 {
        Seq::empty()
    } else {
        seq![hex_digit(bytes[0] / 16), hex_digit(bytes[0] % 16)] + hex_of(bytes.drop_first())
    }
}

/// Relies on const_hex::encode_prefixed: `0x`, then two lowercase hex digits per byte, in order.
#[verifier::external_body]
fn encode_hex_prefixed(bytes: &[u8]) -> (r: String)
    ensures
        r@ == seq!['0', 'x'] + hex_of(bytes@),
{
    const_hex::encode_prefixed(bytes)
}

/// A hash value of `N` bytes.
#[derive(Debug, Clone, Copy, Eq, PartialOrd, Ord, Hash)]
pub struct Hash<const N: usize>(pub [u8; N]);

impl<const N: usize> View for Hash<N> {
    type V = Seq<u8>;

    open spec fn view(&self) -> Seq<u8> {
        self.0@
    }
}

impl<const N: usize> PartialEq for Hash<N> {
    fn eq(&self, other: &Hash<N>) -> (r: bool) {
        let mut i: usize = 0;
        while i < N
            invariant
                0 <= i <= N,
                self.0@.len() == N,
                other.0@.len() == N,
                forall|j: int| 0 <= j < i ==> self.0@[j] == other.0@[j],
            decreases N - i,
        {
            if self.0[i] != other.0[i] {
                return false;
            }
            i = i + 1;
        }
        assert(self.0@ =~= other.0@);
        true
    }
}

impl<const N: usize> vstd::std_specs::cmp::PartialEqSpecImpl for Hash<N> {
    open spec fn obeys_eq_spec() -> bool {
        true
    }

    open spec fn eq_spec(&self, other: &Hash<N>) -> bool {
        self@ == other@
    }
}

impl<const N: usize> From<[u8; N]> for Hash<N> {
    fn from(bytes: [u8; N]) -> (r: Hash<N>) {
        Hash(bytes)
    }
}

impl<const N: usize> vstd::std_specs::convert::FromSpecImpl<[u8; N]> for Hash<N> {
    open spec fn obeys_from_spec() -> bool {
        true
    }

    open spec fn from_spec(bytes: [u8; N]) -> Hash<N> {
        Hash(bytes)
    }
}

impl<const N: usize> AsRef<[u8]> for Hash<N> {
    fn as_ref(&self) -> &[u8] {
        self.0.as_slice()
    }
}

impl<const N: usize> Hash<N> {
    /// The bytes of this hash value.
    pub fn as_bytes(&self) -> (r: &[u8])
        ensures
            r@ == self@,
    {
        self.0.as_slice()
    }

    /// `0x` followed by the lowercase hex digits of the bytes.
    pub fn to_string(&self) -> (r: String)
        ensures
            r@ == seq!['0', 'x'] + hex_of(self@),
    {
        encode_hex_prefixed(self.0.as_slice())
    }
}

/// A hash algorithm with a fixed output size of `N` bytes.
///
/// `spec_hash` is the digest as a function of the input bytes. Hashing the
/// concatenation of two hash values must agree with `spec_hash` of the
/// concatenated bytes, since proofs are checked by recomputing it.
pub trait Hasher<const N: usize>: Clone {
    /// The digest of `bytes`.
    spec fn spec_hash(&self, bytes: Seq<u8>) -> Seq<u8>;

    /// Calculate the hash value of the given bytes.
    fn hash(&self, value: &[u8]) -> (r: Hash<N>)
        ensures
            r@ == self.spec_hash(value@),
    ;

    /// Calculate the hash value of the concatenation of the two given hash values.
    fn concat_hashes(&self, left: Hash<N>, right: Hash<N>) -> (r: Hash<N>)
        ensures
            r@ == self.spec_hash(left@ + right@),
    {
        let mut value: Vec<u8> = Vec::new();
        let mut i: usize = 0;
        while i < N
            invariant
                0 <= i <= N,
                left@.len() == N,
                value@ == left@.subrange(0, i as int),
            decreases N - i,
        {
            value.push(left.0[i]);
            i = i + 1;
        }
        let mut j: usize = 0;
        while j < N
            invariant
                0 <= j <= N,
                left@.len() == N,
                right@.len() == N,
                value@ == left@ + right@.subrange(0, j as int),
            decreases N - j,
        {
            value.push(right.0[j]);
            j = j + 1;
        }
        assert(left@ + right@.subrange(0, N as int) =~= left@ + right@);
        self.hash(value.as_slice())
    }
}

} // verus!
