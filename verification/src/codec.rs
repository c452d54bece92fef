//! The encoding and decoding traits, stated over a mathematical model of each value.
use vstd::prelude::*;
use crate::error::Error;

verus! {

/// The mathematical value that the wire format carries for a type: integers are
/// themselves, a `String` is its characters, a `Vec` the sequence of its items' models.
pub trait Model {
    type M;

    spec fn model(&self) -> Self::M;
}

/// Why a byte sequence does not decode.
#[derive(Debug, Clone, Copy, PartialEq, Eq, Structural)]
pub enum Failure {
    /// A discriminant byte that no variant carries.
    Invalid(u8),
    /// The bytes end before the value does.
    Truncated,
}

/// Writing a value to a byte buffer.
pub trait Encode: Model {
    /// The bytes that encoding a value with model `m` appends.
    spec fn spec_encode(m: Self::M) -> Seq<u8>;

    /// The count that `encode` returns for a value with model `m`.
    spec fn spec_count(m: Self::M) -> nat;

    proof fn lemma_count_bounded(m: Self::M)
        ensures
            Self::spec_count(m) <= Self::spec_encode(m).len(),
    ;

    /// Appends the encoding of `self` to `out` and returns its count.
    fn encode(&self, out: &mut Vec<u8>) -> (n: usize)
        requires
            old(out)@.len() + Self::spec_encode(self.model()).len() <= usize::MAX,
        ensures
            final(out)@ == old(out)@ + Self::spec_encode(self.model()),
            n == Self::spec_count(self.model()),
    ;
}

/// Reading a value from a byte buffer.
pub trait Decode: Model + Sized {
    /// What decoding the bytes `s` gives: the model of the value and the number of
    /// bytes read, or why it fails.
    spec fn spec_decode(s: Seq<u8>) -> core::result::Result<(Self::M, nat), Failure>;

    /// Decoding reads no more than it is given, and once it has its answer, bytes
    /// after those it read do not change it.
    proof fn lemma_decode_prefix(s: Seq<u8>, t: Seq<u8>)
        ensures
            Self::spec_decode(s) matches Ok((_, n)) ==> n <= s.len(),
            Self::spec_decode(s) != Err::<(Self::M, nat), Failure>(Failure::Truncated)
                ==> Self::spec_decode(s + t) == Self::spec_decode(s),
    ;

    /// Decodes a value from `buf`, starting at `pos`; on success returns it with the
    /// position after its last byte.
    fn decode(buf: &[u8], pos: usize) -> (r: Result<(Self, usize), Error>)
        requires
            pos <= buf@.len(),
        ensures
            decoded_as::<Self>(r, pos, Self::spec_decode(buf@.skip(pos as int))),
    ;
}

/// The result `r` of decoding at `pos` is the one that the specification `d` describes.
pub open spec fn decoded_as<T: Model>(
    r: Result<(T, usize), Error>,
    pos: usize,
    d: core::result::Result<(T::M, nat), Failure>,
) -> bool {
    match d {
        Ok((m, n)) => r matches Ok((v, end)) && v.model() == m && end == pos + n,
        Err(Failure::Invalid(b)) => r matches Err(Error::InvalidDiscriminant(g)) && g == b,
        Err(Failure::Truncated) => r matches Err(e) && e is IO,
    }
}

/// Types whose decoding gives back what their encoding wrote.
pub trait Codec: Encode + Decode {
    /// The models that the wire format can carry.
    spec fn encodable(m: Self::M) -> bool;

    proof fn lemma_roundtrip(m: Self::M, rest: Seq<u8>)
        requires
            Self::encodable(m),
        ensures
            Self::spec_decode(Self::spec_encode(m) + rest) == Ok::<(Self::M, nat), Failure>(
                (m, Self::spec_encode(m).len()),
            ),
    ;
}

} // verus!
