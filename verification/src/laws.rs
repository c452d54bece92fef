//! Properties that hold of every type with an encoding, stated over the specifications
//! that `encode` and `decode` are proved to follow.
use vstd::prelude::*;
use crate::codec::{Codec, Decode, Failure};

verus! {

/// Decoding the encoding of a value gives the value back and reads exactly the bytes
/// that encoding wrote, whatever comes before or after them in the buffer.
pub proof fn law_decode_inverts_encode<T: Codec>(before: Seq<u8>, m: T::M, after: Seq<u8>)
    requires
        T::encodable(m),
    ensures
        T::spec_decode((before + T::spec_encode(m) + after).skip(before.len() as int)) == Ok::<
            (T::M, nat),
            Failure,
        >((m, T::spec_encode(m).len())),
{
    assert((before + T::spec_encode(m) + after).skip(before.len() as int) =~= T::spec_encode(m)
        + after);
    T::lemma_roundtrip(m, after);
}

/// Two values encoded one after the other are decoded one after the other: the first
/// from the start, the second from where the first ends.
pub proof fn law_consecutive_values<T: Codec, U: Codec>(a: T::M, b: U::M, after: Seq<u8>)
    requires
        T::encodable(a),
        U::encodable(b),
    ensures
        T::spec_decode(T::spec_encode(a) + U::spec_encode(b) + after) == Ok::<(T::M, nat), Failure>(
            (a, T::spec_encode(a).len()),
        ),
        U::spec_decode(
            (T::spec_encode(a) + U::spec_encode(b) + after).skip(T::spec_encode(a).len() as int),
        ) == Ok::<(U::M, nat), Failure>((b, U::spec_encode(b).len())),
{
    let ea = T::spec_encode(a);
    let eb = U::spec_encode(b);
    assert(ea + eb + after =~= ea + (eb + after));
    T::lemma_roundtrip(a, eb + after);
    law_decode_inverts_encode::<U>(ea, b, after);
}

/// A decoding that does not run out of bytes reads no more than it is given, and is
/// not changed by bytes that follow.
pub proof fn law_decode_ignores_following_bytes<T: Decode>(s: Seq<u8>, t: Seq<u8>)
    requires
        T::spec_decode(s) != Err::<(T::M, nat), Failure>(Failure::Truncated),
    ensures
        T::spec_decode(s + t) == T::spec_decode(s),
        T::spec_decode(s) matches Ok((_, n)) ==> n <= s.len(),
{
    T::lemma_decode_prefix(s, t);
}

/// Every encoding cut short fails to decode as truncated input, which `decode` reports
/// as an I/O error.
pub proof fn law_cut_short_is_truncated<T: Codec>(m: T::M, k: nat)
    requires
        T::encodable(m),
        k < T::spec_encode(m).len(),
    ensures
        T::spec_decode(T::spec_encode(m).take(k as int)) == Err::<(T::M, nat), Failure>(
            Failure::Truncated,
        ),
{
    let e = T::spec_encode(m);
    let p = e.take(k as int);
    let tail = e.skip(k as int);
    assert(p + tail =~= e);
    assert(e + Seq::<u8>::empty() =~= e);
    T::lemma_roundtrip(m, Seq::empty());
    T::lemma_decode_prefix(p, tail);
}

} // verus!
