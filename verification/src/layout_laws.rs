//! The wire layout of each type, stated over the mathematical reading of big-endian
//! bytes (`be_value`) and the encodings of the parts, for every value and every input.
use vstd::prelude::*;
use crate::bytes::{
    be_bytes, be_value, lemma_be_bytes_len, lemma_be_bytes_of_value, lemma_be_roundtrip,
    lemma_be_value_bound, lemma_pow256_values,
};
use crate::codec::{Codec, Decode, Encode, Failure, Model};
use crate::shapes::{Point, Shape};
use crate::text::utf8_lossy;
use vstd::utf8::{decode_utf8, encode_utf8, valid_utf8};

verus! {

/// An `u8` is written as its big-endian bytes, 1 of them, and
/// read back from the first 1 bytes of its input; shorter input is truncated.
pub proof fn law_u8_layout(m: u8, s: Seq<u8>)
    ensures
        <u8 as Encode>::spec_encode(m).len() == 1,
        be_value(<u8 as Encode>::spec_encode(m)) == (m) as nat,
        <u8 as Encode>::spec_count(m) == 1,
        s.len() < 1 ==> <u8 as Decode>::spec_decode(s) == Err::<(u8, nat), Failure>(
            Failure::Truncated,
        ),
        s.len() >= 1 ==> (<u8 as Decode>::spec_decode(s) matches Ok((v, k)) && k == 1
            && v as nat == be_value(s.take(1 as int))),
{
    lemma_pow256_values();
    let x = (m) as nat;
    lemma_be_roundtrip(x, 1);
    lemma_be_bytes_len(x, 1);
    if s.len() >= 1 {
        lemma_be_value_bound(s.take(1 as int));
    }
}

/// An `u16` is written as its big-endian bytes, 2 of them, and
/// read back from the first 2 bytes of its input; shorter input is truncated.
pub proof fn law_u16_layout(m: u16, s: Seq<u8>)
    ensures
        <u16 as Encode>::spec_encode(m).len() == 2,
        be_value(<u16 as Encode>::spec_encode(m)) == (m) as nat,
        <u16 as Encode>::spec_count(m) == 2,
        s.len() < 2 ==> <u16 as Decode>::spec_decode(s) == Err::<(u16, nat), Failure>(
            Failure::Truncated,
        ),
        s.len() >= 2 ==> (<u16 as Decode>::spec_decode(s) matches Ok((v, k)) && k == 2
            && v as nat == be_value(s.take(2 as int))),
{
    lemma_pow256_values();
    let x = (m) as nat;
    lemma_be_roundtrip(x, 2);
    lemma_be_bytes_len(x, 2);
    if s.len() >= 2 {
        lemma_be_value_bound(s.take(2 as int));
    }
}

/// An `u32` is written as its big-endian bytes, 4 of them, and
/// read back from the first 4 bytes of its input; shorter input is truncated.
pub proof fn law_u32_layout(m: u32, s: Seq<u8>)
    ensures
        <u32 as Encode>::spec_encode(m).len() == 4,
        be_value(<u32 as Encode>::spec_encode(m)) == (m) as nat,
        <u32 as Encode>::spec_count(m) == 4,
        s.len() < 4 ==> <u32 as Decode>::spec_decode(s) == Err::<(u32, nat), Failure>(
            Failure::Truncated,
        ),
        s.len() >= 4 ==> (<u32 as Decode>::spec_decode(s) matches Ok((v, k)) && k == 4
            && v as nat == be_value(s.take(4 as int))),
{
    lemma_pow256_values();
    let x = (m) as nat;
    lemma_be_roundtrip(x, 4);
    lemma_be_bytes_len(x, 4);
    if s.len() >= 4 {
        lemma_be_value_bound(s.take(4 as int));
    }
}

/// An `u64` is written as its big-endian bytes, 8 of them, and
/// read back from the first 8 bytes of its input; shorter input is truncated.
pub proof fn law_u64_layout(m: u64, s: Seq<u8>)
    ensures
        <u64 as Encode>::spec_encode(m).len() == 8,
        be_value(<u64 as Encode>::spec_encode(m)) == (m) as nat,
        <u64 as Encode>::spec_count(m) == 8,
        s.len() < 8 ==> <u64 as Decode>::spec_decode(s) == Err::<(u64, nat), Failure>(
            Failure::Truncated,
        ),
        s.len() >= 8 ==> (<u64 as Decode>::spec_decode(s) matches Ok((v, k)) && k == 8
            && v as nat == be_value(s.take(8 as int))),
{
    lemma_pow256_values();
    let x = (m) as nat;
    lemma_be_roundtrip(x, 8);
    lemma_be_bytes_len(x, 8);
    if s.len() >= 8 {
        lemma_be_value_bound(s.take(8 as int));
    }
}

/// An `u128` is written as its big-endian bytes, 16 of them, and
/// read back from the first 16 bytes of its input; shorter input is truncated.
pub proof fn law_u128_layout(m: u128, s: Seq<u8>)
    ensures
        <u128 as Encode>::spec_encode(m).len() == 16,
        be_value(<u128 as Encode>::spec_encode(m)) == (m) as nat,
        <u128 as Encode>::spec_count(m) == 16,
        s.len() < 16 ==> <u128 as Decode>::spec_decode(s) == Err::<(u128, nat), Failure>(
            Failure::Truncated,
        ),
        s.len() >= 16 ==> (<u128 as Decode>::spec_decode(s) matches Ok((v, k)) && k == 16
            && v as nat == be_value(s.take(16 as int))),
{
    lemma_pow256_values();
    let x = (m) as nat;
    lemma_be_roundtrip(x, 16);
    lemma_be_bytes_len(x, 16);
    if s.len() >= 16 {
        lemma_be_value_bound(s.take(16 as int));
    }
}

/// An `i8` is written as the big-endian bytes of its two's-complement bit pattern (`m as u8`), 1 of them, and
/// read back from the first 1 bytes of its input; shorter input is truncated.
pub proof fn law_i8_layout(m: i8, s: Seq<u8>)
    ensures
        <i8 as Encode>::spec_encode(m).len() == 1,
        be_value(<i8 as Encode>::spec_encode(m)) == (m as u8) as nat,
        <i8 as Encode>::spec_count(m) == 1,
        s.len() < 1 ==> <i8 as Decode>::spec_decode(s) == Err::<(i8, nat), Failure>(
            Failure::Truncated,
        ),
        s.len() >= 1 ==> (<i8 as Decode>::spec_decode(s) matches Ok((v, k)) && k == 1
            && (v as u8) as nat == be_value(s.take(1 as int))),
{
    lemma_pow256_values();
    let x = (m as u8) as nat;
    lemma_be_roundtrip(x, 1);
    lemma_be_bytes_len(x, 1);
    if s.len() >= 1 {
        lemma_be_value_bound(s.take(1 as int));
        let w = be_value(s.take(1 as int)) as u8;
        assert(((w as i8) as u8) == w) by (bit_vector);
    }
}

/// An `i16` is written as the big-endian bytes of its two's-complement bit pattern (`m as u16`), 2 of them, and
/// read back from the first 2 bytes of its input; shorter input is truncated.
pub proof fn law_i16_layout(m: i16, s: Seq<u8>)
    ensures
        <i16 as Encode>::spec_encode(m).len() == 2,
        be_value(<i16 as Encode>::spec_encode(m)) == (m as u16) as nat,
        <i16 as Encode>::spec_count(m) == 2,
        s.len() < 2 ==> <i16 as Decode>::spec_decode(s) == Err::<(i16, nat), Failure>(
            Failure::Truncated,
        ),
        s.len() >= 2 ==> (<i16 as Decode>::spec_decode(s) matches Ok((v, k)) && k == 2
            && (v as u16) as nat == be_value(s.take(2 as int))),
{
    lemma_pow256_values();
    let x = (m as u16) as nat;
    lemma_be_roundtrip(x, 2);
    lemma_be_bytes_len(x, 2);
    if s.len() >= 2 {
        lemma_be_value_bound(s.take(2 as int));
        let w = be_value(s.take(2 as int)) as u16;
        assert(((w as i16) as u16) == w) by (bit_vector);
    }
}

/// An `i32` is written as the big-endian bytes of its two's-complement bit pattern (`m as u32`), 4 of them, and
/// read back from the first 4 bytes of its input; shorter input is truncated.
pub proof fn law_i32_layout(m: i32, s: Seq<u8>)
    ensures
        <i32 as Encode>::spec_encode(m).len() == 4,
        be_value(<i32 as Encode>::spec_encode(m)) == (m as u32) as nat,
        <i32 as Encode>::spec_count(m) == 4,
        s.len() < 4 ==> <i32 as Decode>::spec_decode(s) == Err::<(i32, nat), Failure>(
            Failure::Truncated,
        ),
        s.len() >= 4 ==> (<i32 as Decode>::spec_decode(s) matches Ok((v, k)) && k == 4
            && (v as u32) as nat == be_value(s.take(4 as int))),
{
    lemma_pow256_values();
    let x = (m as u32) as nat;
    lemma_be_roundtrip(x, 4);
    lemma_be_bytes_len(x, 4);
    if s.len() >= 4 {
        lemma_be_value_bound(s.take(4 as int));
        let w = be_value(s.take(4 as int)) as u32;
        assert(((w as i32) as u32) == w) by (bit_vector);
    }
}

/// An `i64` is written as the big-endian bytes of its two's-complement bit pattern (`m as u64`), 8 of them, and
/// read back from the first 8 bytes of its input; shorter input is truncated.
pub proof fn law_i64_layout(m: i64, s: Seq<u8>)
    ensures
        <i64 as Encode>::spec_encode(m).len() == 8,
        be_value(<i64 as Encode>::spec_encode(m)) == (m as u64) as nat,
        <i64 as Encode>::spec_count(m) == 8,
        s.len() < 8 ==> <i64 as Decode>::spec_decode(s) == Err::<(i64, nat), Failure>(
            Failure::Truncated,
        ),
        s.len() >= 8 ==> (<i64 as Decode>::spec_decode(s) matches Ok((v, k)) && k == 8
            && (v as u64) as nat == be_value(s.take(8 as int))),
{
    lemma_pow256_values();
    let x = (m as u64) as nat;
    lemma_be_roundtrip(x, 8);
    lemma_be_bytes_len(x, 8);
    if s.len() >= 8 {
        lemma_be_value_bound(s.take(8 as int));
        let w = be_value(s.take(8 as int)) as u64;
        assert(((w as i64) as u64) == w) by (bit_vector);
    }
}

/// An `i128` is written as the big-endian bytes of its two's-complement bit pattern (`m as u128`), 16 of them, and
/// read back from the first 16 bytes of its input; shorter input is truncated.
pub proof fn law_i128_layout(m: i128, s: Seq<u8>)
    ensures
        <i128 as Encode>::spec_encode(m).len() == 16,
        be_value(<i128 as Encode>::spec_encode(m)) == (m as u128) as nat,
        <i128 as Encode>::spec_count(m) == 16,
        s.len() < 16 ==> <i128 as Decode>::spec_decode(s) == Err::<(i128, nat), Failure>(
            Failure::Truncated,
        ),
        s.len() >= 16 ==> (<i128 as Decode>::spec_decode(s) matches Ok((v, k)) && k == 16
            && (v as u128) as nat == be_value(s.take(16 as int))),
{
    lemma_pow256_values();
    let x = (m as u128) as nat;
    lemma_be_roundtrip(x, 16);
    lemma_be_bytes_len(x, 16);
    if s.len() >= 16 {
        lemma_be_value_bound(s.take(16 as int));
        let w = be_value(s.take(16 as int)) as u128;
        assert(((w as i128) as u128) == w) by (bit_vector);
    }
}

/// An `usize` is written as its big-endian bytes, (usize::BITS / 8) as nat of them, and
/// read back from the first (usize::BITS / 8) as nat bytes of its input; shorter input is truncated.
pub proof fn law_usize_layout(m: usize, s: Seq<u8>)
    ensures
        <usize as Encode>::spec_encode(m).len() == (usize::BITS / 8) as nat,
        be_value(<usize as Encode>::spec_encode(m)) == (m) as nat,
        <usize as Encode>::spec_count(m) == (usize::BITS / 8) as nat,
        s.len() < (usize::BITS / 8) as nat ==> <usize as Decode>::spec_decode(s) == Err::<(usize, nat), Failure>(
            Failure::Truncated,
        ),
        s.len() >= (usize::BITS / 8) as nat ==> (<usize as Decode>::spec_decode(s) matches Ok((v, k)) && k == (usize::BITS / 8) as nat
            && v as nat == be_value(s.take((usize::BITS / 8) as nat as int))),
{
    lemma_pow256_values();
    crate::ints::lemma_word_bytes_facts();
    let x = (m) as nat;
    lemma_be_roundtrip(x, (usize::BITS / 8) as nat);
    lemma_be_bytes_len(x, (usize::BITS / 8) as nat);
    if s.len() >= (usize::BITS / 8) as nat {
        lemma_be_value_bound(s.take((usize::BITS / 8) as nat as int));
    }
}

/// An `isize` is written as the big-endian bytes of its two's-complement bit pattern (`m as usize`), (usize::BITS / 8) as nat of them, and
/// read back from the first (usize::BITS / 8) as nat bytes of its input; shorter input is truncated.
pub proof fn law_isize_layout(m: isize, s: Seq<u8>)
    ensures
        <isize as Encode>::spec_encode(m).len() == (usize::BITS / 8) as nat,
        be_value(<isize as Encode>::spec_encode(m)) == (m as usize) as nat,
        <isize as Encode>::spec_count(m) == (usize::BITS / 8) as nat,
        s.len() < (usize::BITS / 8) as nat ==> <isize as Decode>::spec_decode(s) == Err::<(isize, nat), Failure>(
            Failure::Truncated,
        ),
        s.len() >= (usize::BITS / 8) as nat ==> (<isize as Decode>::spec_decode(s) matches Ok((v, k)) && k == (usize::BITS / 8) as nat
            && (v as usize) as nat == be_value(s.take((usize::BITS / 8) as nat as int))),
{
    lemma_pow256_values();
    crate::ints::lemma_word_bytes_facts();
    let x = (m as usize) as nat;
    lemma_be_roundtrip(x, (usize::BITS / 8) as nat);
    lemma_be_bytes_len(x, (usize::BITS / 8) as nat);
    if s.len() >= (usize::BITS / 8) as nat {
        lemma_be_value_bound(s.take((usize::BITS / 8) as nat as int));
        let w = be_value(s.take((usize::BITS / 8) as nat as int)) as usize;
        assert(((w as isize) as usize) == w) by (bit_vector);
    }
}

/// The unit value is written as no bytes, with count 0, and read from no bytes.
pub proof fn law_unit_layout(s: Seq<u8>)
    ensures
        <() as Encode>::spec_encode(()) == Seq::<u8>::empty(),
        <() as Encode>::spec_count(()) == 0,
        <() as Decode>::spec_decode(s) == Ok::<((), nat), Failure>(((), 0)),
{
}

/// A one-element tuple is written, counted and read as its element.
pub proof fn law_single_layout<T: Encode + Decode>(a: T::M, s: Seq<u8>)
    ensures
        <(T,) as Encode>::spec_encode((a,)) == T::spec_encode(a),
        <(T,) as Encode>::spec_count((a,)) == T::spec_count(a),
        T::spec_decode(s) matches Ok((v, n)) ==> <(T,) as Decode>::spec_decode(s) == Ok::<
            ((T::M,), nat),
            Failure,
        >(((v,), n)),
        T::spec_decode(s) matches Err(e) ==> <(T,) as Decode>::spec_decode(s) == Err::<
            ((T::M,), nat),
            Failure,
        >(e),
{
}

/// A pair is written as its first element followed by its second, and read the same
/// way; the count returned is the second element's.
pub proof fn law_pair_layout<T: Encode + Decode, U: Encode + Decode>(a: T::M, b: U::M, s: Seq<u8>)
    ensures
        <(T, U) as Encode>::spec_encode((a, b)) == T::spec_encode(a) + U::spec_encode(b),
        <(T, U) as Encode>::spec_count((a, b)) == U::spec_count(b),
        T::spec_decode(s) matches Err(e) ==> <(T, U) as Decode>::spec_decode(s) == Err::<
            ((T::M, U::M), nat),
            Failure,
        >(e),
        T::spec_decode(s) matches Ok((x, n)) ==> {
            &&& U::spec_decode(s.skip(n as int)) matches Ok((y, k)) ==> <(T, U) as Decode>::spec_decode(s)
                == Ok::<((T::M, U::M), nat), Failure>(((x, y), n + k))
            &&& U::spec_decode(s.skip(n as int)) matches Err(e) ==> <(T, U) as Decode>::spec_decode(s)
                == Err::<((T::M, U::M), nat), Failure>(e)
        },
{
}

/// `None` is the byte 0 with count 1; `Some(v)` is the byte 1 followed by `v`, with the
/// count of `v`. Reading, the byte 0 gives `None` and any other byte `Some` of what follows.
pub proof fn law_option_layout<T: Encode + Decode>(v: T::M, s: Seq<u8>)
    ensures
        <Option<T> as Encode>::spec_encode(None) == seq![0u8],
        <Option<T> as Encode>::spec_encode(Some(v)) == seq![1u8] + T::spec_encode(v),
        <Option<T> as Encode>::spec_count(None) == 1,
        <Option<T> as Encode>::spec_count(Some(v)) == T::spec_count(v),
        s.len() == 0 ==> <Option<T> as Decode>::spec_decode(s) == Err::<(Option<T::M>, nat), Failure>(
            Failure::Truncated,
        ),
        s.len() > 0 && s[0] == 0 ==> <Option<T> as Decode>::spec_decode(s) == Ok::<
            (Option<T::M>, nat),
            Failure,
        >((None, 1)),
        s.len() > 0 && s[0] != 0 ==> {
            &&& T::spec_decode(s.skip(1)) matches Ok((x, n)) ==> <Option<T> as Decode>::spec_decode(s)
                == Ok::<(Option<T::M>, nat), Failure>((Some(x), n + 1))
            &&& T::spec_decode(s.skip(1)) matches Err(e) ==> <Option<T> as Decode>::spec_decode(s)
                == Err::<(Option<T::M>, nat), Failure>(e)
        },
{
}

/// `Ok(v)` is the byte 0 followed by `v`; `Err(e)` is the byte 1 followed by `e`; the
/// count is that of `v` or `e`. Reading, the byte 0 gives `Ok` and any other byte `Err`.
pub proof fn law_result_layout<T: Encode + Decode, E: Encode + Decode>(
    v: T::M,
    e: E::M,
    s: Seq<u8>,
)
    ensures
        <core::result::Result<T, E> as Encode>::spec_encode(Ok(v)) == seq![0u8] + T::spec_encode(v),
        <core::result::Result<T, E> as Encode>::spec_encode(Err(e)) == seq![1u8] + E::spec_encode(e),
        <core::result::Result<T, E> as Encode>::spec_count(Ok(v)) == T::spec_count(v),
        <core::result::Result<T, E> as Encode>::spec_count(Err(e)) == E::spec_count(e),
        s.len() == 0 ==> <core::result::Result<T, E> as Decode>::spec_decode(s) == Err::<
            (core::result::Result<T::M, E::M>, nat),
            Failure,
        >(Failure::Truncated),
        s.len() > 0 && s[0] == 0 ==> {
            &&& T::spec_decode(s.skip(1)) matches Ok((x, n))
                ==> <core::result::Result<T, E> as Decode>::spec_decode(s) == Ok::<
                (core::result::Result<T::M, E::M>, nat),
                Failure,
            >((Ok(x), n + 1))
            &&& T::spec_decode(s.skip(1)) matches Err(f)
                ==> <core::result::Result<T, E> as Decode>::spec_decode(s) == Err::<
                (core::result::Result<T::M, E::M>, nat),
                Failure,
            >(f)
        },
        s.len() > 0 && s[0] != 0 ==> {
            &&& E::spec_decode(s.skip(1)) matches Ok((x, n))
                ==> <core::result::Result<T, E> as Decode>::spec_decode(s) == Ok::<
                (core::result::Result<T::M, E::M>, nat),
                Failure,
            >((Err(x), n + 1))
            &&& E::spec_decode(s.skip(1)) matches Err(f)
                ==> <core::result::Result<T, E> as Decode>::spec_decode(s) == Err::<
                (core::result::Result<T::M, E::M>, nat),
                Failure,
            >(f)
        },
{
}

/// A vector is written as its length, as a `u64`, followed by its items one after
/// another; its count is 8 plus the counts of its items.
pub proof fn law_vec_encoding<T: Encode>(ms: Seq<T::M>, m: T::M)
    requires
        ms.len() < 0xffff_ffff_ffff_ffff,
    ensures
        <Vec<T> as Encode>::spec_encode(ms).take(8) == <u64 as Encode>::spec_encode(ms.len() as u64),
        <Vec<T> as Encode>::spec_encode(Seq::empty()) == <u64 as Encode>::spec_encode(0),
        <Vec<T> as Encode>::spec_encode(ms.push(m)).skip(8) == <Vec<T> as Encode>::spec_encode(
            ms,
        ).skip(8) + T::spec_encode(m),
        <Vec<T> as Encode>::spec_count(Seq::empty()) == 8,
        <Vec<T> as Encode>::spec_count(ms.push(m)) == <Vec<T> as Encode>::spec_count(ms)
            + T::spec_count(m),
{
    lemma_be_bytes_len(ms.len(), 8);
    lemma_be_bytes_len(ms.len() + 1, 8);
    lemma_be_bytes_len(0, 8);
    let items = crate::containers::encode_items::<T>(ms);
    assert((be_bytes(ms.len(), 8) + items).take(8) =~= be_bytes(ms.len(), 8));
    assert(ms.push(m).drop_last() =~= ms);
    let longer = crate::containers::encode_items::<T>(ms.push(m));
    assert((be_bytes(ms.len() + 1, 8) + longer).skip(8) =~= longer);
    assert((be_bytes(ms.len(), 8) + items).skip(8) =~= items);
    assert(be_bytes(0, 8) + crate::containers::encode_items::<T>(Seq::empty()) =~= be_bytes(0, 8));
}

/// Reading a vector: fewer than 8 bytes are truncated; a length of 0 gives the empty
/// vector; with a length of `k + 1`, the items read with a length of `k` are followed by
/// one more item read from where they end, and a failure of either is the failure.
pub proof fn law_vec_decoding<T: Decode>(k: u64, body: Seq<u8>, s: Seq<u8>)
    requires
        k < usize::MAX,
    ensures
        s.len() < 8 ==> <Vec<T> as Decode>::spec_decode(s) == Err::<(Seq<T::M>, nat), Failure>(
            Failure::Truncated,
        ),
        <Vec<T> as Decode>::spec_decode(<u64 as Encode>::spec_encode(0) + body) == Ok::<
            (Seq<T::M>, nat),
            Failure,
        >((Seq::empty(), 8)),
        <Vec<T> as Decode>::spec_decode(<u64 as Encode>::spec_encode(k) + body) matches Err(e)
            ==> <Vec<T> as Decode>::spec_decode(<u64 as Encode>::spec_encode((k + 1) as u64) + body)
            == Err::<(Seq<T::M>, nat), Failure>(e),
        <Vec<T> as Decode>::spec_decode(<u64 as Encode>::spec_encode(k) + body) matches Ok((ms, n))
            ==> {
            &&& n >= 8
            &&& T::spec_decode(body.skip(n - 8)) matches Ok((m, j))
                ==> <Vec<T> as Decode>::spec_decode(
                <u64 as Encode>::spec_encode((k + 1) as u64) + body,
            ) == Ok::<(Seq<T::M>, nat), Failure>((ms.push(m), n + j))
            &&& T::spec_decode(body.skip(n - 8)) matches Err(e)
                ==> <Vec<T> as Decode>::spec_decode(
                <u64 as Encode>::spec_encode((k + 1) as u64) + body,
            ) == Err::<(Seq<T::M>, nat), Failure>(e)
        },
{
    lemma_pow256_values();
    let h0 = be_bytes(0, 8);
    let hk = be_bytes(k as nat, 8);
    let hk1 = be_bytes((k + 1) as nat, 8);
    lemma_be_roundtrip(0, 8);
    lemma_be_roundtrip(k as nat, 8);
    lemma_be_roundtrip((k + 1) as nat, 8);
    assert((h0 + body).take(8) =~= h0);
    assert((h0 + body).skip(8) =~= body);
    assert((hk + body).take(8) =~= hk);
    assert((hk + body).skip(8) =~= body);
    assert((hk1 + body).take(8) =~= hk1);
    assert((hk1 + body).skip(8) =~= body);
}

/// A string is written as its UTF-8 byte count modulo 65536, as a `u16`, followed by
/// its UTF-8 bytes, with count 2 plus the byte count. Reading takes the count from the
/// first two bytes and the text from that many bytes after them: their characters where
/// they are valid UTF-8, what lossy conversion makes of them otherwise.
pub proof fn law_string_layout(m: Seq<char>, s: Seq<u8>)
    ensures
        <String as Encode>::spec_encode(m).take(2) == <u16 as Encode>::spec_encode(
            (encode_utf8(m).len() % 0x1_0000) as u16,
        ),
        <String as Encode>::spec_encode(m).skip(2) == encode_utf8(m),
        <String as Encode>::spec_count(m) == 2 + encode_utf8(m).len(),
        s.len() < 2 ==> <String as Decode>::spec_decode(s) == Err::<(Seq<char>, nat), Failure>(
            Failure::Truncated,
        ),
        s.len() >= 2 && s.len() < 2 + be_value(s.take(2)) ==> <String as Decode>::spec_decode(s)
            == Err::<(Seq<char>, nat), Failure>(Failure::Truncated),
        s.len() >= 2 && s.len() >= 2 + be_value(s.take(2)) ==> ({
            let bytes = s.subrange(2, 2 + be_value(s.take(2)) as int);
            &&& <String as Decode>::spec_decode(s) matches Ok((t, n))
            &&& n == 2 + be_value(s.take(2))
            &&& valid_utf8(bytes) ==> t == decode_utf8(bytes)
            &&& !valid_utf8(bytes) ==> t == utf8_lossy(bytes)
        }),
{
    let len = encode_utf8(m).len() % 0x1_0000;
    lemma_be_bytes_len(len, 2);
    let e = be_bytes(len, 2) + encode_utf8(m);
    assert(e.take(2) =~= be_bytes(len, 2));
    assert(e.skip(2) =~= encode_utf8(m));
}

/// The bytes of a `u32` that decoding accepts are the encoding of the value it returns.
pub proof fn lemma_u32_canonical(s: Seq<u8>)
    ensures
        <u32 as Decode>::spec_decode(s) matches Ok((v, n)) ==> n <= s.len() && s.take(n as int)
            == <u32 as Encode>::spec_encode(v),
{
    if s.len() >= 4 {
        lemma_pow256_values();
        let b = s.take(4);
        lemma_be_value_bound(b);
        lemma_be_bytes_of_value(b);
    }
}

/// The bytes of an `i32` that decoding accepts are the encoding of the value it returns.
pub proof fn lemma_i32_canonical(s: Seq<u8>)
    ensures
        <i32 as Decode>::spec_decode(s) matches Ok((v, n)) ==> n <= s.len() && s.take(n as int)
            == <i32 as Encode>::spec_encode(v),
{
    if s.len() >= 4 {
        lemma_pow256_values();
        let b = s.take(4);
        lemma_be_value_bound(b);
        lemma_be_bytes_of_value(b);
        let w = be_value(b) as u32;
        assert(((w as i32) as u32) == w) by (bit_vector);
    }
}

/// A point is written as `x` followed by `y`, with count 8; reading takes 8 bytes, and
/// the bytes it accepts are the encoding of the point it returns.
pub proof fn law_point_layout(p: Point, s: Seq<u8>)
    ensures
        <Point as Encode>::spec_encode(p) == <i32 as Encode>::spec_encode(p.x)
            + <i32 as Encode>::spec_encode(p.y),
        <Point as Encode>::spec_count(p) == 8,
        s.len() < 8 ==> <Point as Decode>::spec_decode(s) == Err::<(Point, nat), Failure>(
            Failure::Truncated,
        ),
        s.len() >= 8 ==> (<Point as Decode>::spec_decode(s) matches Ok((q, n)) && n == 8 && s.take(
            8,
        ) == <Point as Encode>::spec_encode(q)),
{
    lemma_i32_canonical(s);
    if s.len() >= 8 {
        lemma_i32_canonical(s.skip(4));
        assert(s.take(8) =~= s.take(4) + s.skip(4).take(4));
    }
}

/// Each variant of `Shape` is written as its discriminant (`Circle` 0, `Rectangle` 100,
/// `Point` 2, `Empty` 3) followed by each of its fields in order; the count is 1 plus the
/// fields' counts.
pub proof fn law_shape_encoding(radius: u32, w: u32, h: u32, p: Point)
    ensures
        <Shape as Encode>::spec_encode(Shape::Circle { radius }) == seq![0u8] + <u32 as Encode>::spec_encode(
            radius,
        ),
        <Shape as Encode>::spec_encode(Shape::Rectangle(w, h)) == seq![100u8]
            + <u32 as Encode>::spec_encode(w) + <u32 as Encode>::spec_encode(h),
        <Shape as Encode>::spec_encode(Shape::Point(p)) == seq![2u8] + <Point as Encode>::spec_encode(p),
        <Shape as Encode>::spec_encode(Shape::Empty) == seq![3u8],
        <Shape as Encode>::spec_count(Shape::Circle { radius }) == 5,
        <Shape as Encode>::spec_count(Shape::Rectangle(w, h)) == 9,
        <Shape as Encode>::spec_count(Shape::Point(p)) == 9,
        <Shape as Encode>::spec_count(Shape::Empty) == 1,
{
    assert(seq![100u8] + <u32 as Encode>::spec_encode(w) + <u32 as Encode>::spec_encode(h)
        =~= seq![100u8] + (<u32 as Encode>::spec_encode(w) + <u32 as Encode>::spec_encode(h)));
    assert(seq![3u8] + Seq::<u8>::empty() =~= seq![3u8]);
}

/// Reading a `Shape`: a first byte that is no variant's discriminant is reported as
/// invalid; a discriminant with too few bytes after it is truncated, with enough it is
/// read; and the bytes that reading accepts are the encoding of the shape it returns.
pub proof fn law_shape_decoding(s: Seq<u8>)
    ensures
        s.len() == 0 ==> <Shape as Decode>::spec_decode(s) == Err::<(Shape, nat), Failure>(
            Failure::Truncated,
        ),
        s.len() > 0 && s[0] != 0 && s[0] != 100 && s[0] != 2 && s[0] != 3
            ==> <Shape as Decode>::spec_decode(s) == Err::<(Shape, nat), Failure>(
            Failure::Invalid(s[0]),
        ),
        s.len() > 0 && s[0] == 0 ==> (s.len() < 5 <==> <Shape as Decode>::spec_decode(s) == Err::<
            (Shape, nat),
            Failure,
        >(Failure::Truncated)),
        s.len() > 0 && s[0] == 100 ==> (s.len() < 9 <==> <Shape as Decode>::spec_decode(s) == Err::<
            (Shape, nat),
            Failure,
        >(Failure::Truncated)),
        s.len() > 0 && s[0] == 2 ==> (s.len() < 9 <==> <Shape as Decode>::spec_decode(s) == Err::<
            (Shape, nat),
            Failure,
        >(Failure::Truncated)),
        s.len() > 0 && s[0] == 3 ==> <Shape as Decode>::spec_decode(s) == Ok::<(Shape, nat), Failure>(
            (Shape::Empty, 1),
        ),
        <Shape as Decode>::spec_decode(s) matches Ok((m, n)) ==> n <= s.len() && s.take(n as int)
            == <Shape as Encode>::spec_encode(m),
{
    if s.len() > 0 {
        let rest = s.skip(1);
        lemma_u32_canonical(rest);
        law_point_layout(Point { x: 0, y: 0 }, rest);
        if rest.len() >= 8 {
            lemma_u32_canonical(rest.skip(4));
            assert(rest.take(8) =~= rest.take(4) + rest.skip(4).take(4));
        }
        if let Ok((m, n)) = <Shape as Decode>::spec_decode(s) {
            assert(s.take(n as int) =~= seq![s[0]] + rest.take(n - 1));
            if s[0] == 3 {
                assert(seq![3u8] + Seq::<u8>::empty() =~= seq![3u8]);
            }
        }
    }
}

/// Which values the round-trip law covers: every integer, point and shape; every string
/// of at most 65535 UTF-8 bytes.
pub proof fn law_encodable_values(
    u8_v: u8,
    u16_v: u16,
    u32_v: u32,
    u64_v: u64,
    u128_v: u128,
    usize_v: usize,
    i8_v: i8,
    i16_v: i16,
    i32_v: i32,
    i64_v: i64,
    i128_v: i128,
    isize_v: isize,
    p: Point,
    shape: Shape,
    m: Seq<char>,
)
    ensures
        <u8 as Codec>::encodable(u8_v),
        <u16 as Codec>::encodable(u16_v),
        <u32 as Codec>::encodable(u32_v),
        <u64 as Codec>::encodable(u64_v),
        <u128 as Codec>::encodable(u128_v),
        <usize as Codec>::encodable(usize_v),
        <i8 as Codec>::encodable(i8_v),
        <i16 as Codec>::encodable(i16_v),
        <i32 as Codec>::encodable(i32_v),
        <i64 as Codec>::encodable(i64_v),
        <i128 as Codec>::encodable(i128_v),
        <isize as Codec>::encodable(isize_v),
        <Point as Codec>::encodable(p),
        <Shape as Codec>::encodable(shape),
        <() as Codec>::encodable(()),
        <String as Codec>::encodable(m) <==> encode_utf8(m).len() <= 65535,
{
}

/// Composite values are covered by the round-trip law exactly when their parts are, and
/// a vector also when its length fits in a `usize`.
pub proof fn law_encodable_composites<T: Codec, U: Codec>(a: T::M, b: U::M, ms: Seq<T::M>)
    ensures
        <(T,) as Codec>::encodable((a,)) == T::encodable(a),
        <(T, U) as Codec>::encodable((a, b)) == (T::encodable(a) && U::encodable(b)),
        <Option<T> as Codec>::encodable(None),
        <Option<T> as Codec>::encodable(Some(a)) == T::encodable(a),
        <core::result::Result<T, U> as Codec>::encodable(Ok(a)) == T::encodable(a),
        <core::result::Result<T, U> as Codec>::encodable(Err(b)) == U::encodable(b),
        <Vec<T> as Codec>::encodable(ms) <==> (ms.len() <= usize::MAX && forall|i: int|
            0 <= i < ms.len() ==> T::encodable(#[trigger] ms[i])),
{
}

/// What the encodings carry of each value: integers, points and shapes themselves, a
/// string its characters, and a composite the models of its parts.
pub proof fn law_models<T: Model, U: Model>(
    n: u64,
    i: i32,
    text: String,
    pair: (T, U),
    opt: Option<T>,
    res: core::result::Result<T, U>,
    items: Vec<T>,
    shape: Shape,
)
    ensures
        n.model() == n,
        i.model() == i,
        shape.model() == shape,
        text.model() == text@,
        pair.model() == (pair.0.model(), pair.1.model()),
        opt matches Some(v) ==> opt.model() == Some(v.model()),
        opt is None ==> opt.model() == None::<T::M>,
        res matches Ok(v) ==> res.model() == Ok::<T::M, U::M>(v.model()),
        res matches Err(e) ==> res.model() == Err::<T::M, U::M>(e.model()),
        items.model().len() == items@.len(),
        forall|k: int| 0 <= k < items@.len() ==> items.model()[k] == (#[trigger] items@[k]).model(),
{
}

} // verus!
