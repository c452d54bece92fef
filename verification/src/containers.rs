//! The unit type, tuples, `Option`, `Result` and `Vec`, each over the encodings of
//! their parts.
use vstd::prelude::*;
use crate::bytes::{
    be_bytes, be_value, lemma_be_bytes_len, lemma_be_roundtrip, lemma_pow256_values, read_be,
    write_be,
};
use crate::codec::{Codec, Decode, Encode, Failure, Model};
use crate::error::{truncated, Error};

verus! {

impl Model for () {
    type M = ();

    open spec fn model(&self) -> () {
        ()
    }
}

/// The unit value takes no bytes.
impl Encode for () {
    open spec fn spec_encode(m: ()) -> Seq<u8> {
        Seq::empty()
    }

    open spec fn spec_count(m: ()) -> nat {
        0
    }

    proof fn lemma_count_bounded(m: ()) {
    }

    fn encode(&self, out: &mut Vec<u8>) -> (n: usize) {
        assert(old(out)@ + Seq::<u8>::empty() =~= old(out)@);
        0
    }
}

impl Decode for () {
    open spec fn spec_decode(s: Seq<u8>) -> core::result::Result<((), nat), Failure> {
        Ok(((), 0))
    }

    proof fn lemma_decode_prefix(s: Seq<u8>, t: Seq<u8>) {
    }

    fn decode(buf: &[u8], pos: usize) -> (r: Result<((), usize), Error>) {
        Ok(((), pos))
    }
}

impl Codec for () {
    open spec fn encodable(m: ()) -> bool {
        true
    }

    proof fn lemma_roundtrip(m: (), rest: Seq<u8>) {
    }
}

impl<T: Model> Model for (T,) {
    type M = (T::M,);

    open spec fn model(&self) -> (T::M,) {
        (self.0.model(),)
    }
}

/// A one-element tuple is its element.
impl<T: Encode> Encode for (T,) {
    open spec fn spec_encode(m: (T::M,)) -> Seq<u8> {
        T::spec_encode(m.0)
    }

    open spec fn spec_count(m: (T::M,)) -> nat {
        T::spec_count(m.0)
    }

    proof fn lemma_count_bounded(m: (T::M,)) {
        T::lemma_count_bounded(m.0);
    }

    fn encode(&self, out: &mut Vec<u8>) -> (n: usize) {
        self.0.encode(out)
    }
}

impl<T: Decode> Decode for (T,) {
    open spec fn spec_decode(s: Seq<u8>) -> core::result::Result<((T::M,), nat), Failure> {
        match T::spec_decode(s) {
            Ok((a, n)) => Ok(((a,), n)),
            Err(e) => Err(e),
        }
    }

    proof fn lemma_decode_prefix(s: Seq<u8>, t: Seq<u8>) {
        T::lemma_decode_prefix(s, t);
    }

    fn decode(buf: &[u8], pos: usize) -> (r: Result<((T,), usize), Error>) {
        match T::decode(buf, pos) {
            Ok((a, end)) => Ok(((a,), end)),
            Err(e) => Err(e),
        }
    }
}

impl<T: Codec> Codec for (T,) {
    open spec fn encodable(m: (T::M,)) -> bool {
        T::encodable(m.0)
    }

    proof fn lemma_roundtrip(m: (T::M,), rest: Seq<u8>) {
        T::lemma_roundtrip(m.0, rest);
    }
}

impl<T: Model, U: Model> Model for (T, U) {
    type M = (T::M, U::M);

    open spec fn model(&self) -> (T::M, U::M) {
        (self.0.model(), self.1.model())
    }
}

/// A pair is its first element followed by its second. The count returned is the
/// second element's alone: the first element's count is not added.
impl<T: Encode, U: Encode> Encode for (T, U) {
    open spec fn spec_encode(m: (T::M, U::M)) -> Seq<u8> {
        T::spec_encode(m.0) + U::spec_encode(m.1)
    }

    open spec fn spec_count(m: (T::M, U::M)) -> nat {
        U::spec_count(m.1)
    }

    proof fn lemma_count_bounded(m: (T::M, U::M)) {
        U::lemma_count_bounded(m.1);
    }

    fn encode(&self, out: &mut Vec<u8>) -> (n: usize) {
        self.0.encode(out);
        let n = self.1.encode(out);
        assert(final(out)@ =~= old(out)@ + Self::spec_encode(self.model()));
        n
    }
}

impl<T: Decode, U: Decode> Decode for (T, U) {
    open spec fn spec_decode(s: Seq<u8>) -> core::result::Result<((T::M, U::M), nat), Failure> {
        match T::spec_decode(s) {
            Ok((a, n)) => match U::spec_decode(s.skip(n as int)) {
                Ok((b, k)) => Ok(((a, b), n + k)),
                Err(e) => Err(e),
            },
            Err(e) => Err(e),
        }
    }

    proof fn lemma_decode_prefix(s: Seq<u8>, t: Seq<u8>) {
        T::lemma_decode_prefix(s, t);
        if let Ok((a, n)) = T::spec_decode(s) {
            assert((s + t).skip(n as int) =~= s.skip(n as int) + t);
            U::lemma_decode_prefix(s.skip(n as int), t);
        }
    }

    fn decode(buf: &[u8], pos: usize) -> (r: Result<((T, U), usize), Error>) {
        proof {
            T::lemma_decode_prefix(buf@.skip(pos as int), Seq::empty());
        }
        match T::decode(buf, pos) {
            Ok((a, mid)) => {
                assert(buf@.skip(mid as int) =~= buf@.skip(pos as int).skip(mid - pos));
                match U::decode(buf, mid) {
                    Ok((b, end)) => Ok(((a, b), end)),
                    Err(e) => Err(e),
                }
            },
            Err(e) => Err(e),
        }
    }
}

impl<T: Codec, U: Codec> Codec for (T, U) {
    open spec fn encodable(m: (T::M, U::M)) -> bool {
        T::encodable(m.0) && U::encodable(m.1)
    }

    proof fn lemma_roundtrip(m: (T::M, U::M), rest: Seq<u8>) {
        let ea = T::spec_encode(m.0);
        let eb = U::spec_encode(m.1);
        assert(ea + eb + rest =~= ea + (eb + rest));
        T::lemma_roundtrip(m.0, eb + rest);
        assert((ea + (eb + rest)).skip(ea.len() as int) =~= eb + rest);
        U::lemma_roundtrip(m.1, rest);
    }
}

impl<T: Model> Model for Option<T> {
    type M = Option<T::M>;

    open spec fn model(&self) -> Option<T::M> {
        match self {
            Some(v) => Some(v.model()),
            None => None,
        }
    }
}

/// `None` is the byte 0; `Some(v)` is the byte 1 followed by `v`. The count returned
/// is 1 for `None` and the count of `v` for `Some(v)`: the marker byte is not added.
impl<T: Encode> Encode for Option<T> {
    open spec fn spec_encode(m: Option<T::M>) -> Seq<u8> {
        match m {
            Some(v) => seq![1u8] + T::spec_encode(v),
            None => seq![0u8],
        }
    }

    open spec fn spec_count(m: Option<T::M>) -> nat {
        match m {
            Some(v) => T::spec_count(v),
            None => 1,
        }
    }

    proof fn lemma_count_bounded(m: Option<T::M>) {
        if let Some(v) = m {
            T::lemma_count_bounded(v);
        }
    }

    fn encode(&self, out: &mut Vec<u8>) -> (n: usize) {
        match self {
            None => {
                out.push(0);
                assert(final(out)@ =~= old(out)@ + seq![0u8]);
                1
            },
            Some(v) => {
                out.push(1);
                let n = v.encode(out);
                assert(final(out)@ =~= old(out)@ + Self::spec_encode(self.model()));
                n
            },
        }
    }
}

/// Any marker byte other than 0 reads as `Some`.
impl<T: Decode> Decode for Option<T> {
    open spec fn spec_decode(s: Seq<u8>) -> core::result::Result<(Option<T::M>, nat), Failure> {
        if s.len() == 0 {
            Err(Failure::Truncated)
        } else if s[0] == 0 {
            Ok((None, 1))
        } else {
            match T::spec_decode(s.skip(1)) {
                Ok((v, n)) => Ok((Some(v), n + 1)),
                Err(e) => Err(e),
            }
        }
    }

    proof fn lemma_decode_prefix(s: Seq<u8>, t: Seq<u8>) {
        if s.len() > 0 {
            assert((s + t).skip(1) =~= s.skip(1) + t);
            T::lemma_decode_prefix(s.skip(1), t);
        }
    }

    fn decode(buf: &[u8], pos: usize) -> (r: Result<(Option<T>, usize), Error>) {
        if pos >= buf.len() {
            return Err(truncated());
        }
        let marker = buf[pos];
        if marker == 0 {
            Ok((None, pos + 1))
        } else {
            assert(buf@.skip(pos + 1) =~= buf@.skip(pos as int).skip(1));
            match T::decode(buf, pos + 1) {
                Ok((v, end)) => Ok((Some(v), end)),
                Err(e) => Err(e),
            }
        }
    }
}

impl<T: Codec> Codec for Option<T> {
    open spec fn encodable(m: Option<T::M>) -> bool {
        match m {
            Some(v) => T::encodable(v),
            None => true,
        }
    }

    proof fn lemma_roundtrip(m: Option<T::M>, rest: Seq<u8>) {
        if let Some(v) = m {
            let e = T::spec_encode(v);
            assert((seq![1u8] + e + rest).skip(1) =~= e + rest);
            T::lemma_roundtrip(v, rest);
        }
    }
}

impl<T: Model, E: Model> Model for core::result::Result<T, E> {
    type M = core::result::Result<T::M, E::M>;

    open spec fn model(&self) -> core::result::Result<T::M, E::M> {
        match self {
            Ok(v) => Ok(v.model()),
            Err(e) => Err(e.model()),
        }
    }
}

/// `Ok(v)` is the byte 0 followed by `v`; `Err(e)` is the byte 1 followed by `e`.
/// The count returned is that of `v` or `e` alone: the marker byte is not added.
impl<T: Encode, E: Encode> Encode for core::result::Result<T, E> {
    open spec fn spec_encode(m: core::result::Result<T::M, E::M>) -> Seq<u8> {
        match m {
            Ok(v) => seq![0u8] + T::spec_encode(v),
            Err(e) => seq![1u8] + E::spec_encode(e),
        }
    }

    open spec fn spec_count(m: core::result::Result<T::M, E::M>) -> nat {
        match m {
            Ok(v) => T::spec_count(v),
            Err(e) => E::spec_count(e),
        }
    }

    proof fn lemma_count_bounded(m: core::result::Result<T::M, E::M>) {
        match m {
            Ok(v) => T::lemma_count_bounded(v),
            Err(e) => E::lemma_count_bounded(e),
        }
    }

    fn encode(&self, out: &mut Vec<u8>) -> (n: usize) {
        match self {
            Ok(v) => {
                out.push(0);
                let n = v.encode(out);
                assert(final(out)@ =~= old(out)@ + Self::spec_encode(self.model()));
                n
            },
            Err(e) => {
                out.push(1);
                let n = e.encode(out);
                assert(final(out)@ =~= old(out)@ + Self::spec_encode(self.model()));
                n
            },
        }
    }
}

/// Any marker byte other than 0 reads as `Err`.
impl<T: Decode, E: Decode> Decode for core::result::Result<T, E> {
    open spec fn spec_decode(s: Seq<u8>) -> core::result::Result<
        (core::result::Result<T::M, E::M>, nat),
        Failure,
    > {
        if s.len() == 0 {
            Err(Failure::Truncated)
        } else if s[0] == 0 {
            match T::spec_decode(s.skip(1)) {
                Ok((v, n)) => Ok((Ok(v), n + 1)),
                Err(f) => Err(f),
            }
        } else {
            match E::spec_decode(s.skip(1)) {
                Ok((e, n)) => Ok((Err(e), n + 1)),
                Err(f) => Err(f),
            }
        }
    }

    proof fn lemma_decode_prefix(s: Seq<u8>, t: Seq<u8>) {
        if s.len() > 0 {
            assert((s + t).skip(1) =~= s.skip(1) + t);
            T::lemma_decode_prefix(s.skip(1), t);
            E::lemma_decode_prefix(s.skip(1), t);
        }
    }

    fn decode(buf: &[u8], pos: usize) -> (r: Result<(core::result::Result<T, E>, usize), Error>) {
        if pos >= buf.len() {
            return Err(truncated());
        }
        let marker = buf[pos];
        assert(buf@.skip(pos + 1) =~= buf@.skip(pos as int).skip(1));
        if marker == 0 {
            match T::decode(buf, pos + 1) {
                Ok((v, end)) => Ok((Ok(v), end)),
                Err(f) => Err(f),
            }
        } else {
            match E::decode(buf, pos + 1) {
                Ok((e, end)) => Ok((Err(e), end)),
                Err(f) => Err(f),
            }
        }
    }
}

impl<T: Codec, E: Codec> Codec for core::result::Result<T, E> {
    open spec fn encodable(m: core::result::Result<T::M, E::M>) -> bool {
        match m {
            Ok(v) => T::encodable(v),
            Err(e) => E::encodable(e),
        }
    }

    proof fn lemma_roundtrip(m: core::result::Result<T::M, E::M>, rest: Seq<u8>) {
        match m {
            Ok(v) => {
                assert((seq![0u8] + T::spec_encode(v) + rest).skip(1) =~= T::spec_encode(v) + rest);
                T::lemma_roundtrip(v, rest);
            },
            Err(e) => {
                assert((seq![1u8] + E::spec_encode(e) + rest).skip(1) =~= E::spec_encode(e) + rest);
                E::lemma_roundtrip(e, rest);
            },
        }
    }
}

impl<T: Model> Model for Vec<T> {
    type M = Seq<T::M>;

    open spec fn model(&self) -> Seq<T::M> {
        Seq::new(self@.len(), |i: int| self@[i].model())
    }
}

/// The encodings of the items of `ms`, one after another.
pub open spec fn encode_items<T: Encode>(ms: Seq<T::M>) -> Seq<u8>
    decreases ms.len(),
{
    if ms.len() == 0 {
        Seq::empty()
    } else {
        encode_items::<T>(ms.drop_last()) + T::spec_encode(ms.last())
    }
}

/// The sum of the counts of the items of `ms`.
pub open spec fn count_items<T: Encode>(ms: Seq<T::M>) -> nat
    decreases ms.len(),
{
    if ms.len() == 0 {
        0
    } else {
        count_items::<T>(ms.drop_last()) + T::spec_count(ms.last())
    }
}

/// Decodes `k` items one after another from the start of `s`.
pub open spec fn decode_items<T: Decode>(s: Seq<u8>, k: nat) -> core::result::Result<
    (Seq<T::M>, nat),
    Failure,
>
    decreases k,
{
    if k == 0 {
        Ok((Seq::empty(), 0))
    } else {
        match decode_items::<T>(s, (k - 1) as nat) {
            Ok((ms, n)) => match T::spec_decode(s.skip(n as int)) {
                Ok((m, j)) => Ok((ms.push(m), n + j)),
                Err(e) => Err(e),
            },
            Err(e) => Err(e),
        }
    }
}

proof fn lemma_items_prefix<T: Encode>(ms: Seq<T::M>, i: int)
    requires
        0 <= i < ms.len(),
    ensures
        encode_items::<T>(ms.take(i + 1)) == encode_items::<T>(ms.take(i)) + T::spec_encode(ms[i]),
        count_items::<T>(ms.take(i + 1)) == count_items::<T>(ms.take(i)) + T::spec_count(ms[i]),
{
    assert(ms.take(i + 1).drop_last() =~= ms.take(i));
}

proof fn lemma_items_grow<T: Encode>(ms: Seq<T::M>, i: int, j: int)
    requires
        0 <= i <= j <= ms.len(),
    ensures
        encode_items::<T>(ms.take(i)).len() <= encode_items::<T>(ms.take(j)).len(),
    decreases j - i,
{
    if i < j {
        lemma_items_grow::<T>(ms, i, j - 1);
        lemma_items_prefix::<T>(ms, j - 1);
    }
}

proof fn lemma_count_items_bounded<T: Encode>(ms: Seq<T::M>)
    ensures
        count_items::<T>(ms) <= encode_items::<T>(ms).len(),
    decreases ms.len(),
{
    if ms.len() > 0 {
        lemma_count_items_bounded::<T>(ms.drop_last());
        T::lemma_count_bounded(ms.last());
    }
}

/// Once decoding items has failed, decoding more of them fails the same way.
proof fn lemma_decode_items_fail<T: Decode>(s: Seq<u8>, j: nat, k: nat)
    requires
        j <= k,
        decode_items::<T>(s, j) is Err,
    ensures
        decode_items::<T>(s, k) == decode_items::<T>(s, j),
    decreases k,
{
    if j < k {
        lemma_decode_items_fail::<T>(s, j, (k - 1) as nat);
    }
}

proof fn lemma_decode_items_prefix<T: Decode>(s: Seq<u8>, t: Seq<u8>, k: nat)
    ensures
        decode_items::<T>(s, k) matches Ok((_, n)) ==> n <= s.len(),
        decode_items::<T>(s, k) != Err::<(Seq<T::M>, nat), Failure>(Failure::Truncated)
            ==> decode_items::<T>(s + t, k) == decode_items::<T>(s, k),
    decreases k,
{
    if k > 0 {
        lemma_decode_items_prefix::<T>(s, t, (k - 1) as nat);
        if let Ok((ms, n)) = decode_items::<T>(s, (k - 1) as nat) {
            assert((s + t).skip(n as int) =~= s.skip(n as int) + t);
            T::lemma_decode_prefix(s.skip(n as int), t);
        }
    }
}

proof fn lemma_decode_items_roundtrip<T: Codec>(ms: Seq<T::M>, rest: Seq<u8>)
    requires
        forall|i: int| 0 <= i < ms.len() ==> T::encodable(#[trigger] ms[i]),
    ensures
        decode_items::<T>(encode_items::<T>(ms) + rest, ms.len()) == Ok::<(Seq<T::M>, nat), Failure>(
            (ms, encode_items::<T>(ms).len()),
        ),
    decreases ms.len(),
{
    if ms.len() == 0 {
        assert(ms =~= Seq::<T::M>::empty());
    } else {
        let init = ms.drop_last();
        let e0 = encode_items::<T>(init);
        let e1 = T::spec_encode(ms.last());
        assert(encode_items::<T>(ms) + rest =~= e0 + (e1 + rest));
        assert forall|i: int| 0 <= i < init.len() implies T::encodable(#[trigger] init[i]) by {
            assert(init[i] == ms[i]);
        }
        lemma_decode_items_roundtrip::<T>(init, e1 + rest);
        assert((e0 + (e1 + rest)).skip(e0.len() as int) =~= e1 + rest);
        T::lemma_roundtrip(ms.last(), rest);
        assert(init.push(ms.last()) =~= ms);
    }
}

/// A vector is its length as a big-endian `u64` followed by its items. The count
/// returned is 8 plus the counts of the items.
impl<T: Encode> Encode for Vec<T> {
    open spec fn spec_encode(m: Seq<T::M>) -> Seq<u8> {
        be_bytes(m.len(), 8) + encode_items::<T>(m)
    }

    open spec fn spec_count(m: Seq<T::M>) -> nat {
        8 + count_items::<T>(m)
    }

    proof fn lemma_count_bounded(m: Seq<T::M>) {
        lemma_count_items_bounded::<T>(m);
        lemma_be_bytes_len(m.len(), 8);
    }

    fn encode(&self, out: &mut Vec<u8>) -> (n: usize) {
        let len = self.len();
        let ghost ms = self.model();
        let ghost head = old(out)@ + be_bytes(len as nat, 8);
        write_be(out, len as u128, 8);
        proof {
            lemma_be_bytes_len(len as nat, 8);
            assert(ms.take(0) =~= Seq::<T::M>::empty());
            assert(out@ =~= head + encode_items::<T>(ms.take(0)));
        }
        let mut total: usize = 8;
        let mut i: usize = 0;
        while i < len
            invariant
                i <= len,
                len == self@.len(),
                ms == self.model(),
                head == old(out)@ + be_bytes(len as nat, 8),
                head.len() == old(out)@.len() + 8,
                out@ == head + encode_items::<T>(ms.take(i as int)),
                total == 8 + count_items::<T>(ms.take(i as int)),
                old(out)@.len() + 8 + encode_items::<T>(ms).len() <= usize::MAX,
            decreases len - i,
        {
            proof {
                lemma_items_prefix::<T>(ms, i as int);
                lemma_items_grow::<T>(ms, i + 1, len as int);
                assert(ms.take(len as int) =~= ms);
                lemma_count_items_bounded::<T>(ms.take(i + 1));
            }
            let c = self[i].encode(out);
            total = total + c;
            i = i + 1;
            assert(out@ =~= head + encode_items::<T>(ms.take(i as int)));
        }
        proof {
            assert(ms.take(len as int) =~= ms);
            assert(out@ =~= old(out)@ + Self::spec_encode(ms));
        }
        total
    }
}

/// The length read is taken as a `usize`, truncated where `usize` is narrower than 64 bits.
impl<T: Decode> Decode for Vec<T> {
    open spec fn spec_decode(s: Seq<u8>) -> core::result::Result<(Seq<T::M>, nat), Failure> {
        if s.len() < 8 {
            Err(Failure::Truncated)
        } else {
            let k = (be_value(s.take(8)) as u64) as usize;
            match decode_items::<T>(s.skip(8), k as nat) {
                Ok((ms, n)) => Ok((ms, 8 + n)),
                Err(e) => Err(e),
            }
        }
    }

    proof fn lemma_decode_prefix(s: Seq<u8>, t: Seq<u8>) {
        if s.len() >= 8 {
            assert((s + t).take(8) =~= s.take(8));
            assert((s + t).skip(8) =~= s.skip(8) + t);
            let k = (be_value(s.take(8)) as u64) as usize;
            lemma_decode_items_prefix::<T>(s.skip(8), t, k as nat);
        }
    }

    fn decode(buf: &[u8], pos: usize) -> (r: Result<(Vec<T>, usize), Error>) {
        let (len, start) = match read_be(buf, pos, 8) {
            Some(found) => found,
            None => {
                return Err(truncated());
            },
        };
        proof {
            lemma_pow256_values();
            assert(buf@.skip(pos as int).take(8) =~= buf@.subrange(pos as int, pos + 8));
            assert(buf@.skip(pos as int).skip(8) =~= buf@.skip(start as int));
        }
        let k = (len as u64) as usize;
        let ghost s = buf@.skip(start as int);
        let mut items: Vec<T> = Vec::new();
        let mut cur = start;
        let mut i: usize = 0;
        proof {
            assert(items.model() =~= Seq::<T::M>::empty());
        }
        while i < k
            invariant
                i <= k,
                start <= cur <= buf@.len(),
                s == buf@.skip(start as int),
                s == buf@.skip(pos as int).skip(8),
                buf@.skip(pos as int).len() >= 8,
                k == (be_value(buf@.skip(pos as int).take(8)) as u64) as usize,
                decode_items::<T>(s, i as nat) == Ok::<(Seq<T::M>, nat), Failure>(
                    (items.model(), (cur - start) as nat),
                ),
            decreases k - i,
        {
            proof {
                assert(buf@.skip(cur as int) =~= s.skip(cur - start));
                T::lemma_decode_prefix(buf@.skip(cur as int), Seq::empty());
            }
            match T::decode(buf, cur) {
                Ok((v, next)) => {
                    let ghost before = items.model();
                    items.push(v);
                    proof {
                        assert(items.model() =~= before.push(v.model()));
                    }
                    cur = next;
                    i = i + 1;
                },
                Err(e) => {
                    proof {
                        assert(s.skip(cur - start) =~= buf@.skip(cur as int));
                        assert(T::spec_decode(buf@.skip(cur as int)) matches Err(f)
                            && decode_items::<T>(s, (i + 1) as nat) == Err::<
                            (Seq<T::M>, nat),
                            Failure,
                        >(f));
                        lemma_decode_items_fail::<T>(s, (i + 1) as nat, k as nat);
                    }
                    return Err(e);
                },
            }
        }
        Ok((items, cur))
    }
}

impl<T: Codec> Codec for Vec<T> {
    open spec fn encodable(m: Seq<T::M>) -> bool {
        &&& m.len() <= usize::MAX
        &&& forall|i: int| 0 <= i < m.len() ==> T::encodable(#[trigger] m[i])
    }

    proof fn lemma_roundtrip(m: Seq<T::M>, rest: Seq<u8>) {
        lemma_pow256_values();
        lemma_be_roundtrip(m.len(), 8);
        let h = be_bytes(m.len(), 8);
        let body = encode_items::<T>(m);
        let s = h + body + rest;
        assert(s.take(8) =~= h);
        assert(s.skip(8) =~= body + rest);
        lemma_decode_items_roundtrip::<T>(m, rest);
    }
}

} // verus!
