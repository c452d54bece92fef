//! Strings travel as their UTF-8 bytes behind a big-endian `u16` byte count.
use vstd::prelude::*;
use vstd::slice::slice_subrange;
use vstd::utf8::{decode_utf8, encode_utf8, encode_utf8_decode_utf8, encode_utf8_valid_utf8, valid_utf8};
use crate::bytes::{
    be_bytes, be_value, lemma_be_bytes_len, lemma_be_roundtrip, lemma_pow256_values, read_be,
    write_be,
};
use crate::codec::{Codec, Decode, Encode, Failure, Model};
use crate::error::{truncated, Error};

verus! {

/// What `String::from_utf8_lossy` makes of the bytes `bytes`: the characters they
/// encode, with each invalid sequence replaced by U+FFFD.
pub uninterp spec fn utf8_lossy(bytes: Seq<u8>) -> Seq<char>;

/// The text that the bytes `bytes` are read as: their characters where they are valid
/// UTF-8, and otherwise what lossy conversion makes of them.
pub open spec fn text_of(bytes: Seq<u8>) -> Seq<char> {
    if valid_utf8(bytes) {
        decode_utf8(bytes)
    } else {
        utf8_lossy(bytes)
    }
}

/// Calls `String::from_utf8_lossy` and takes the result as an owned `String`. The
/// contract claims that the result is a function of the bytes alone, and, as the
/// documentation states, that valid UTF-8 is taken as it is. What replaces invalid
/// sequences is left unstated.
#[verifier::external_body]
fn string_from_utf8_lossy(bytes: &[u8]) -> (s: String)
    ensures
        s@ == utf8_lossy(bytes@),
        valid_utf8(bytes@) ==> s@ == decode_utf8(bytes@),
{
    String::from_utf8_lossy(bytes).into_owned()
}

impl Model for String {
    type M = Seq<char>;

    open spec fn model(&self) -> Seq<char> {
        self@
    }
}

/// A string is its UTF-8 byte count, as a big-endian `u16`, followed by the bytes.
/// The count is taken modulo 65536: a string of more than 65535 bytes is written
/// with a count that does not match it. The count returned is 2 plus the byte count.
impl Encode for String {
    open spec fn spec_encode(m: Seq<char>) -> Seq<u8> {
        be_bytes(encode_utf8(m).len() % 0x1_0000, 2) + encode_utf8(m)
    }

    open spec fn spec_count(m: Seq<char>) -> nat {
        2 + encode_utf8(m).len()
    }

    proof fn lemma_count_bounded(m: Seq<char>) {
        lemma_be_bytes_len(encode_utf8(m).len() % 0x1_0000, 2);
    }

    fn encode(&self, out: &mut Vec<u8>) -> (n: usize) {
        let bytes = self.as_str().as_bytes();
        let len = bytes.len();
        proof {
            lemma_be_bytes_len(len as nat % 0x1_0000, 2);
        }
        write_be(out, (len % 0x1_0000) as u128, 2);
        let ghost head = out@;
        let mut i: usize = 0;
        while i < len
            invariant
                i <= len,
                len == bytes@.len(),
                out@ == head + bytes@.take(i as int),
            decreases len - i,
        {
            out.push(bytes[i]);
            i = i + 1;
            assert(out@ =~= head + bytes@.take(i as int));
        }
        assert(bytes@.take(len as int) =~= bytes@);
        assert(out@ =~= old(out)@ + Self::spec_encode(self@));
        2 + len
    }
}

/// Bytes that are not valid UTF-8 are read as lossy conversion makes them.
impl Decode for String {
    open spec fn spec_decode(s: Seq<u8>) -> core::result::Result<(Seq<char>, nat), Failure> {
        if s.len() < 2 {
            Err(Failure::Truncated)
        } else {
            let n = be_value(s.take(2));
            if s.len() < 2 + n {
                Err(Failure::Truncated)
            } else {
                Ok((text_of(s.subrange(2, 2 + n as int)), 2 + n))
            }
        }
    }

    proof fn lemma_decode_prefix(s: Seq<u8>, t: Seq<u8>) {
        if s.len() >= 2 {
            assert((s + t).take(2) =~= s.take(2));
            let n = be_value(s.take(2));
            if s.len() >= 2 + n {
                assert((s + t).subrange(2, 2 + n as int) =~= s.subrange(2, 2 + n as int));
            }
        }
    }

    fn decode(buf: &[u8], pos: usize) -> (r: Result<(String, usize), Error>) {
        let (n, start) = match read_be(buf, pos, 2) {
            Some(found) => found,
            None => {
                return Err(truncated());
            },
        };
        proof {
            lemma_pow256_values();
            assert(buf@.skip(pos as int).take(2) =~= buf@.subrange(pos as int, pos + 2));
        }
        let n = n as usize;
        if n > buf.len() - start {
            return Err(truncated());
        }
        let bytes = slice_subrange(buf, start, start + n);
        let text = string_from_utf8_lossy(bytes);
        assert(bytes@ =~= buf@.skip(pos as int).subrange(2, 2 + n as int));
        Ok((text, start + n))
    }
}

impl Codec for String {
    /// Strings of at most 65535 bytes.
    open spec fn encodable(m: Seq<char>) -> bool {
        encode_utf8(m).len() < 0x1_0000
    }

    proof fn lemma_roundtrip(m: Seq<char>, rest: Seq<u8>) {
        let b = encode_utf8(m);
        lemma_pow256_values();
        vstd::arithmetic::div_mod::lemma_small_mod(b.len(), 0x1_0000);
        lemma_be_roundtrip(b.len(), 2);
        let s = be_bytes(b.len(), 2) + b + rest;
        assert(s.take(2) =~= be_bytes(b.len(), 2));
        assert(s.subrange(2, 2 + b.len() as int) =~= b);
        encode_utf8_valid_utf8(m);
        encode_utf8_decode_utf8(m);
    }
}

} // verus!
