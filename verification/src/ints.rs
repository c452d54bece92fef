//! Integers travel as their big-endian bytes: unsigned ones as they are, signed ones
//! in two's complement, each in exactly as many bytes as the type is wide.
use vstd::prelude::*;
use crate::bytes::{
    be_bytes, be_value, lemma_be_bytes_len, lemma_be_roundtrip, lemma_pow256_values, read_be,
    write_be,
};
use crate::codec::{Codec, Decode, Encode, Failure, Model};
use crate::error::{truncated, Error};

verus! {

impl Model for u8 {
    type M = u8;

    open spec fn model(&self) -> u8 {
        *self
    }
}

impl Encode for u8 {
    open spec fn spec_encode(m: u8) -> Seq<u8> {
        be_bytes(m as nat, 1)
    }

    open spec fn spec_count(m: u8) -> nat {
        1
    }

    proof fn lemma_count_bounded(m: u8) {
        lemma_be_bytes_len(m as nat, 1);
    }

    fn encode(&self, out: &mut Vec<u8>) -> (n: usize) {
        write_be(out, *self as u128, 1);
        1
    }
}

impl Decode for u8 {
    open spec fn spec_decode(s: Seq<u8>) -> core::result::Result<(u8, nat), Failure> {
        if s.len() < 1 {
            Err(Failure::Truncated)
        } else {
            Ok((be_value(s.take(1)) as u8, 1))
        }
    }

    proof fn lemma_decode_prefix(s: Seq<u8>, t: Seq<u8>) {
        if s.len() >= 1 {
            assert((s + t).take(1) =~= s.take(1));
        }
    }

    fn decode(buf: &[u8], pos: usize) -> (r: Result<(u8, usize), Error>) {
        match read_be(buf, pos, 1) {
            Some((v, end)) => {
                proof {
                    lemma_pow256_values();
                }
                assert(buf@.skip(pos as int).take(1) =~= buf@.subrange(pos as int, pos + 1));
                Ok((v as u8, end))
            },
            None => Err(truncated()),
        }
    }
}

impl Codec for u8 {
    open spec fn encodable(m: u8) -> bool {
        true
    }

    proof fn lemma_roundtrip(m: u8, rest: Seq<u8>) {
        lemma_pow256_values();
        lemma_be_roundtrip(m as nat, 1);
        assert((be_bytes(m as nat, 1) + rest).take(1) =~= be_bytes(m as nat, 1));
    }
}

impl Model for u16 {
    type M = u16;

    open spec fn model(&self) -> u16 {
        *self
    }
}

impl Encode for u16 {
    open spec fn spec_encode(m: u16) -> Seq<u8> {
        be_bytes(m as nat, 2)
    }

    open spec fn spec_count(m: u16) -> nat {
        2
    }

    proof fn lemma_count_bounded(m: u16) {
        lemma_be_bytes_len(m as nat, 2);
    }

    fn encode(&self, out: &mut Vec<u8>) -> (n: usize) {
        write_be(out, *self as u128, 2);
        2
    }
}

impl Decode for u16 {
    open spec fn spec_decode(s: Seq<u8>) -> core::result::Result<(u16, nat), Failure> {
        if s.len() < 2 {
            Err(Failure::Truncated)
        } else {
            Ok((be_value(s.take(2)) as u16, 2))
        }
    }

    proof fn lemma_decode_prefix(s: Seq<u8>, t: Seq<u8>) {
        if s.len() >= 2 {
            assert((s + t).take(2) =~= s.take(2));
        }
    }

    fn decode(buf: &[u8], pos: usize) -> (r: Result<(u16, usize), Error>) {
        match read_be(buf, pos, 2) {
            Some((v, end)) => {
                proof {
                    lemma_pow256_values();
                }
                assert(buf@.skip(pos as int).take(2) =~= buf@.subrange(pos as int, pos + 2));
                Ok((v as u16, end))
            },
            None => Err(truncated()),
        }
    }
}

impl Codec for u16 {
    open spec fn encodable(m: u16) -> bool {
        true
    }

    proof fn lemma_roundtrip(m: u16, rest: Seq<u8>) {
        lemma_pow256_values();
        lemma_be_roundtrip(m as nat, 2);
        assert((be_bytes(m as nat, 2) + rest).take(2) =~= be_bytes(m as nat, 2));
    }
}

impl Model for u32 {
    type M = u32;

    open spec fn model(&self) -> u32 {
        *self
    }
}

impl Encode for u32 {
    open spec fn spec_encode(m: u32) -> Seq<u8> {
        be_bytes(m as nat, 4)
    }

    open spec fn spec_count(m: u32) -> nat {
        4
    }

    proof fn lemma_count_bounded(m: u32) {
        lemma_be_bytes_len(m as nat, 4);
    }

    fn encode(&self, out: &mut Vec<u8>) -> (n: usize) {
        write_be(out, *self as u128, 4);
        4
    }
}

impl Decode for u32 {
    open spec fn spec_decode(s: Seq<u8>) -> core::result::Result<(u32, nat), Failure> {
        if s.len() < 4 {
            Err(Failure::Truncated)
        } else {
            Ok((be_value(s.take(4)) as u32, 4))
        }
    }

    proof fn lemma_decode_prefix(s: Seq<u8>, t: Seq<u8>) {
        if s.len() >= 4 {
            assert((s + t).take(4) =~= s.take(4));
        }
    }

    fn decode(buf: &[u8], pos: usize) -> (r: Result<(u32, usize), Error>) {
        match read_be(buf, pos, 4) {
            Some((v, end)) => {
                proof {
                    lemma_pow256_values();
                }
                assert(buf@.skip(pos as int).take(4) =~= buf@.subrange(pos as int, pos + 4));
                Ok((v as u32, end))
            },
            None => Err(truncated()),
        }
    }
}

impl Codec for u32 {
    open spec fn encodable(m: u32) -> bool {
        true
    }

    proof fn lemma_roundtrip(m: u32, rest: Seq<u8>) {
        lemma_pow256_values();
        lemma_be_roundtrip(m as nat, 4);
        assert((be_bytes(m as nat, 4) + rest).take(4) =~= be_bytes(m as nat, 4));
    }
}

impl Model for u64 {
    type M = u64;

    open spec fn model(&self) -> u64 {
        *self
    }
}

impl Encode for u64 {
    open spec fn spec_encode(m: u64) -> Seq<u8> {
        be_bytes(m as nat, 8)
    }

    open spec fn spec_count(m: u64) -> nat {
        8
    }

    proof fn lemma_count_bounded(m: u64) {
        lemma_be_bytes_len(m as nat, 8);
    }

    fn encode(&self, out: &mut Vec<u8>) -> (n: usize) {
        write_be(out, *self as u128, 8);
        8
    }
}

impl Decode for u64 {
    open spec fn spec_decode(s: Seq<u8>) -> core::result::Result<(u64, nat), Failure> {
        if s.len() < 8 {
            Err(Failure::Truncated)
        } else {
            Ok((be_value(s.take(8)) as u64, 8))
        }
    }

    proof fn lemma_decode_prefix(s: Seq<u8>, t: Seq<u8>) {
        if s.len() >= 8 {
            assert((s + t).take(8) =~= s.take(8));
        }
    }

    fn decode(buf: &[u8], pos: usize) -> (r: Result<(u64, usize), Error>) {
        match read_be(buf, pos, 8) {
            Some((v, end)) => {
                proof {
                    lemma_pow256_values();
                }
                assert(buf@.skip(pos as int).take(8) =~= buf@.subrange(pos as int, pos + 8));
                Ok((v as u64, end))
            },
            None => Err(truncated()),
        }
    }
}

impl Codec for u64 {
    open spec fn encodable(m: u64) -> bool {
        true
    }

    proof fn lemma_roundtrip(m: u64, rest: Seq<u8>) {
        lemma_pow256_values();
        lemma_be_roundtrip(m as nat, 8);
        assert((be_bytes(m as nat, 8) + rest).take(8) =~= be_bytes(m as nat, 8));
    }
}

impl Model for u128 {
    type M = u128;

    open spec fn model(&self) -> u128 {
        *self
    }
}

impl Encode for u128 {
    open spec fn spec_encode(m: u128) -> Seq<u8> {
        be_bytes(m as nat, 16)
    }

    open spec fn spec_count(m: u128) -> nat {
        16
    }

    proof fn lemma_count_bounded(m: u128) {
        lemma_be_bytes_len(m as nat, 16);
    }

    fn encode(&self, out: &mut Vec<u8>) -> (n: usize) {
        write_be(out, *self as u128, 16);
        16
    }
}

impl Decode for u128 {
    open spec fn spec_decode(s: Seq<u8>) -> core::result::Result<(u128, nat), Failure> {
        if s.len() < 16 {
            Err(Failure::Truncated)
        } else {
            Ok((be_value(s.take(16)) as u128, 16))
        }
    }

    proof fn lemma_decode_prefix(s: Seq<u8>, t: Seq<u8>) {
        if s.len() >= 16 {
            assert((s + t).take(16) =~= s.take(16));
        }
    }

    fn decode(buf: &[u8], pos: usize) -> (r: Result<(u128, usize), Error>) {
        match read_be(buf, pos, 16) {
            Some((v, end)) => {
                proof {
                    lemma_pow256_values();
                }
                assert(buf@.skip(pos as int).take(16) =~= buf@.subrange(pos as int, pos + 16));
                Ok((v as u128, end))
            },
            None => Err(truncated()),
        }
    }
}

impl Codec for u128 {
    open spec fn encodable(m: u128) -> bool {
        true
    }

    proof fn lemma_roundtrip(m: u128, rest: Seq<u8>) {
        lemma_pow256_values();
        lemma_be_roundtrip(m as nat, 16);
        assert((be_bytes(m as nat, 16) + rest).take(16) =~= be_bytes(m as nat, 16));
    }
}

impl Model for i8 {
    type M = i8;

    open spec fn model(&self) -> i8 {
        *self
    }
}

impl Encode for i8 {
    open spec fn spec_encode(m: i8) -> Seq<u8> {
        be_bytes((m as u8) as nat, 1)
    }

    open spec fn spec_count(m: i8) -> nat {
        1
    }

    proof fn lemma_count_bounded(m: i8) {
        lemma_be_bytes_len((m as u8) as nat, 1);
    }

    fn encode(&self, out: &mut Vec<u8>) -> (n: usize) {
        write_be(out, (*self as u8) as u128, 1);
        1
    }
}

impl Decode for i8 {
    open spec fn spec_decode(s: Seq<u8>) -> core::result::Result<(i8, nat), Failure> {
        if s.len() < 1 {
            Err(Failure::Truncated)
        } else {
            Ok(((be_value(s.take(1)) as u8) as i8, 1))
        }
    }

    proof fn lemma_decode_prefix(s: Seq<u8>, t: Seq<u8>) {
        if s.len() >= 1 {
            assert((s + t).take(1) =~= s.take(1));
        }
    }

    fn decode(buf: &[u8], pos: usize) -> (r: Result<(i8, usize), Error>) {
        match read_be(buf, pos, 1) {
            Some((v, end)) => {
                proof {
                    lemma_pow256_values();
                }
                assert(buf@.skip(pos as int).take(1) =~= buf@.subrange(pos as int, pos + 1));
                Ok(((v as u8) as i8, end))
            },
            None => Err(truncated()),
        }
    }
}

impl Codec for i8 {
    open spec fn encodable(m: i8) -> bool {
        true
    }

    proof fn lemma_roundtrip(m: i8, rest: Seq<u8>) {
        lemma_pow256_values();
        lemma_be_roundtrip((m as u8) as nat, 1);
        assert((be_bytes((m as u8) as nat, 1) + rest).take(1) =~= be_bytes((m as u8) as nat, 1));
        assert(((m as u8) as i8) == m) by (bit_vector);
    }
}

impl Model for i16 {
    type M = i16;

    open spec fn model(&self) -> i16 {
        *self
    }
}

impl Encode for i16 {
    open spec fn spec_encode(m: i16) -> Seq<u8> {
        be_bytes((m as u16) as nat, 2)
    }

    open spec fn spec_count(m: i16) -> nat {
        2
    }

    proof fn lemma_count_bounded(m: i16) {
        lemma_be_bytes_len((m as u16) as nat, 2);
    }

    fn encode(&self, out: &mut Vec<u8>) -> (n: usize) {
        write_be(out, (*self as u16) as u128, 2);
        2
    }
}

impl Decode for i16 {
    open spec fn spec_decode(s: Seq<u8>) -> core::result::Result<(i16, nat), Failure> {
        if s.len() < 2 {
            Err(Failure::Truncated)
        } else {
            Ok(((be_value(s.take(2)) as u16) as i16, 2))
        }
    }

    proof fn lemma_decode_prefix(s: Seq<u8>, t: Seq<u8>) {
        if s.len() >= 2 {
            assert((s + t).take(2) =~= s.take(2));
        }
    }

    fn decode(buf: &[u8], pos: usize) -> (r: Result<(i16, usize), Error>) {
        match read_be(buf, pos, 2) {
            Some((v, end)) => {
                proof {
                    lemma_pow256_values();
                }
                assert(buf@.skip(pos as int).take(2) =~= buf@.subrange(pos as int, pos + 2));
                Ok(((v as u16) as i16, end))
            },
            None => Err(truncated()),
        }
    }
}

impl Codec for i16 {
    open spec fn encodable(m: i16) -> bool {
        true
    }

    proof fn lemma_roundtrip(m: i16, rest: Seq<u8>) {
        lemma_pow256_values();
        lemma_be_roundtrip((m as u16) as nat, 2);
        assert((be_bytes((m as u16) as nat, 2) + rest).take(2) =~= be_bytes((m as u16) as nat, 2));
        assert(((m as u16) as i16) == m) by (bit_vector);
    }
}

impl Model for i32 {
    type M = i32;

    open spec fn model(&self) -> i32 {
        *self
    }
}

impl Encode for i32 {
    open spec fn spec_encode(m: i32) -> Seq<u8> {
        be_bytes((m as u32) as nat, 4)
    }

    open spec fn spec_count(m: i32) -> nat {
        4
    }

    proof fn lemma_count_bounded(m: i32) {
        lemma_be_bytes_len((m as u32) as nat, 4);
    }

    fn encode(&self, out: &mut Vec<u8>) -> (n: usize) {
        write_be(out, (*self as u32) as u128, 4);
        4
    }
}

impl Decode for i32 {
    open spec fn spec_decode(s: Seq<u8>) -> core::result::Result<(i32, nat), Failure> {
        if s.len() < 4 {
            Err(Failure::Truncated)
        } else {
            Ok(((be_value(s.take(4)) as u32) as i32, 4))
        }
    }

    proof fn lemma_decode_prefix(s: Seq<u8>, t: Seq<u8>) {
        if s.len() >= 4 {
            assert((s + t).take(4) =~= s.take(4));
        }
    }

    fn decode(buf: &[u8], pos: usize) -> (r: Result<(i32, usize), Error>) {
        match read_be(buf, pos, 4) {
            Some((v, end)) => {
                proof {
                    lemma_pow256_values();
                }
                assert(buf@.skip(pos as int).take(4) =~= buf@.subrange(pos as int, pos + 4));
                Ok(((v as u32) as i32, end))
            },
            None => Err(truncated()),
        }
    }
}

impl Codec for i32 {
    open spec fn encodable(m: i32) -> bool {
        true
    }

    proof fn lemma_roundtrip(m: i32, rest: Seq<u8>) {
        lemma_pow256_values();
        lemma_be_roundtrip((m as u32) as nat, 4);
        assert((be_bytes((m as u32) as nat, 4) + rest).take(4) =~= be_bytes((m as u32) as nat, 4));
        assert(((m as u32) as i32) == m) by (bit_vector);
    }
}

impl Model for i64 {
    type M = i64;

    open spec fn model(&self) -> i64 {
        *self
    }
}

impl Encode for i64 {
    open spec fn spec_encode(m: i64) -> Seq<u8> {
        be_bytes((m as u64) as nat, 8)
    }

    open spec fn spec_count(m: i64) -> nat {
        8
    }

    proof fn lemma_count_bounded(m: i64) {
        lemma_be_bytes_len((m as u64) as nat, 8);
    }

    fn encode(&self, out: &mut Vec<u8>) -> (n: usize) {
        write_be(out, (*self as u64) as u128, 8);
        8
    }
}

impl Decode for i64 {
    open spec fn spec_decode(s: Seq<u8>) -> core::result::Result<(i64, nat), Failure> {
        if s.len() < 8 {
            Err(Failure::Truncated)
        } else {
            Ok(((be_value(s.take(8)) as u64) as i64, 8))
        }
    }

    proof fn lemma_decode_prefix(s: Seq<u8>, t: Seq<u8>) {
        if s.len() >= 8 {
            assert((s + t).take(8) =~= s.take(8));
        }
    }

    fn decode(buf: &[u8], pos: usize) -> (r: Result<(i64, usize), Error>) {
        match read_be(buf, pos, 8) {
            Some((v, end)) => {
                proof {
                    lemma_pow256_values();
                }
                assert(buf@.skip(pos as int).take(8) =~= buf@.subrange(pos as int, pos + 8));
                Ok(((v as u64) as i64, end))
            },
            None => Err(truncated()),
        }
    }
}

impl Codec for i64 {
    open spec fn encodable(m: i64) -> bool {
        true
    }

    proof fn lemma_roundtrip(m: i64, rest: Seq<u8>) {
        lemma_pow256_values();
        lemma_be_roundtrip((m as u64) as nat, 8);
        assert((be_bytes((m as u64) as nat, 8) + rest).take(8) =~= be_bytes((m as u64) as nat, 8));
        assert(((m as u64) as i64) == m) by (bit_vector);
    }
}

impl Model for i128 {
    type M = i128;

    open spec fn model(&self) -> i128 {
        *self
    }
}

impl Encode for i128 {
    open spec fn spec_encode(m: i128) -> Seq<u8> {
        be_bytes((m as u128) as nat, 16)
    }

    open spec fn spec_count(m: i128) -> nat {
        16
    }

    proof fn lemma_count_bounded(m: i128) {
        lemma_be_bytes_len((m as u128) as nat, 16);
    }

    fn encode(&self, out: &mut Vec<u8>) -> (n: usize) {
        write_be(out, (*self as u128) as u128, 16);
        16
    }
}

impl Decode for i128 {
    open spec fn spec_decode(s: Seq<u8>) -> core::result::Result<(i128, nat), Failure> {
        if s.len() < 16 {
            Err(Failure::Truncated)
        } else {
            Ok(((be_value(s.take(16)) as u128) as i128, 16))
        }
    }

    proof fn lemma_decode_prefix(s: Seq<u8>, t: Seq<u8>) {
        if s.len() >= 16 {
            assert((s + t).take(16) =~= s.take(16));
        }
    }

    fn decode(buf: &[u8], pos: usize) -> (r: Result<(i128, usize), Error>) {
        match read_be(buf, pos, 16) {
            Some((v, end)) => {
                proof {
                    lemma_pow256_values();
                }
                assert(buf@.skip(pos as int).take(16) =~= buf@.subrange(pos as int, pos + 16));
                Ok(((v as u128) as i128, end))
            },
            None => Err(truncated()),
        }
    }
}

impl Codec for i128 {
    open spec fn encodable(m: i128) -> bool {
        true
    }

    proof fn lemma_roundtrip(m: i128, rest: Seq<u8>) {
        lemma_pow256_values();
        lemma_be_roundtrip((m as u128) as nat, 16);
        assert((be_bytes((m as u128) as nat, 16) + rest).take(16) =~= be_bytes((m as u128) as nat, 16));
        assert(((m as u128) as i128) == m) by (bit_vector);
    }
}

/// The width of `usize` and `isize` in bytes: 4 or 8 depending on the target.
pub open spec fn word_bytes() -> nat {
    (usize::BITS / 8) as nat
}

pub proof fn lemma_word_bytes_facts()
    ensures
        word_bytes() == 4 || word_bytes() == 8,
        word_bytes() == 4 ==> usize::MAX == 0xffff_ffff,
        word_bytes() == 8 ==> usize::MAX == 0xffff_ffff_ffff_ffff,
{
}

fn exec_word_bytes() -> (n: usize)
    ensures
        n == word_bytes(),
{
    (usize::BITS / 8) as usize
}

impl Model for usize {
    type M = usize;

    open spec fn model(&self) -> usize {
        *self
    }
}

impl Encode for usize {
    open spec fn spec_encode(m: usize) -> Seq<u8> {
        be_bytes(m as nat, word_bytes())
    }

    open spec fn spec_count(m: usize) -> nat {
        word_bytes()
    }

    proof fn lemma_count_bounded(m: usize) {
        lemma_be_bytes_len(m as nat, word_bytes());
    }

    fn encode(&self, out: &mut Vec<u8>) -> (n: usize) {
        let n = exec_word_bytes();
        proof {
            lemma_word_bytes_facts();
        }
        write_be(out, *self as u128, n);
        n
    }
}

impl Decode for usize {
    open spec fn spec_decode(s: Seq<u8>) -> core::result::Result<(usize, nat), Failure> {
        if s.len() < word_bytes() {
            Err(Failure::Truncated)
        } else {
            Ok((be_value(s.take(word_bytes() as int)) as usize, word_bytes()))
        }
    }

    proof fn lemma_decode_prefix(s: Seq<u8>, t: Seq<u8>) {
        if s.len() >= word_bytes() {
            assert((s + t).take(word_bytes() as int) =~= s.take(word_bytes() as int));
        }
    }

    fn decode(buf: &[u8], pos: usize) -> (r: Result<(usize, usize), Error>) {
        let n = exec_word_bytes();
        proof {
            lemma_word_bytes_facts();
        }
        match read_be(buf, pos, n) {
            Some((v, end)) => {
                proof {
                    lemma_pow256_values();
                }
                assert(buf@.skip(pos as int).take(n as int) =~= buf@.subrange(pos as int, pos + n));
                Ok((v as usize, end))
            },
            None => Err(truncated()),
        }
    }
}

impl Codec for usize {
    open spec fn encodable(m: usize) -> bool {
        true
    }

    proof fn lemma_roundtrip(m: usize, rest: Seq<u8>) {
        lemma_pow256_values();
        lemma_word_bytes_facts();
        lemma_be_roundtrip(m as nat, word_bytes());
        assert((be_bytes(m as nat, word_bytes()) + rest).take(word_bytes() as int) =~= be_bytes(
            m as nat,
            word_bytes(),
        ));
    }
}

impl Model for isize {
    type M = isize;

    open spec fn model(&self) -> isize {
        *self
    }
}

impl Encode for isize {
    open spec fn spec_encode(m: isize) -> Seq<u8> {
        be_bytes((m as usize) as nat, word_bytes())
    }

    open spec fn spec_count(m: isize) -> nat {
        word_bytes()
    }

    proof fn lemma_count_bounded(m: isize) {
        lemma_be_bytes_len((m as usize) as nat, word_bytes());
    }

    fn encode(&self, out: &mut Vec<u8>) -> (n: usize) {
        let n = exec_word_bytes();
        proof {
            lemma_word_bytes_facts();
        }
        write_be(out, (*self as usize) as u128, n);
        n
    }
}

impl Decode for isize {
    open spec fn spec_decode(s: Seq<u8>) -> core::result::Result<(isize, nat), Failure> {
        if s.len() < word_bytes() {
            Err(Failure::Truncated)
        } else {
            Ok(((be_value(s.take(word_bytes() as int)) as usize) as isize, word_bytes()))
        }
    }

    proof fn lemma_decode_prefix(s: Seq<u8>, t: Seq<u8>) {
        if s.len() >= word_bytes() {
            assert((s + t).take(word_bytes() as int) =~= s.take(word_bytes() as int));
        }
    }

    fn decode(buf: &[u8], pos: usize) -> (r: Result<(isize, usize), Error>) {
        let n = exec_word_bytes();
        proof {
            lemma_word_bytes_facts();
        }
        match read_be(buf, pos, n) {
            Some((v, end)) => {
                proof {
                    lemma_pow256_values();
                }
                assert(buf@.skip(pos as int).take(n as int) =~= buf@.subrange(pos as int, pos + n));
                Ok(((v as usize) as isize, end))
            },
            None => Err(truncated()),
        }
    }
}

impl Codec for isize {
    open spec fn encodable(m: isize) -> bool {
        true
    }

    proof fn lemma_roundtrip(m: isize, rest: Seq<u8>) {
        lemma_pow256_values();
        lemma_word_bytes_facts();
        lemma_be_roundtrip((m as usize) as nat, word_bytes());
        assert((be_bytes((m as usize) as nat, word_bytes()) + rest).take(word_bytes() as int)
            =~= be_bytes((m as usize) as nat, word_bytes()));
        assert(((m as usize) as isize) == m) by (bit_vector);
    }
}

} // verus!
