//! A struct and an enum encoded field by field, as the derives lay them out: a struct
//! is its fields in order; an enum variant is its discriminant byte followed by its
//! fields. `Shape` tags `Rectangle` with 100; the other variants keep their positions.
use vstd::prelude::*;
use crate::codec::{Codec, Decode, Encode, Failure, Model};
use crate::error::{truncated, Error};

verus! {

#[derive(Debug, Clone, Copy, PartialEq, Eq, Structural)]
pub struct Point {
    pub x: i32,
    pub y: i32,
}

#[derive(Debug, Clone, Copy, PartialEq, Eq, Structural)]
pub enum Shape {
    Circle { radius: u32 },
    Rectangle(u32, u32),
    Point(Point),
    Empty,
}

impl Model for Point {
    type M = Point;

    open spec fn model(&self) -> Point {
        *self
    }
}

/// `x` then `y`; the count returned is the sum of theirs, 8.
impl Encode for Point {
    open spec fn spec_encode(m: Point) -> Seq<u8> {
        i32::spec_encode(m.x) + i32::spec_encode(m.y)
    }

    open spec fn spec_count(m: Point) -> nat {
        i32::spec_count(m.x) + i32::spec_count(m.y)
    }

    proof fn lemma_count_bounded(m: Point) {
        i32::lemma_count_bounded(m.x);
        i32::lemma_count_bounded(m.y);
    }

    fn encode(&self, out: &mut Vec<u8>) -> (n: usize) {
        proof {
            i32::lemma_count_bounded(self.x);
            i32::lemma_count_bounded(self.y);
        }
        let mut total: usize = 0;
        total = total + self.x.encode(out);
        total = total + self.y.encode(out);
        assert(final(out)@ =~= old(out)@ + Self::spec_encode(*self));
        total
    }
}

impl Decode for Point {
    open spec fn spec_decode(s: Seq<u8>) -> core::result::Result<(Point, nat), Failure> {
        match i32::spec_decode(s) {
            Ok((x, n)) => match i32::spec_decode(s.skip(n as int)) {
                Ok((y, k)) => Ok((Point { x, y }, n + k)),
                Err(e) => Err(e),
            },
            Err(e) => Err(e),
        }
    }

    proof fn lemma_decode_prefix(s: Seq<u8>, t: Seq<u8>) {
        i32::lemma_decode_prefix(s, t);
        if let Ok((x, n)) = i32::spec_decode(s) {
            assert((s + t).skip(n as int) =~= s.skip(n as int) + t);
            i32::lemma_decode_prefix(s.skip(n as int), t);
        }
    }

    fn decode(buf: &[u8], pos: usize) -> (r: Result<(Point, usize), Error>) {
        let (x, mid) = match i32::decode(buf, pos) {
            Ok(found) => found,
            Err(e) => {
                return Err(e);
            },
        };
        assert(buf@.skip(mid as int) =~= buf@.skip(pos as int).skip(mid - pos));
        let (y, end) = match i32::decode(buf, mid) {
            Ok(found) => found,
            Err(e) => {
                return Err(e);
            },
        };
        Ok((Point { x, y }, end))
    }
}

impl Codec for Point {
    open spec fn encodable(m: Point) -> bool {
        true
    }

    proof fn lemma_roundtrip(m: Point, rest: Seq<u8>) {
        let ex = i32::spec_encode(m.x);
        let ey = i32::spec_encode(m.y);
        assert(ex + ey + rest =~= ex + (ey + rest));
        i32::lemma_roundtrip(m.x, ey + rest);
        assert((ex + (ey + rest)).skip(ex.len() as int) =~= ey + rest);
        i32::lemma_roundtrip(m.y, rest);
    }
}

impl Model for Shape {
    type M = Shape;

    open spec fn model(&self) -> Shape {
        *self
    }
}

/// The discriminant byte of each variant of `Shape`.
pub open spec fn shape_discriminant(m: Shape) -> u8 {
    match m {
        Shape::Circle { .. } => 0,
        Shape::Rectangle(..) => 100,
        Shape::Point(..) => 2,
        Shape::Empty => 3,
    }
}

/// A discriminant byte is encoded as itself.
proof fn lemma_discriminant_bytes(d: u8)
    ensures
        u8::spec_encode(d) == seq![d],
{
    crate::bytes::lemma_pow256_values();
    crate::bytes::lemma_be_roundtrip(d as nat, 1);
    assert(u8::spec_encode(d) =~= seq![d]);
}

/// The discriminant byte followed by the fields; the count returned is 1 for the
/// discriminant plus the counts of the fields.
impl Encode for Shape {
    open spec fn spec_encode(m: Shape) -> Seq<u8> {
        seq![shape_discriminant(m)] + match m {
            Shape::Circle { radius } => u32::spec_encode(radius),
            Shape::Rectangle(w, h) => u32::spec_encode(w) + u32::spec_encode(h),
            Shape::Point(p) => Point::spec_encode(p),
            Shape::Empty => Seq::empty(),
        }
    }

    open spec fn spec_count(m: Shape) -> nat {
        1 + match m {
            Shape::Circle { radius } => u32::spec_count(radius),
            Shape::Rectangle(w, h) => u32::spec_count(w) + u32::spec_count(h),
            Shape::Point(p) => Point::spec_count(p),
            Shape::Empty => 0,
        }
    }

    proof fn lemma_count_bounded(m: Shape) {
        match m {
            Shape::Circle { radius } => u32::lemma_count_bounded(radius),
            Shape::Rectangle(w, h) => {
                u32::lemma_count_bounded(w);
                u32::lemma_count_bounded(h);
            },
            Shape::Point(p) => Point::lemma_count_bounded(p),
            Shape::Empty => {},
        }
    }

    fn encode(&self, out: &mut Vec<u8>) -> (n: usize) {
        proof {
            Self::lemma_count_bounded(*self);
            lemma_discriminant_bytes(shape_discriminant(*self));
        }
        let mut total: usize = 0;
        match self {
            Shape::Circle { radius } => {
                total = total + 0u8.encode(out);
                proof {
                    u32::lemma_count_bounded(*radius);
                }
                total = total + radius.encode(out);
            },
            Shape::Rectangle(w, h) => {
                total = total + 100u8.encode(out);
                proof {
                    u32::lemma_count_bounded(*w);
                    u32::lemma_count_bounded(*h);
                }
                total = total + w.encode(out);
                total = total + h.encode(out);
            },
            Shape::Point(p) => {
                total = total + 2u8.encode(out);
                proof {
                    Point::lemma_count_bounded(*p);
                }
                total = total + p.encode(out);
            },
            Shape::Empty => {
                total = total + 3u8.encode(out);
            },
        }
        assert(final(out)@ =~= old(out)@ + Self::spec_encode(*self));
        total
    }
}

/// Any discriminant byte other than 0, 100, 2 and 3 is reported as invalid.
impl Decode for Shape {
    open spec fn spec_decode(s: Seq<u8>) -> core::result::Result<(Shape, nat), Failure> {
        if s.len() == 0 {
            Err(Failure::Truncated)
        } else {
            let rest = s.skip(1);
            if s[0] == 0 {
                match u32::spec_decode(rest) {
                    Ok((radius, n)) => Ok((Shape::Circle { radius }, 1 + n)),
                    Err(e) => Err(e),
                }
            } else if s[0] == 100 {
                match u32::spec_decode(rest) {
                    Ok((w, n)) => match u32::spec_decode(rest.skip(n as int)) {
                        Ok((h, k)) => Ok((Shape::Rectangle(w, h), 1 + n + k)),
                        Err(e) => Err(e),
                    },
                    Err(e) => Err(e),
                }
            } else if s[0] == 2 {
                match Point::spec_decode(rest) {
                    Ok((p, n)) => Ok((Shape::Point(p), 1 + n)),
                    Err(e) => Err(e),
                }
            } else if s[0] == 3 {
                Ok((Shape::Empty, 1))
            } else {
                Err(Failure::Invalid(s[0]))
            }
        }
    }

    proof fn lemma_decode_prefix(s: Seq<u8>, t: Seq<u8>) {
        if s.len() > 0 {
            let rest = s.skip(1);
            assert((s + t).skip(1) =~= rest + t);
            u32::lemma_decode_prefix(rest, t);
            Point::lemma_decode_prefix(rest, t);
            if let Ok((w, n)) = u32::spec_decode(rest) {
                assert((rest + t).skip(n as int) =~= rest.skip(n as int) + t);
                u32::lemma_decode_prefix(rest.skip(n as int), t);
            }
        }
    }

    fn decode(buf: &[u8], pos: usize) -> (r: Result<(Shape, usize), Error>) {
        if pos >= buf.len() {
            return Err(truncated());
        }
        let discriminant = buf[pos];
        let start = pos + 1;
        let ghost rest = buf@.skip(pos as int).skip(1);
        assert(buf@.skip(start as int) =~= rest);
        if discriminant == 0 {
            match u32::decode(buf, start) {
                Ok((radius, end)) => Ok((Shape::Circle { radius }, end)),
                Err(e) => Err(e),
            }
        } else if discriminant == 100 {
            let (w, mid) = match u32::decode(buf, start) {
                Ok(found) => found,
                Err(e) => {
                    return Err(e);
                },
            };
            assert(buf@.skip(mid as int) =~= rest.skip(mid - start));
            match u32::decode(buf, mid) {
                Ok((h, end)) => Ok((Shape::Rectangle(w, h), end)),
                Err(e) => Err(e),
            }
        } else if discriminant == 2 {
            match Point::decode(buf, start) {
                Ok((p, end)) => Ok((Shape::Point(p), end)),
                Err(e) => Err(e),
            }
        } else if discriminant == 3 {
            Ok((Shape::Empty, start))
        } else {
            Err(Error::InvalidDiscriminant(discriminant))
        }
    }
}

impl Codec for Shape {
    open spec fn encodable(m: Shape) -> bool {
        true
    }

    proof fn lemma_roundtrip(m: Shape, rest: Seq<u8>) {
        let s = Self::spec_encode(m) + rest;
        match m {
            Shape::Circle { radius } => {
                assert(s.skip(1) =~= u32::spec_encode(radius) + rest);
                u32::lemma_roundtrip(radius, rest);
            },
            Shape::Rectangle(w, h) => {
                let ew = u32::spec_encode(w);
                let eh = u32::spec_encode(h);
                assert(s.skip(1) =~= ew + (eh + rest));
                u32::lemma_roundtrip(w, eh + rest);
                assert((ew + (eh + rest)).skip(ew.len() as int) =~= eh + rest);
                u32::lemma_roundtrip(h, rest);
            },
            Shape::Point(p) => {
                assert(s.skip(1) =~= Point::spec_encode(p) + rest);
                Point::lemma_roundtrip(p, rest);
            },
            Shape::Empty => {},
        }
    }
}

} // verus!
