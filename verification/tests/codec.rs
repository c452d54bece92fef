use broto::shapes::{Point, Shape};
use broto::tags::{assign_discriminants, TagError};
use broto::{Decode, Encode, Error};

fn encoded<T: Encode>(v: &T) -> (Vec<u8>, usize) {
    let mut out = Vec::new();
    let n = v.encode(&mut out);
    (out, n)
}

fn shapes() -> Vec<Shape> {
    vec![
        Shape::Circle { radius: 7 },
        Shape::Rectangle(3, 4),
        Shape::Point(Point { x: -1, y: 2 }),
        Shape::Empty,
    ]
}

#[test]
fn shapes_round_trip_one_after_another() {
    let shapes = shapes();
    let mut buf = Vec::new();
    for shape in &shapes {
        shape.encode(&mut buf);
    }
    assert_eq!(
        buf,
        vec![
            0, 0, 0, 0, 7, 100, 0, 0, 0, 3, 0, 0, 0, 4, 2, 0xff, 0xff, 0xff, 0xff, 0, 0, 0, 2, 3
        ]
    );
    let mut pos = 0;
    let mut decoded = Vec::new();
    for _ in 0..shapes.len() {
        let (shape, next) = Shape::decode(&buf, pos).unwrap();
        decoded.push(shape);
        pos = next;
    }
    assert_eq!(pos, buf.len());
    assert_eq!(decoded, shapes);
}

#[test]
fn shape_counts_add_the_discriminant_and_fields() {
    let counts: Vec<usize> = shapes().iter().map(|s| encoded(s).1).collect();
    assert_eq!(counts, vec![5, 9, 9, 1]);
}

#[test]
fn shape_unknown_discriminant_is_invalid() {
    assert!(matches!(Shape::decode(&[1, 0, 0, 0, 3], 0), Err(Error::InvalidDiscriminant(1))));
    assert!(matches!(Shape::decode(&[7], 0), Err(Error::InvalidDiscriminant(7))));
}

#[test]
fn shape_cut_short_is_an_io_error() {
    assert!(matches!(Shape::decode(&[100, 0, 0, 0, 3, 0], 0), Err(Error::IO(_))));
    assert!(matches!(Shape::decode(&[], 0), Err(Error::IO(_))));
}

#[test]
fn point_is_its_fields_in_order() {
    let p = Point { x: 1, y: -2 };
    assert_eq!(encoded(&p), (vec![0, 0, 0, 1, 0xff, 0xff, 0xff, 0xfe], 8));
    assert_eq!(Point::decode(&[9, 0, 0, 0, 1, 0xff, 0xff, 0xff, 0xfe], 1).unwrap(), (p, 9));
}

#[test]
fn integers_are_big_endian_and_full_width() {
    assert_eq!(encoded(&0xabu8), (vec![0xab], 1));
    assert_eq!(encoded(&0x1234u16), (vec![0x12, 0x34], 2));
    assert_eq!(encoded(&0x0102_0304u32), (vec![1, 2, 3, 4], 4));
    assert_eq!(encoded(&1u64), (vec![0, 0, 0, 0, 0, 0, 0, 1], 8));
    let mut big = vec![0u8; 15];
    big.push(1);
    assert_eq!(encoded(&1u128), (big, 16));
    assert_eq!(encoded(&-2i16), (vec![0xff, 0xfe], 2));
    assert_eq!(encoded(&i8::MIN), (vec![0x80], 1));
    assert_eq!(encoded(&-1i64), (vec![0xff; 8], 8));
    assert_eq!(encoded(&i128::MIN).0[0], 0x80);
    let width = std::mem::size_of::<usize>();
    let (bytes, n) = encoded(&258usize);
    assert_eq!(n, width);
    assert_eq!(bytes.len(), width);
    assert_eq!(&bytes[width - 2..], &[1, 2]);
    let (bytes, n) = encoded(&-1isize);
    assert_eq!((bytes.len(), n), (width, width));
    assert!(bytes.iter().all(|b| *b == 0xff));
}

#[test]
fn integers_decode_back() {
    assert_eq!(u16::decode(&[0x12, 0x34], 0).unwrap(), (0x1234, 2));
    assert_eq!(i32::decode(&[0xff, 0xff, 0xff, 0xfe, 5], 0).unwrap(), (-2, 4));
    assert_eq!(u64::decode(&[0, 0, 0, 0, 0, 0, 0, 0, 0, 9], 2).unwrap(), (9, 10));
    for v in [0i64, 1, -1, i64::MIN, i64::MAX, 123_456_789] {
        let (bytes, _) = encoded(&v);
        assert_eq!(i64::decode(&bytes, 0).unwrap(), (v, 8));
    }
    for v in [0usize, 1, usize::MAX, 65_536] {
        let (bytes, _) = encoded(&v);
        assert_eq!(usize::decode(&bytes, 0).unwrap(), (v, bytes.len()));
    }
    for v in [0isize, -1, isize::MIN, isize::MAX] {
        let (bytes, _) = encoded(&v);
        assert_eq!(isize::decode(&bytes, 0).unwrap(), (v, bytes.len()));
    }
    assert_eq!(u128::decode(&encoded(&u128::MAX).0, 0).unwrap(), (u128::MAX, 16));
    assert_eq!(i128::decode(&encoded(&i128::MIN).0, 0).unwrap(), (i128::MIN, 16));
    assert_eq!(i8::decode(&[0x80], 0).unwrap(), (i8::MIN, 1));
}

#[test]
fn integers_cut_short_are_io_errors() {
    assert!(matches!(u32::decode(&[1, 2, 3], 0), Err(Error::IO(_))));
    assert!(matches!(u16::decode(&[1, 2, 3], 2), Err(Error::IO(_))));
    assert!(matches!(u8::decode(&[1], 1), Err(Error::IO(_))));
}

#[test]
fn strings_carry_a_u16_byte_count() {
    assert_eq!(encoded(&String::from("hi")), (vec![0, 2, b'h', b'i'], 4));
    assert_eq!(encoded(&String::from("é")), (vec![0, 2, 0xc3, 0xa9], 4));
    assert_eq!(encoded(&String::new()), (vec![0, 0], 2));
    assert_eq!(
        String::decode(&[0, 3, b'a', b'b', b'c', 0], 0).unwrap(),
        (String::from("abc"), 5)
    );
    let text = String::from("grüße, 世界");
    let (bytes, n) = encoded(&text);
    assert_eq!(n, bytes.len());
    assert_eq!(String::decode(&bytes, 0).unwrap(), (text, bytes.len()));
}

#[test]
fn strings_with_invalid_utf8_are_read_lossily() {
    assert_eq!(
        String::decode(&[0, 2, 0xff, b'A'], 0).unwrap(),
        (String::from("\u{FFFD}A"), 4)
    );
}

#[test]
fn strings_cut_short_are_io_errors() {
    assert!(matches!(String::decode(&[0], 0), Err(Error::IO(_))));
    assert!(matches!(String::decode(&[0, 3, b'a', b'b'], 0), Err(Error::IO(_))));
}

#[test]
fn long_strings_wrap_their_byte_count() {
    let text = "a".repeat(65_536);
    let (bytes, n) = encoded(&text);
    assert_eq!(n, 65_538);
    assert_eq!(&bytes[..2], &[0, 0]);
    assert_eq!(bytes.len(), 65_538);
    assert_eq!(String::decode(&bytes, 0).unwrap(), (String::new(), 2));
    let text = "b".repeat(65_535);
    let (bytes, _) = encoded(&text);
    assert_eq!(&bytes[..2], &[0xff, 0xff]);
    assert_eq!(String::decode(&bytes, 0).unwrap(), (text, 65_537));
}

#[test]
fn options_carry_a_marker_byte() {
    assert_eq!(encoded(&Some(5u8)), (vec![1, 5], 1));
    assert_eq!(encoded(&None::<u32>), (vec![0], 1));
    assert_eq!(encoded(&Some(7u32)), (vec![1, 0, 0, 0, 7], 4));
    assert_eq!(Option::<u8>::decode(&[0], 0).unwrap(), (None, 1));
    assert_eq!(Option::<u8>::decode(&[1, 9], 0).unwrap(), (Some(9), 2));
    assert_eq!(Option::<u8>::decode(&[5, 9], 0).unwrap(), (Some(9), 2));
    assert!(matches!(Option::<u16>::decode(&[1, 9], 0), Err(Error::IO(_))));
    assert!(matches!(Option::<Shape>::decode(&[1, 9], 0), Err(Error::InvalidDiscriminant(9))));
}

#[test]
fn results_carry_a_marker_byte() {
    let ok: Result<u8, u16> = Ok(7);
    let err: Result<u8, u16> = Err(1);
    assert_eq!(encoded(&ok), (vec![0, 7], 1));
    assert_eq!(encoded(&err), (vec![1, 0, 1], 2));
    assert_eq!(Result::<u8, u16>::decode(&[0, 7], 0).unwrap(), (Ok(7), 2));
    assert_eq!(Result::<u8, u16>::decode(&[1, 0, 1], 0).unwrap(), (Err(1), 3));
    assert_eq!(Result::<u8, u16>::decode(&[2, 0, 1], 0).unwrap(), (Err(1), 3));
    assert!(matches!(Result::<u8, u16>::decode(&[], 0), Err(Error::IO(_))));
}

#[test]
fn tuples_are_their_elements_in_order() {
    assert_eq!(encoded(&()), (vec![], 0));
    assert_eq!(encoded(&(9u32,)), (vec![0, 0, 0, 9], 4));
    assert_eq!(encoded(&(1u8, 2u16)), (vec![1, 0, 2], 2));
    assert_eq!(<()>::decode(&[1, 2], 1).unwrap(), ((), 1));
    assert_eq!(<(u32,)>::decode(&[0, 0, 0, 9], 0).unwrap(), ((9,), 4));
    assert_eq!(<(u8, u16)>::decode(&[1, 0, 2], 0).unwrap(), ((1, 2), 3));
    assert!(matches!(<(u8, u16)>::decode(&[1, 0], 0), Err(Error::IO(_))));
}

#[test]
fn vectors_carry_a_u64_length() {
    assert_eq!(encoded(&vec![1u8, 2, 3]), (vec![0, 0, 0, 0, 0, 0, 0, 3, 1, 2, 3], 11));
    assert_eq!(encoded(&Vec::<u16>::new()), (vec![0; 8], 8));
    assert_eq!(
        Vec::<u16>::decode(&[0, 0, 0, 0, 0, 0, 0, 2, 0, 1, 0, 2], 0).unwrap(),
        (vec![1, 2], 12)
    );
    let nested = vec![vec![String::from("a")], vec![], vec![String::from("bc"), String::new()]];
    let (bytes, _) = encoded(&nested);
    assert_eq!(Vec::<Vec<String>>::decode(&bytes, 0).unwrap(), (nested, bytes.len()));
}

#[test]
fn vector_counts_add_up_their_items() {
    let v = vec![Some(1u8), None];
    assert_eq!(encoded(&v), (vec![0, 0, 0, 0, 0, 0, 0, 2, 1, 1, 0], 10));
}

#[test]
fn vectors_cut_short_are_io_errors() {
    assert!(matches!(Vec::<u8>::decode(&[0, 0, 0, 0, 0, 0, 0], 0), Err(Error::IO(_))));
    assert!(matches!(
        Vec::<u8>::decode(&[0, 0, 0, 0, 0, 0, 0, 3, 1, 2], 0),
        Err(Error::IO(_))
    ));
    assert!(matches!(
        Vec::<u8>::decode(&[0xff, 0, 0, 0, 0, 0, 0, 0, 1], 0),
        Err(Error::IO(_))
    ));
    assert!(matches!(
        Vec::<Shape>::decode(&[0, 0, 0, 0, 0, 0, 0, 2, 3, 9], 0),
        Err(Error::InvalidDiscriminant(9))
    ));
}

#[test]
fn encoding_appends_to_what_the_buffer_holds() {
    let mut out = vec![42u8];
    assert_eq!(0x0102u16.encode(&mut out), 2);
    assert_eq!(out, vec![42, 1, 2]);
}

#[test]
fn every_cut_of_an_encoding_is_truncated() {
    let value = (vec![String::from("xy")], Some(Shape::Point(Point { x: 3, y: 4 })));
    let (bytes, _) = encoded(&value);
    for k in 0..bytes.len() {
        let r = <(Vec<String>, Option<Shape>)>::decode(&bytes[..k], 0);
        assert!(matches!(r, Err(Error::IO(_))));
    }
    assert_eq!(<(Vec<String>, Option<Shape>)>::decode(&bytes, 0).unwrap(), (value, bytes.len()));
}

#[test]
fn untagged_variants_take_their_positions() {
    assert_eq!(assign_discriminants(&vec![None, None, None, None]).unwrap(), vec![0, 1, 2, 3]);
}

#[test]
fn tags_do_not_shift_later_variants() {
    assert_eq!(assign_discriminants(&vec![None, Some(100), None]).unwrap(), vec![0, 100, 2]);
    assert_eq!(
        assign_discriminants(&vec![None, Some(100), None, None]).unwrap(),
        vec![0, 100, 2, 3]
    );
}

#[test]
fn tags_must_fit_in_a_byte() {
    assert_eq!(
        assign_discriminants(&vec![None, Some(256)]),
        Err(TagError::OutOfRange { variant: 1, wanted: 256 })
    );
    let many: Vec<Option<u64>> = vec![None; 257];
    assert_eq!(
        assign_discriminants(&many),
        Err(TagError::OutOfRange { variant: 256, wanted: 256 })
    );
    assert_eq!(assign_discriminants(&vec![Some(255)]).unwrap(), vec![255]);
}

#[test]
fn colliding_discriminants_name_both_variants() {
    assert_eq!(
        assign_discriminants(&vec![None, Some(0)]),
        Err(TagError::Duplicate { first: 0, second: 1, discriminant: 0 })
    );
    assert_eq!(
        assign_discriminants(&vec![Some(5), Some(7), None, Some(5), Some(7)]),
        Err(TagError::Duplicate { first: 0, second: 3, discriminant: 5 })
    );
    assert_eq!(
        assign_discriminants(&vec![Some(2), None, None]),
        Err(TagError::Duplicate { first: 0, second: 2, discriminant: 2 })
    );
}

#[test]
fn no_variants_have_no_discriminants() {
    assert_eq!(assign_discriminants(&vec![]).unwrap(), Vec::<u8>::new());
}
