use peek_poke::codec::{get_impl, tag_width_of, Decl, GenError, Value};
use peek_poke::layout::Shape;
use peek_poke::traits::{peek_checked, poke_to_vec, Peek, Poke};

fn u32s(n: usize) -> Vec<Shape> {
    let mut fs = Vec::new();
    for _ in 0..n {
        fs.push(Shape::Int(4));
    }
    fs
}

fn markers(n: usize) -> Vec<Shape> {
    let mut vs = Vec::new();
    for _ in 0..n {
        vs.push(Shape::Marker);
    }
    vs
}

#[test]
fn record_of_three_u32_encodes_in_order() {
    let bar = get_impl(Decl::Struct(u32s(3))).unwrap();
    let v = Value::List(vec![Value::Int(1), Value::Int(2), Value::Int(3)]);
    let bytes = bar.encode(&v);
    assert_eq!(bytes, vec![1, 0, 0, 0, 2, 0, 0, 0, 3, 0, 0, 0]);
    let (back, n) = bar.decode(&bytes).unwrap();
    assert_eq!(back, v);
    assert_eq!(n, 12);
}

#[test]
fn triple_of_u32_pokes_like_the_record() {
    let bytes = poke_to_vec(&(1u32, 2u32, 3u32));
    assert_eq!(bytes, vec![1, 0, 0, 0, 2, 0, 0, 0, 3, 0, 0, 0]);
    let (back, n) = peek_checked::<(u32, u32, u32)>(&bytes).unwrap();
    assert_eq!(back, (1, 2, 3));
    assert_eq!(n, 12);
}

fn three_variants() -> Shape {
    get_impl(Decl::Enum(vec![
        Shape::Record(vec![]),
        Shape::Record(vec![Shape::Int(8)]),
        Shape::Record(vec![Shape::Int(2), Shape::Bool]),
    ]))
    .unwrap()
}

#[test]
fn union_writes_tag_then_payload() {
    let u = three_variants();
    assert_eq!(u.size_bound(), 9);
    let v = Value::Variant(1, Box::new(Value::List(vec![Value::Int(42)])));
    let bytes = u.encode(&v);
    assert_eq!(bytes, vec![1, 42, 0, 0, 0, 0, 0, 0, 0]);
    let (back, n) = u.decode(&bytes).unwrap();
    assert_eq!(back, v);
    assert_eq!(n, 9);
}

#[test]
fn union_variant_without_fields_writes_only_the_tag() {
    let u = three_variants();
    let v = Value::Variant(0, Box::new(Value::List(vec![])));
    let bytes = u.encode(&v);
    assert_eq!(bytes, vec![0]);
    assert!(bytes.len() < u.size_bound());
    let mut padded = bytes.clone();
    padded.resize(9, 0xAA);
    let (back, n) = u.decode(&padded).unwrap();
    assert_eq!(back, v);
    assert_eq!(n, 1);
}

#[test]
fn union_bound_is_max_not_sum() {
    let u = get_impl(Decl::Enum(vec![Shape::Int(8), Shape::Int(4), Shape::Int(2)])).unwrap();
    assert_eq!(u.size_bound(), 1 + 8);
    assert_ne!(u.size_bound(), 1 + 8 + 4 + 2);
}

#[test]
fn array_of_four_u16() {
    let arr = Shape::Array(4, Box::new(Shape::Int(2)));
    let v = Value::List(vec![Value::Int(10), Value::Int(20), Value::Int(30), Value::Int(40)]);
    let bytes = arr.encode(&v);
    assert_eq!(bytes, vec![0x0A, 0x00, 0x14, 0x00, 0x1E, 0x00, 0x28, 0x00]);
    let (back, n) = arr.decode(&bytes).unwrap();
    assert_eq!(back, v);
    assert_eq!(n, 8);
}

#[test]
fn tag_width_boundaries() {
    assert_eq!(tag_width_of(0), 1);
    assert_eq!(tag_width_of(256), 1);
    assert_eq!(tag_width_of(257), 2);
    assert_eq!(tag_width_of(65536), 2);
    assert_eq!(tag_width_of(65537), 4);
    assert_eq!(tag_width_of(0x1_0000_0000), 4);
    assert_eq!(tag_width_of(0x1_0000_0001), 8);
}

#[test]
fn union_of_256_variants_has_one_byte_tag() {
    let u = get_impl(Decl::Enum(markers(256))).unwrap();
    assert_eq!(u.size_bound(), 1);
    let v = Value::Variant(255, Box::new(Value::Unit));
    assert_eq!(u.encode(&v), vec![255]);
}

#[test]
fn union_of_257_variants_has_two_byte_tag() {
    let u = get_impl(Decl::Enum(markers(257))).unwrap();
    assert_eq!(u.size_bound(), 2);
    let v = Value::Variant(256, Box::new(Value::Unit));
    let bytes = u.encode(&v);
    assert_eq!(bytes, vec![0, 1]);
    assert_eq!(u.decode(&bytes).unwrap().0, v);
}

#[test]
fn untagged_union_is_refused() {
    assert_eq!(
        get_impl(Decl::Untagged(u32s(2))),
        Err(GenError::UntaggedUnion)
    );
}

#[test]
fn option_lengths_in_a_shape() {
    let opt = Shape::Opt(Box::new(Shape::Int(4)));
    assert_eq!(opt.size_bound(), 5);
    assert_eq!(opt.encode(&Value::Absent), vec![0]);
    let some = Value::Present(Box::new(Value::Int(7)));
    assert_eq!(opt.encode(&some), vec![1, 7, 0, 0, 0]);
    let (back, n) = opt.decode(&[0, 0xFF, 0xFF, 0xFF, 0xFF]).unwrap();
    assert_eq!(back, Value::Absent);
    assert_eq!(n, 1);
}

#[test]
fn option_lengths_through_the_traits() {
    assert_eq!(poke_to_vec(&None::<u16>), vec![0]);
    assert_eq!(poke_to_vec(&Some(0x0102u16)), vec![1, 2, 1]);
    let (back, n) = peek_checked::<Option<u16>>(&[0, 9, 9]).unwrap();
    assert_eq!(back, None);
    assert_eq!(n, 1);
    let (back, n) = peek_checked::<Option<u16>>(&[1, 2, 1]).unwrap();
    assert_eq!(back, Some(0x0102));
    assert_eq!(n, 3);
}

#[test]
fn nested_record_round_trips() {
    // struct { flag: bool, inner: (u8, Option<u64>), tags: [i8; 2], _m: marker }
    let s = get_impl(Decl::Struct(vec![
        Shape::Bool,
        Shape::Record(vec![Shape::Int(1), Shape::Opt(Box::new(Shape::Int(8)))]),
        Shape::Array(2, Box::new(Shape::Int(1))),
        Shape::Marker,
    ]))
    .unwrap();
    assert_eq!(s.size_bound(), 1 + 1 + 9 + 2);
    let v = Value::List(vec![
        Value::Bool(true),
        Value::List(vec![Value::Int(5), Value::Present(Box::new(Value::Int(u64::MAX)))]),
        Value::List(vec![Value::Int(0xFF), Value::Int(1)]),
        Value::Unit,
    ]);
    let bytes = s.encode(&v);
    assert_eq!(bytes.len(), 13);
    assert_eq!(s.decode(&bytes).unwrap(), (v, 13));
}

#[test]
fn decode_refuses_short_input() {
    let bar = Shape::Record(u32s(3));
    assert!(bar.decode(&[1, 0, 0, 0, 2, 0, 0, 0, 3, 0, 0]).is_none());
    assert!(peek_checked::<u64>(&[1, 2, 3]).is_none());
}

#[test]
fn write_leaves_the_rest_of_the_buffer() {
    let mut buf = vec![0xEE; 8];
    let end = 0x0A0Bu16.poke_into(&mut buf, 3);
    assert_eq!(end, 5);
    assert_eq!(buf, vec![0xEE, 0xEE, 0xEE, 0x0B, 0x0A, 0xEE, 0xEE, 0xEE]);
    let arr = Shape::Int(2);
    let mut buf2 = vec![0xEE; 8];
    let end2 = arr.write(&Value::Int(0x0A0B), &mut buf2, 3);
    assert_eq!(end2, 5);
    assert_eq!(buf2, buf);
}

#[test]
fn signed_integers_in_twos_complement() {
    assert_eq!(poke_to_vec(&-1i32), vec![0xFF, 0xFF, 0xFF, 0xFF]);
    assert_eq!(poke_to_vec(&-2i8), vec![0xFE]);
    assert_eq!(poke_to_vec(&i16::MIN), vec![0x00, 0x80]);
    assert_eq!(peek_checked::<i64>(&poke_to_vec(&i64::MIN)).unwrap().0, i64::MIN);
    assert_eq!(peek_checked::<i64>(&poke_to_vec(&-5i64)).unwrap().0, -5);
    assert_eq!(peek_checked::<isize>(&poke_to_vec(&-3isize)).unwrap().0, -3);
    assert_eq!(peek_checked::<isize>(&poke_to_vec(&isize::MAX)).unwrap().0, isize::MAX);
    assert_eq!(peek_checked::<i32>(&[0xFF, 0xFF, 0xFF, 0x7F]).unwrap().0, i32::MAX);
}

#[test]
fn unsigned_integers_little_endian() {
    assert_eq!(poke_to_vec(&0x0102_0304u32), vec![4, 3, 2, 1]);
    assert_eq!(poke_to_vec(&u64::MAX), vec![0xFF; 8]);
    assert_eq!(poke_to_vec(&7usize).len(), std::mem::size_of::<usize>());
    assert_eq!(peek_checked::<u16>(&[0x34, 0x12]).unwrap().0, 0x1234);
    assert_eq!(peek_checked::<usize>(&poke_to_vec(&usize::MAX)).unwrap().0, usize::MAX);
}

#[test]
fn bool_reads_any_nonzero_as_true() {
    assert_eq!(poke_to_vec(&true), vec![1]);
    assert_eq!(poke_to_vec(&false), vec![0]);
    assert_eq!(peek_checked::<bool>(&[2]).unwrap().0, true);
    assert_eq!(peek_checked::<bool>(&[0]).unwrap().0, false);
}

#[test]
fn peek_from_overwrites_existing_value() {
    let mut x: (u8, bool) = (9, false);
    let end = x.peek_from(&[0xFF, 5, 1], 1);
    assert_eq!(x, (5, true));
    assert_eq!(end, 3);
    let mut unit = ();
    assert_eq!(unit.peek_from(&[], 0), 0);
    assert_eq!(<()>::max_size(), 0);
}

#[test]
fn phantom_marker_takes_no_bytes() {
    let m: std::marker::PhantomData<String> = std::marker::PhantomData;
    assert_eq!(<std::marker::PhantomData<String>>::max_size(), 0);
    assert_eq!(poke_to_vec(&(7u32, m)), vec![7, 0, 0, 0]);
    let (back, n) = peek_checked::<(u32, std::marker::PhantomData<String>)>(&[7, 0, 0, 0]).unwrap();
    assert_eq!(back.0, 7);
    assert_eq!(n, 4);
}

#[test]
fn shape_checks() {
    assert!(Shape::Record(vec![Shape::Int(4), Shape::Opt(Box::new(Shape::Int(8)))]).well_formed());
    assert!(!Shape::Record(vec![Shape::Int(4), Shape::Opt(Box::new(Shape::Int(3)))]).well_formed());
    assert!(!Shape::Union(vec![Shape::Marker, Shape::Int(16)]).well_formed());
    let bar = Shape::Record(u32s(3));
    assert!(bar.admits(&Value::List(vec![Value::Int(1), Value::Int(2), Value::Int(3)])));
    assert!(!bar.admits(&Value::List(vec![Value::Int(1), Value::Int(2)])));
    assert!(!bar.admits(&Value::List(vec![Value::Int(1), Value::Int(2), Value::Int(1 << 32)])));
    let u = three_variants();
    assert!(u.admits(&Value::Variant(1, Box::new(Value::List(vec![Value::Int(u64::MAX)])))));
    assert!(!u.admits(&Value::Variant(3, Box::new(Value::List(vec![])))));
    assert!(!u.admits(&Value::Int(0)));
    let arr = Shape::Array(2, Box::new(Shape::Bool));
    assert!(arr.admits(&Value::List(vec![Value::Bool(true), Value::Bool(false)])));
    assert!(!arr.admits(&Value::List(vec![Value::Bool(true), Value::Unit])));
}

#[test]
fn malformed_input_does_not_decode() {
    let u = three_variants();
    assert!(u.decode(&[3, 0, 0, 0, 0, 0, 0, 0, 0]).is_none());
    let opt = Shape::Opt(Box::new(Shape::Int(2)));
    assert!(opt.decode(&[2, 0, 0]).is_none());
    assert!(opt.decode(&[1, 0]).is_none());
    let bar = Shape::Record(u32s(3));
    assert!(bar.try_read(&[1, 0, 0, 0, 2, 0, 0, 0, 3], 0).is_none());
    let (v, end) = bar.try_read(&[9, 1, 0, 0, 0, 2, 0, 0, 0, 3, 0, 0, 0], 1).unwrap();
    assert_eq!(v, Value::List(vec![Value::Int(1), Value::Int(2), Value::Int(3)]));
    assert_eq!(end, 13);
    let (v, end) = bar.read(&[9, 1, 0, 0, 0, 2, 0, 0, 0, 3, 0, 0, 0], 1);
    assert_eq!(v, Value::List(vec![Value::Int(1), Value::Int(2), Value::Int(3)]));
    assert_eq!(end, 13);
}
