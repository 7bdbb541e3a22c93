use peek_poke::codec::{get_impl, Decl};
use peek_poke::layout::Shape;
use peek_poke::traits::{max, Poke};
use std::mem::size_of;

fn word() -> Shape {
    Shape::Int(size_of::<usize>())
}

#[test]
fn test_numbers() {
    assert_eq!(u8::max_size(), size_of::<u8>());
    assert_eq!(u16::max_size(), size_of::<u16>());
    assert_eq!(u32::max_size(), size_of::<u32>());
    assert_eq!(u64::max_size(), size_of::<u64>());
    assert_eq!(usize::max_size(), size_of::<usize>());
    assert_eq!(i8::max_size(), size_of::<i8>());
    assert_eq!(i16::max_size(), size_of::<i16>());
    assert_eq!(i32::max_size(), size_of::<i32>());
    assert_eq!(i64::max_size(), size_of::<i64>());
    assert_eq!(isize::max_size(), size_of::<isize>());
    // floating: a float travels as its bit pattern
    assert_eq!(Shape::Int(size_of::<u32>()).size_bound(), size_of::<f32>());
    assert_eq!(Shape::Int(size_of::<u64>()).size_bound(), size_of::<f64>());
}

#[test]
fn test_bool() {
    assert_eq!(bool::max_size(), size_of::<u8>());
}

#[test]
fn test_option() {
    assert_eq!(
        Option::<usize>::max_size(),
        <u8>::max_size() + <usize>::max_size()
    );
}

#[test]
fn test_fixed_size_array() {
    assert_eq!(
        Shape::Array(32, Box::new(Shape::Int(4))).size_bound(),
        32 * size_of::<u32>()
    );
    assert_eq!(
        Shape::Array(8, Box::new(Shape::Int(8))).size_bound(),
        8 * size_of::<u64>()
    );
    assert_eq!(
        Shape::Array(19, Box::new(Shape::Int(1))).size_bound(),
        19 * size_of::<u8>()
    );
}

#[test]
fn test_tuple() {
    assert_eq!(<isize>::max_size(), size_of::<isize>());
    assert_eq!(<(isize, isize, isize)>::max_size(), 3 * size_of::<isize>());
    assert_eq!(<(isize, ())>::max_size(), size_of::<isize>());
}

#[test]
fn test_basic_struct() {
    // struct Bar { a: u32, b: u32, c: u32 }
    let bar = get_impl(Decl::Struct(vec![Shape::Int(4), Shape::Int(4), Shape::Int(4)])).unwrap();
    assert_eq!(bar.size_bound(), 3 * <u32>::max_size());
}

#[test]
fn test_enum() {
    // enum TestEnum {
    //     NoArg,
    //     OneArg(usize),
    //     Args(usize, usize),
    //     AnotherNoArg,
    //     StructLike { x: usize, y: f32 },
    // }
    let test_enum = get_impl(Decl::Enum(vec![
        Shape::Record(vec![]),
        Shape::Record(vec![word()]),
        Shape::Record(vec![word(), word()]),
        Shape::Record(vec![]),
        Shape::Record(vec![word(), Shape::Int(4)]),
    ]))
    .unwrap();
    assert_eq!(
        test_enum.size_bound(),
        <u8>::max_size() + 2 * <usize>::max_size()
    );
}

#[test]
fn test_enum_cstyle() {
    // enum BorderStyle { None, Solid, Double, Dotted, Dashed, Hidden, Groove, Ridge, Inset, Outset }
    let mut variants = Vec::new();
    for _ in 0..10 {
        variants.push(Shape::Record(vec![]));
    }
    let border_style = get_impl(Decl::Enum(variants)).unwrap();
    assert_eq!(border_style.size_bound(), <u8>::max_size());
}

#[test]
fn test_phantom_data() {
    // struct Foo { x: u32, y: u32, _marker: PhantomData<Bar> }
    let foo = get_impl(Decl::Struct(vec![Shape::Int(4), Shape::Int(4), Shape::Marker])).unwrap();
    assert_eq!(foo.size_bound(), 2 * size_of::<u32>())
}

#[test]
fn test_const_max() {
    assert_eq!(max(4, 2), 4);
    assert_eq!(max(2, 4), 4);
    assert_eq!(max(4, 4), 4);
}
