use artful::Art;
use artful::ArtKey;

fn primitive<
    T: ArtKey
        + Copy
        + std::cmp::PartialEq
        + std::fmt::Debug
        + std::ops::AddAssign<T>
        + std::ops::Div<Output = T>
        + std::ops::Add<Output = T>,
>(
    range: impl Iterator<Item = T> + std::clone::Clone,
    mut_value: T,
) {
    let mut art = Art::<T, T, 8>::new();
    // get after insert and get
    for i in range.clone().into_iter() {
        assert_eq!(art.get(&i), None);
        assert_eq!(art.insert(i, i), None);
        assert_eq!(art.get(&i), Some(&i));
    }

    // get_mut after get
    for i in range.clone().into_iter() {
        let old_val = art.get_mut(&i).unwrap();
        *old_val += mut_value;
        assert_eq!(art.get(&i), Some(&(i + mut_value)))
    }

    // remove after get
    for i in range.into_iter() {
        assert_eq!(art.remove(&i), Some(i + mut_value));
        assert_eq!(art.get(&i), None)
    }
}

#[test]
fn basic_primitive_i8() {
    primitive::<i8>(i8::MIN..i8::MAX, 1);
}

#[test]
fn basic_primitive_i16() {
    primitive::<i16>(i16::MIN..i16::MAX, 1);
}

#[test]
fn basic_primitive_i32() {
    primitive::<i32>(-1000000..10000000, 1);
}

#[test]
fn basic_primitive_i64() {
    primitive::<i64>(-1000000..10000000, 1);
}

#[test]
fn basic_primitive_u8() {
    primitive::<u8>(u8::MIN..u8::MAX, 1);
}

#[test]
fn basic_primitive_u16() {
    primitive::<u16>(u16::MIN..u16::MAX, 1);
}

#[test]
fn basic_primitive_u32() {
    primitive::<u32>(0..10000000, 1);
}

#[test]
fn basic_primitive_u64() {
    primitive::<u64>(0..10000000, 1);
}
