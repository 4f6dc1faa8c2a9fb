use artful::leaf::{bytes_eq, bytes_to_vec};
use artful::sorted::{lower_bound, scan, search};

#[test]
fn search_finds_every_entry() {
    let keys: Vec<u8> = vec![1, 3, 4, 9, 200, 255];
    for (i, &k) in keys.iter().enumerate() {
        assert_eq!(search(&keys, k), Some(i));
        assert_eq!(scan(&keys, k), Some(i));
    }
    for k in [0u8, 2, 5, 8, 10, 199, 201, 254] {
        assert_eq!(search(&keys, k), None);
        assert_eq!(scan(&keys, k), None);
    }
    assert_eq!(search(&[], 0), None);
    assert_eq!(scan(&[], 0), None);
}

#[test]
fn lower_bound_is_the_place_to_insert() {
    let keys: Vec<u8> = vec![1, 3, 4, 9];
    assert_eq!(lower_bound(&keys, 0), 0);
    assert_eq!(lower_bound(&keys, 1), 0);
    assert_eq!(lower_bound(&keys, 2), 1);
    assert_eq!(lower_bound(&keys, 4), 2);
    assert_eq!(lower_bound(&keys, 5), 3);
    assert_eq!(lower_bound(&keys, 9), 3);
    assert_eq!(lower_bound(&keys, 10), 4);
    assert_eq!(lower_bound(&[], 10), 0);
}

#[test]
fn byte_strings_compare() {
    assert!(bytes_eq(b"", b""));
    assert!(bytes_eq(b"abc", b"abc"));
    assert!(!bytes_eq(b"abc", b"abd"));
    assert!(!bytes_eq(b"abc", b"ab"));
    assert_eq!(bytes_to_vec(b"abc"), b"abc".to_vec());
}
