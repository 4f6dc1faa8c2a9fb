use artful::Art;
use std::collections::BTreeMap;

/// A small deterministic generator of numbers.
struct Lcg(u64);

impl Lcg {
    fn next(&mut self) -> u64 {
        self.0 = self.0.wrapping_mul(6364136223846793005).wrapping_add(1442695040888963407);
        self.0 >> 33
    }

    fn below(&mut self, n: u64) -> u64 {
        self.next() % n
    }
}

/// Words over a small alphabet, so that many of them share long prefixes and
/// many are prefixes of others.
fn words(n: usize, seed: u64, max_len: u64) -> Vec<String> {
    let mut rng = Lcg(seed);
    let mut seen = std::collections::BTreeSet::new();
    let mut out = Vec::new();
    while out.len() < n {
        let len = rng.below(max_len + 1);
        let mut w = String::new();
        for _ in 0..len {
            w.push((b'a' + rng.below(3) as u8) as char);
        }
        if seen.insert(w.clone()) {
            out.push(w);
        }
    }
    out
}

#[test]
fn basic_overwrite() {
    let mut art = Art::<i32, &str, 8>::new();
    assert_eq!(art.insert(37, "a"), None);
    assert_eq!(art.insert(37, "b"), Some("a"));
    assert_eq!(art.get(&37), Some(&"b"));
    assert_eq!(art.size(), 1);
}

#[test]
fn prefix_coexistence() {
    let mut art = Art::<String, i32, 8>::new();
    assert_eq!(art.insert("ba".to_string(), 5), None);
    assert_eq!(art.insert("bar".to_string(), 6), None);
    assert_eq!(art.insert("baz".to_string(), 7), None);
    assert_eq!(art.get(&"ba".to_string()), Some(&5));
    assert_eq!(art.get(&"bar".to_string()), Some(&6));
    assert_eq!(art.get(&"baz".to_string()), Some(&7));
    assert_eq!(art.size(), 3);
    assert_eq!(art.remove(&"ba".to_string()), Some(5));
    assert_eq!(art.get(&"ba".to_string()), None);
    assert_eq!(art.get(&"bar".to_string()), Some(&6));
    assert_eq!(art.get(&"baz".to_string()), Some(&7));
    assert_eq!(art.size(), 2);
}

#[test]
fn prefix_coexistence_in_the_other_order() {
    let mut art = Art::<String, i32, 8>::new();
    assert_eq!(art.insert("barrel".to_string(), 1), None);
    assert_eq!(art.insert("bar".to_string(), 2), None);
    assert_eq!(art.insert("".to_string(), 3), None);
    assert_eq!(art.insert("b".to_string(), 4), None);
    assert_eq!(art.get(&"barrel".to_string()), Some(&1));
    assert_eq!(art.get(&"bar".to_string()), Some(&2));
    assert_eq!(art.get(&"".to_string()), Some(&3));
    assert_eq!(art.get(&"b".to_string()), Some(&4));
    assert_eq!(art.get(&"ba".to_string()), None);
    assert_eq!(art.get(&"barr".to_string()), None);
    assert_eq!(art.get(&"barrels".to_string()), None);
    assert_eq!(art.size(), 4);
}

#[test]
fn empty_key() {
    let mut art = Art::<String, i32, 8>::new();
    assert_eq!(art.get(&String::new()), None);
    assert_eq!(art.remove(&String::new()), None);
    assert_eq!(art.insert(String::new(), 1), None);
    assert_eq!(art.size(), 1);
    assert_eq!(art.get(&String::new()), Some(&1));
    assert_eq!(art.insert(String::new(), 2), Some(1));
    assert_eq!(art.insert("x".to_string(), 3), None);
    assert_eq!(art.get(&String::new()), Some(&2));
    assert_eq!(art.get(&"x".to_string()), Some(&3));
    assert_eq!(art.remove(&String::new()), Some(2));
    assert_eq!(art.get(&String::new()), None);
    assert_eq!(art.get(&"x".to_string()), Some(&3));
    assert_eq!(art.size(), 1);
}

#[test]
fn long_common_prefix_is_split_and_removed() {
    let mut art = Art::<String, i32, 8>::new();
    let a = "this:key:has:a:long:prefix:3".to_string();
    let b = "this:key:has:a:long:common:prefix:2".to_string();
    let c = "this:key:has:a:long:common:prefix:1".to_string();
    assert_eq!(art.insert(a.clone(), 3), None);
    assert_eq!(art.insert(b.clone(), 2), None);
    assert_eq!(art.insert(c.clone(), 1), None);
    // keys that leave the compressed path beyond the stored bytes
    assert_eq!(art.get(&"this:key:has:a:long:".to_string()), None);
    assert_eq!(art.get(&"this:key:has:a:loud:prefix:3".to_string()), None);
    assert_eq!(art.get(&"this:key:has:a:long:common:prefix:3".to_string()), None);
    assert_eq!(art.remove(&"this:key:has:a:loud:prefix:3".to_string()), None);
    assert_eq!(art.size(), 3);
    // a key that ends inside the compressed path
    assert_eq!(art.insert("this:key:has".to_string(), 9), None);
    // a key that leaves it behind the stored bytes
    assert_eq!(art.insert("this:key:hat".to_string(), 8), None);
    assert_eq!(art.get(&a), Some(&3));
    assert_eq!(art.get(&b), Some(&2));
    assert_eq!(art.get(&c), Some(&1));
    assert_eq!(art.get(&"this:key:has".to_string()), Some(&9));
    assert_eq!(art.get(&"this:key:hat".to_string()), Some(&8));
    assert_eq!(art.size(), 5);
    assert_eq!(art.remove(&"this:key:hat".to_string()), Some(8));
    assert_eq!(art.remove(&"this:key:has".to_string()), Some(9));
    assert_eq!(art.remove(&a), Some(3));
    assert_eq!(art.get(&b), Some(&2));
    assert_eq!(art.get(&c), Some(&1));
    assert_eq!(art.remove(&c), Some(1));
    assert_eq!(art.get(&b), Some(&2));
    assert_eq!(art.remove(&b), Some(2));
    assert_eq!(art.size(), 0);
    assert!(art.is_empty());
}

fn dense_load(keys: Vec<u32>) {
    let mut art = Art::<u32, u32, 8>::new();
    for &i in keys.iter() {
        assert_eq!(art.insert(i, i), None);
    }
    assert_eq!(art.size(), keys.len());
    for &i in keys.iter() {
        assert_eq!(art.get(&i), Some(&i));
    }
    for &i in keys.iter() {
        assert_eq!(art.insert(i, i), Some(i));
    }
    assert_eq!(art.size(), keys.len());
}

#[test]
fn dense_integer_load_ascending() {
    dense_load((0..1_000_000).collect());
}

#[test]
fn dense_integer_load_descending() {
    dense_load((0..1_000_000).rev().collect());
}

#[test]
fn full_range_u8() {
    let mut art = Art::<u8, u8, 8>::new();
    for i in 0..=255u8 {
        assert_eq!(art.insert(i, i), None);
    }
    assert_eq!(art.size(), 256);
    for i in 0..=255u8 {
        assert_eq!(art.get(&i), Some(&i));
    }
    for i in 0..=255u8 {
        let v = art.get_mut(&i).unwrap();
        *v = v.wrapping_add(1);
    }
    for i in 0..=255u8 {
        assert_eq!(art.get(&i), Some(&i.wrapping_add(1)));
    }
    for i in 0..=255u8 {
        assert_eq!(art.remove(&i), Some(i.wrapping_add(1)));
        assert_eq!(art.size(), 255 - i as usize);
    }
    assert_eq!(art.size(), 0);
    assert!(art.is_empty());
}

#[test]
fn full_range_i8() {
    let mut art = Art::<i8, i8, 8>::new();
    for i in i8::MIN..=i8::MAX {
        assert_eq!(art.insert(i, i), None);
    }
    assert_eq!(art.size(), 256);
    for i in i8::MIN..=i8::MAX {
        let v = art.get_mut(&i).unwrap();
        *v = v.wrapping_add(1);
    }
    for i in i8::MIN..=i8::MAX {
        assert_eq!(art.get(&i), Some(&i.wrapping_add(1)));
    }
    for i in (i8::MIN..=i8::MAX).rev() {
        assert_eq!(art.remove(&i), Some(i.wrapping_add(1)));
    }
    assert_eq!(art.size(), 0);
    assert!(art.is_empty());
}

#[test]
fn subset_removal_then_reinsertion() {
    let list = words(20_000, 7, 14);
    let n = list.len();
    let mut art = Art::<String, String, 8>::new();
    for w in list.iter() {
        assert_eq!(art.insert(w.clone(), w.clone()), None);
    }
    assert_eq!(art.size(), n);
    let mut hit = 0;
    for w in list.iter() {
        if w.len() >= 9 && w.len() <= 12 {
            assert_eq!(art.remove(w), Some(w.clone()));
            hit += 1;
        }
    }
    assert!(hit > 0);
    assert_eq!(art.size(), n - hit);
    for w in list.iter() {
        if w.len() >= 9 && w.len() <= 12 {
            assert_eq!(art.get(w), None);
        } else {
            assert_eq!(art.get(w), Some(w));
        }
    }
    for w in list.iter() {
        if w.len() >= 9 && w.len() <= 12 {
            assert_eq!(art.get(w), None);
            assert_eq!(art.insert(w.clone(), w.clone()), None);
            assert_eq!(art.get(w), Some(w));
        }
    }
    assert_eq!(art.size(), n);
    for w in list.iter() {
        assert_eq!(art.get(w), Some(w));
    }
}

fn against_a_map<const P: usize>(seed: u64) {
    let mut rng = Lcg(seed);
    let mut art = Art::<String, u64, P>::new();
    let mut map: BTreeMap<String, u64> = BTreeMap::new();
    let pool = words(400, seed + 1, 12);
    for step in 0..40_000u64 {
        let key = pool[rng.below(pool.len() as u64) as usize].clone();
        match rng.below(4) {
            0 | 1 => assert_eq!(art.insert(key.clone(), step), map.insert(key, step)),
            2 => assert_eq!(art.remove(&key), map.remove(&key)),
            _ => {
                if let Some(v) = art.get_mut(&key) {
                    *v += 1;
                }
                if let Some(v) = map.get_mut(&key) {
                    *v += 1;
                }
            }
        }
        assert_eq!(art.size(), map.len());
        assert_eq!(art.is_empty(), map.is_empty());
        let probe = &pool[rng.below(pool.len() as u64) as usize];
        assert_eq!(art.get(probe), map.get(probe));
    }
    for key in pool.iter() {
        assert_eq!(art.get(key), map.get(key));
    }
}

#[test]
fn last_write_wins_with_eight_stored_bytes() {
    against_a_map::<8>(11);
}

#[test]
fn last_write_wins_with_one_stored_byte() {
    against_a_map::<1>(12);
}

#[test]
fn last_write_wins_without_stored_bytes() {
    against_a_map::<0>(13);
}

#[test]
fn last_write_wins_with_many_stored_bytes() {
    against_a_map::<64>(14);
}

#[test]
fn size_counts_distinct_keys() {
    let mut art = Art::<u16, u16, 8>::new();
    for round in 0..3u16 {
        for i in 0..1000u16 {
            art.insert(i % 250, round);
        }
    }
    assert_eq!(art.size(), 250);
    for i in 0..125u16 {
        assert_eq!(art.remove(&(2 * i)), Some(2));
    }
    assert_eq!(art.size(), 125);
}

#[test]
fn insert_twice_keeps_the_size() {
    let mut art = Art::<String, i32, 8>::new();
    art.insert("other".to_string(), 0);
    assert_eq!(art.insert("k".to_string(), 1), None);
    let size = art.size();
    assert_eq!(art.insert("k".to_string(), 2), Some(1));
    assert_eq!(art.size(), size);
    assert_eq!(art.get(&"k".to_string()), Some(&2));
}

#[test]
fn remove_twice_returns_nothing() {
    let mut art = Art::<String, i32, 8>::new();
    art.insert("other".to_string(), 0);
    art.insert("k".to_string(), 1);
    assert_eq!(art.remove(&"k".to_string()), Some(1));
    let size = art.size();
    assert_eq!(art.remove(&"k".to_string()), None);
    assert_eq!(art.size(), size);
    assert_eq!(art.get(&"other".to_string()), Some(&0));
}

#[test]
fn drained_tree_is_empty() {
    let list = words(5_000, 3, 10);
    let mut art = Art::<String, usize, 8>::new();
    assert!(art.is_empty());
    for (i, w) in list.iter().enumerate() {
        assert_eq!(art.insert(w.clone(), i), None);
        assert!(!art.is_empty());
    }
    // remove in another order than that of insertion
    let mut order: Vec<usize> = (0..list.len()).collect();
    let mut rng = Lcg(99);
    for i in (1..order.len()).rev() {
        let j = rng.below(i as u64 + 1) as usize;
        order.swap(i, j);
    }
    for (done, &i) in order.iter().enumerate() {
        assert!(!art.is_empty());
        assert_eq!(art.remove(&list[i]), Some(i));
        assert_eq!(art.size(), list.len() - done - 1);
    }
    assert_eq!(art.size(), 0);
    assert!(art.is_empty());
    // and the tree can be used again
    assert_eq!(art.insert("again".to_string(), 1), None);
    assert_eq!(art.get(&"again".to_string()), Some(&1));
}

#[test]
fn order_of_insertion_does_not_show() {
    let list = words(3_000, 5, 10);
    let mut forward = Art::<String, usize, 8>::new();
    let mut backward = Art::<String, usize, 8>::new();
    let mut shuffled = Art::<String, usize, 8>::new();
    for (i, w) in list.iter().enumerate() {
        forward.insert(w.clone(), i);
    }
    for (i, w) in list.iter().enumerate().rev() {
        backward.insert(w.clone(), i);
    }
    let mut order: Vec<usize> = (0..list.len()).collect();
    let mut rng = Lcg(17);
    for i in (1..order.len()).rev() {
        let j = rng.below(i as u64 + 1) as usize;
        order.swap(i, j);
    }
    for &i in order.iter() {
        shuffled.insert(list[i].clone(), i);
    }
    let probes = words(6_000, 6, 11);
    for w in list.iter().chain(probes.iter()) {
        assert_eq!(forward.get(w), backward.get(w));
        assert_eq!(forward.get(w), shuffled.get(w));
    }
    assert_eq!(forward.size(), backward.size());
    assert_eq!(forward.size(), shuffled.size());
}

#[test]
fn get_key_value_echoes_the_key() {
    let mut art = Art::<i32, &str, 8>::new();
    art.insert(1, "a");
    assert_eq!(art.get_key_value(&1), Some((&1, &"a")));
    assert_eq!(art.get_key_value(&2), None);
}

#[test]
fn get_mut_changes_the_value() {
    let mut art = Art::<i32, &str, 8>::new();
    art.insert(1, "a");
    if let Some(x) = art.get_mut(&1) {
        *x = "b";
    }
    assert_eq!(art.get(&1), Some(&"b"));
    assert_eq!(art.get_mut(&2), None);
    assert_eq!(art.size(), 1);
}

#[test]
fn new_tree_is_empty() {
    let art = Art::<u64, u64, 8>::new();
    assert_eq!(art.size(), 0);
    assert!(art.is_empty());
    assert_eq!(art.get(&0), None);
}

#[test]
fn wide_keys() {
    let mut art = Art::<u64, u64, 4>::new();
    let keys: Vec<u64> = (0..2000u64).map(|i| i.wrapping_mul(0x9E37_79B9_7F4A_7C15)).collect();
    for &k in keys.iter() {
        assert_eq!(art.insert(k, !k), None);
    }
    for &k in keys.iter() {
        assert_eq!(art.get(&k), Some(&!k));
        assert_eq!(art.get(&k.wrapping_add(1)), None);
    }
    for &k in keys.iter() {
        assert_eq!(art.remove(&k), Some(!k));
    }
    assert!(art.is_empty());
}
