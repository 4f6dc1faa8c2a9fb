use artful::Art;
use std::collections::BTreeSet;

struct Numbers(u64);

impl Numbers {
    fn next(&mut self) -> u64 {
        self.0 = self.0.wrapping_mul(6364136223846793005).wrapping_add(1442695040888963407);
        self.0 >> 33
    }

    fn below(&mut self, n: u64) -> u64 {
        self.next() % n
    }
}

fn distinct(n: usize, mut line: impl FnMut() -> String) -> Vec<String> {
    let mut seen = BTreeSet::new();
    let mut out = Vec::new();
    while out.len() < n {
        let l = line();
        if seen.insert(l.clone()) {
            out.push(l);
        }
    }
    out
}

/// Three lists of distinct lines: words built from syllables, identifiers
/// in the shape of a UUID, and words of characters that take three bytes
/// each.
fn datasets() -> Vec<Vec<String>> {
    let syllables = [
        "a", "an", "be", "co", "de", "er", "in", "ing", "la", "le", "ly", "ment", "ness", "on",
        "or", "pre", "re", "s", "st", "ta", "ter", "ti", "un", "ve",
    ];
    let mut rng = Numbers(2024);
    let words = distinct(30_000, || {
        let n = 1 + rng.below(6);
        (0..n).map(|_| syllables[rng.below(syllables.len() as u64) as usize]).collect()
    });
    let mut rng = Numbers(4048);
    let uuids = distinct(20_000, || {
        let hex: Vec<char> = "0123456789abcdef".chars().collect();
        let mut line = String::new();
        for i in 0..32 {
            if i == 8 || i == 12 || i == 16 || i == 20 {
                line.push('-');
            }
            line.push(hex[rng.below(16) as usize]);
        }
        line
    });
    let mut rng = Numbers(8096);
    let wide = distinct(10_000, || {
        let n = 1 + rng.below(4);
        (0..n).map(|_| char::from_u32(0x4e00 + rng.below(300) as u32).unwrap()).collect()
    });
    vec![words, uuids, wide]
}

#[test]
fn test_insert() {
    for lines in datasets().iter() {
        let mut art = Art::<String, String, 8>::new();
        for (index, line) in lines.iter().enumerate() {
            assert_eq!(art.size(), index);
            assert_eq!(art.insert(line.clone(), line.clone()), None);
        }
    }
}

#[test]
fn test_insert_get() {
    for lines in datasets().iter() {
        let mut art = Art::<String, String, 8>::new();
        let mut count = 0;
        for line in lines.iter() {
            assert_eq!(art.insert(line.clone(), line.clone()), None);
            assert_eq!(art.get(line), Some(line));
            count += 1;
        }
        assert_eq!(art.size(), count);
    }
}

#[test]
fn test_insert_get_remove_get() {
    for lines in datasets().iter() {
        let mut art = Art::<String, String, 8>::new();
        let mut count = 0;
        for line in lines.iter() {
            assert_eq!(art.insert(line.clone(), line.clone()), None);
            count += 1;
        }
        assert_eq!(art.size(), count);

        for (index, line) in lines.iter().enumerate() {
            assert_eq!(art.size(), count - index);
            assert_eq!(art.get(line), Some(line));
            assert_eq!(art.remove(line), Some(line.clone()));
            assert_eq!(art.get(line), None);
        }
        assert_eq!(art.size(), 0);
    }
}

#[test]
fn test_get_insert_remove_get() {
    for lines in datasets().iter() {
        let mut art = Art::<String, String, 8>::new();
        for line in lines.iter() {
            assert_eq!(art.get(line), None);
            assert_eq!(art.insert(line.clone(), line.clone()), None);
            assert_eq!(art.get(line), Some(line));
            assert_eq!(art.remove(line), Some(line.clone()));
            assert_eq!(art.get(line), None);
        }
        assert_eq!(art.size(), 0);
    }
}

#[test]
fn test_insert_random_remove() {
    let byte_len_range = (9, 12); // remove this of range byte len
    for lines in datasets().iter() {
        let mut art = Art::<String, String, 8>::new();
        let mut count = 0;
        for line in lines.iter() {
            assert_eq!(art.insert(line.clone(), line.clone()), None);
            count += 1;
        }
        assert_eq!(art.size(), count);

        let mut hit_lines = 0;
        for line in lines.iter() {
            let byte_len = line.as_str().as_bytes().len();
            if byte_len >= byte_len_range.0 && byte_len <= byte_len_range.1 {
                assert_eq!(art.remove(line), Some(line.clone()));
                hit_lines += 1;
            }
        }
        assert_eq!(art.size(), count - hit_lines);

        for line in lines.iter() {
            let byte_len = line.as_str().as_bytes().len();
            if byte_len >= byte_len_range.0 && byte_len <= byte_len_range.1 {
                assert_eq!(art.get(line), None);
                assert_eq!(art.insert(line.clone(), line.clone()), None);
                assert_eq!(art.get(line), Some(line));
            }
        }
        assert_eq!(art.size(), count);
    }
}

#[test]
fn test_short_prefixed() {
    let mut art = Art::<String, i32, 8>::new();
    let cases: Vec<(String, i32)> = vec![
        ("bcd".to_string(), 1),
        ("bcdd".to_string(), 2),
        ("bcdde".to_string(), 3),
        ("bcddee".to_string(), 4),
        ("bcddeef".to_string(), 5),
        ("bcddeeff".to_string(), 6),
        ("bcddeeffg".to_string(), 7),
        ("bcddeeffgg".to_string(), 8),
    ];

    for (key, val) in cases.iter() {
        assert_eq!(art.insert(key.clone(), *val), None);
    }

    for (key, val) in cases.iter() {
        assert_eq!(art.get(key), Some(val));
    }
}

#[test]
fn test_long_prefixed() {
    let mut art = Art::<String, i32, 8>::new();
    let cases: Vec<(String, i32)> = vec![
        ("this:key:has:a:long:prefix:3".to_string(), 3),
        ("this:key:has:a:long:common:prefix:2".to_string(), 2),
        ("this:key:has:a:long:common:prefix:1".to_string(), 1),
    ];

    for (key, val) in cases.iter() {
        assert_eq!(art.insert(key.clone(), *val), None);
    }

    for (key, val) in cases.iter() {
        assert_eq!(art.get(key), Some(val));
    }
}
