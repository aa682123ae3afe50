use dahlia_utils::hash_utils::{fast_hash, hash_string, hex_of};

#[test]
fn hash_string_is_the_same_for_the_same_text() {
    assert_eq!(hash_string("cache-key"), hash_string("cache-key"));
    assert_eq!(hash_string(""), hash_string(""));
    let owned = String::from("cache-key");
    assert_eq!(hash_string(&owned), hash_string("cache-key"));
}

#[test]
fn hash_string_differs_for_different_texts() {
    assert_ne!(hash_string("hello"), hash_string("world"));
    assert_ne!(hash_string("a"), hash_string("b"));
    assert_ne!(hash_string(""), hash_string(" "));
}

#[test]
fn hash_string_is_lowercase_hexadecimal() {
    for text in ["", "a", "hello world", "ünï©ødé"] {
        let h = hash_string(text);
        assert!(!h.is_empty());
        assert!(h.len() <= 16);
        assert!(h.chars().all(|c| c.is_ascii_digit() || ('a'..='f').contains(&c)));
        assert!(h == "0" || !h.starts_with('0'));
    }
}

#[test]
fn hash_string_is_the_hex_of_the_fingerprint() {
    let text = "fingerprint me";
    assert_eq!(hash_string(text), format!("{:x}", fast_hash(&text)));
    assert_eq!(hash_string(text), hex_of(fast_hash(&text)));
    assert_eq!(u64::from_str_radix(&hash_string(text), 16).unwrap(), fast_hash(&text));
}

#[test]
fn fast_hash_is_the_same_for_equal_values() {
    assert_eq!(fast_hash(&42u32), fast_hash(&42u32));
    assert_eq!(fast_hash(&"text"), fast_hash(&"text"));
    assert_eq!(fast_hash(&vec![1u8, 2, 3]), fast_hash(&vec![1u8, 2, 3]));
    assert_eq!(fast_hash(&("a", 1u64)), fast_hash(&("a", 1u64)));
}

#[test]
fn fast_hash_depends_on_order() {
    assert_ne!(fast_hash(&vec![1u8, 2, 3]), fast_hash(&vec![3u8, 2, 1]));
    assert_ne!(fast_hash(&("a", "b")), fast_hash(&("b", "a")));
}

#[test]
fn fast_hash_differs_for_different_values() {
    assert_ne!(fast_hash(&1u64), fast_hash(&2u64));
    assert_ne!(fast_hash(&"one"), fast_hash(&"two"));
}

#[test]
fn hex_of_known_values() {
    assert_eq!(hex_of(0), "0");
    assert_eq!(hex_of(9), "9");
    assert_eq!(hex_of(10), "a");
    assert_eq!(hex_of(15), "f");
    assert_eq!(hex_of(16), "10");
    assert_eq!(hex_of(255), "ff");
    assert_eq!(hex_of(0xdead_beef), "deadbeef");
    assert_eq!(hex_of(u64::MAX), "ffffffffffffffff");
    assert_eq!(hex_of(0x0123_4567_89ab_cdef), format!("{:x}", 0x0123_4567_89ab_cdefu64));
}

#[test]
fn hex_of_different_values_differs_and_reads_back() {
    let values: [u64; 7] = [0, 1, 15, 16, 17, 256, u64::MAX];
    for a in values {
        assert_eq!(u64::from_str_radix(&hex_of(a), 16).unwrap(), a);
        for b in values {
            if a != b {
                assert_ne!(hex_of(a), hex_of(b));
            }
        }
    }
}

#[test]
fn hash_string_reads_the_whole_text() {
    assert_ne!(hash_string("prefix"), hash_string("prefix "));
    assert_ne!(hash_string("ab"), hash_string("ba"));
    let texts = ["", "a", "cache-key", "ünï©ødé", "line\nbreak"];
    for text in texts {
        let owned = String::from(text);
        assert_eq!(hash_string(text), format!("{:x}", fast_hash(&text)));
        assert_eq!(hash_string(&owned), hash_string(text));
        assert_eq!(u64::from_str_radix(&hash_string(text), 16), Ok(fast_hash(&text)));
    }
}
