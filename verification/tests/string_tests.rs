use dahlia_utils::string_utils::{
    generate_id, id_from_millis, id_from_reading, is_allowed, sanitize_input,
};
use dahlia_utils::text::{append_digits, digit_to_char};
use std::time::{Duration, Instant, UNIX_EPOCH};

fn wait_for(span: Duration) {
    let start = Instant::now();
    while start.elapsed() < span {
        std::hint::spin_loop();
    }
}

fn fresh_id() -> String {
    match generate_id() {
        Ok(id) => id,
        Err(_) => panic!("the clock stands before the epoch"),
    }
}

#[test]
fn sanitize_drops_markup_and_punctuation() {
    assert_eq!(sanitize_input("hello <script>!@#_-world"), "hello script_-world");
}

#[test]
fn sanitize_of_empty_text_is_empty() {
    assert_eq!(sanitize_input(""), "");
}

#[test]
fn sanitize_may_drop_everything() {
    assert_eq!(sanitize_input("<>!@#$%^&*()+=[]{};:'\",./?\\|`~"), "");
}

#[test]
fn sanitize_keeps_letters_and_digits_of_any_script() {
    assert_eq!(sanitize_input("héllo wörld ٣ 日本語 ½!"), "héllo wörld ٣ 日本語 ½");
}

#[test]
fn sanitize_keeps_whitespace_of_every_kind() {
    assert_eq!(sanitize_input("a\tb\nc\r\nd\u{00a0}e\u{2003}f"), "a\tb\nc\r\nd\u{00a0}e\u{2003}f");
}

#[test]
fn sanitize_drops_control_characters() {
    assert_eq!(sanitize_input("a\u{0000}b\u{0007}c\u{001b}[0m"), "abc0m");
}

#[test]
fn sanitize_keeps_only_allowed_characters_and_never_grows() {
    let inputs = ["", "plain", "a-b_c d", "<<>>", "x=1; DROP TABLE users;--", "ünï©ødé™ tëxt"];
    for input in inputs {
        let out = sanitize_input(input);
        assert!(out.chars().count() <= input.chars().count());
        assert!(out.len() <= input.len());
        for c in out.chars() {
            assert!(c.is_alphanumeric() || c.is_whitespace() || c == '-' || c == '_');
        }
        assert_eq!(sanitize_input(&out), out);
    }
}

#[test]
fn sanitize_does_not_change_clean_text() {
    assert_eq!(sanitize_input("already_clean-text 123"), "already_clean-text 123");
}

#[test]
fn allowed_characters() {
    assert!(is_allowed('a'));
    assert!(is_allowed('Z'));
    assert!(is_allowed('7'));
    assert!(is_allowed(' '));
    assert!(is_allowed('-'));
    assert!(is_allowed('_'));
    assert!(is_allowed('é'));
    assert!(!is_allowed('<'));
    assert!(!is_allowed('.'));
    assert!(!is_allowed('\u{0000}'));
    assert!(!is_allowed('+'));
}

#[test]
fn id_from_known_time_stamps() {
    assert_eq!(id_from_millis(0), "dahlia_0");
    assert_eq!(id_from_millis(7), "dahlia_7");
    assert_eq!(id_from_millis(10), "dahlia_10");
    assert_eq!(id_from_millis(1700000000000), "dahlia_1700000000000");
    assert_eq!(id_from_millis(u128::MAX), format!("dahlia_{}", u128::MAX));
}

#[test]
fn ids_of_different_time_stamps_differ() {
    assert_ne!(id_from_millis(1000), id_from_millis(1002));
    assert_ne!(id_from_millis(1), id_from_millis(10));
}

#[test]
fn generated_id_has_prefix_and_time_stamp() {
    let id = fresh_id();
    assert!(id.starts_with("dahlia_"));
    let suffix = &id["dahlia_".len()..];
    assert!(!suffix.is_empty());
    assert!(suffix.chars().all(|c| c.is_ascii_digit()));
    let millis: u128 = suffix.parse().unwrap();
    assert!(millis > 1_000_000_000_000);
}

#[test]
fn generated_ids_apart_in_time_differ() {
    let first = fresh_id();
    wait_for(Duration::from_millis(3));
    let second = fresh_id();
    assert_ne!(first, second);
    assert!(first.starts_with("dahlia_"));
    assert!(second.starts_with("dahlia_"));
    let a: u128 = first["dahlia_".len()..].parse().unwrap();
    let b: u128 = second["dahlia_".len()..].parse().unwrap();
    assert!(a <= b);
    assert!(b - a >= 2);
}

#[test]
fn digits_in_several_radices() {
    let mut s = String::from("x=");
    append_digits(&mut s, 5, 2);
    assert_eq!(s, "x=101");
    let mut d = String::new();
    append_digits(&mut d, 9075, 10);
    assert_eq!(d, "9075");
    let mut h = String::new();
    append_digits(&mut h, 48879, 16);
    assert_eq!(h, "beef");
    let mut z = String::new();
    append_digits(&mut z, 0, 16);
    assert_eq!(z, "0");
}

#[test]
fn digit_characters() {
    let expected = "0123456789abcdef";
    for (d, c) in expected.chars().enumerate() {
        assert_eq!(digit_to_char(d as u8), c);
    }
}

#[test]
fn id_reads_back_as_its_time_stamp() {
    let stamps: [u128; 5] = [0, 9, 10, 1700000000123, u128::MAX];
    for millis in stamps {
        let id = id_from_millis(millis);
        assert_eq!(&id[..7], "dahlia_");
        let back: u128 = id[7..].parse().unwrap();
        assert_eq!(back, millis);
    }
}

#[test]
fn id_from_a_reading_since_the_epoch() {
    match id_from_reading(Ok(Duration::from_millis(1234))) {
        Ok(id) => assert_eq!(id, "dahlia_1234"),
        Err(_) => panic!("a reading since the epoch was refused"),
    }
    match id_from_reading(Ok(Duration::new(1, 999_999_999))) {
        Ok(id) => assert_eq!(id, "dahlia_1999"),
        Err(_) => panic!("a reading since the epoch was refused"),
    }
    match id_from_reading(Ok(Duration::ZERO)) {
        Ok(id) => assert_eq!(id, "dahlia_0"),
        Err(_) => panic!("a reading since the epoch was refused"),
    }
    let at = UNIX_EPOCH + Duration::from_secs(1_700_000_000);
    match id_from_reading(at.duration_since(UNIX_EPOCH)) {
        Ok(id) => assert_eq!(id, "dahlia_1700000000000"),
        Err(_) => panic!("a reading since the epoch was refused"),
    }
}

#[test]
fn id_from_a_reading_before_the_epoch_is_an_error() {
    let before = UNIX_EPOCH - Duration::from_secs(5);
    match id_from_reading(before.duration_since(UNIX_EPOCH)) {
        Ok(_) => panic!("a clock before the epoch gave an identifier"),
        Err(e) => assert_eq!(e.cause.duration(), Duration::from_secs(5)),
    }
}

fn has_white_space_property(c: char) -> bool {
    let n: u32 = c as u32;
    (0x09..=0x0d).contains(&n)
        || n == 0x20
        || n == 0x85
        || n == 0xa0
        || n == 0x1680
        || (0x2000..=0x200a).contains(&n)
        || n == 0x2028
        || n == 0x2029
        || n == 0x202f
        || n == 0x205f
        || n == 0x3000
}

#[test]
fn every_character_is_kept_or_dropped_by_its_class() {
    let mut whitespace_seen: u32 = 0;
    for n in 0..=0x10ffffu32 {
        if let Some(c) = char::from_u32(n) {
            assert_eq!(c.is_whitespace(), has_white_space_property(c));
            if n < 128 {
                assert_eq!(c.is_alphanumeric(), c.is_ascii_digit() || c.is_ascii_alphabetic());
            }
            let expected =
                c.is_alphanumeric() || has_white_space_property(c) || c == '-' || c == '_';
            assert_eq!(is_allowed(c), expected);
            if has_white_space_property(c) {
                whitespace_seen += 1;
            }
        }
    }
    assert_eq!(whitespace_seen, 25);
}

#[test]
fn ascii_is_kept_only_where_letter_digit_space_hyphen_or_underscore() {
    let mut kept = String::new();
    for n in 0..128u8 {
        let c = n as char;
        if is_allowed(c) {
            kept.push(c);
        }
    }
    assert_eq!(
        kept,
        "\t\n\u{b}\u{c}\r -0123456789ABCDEFGHIJKLMNOPQRSTUVWXYZ_abcdefghijklmnopqrstuvwxyz"
    );
}

#[test]
fn ids_with_equally_many_digits_sort_in_time_order() {
    let stamps: [u128; 5] = [1000000000000, 1699999999999, 1700000000000, 1700000000001, 9999999999999];
    for pair in stamps.windows(2) {
        assert!(id_from_millis(pair[0]) < id_from_millis(pair[1]));
    }
    assert!(id_from_millis(10) < id_from_millis(9));
}
