use cache_node::digest::sha256_hex;
use cache_node::order::text_before;
use cache_node::text::{
    cat, cat3, chars_of, contains, cut, decimal, ends_with, lower, parse_unsigned, replace, same,
    scalar_len, second_word, signed_decimal, starts_with, strip_end, strip_start, trim, trim_end,
    white,
};

#[test]
fn white_space_is_that_of_unicode() {
    for u in 0..=0x10ffffu32 {
        if let Some(c) = char::from_u32(u) {
            assert_eq!(white(c), c.is_whitespace(), "{u:x}");
        }
    }
}

#[test]
fn scalar_len_is_that_of_utf8() {
    for c in ['\0', 'a', '\u{7f}', '\u{80}', 'é', '\u{7ff}', '\u{800}', '你', '\u{ffff}', '😀'] {
        assert_eq!(scalar_len(c), c.len_utf8());
    }
}

#[test]
fn trimming_is_that_of_std() {
    for s in ["", " ", " a ", "\t a b \r\n", "\u{a0}x\u{3000}", "plain", "  你好  "] {
        assert_eq!(trim(s), s.trim());
        assert_eq!(trim_end(s), s.trim_end());
    }
}

#[test]
fn stripping_takes_all_repetitions() {
    assert_eq!(strip_start("http://http://host:1", "http://"), "host:1");
    assert_eq!(strip_start("https://host", "http://"), "https://host");
    assert_eq!(strip_end("host:1///", '/'), "host:1");
    assert_eq!(strip_end("///", '/'), "");
}

#[test]
fn searching_finds_what_is_there() {
    assert!(starts_with("MANIFEST {}", "MANIFEST "));
    assert!(!starts_with("MAN", "MANIFEST "));
    assert!(ends_with("abc.part", ".part"));
    assert!(!ends_with("part", ".part"));
    assert!(contains("a transfer-encoding: chunked b", "transfer-encoding: chunked"));
    assert!(contains("x", ""));
    assert!(!contains("", "x"));
    assert!(same("你好", "你好"));
    assert!(!same("a", "ab"));
}

#[test]
fn replacing_is_that_of_std() {
    assert_eq!(replace("{{pkg}}/a {{pkg}}", "{{pkg}}", "P"), "P/a P");
    assert_eq!(replace("aaa", "aa", "b"), "ba");
    assert_eq!(replace("{{{pkg}}}", "{{pkg}}", "x"), "{x}");
}

#[test]
fn numbers_are_read_and_written() {
    assert_eq!(decimal(0), "0");
    assert_eq!(decimal(u64::MAX), "18446744073709551615");
    assert_eq!(signed_decimal(-1), "-1");
    assert_eq!(signed_decimal(i64::MIN), "-9223372036854775808");
    assert_eq!(signed_decimal(42), "42");
    assert_eq!(parse_unsigned("+1F", 16, 1000), Some(31));
    assert_eq!(parse_unsigned("1f", 16, 30), None);
    assert_eq!(parse_unsigned("", 16, 30), None);
    assert_eq!(parse_unsigned("+", 10, 30), None);
    assert_eq!(parse_unsigned("-1", 10, 30), None);
    assert_eq!(parse_unsigned("99999999999999999999999", 10, u64::MAX), None);
}

#[test]
fn words_are_split_at_white_space() {
    assert_eq!(second_word("http/1.1 200 ok"), Some("200".to_string()));
    assert_eq!(second_word("  a \t b"), Some("b".to_string()));
    assert_eq!(second_word("alone "), None);
    assert_eq!(second_word(""), None);
}

#[test]
fn cutting_stays_between_characters() {
    assert_eq!(cut("abcdef", 3), "abc");
    assert_eq!(cut("你好", 5), "你");
    assert_eq!(cut("ab", 40), "ab");
    assert_eq!(cut("你", 2), "");
}

#[test]
fn joining_and_lowering() {
    assert_eq!(cat("a", "b"), "ab");
    assert_eq!(cat3("a", "", "c"), "ac");
    assert_eq!(lower("ABCxyz019É"), "abcxyz019É");
    assert_eq!(chars_of("é你"), vec!['é', '你']);
}

#[test]
fn text_order_is_that_of_std() {
    let words = ["", "a", "ab", "b", "é", "你", "z", "Z", "0", "😀", "\u{ffff}"];
    for x in words {
        for y in words {
            assert_eq!(text_before(x, y), x < y);
        }
    }
}

#[test]
fn digests_are_those_of_sha256() {
    assert_eq!(
        sha256_hex(b"abc"),
        "ba7816bf8f01cfea414140de5dae2223b00361a396177a9cb410ff61f20015ad"
    );
    assert_eq!(
        sha256_hex(b""),
        "e3b0c44298fc1c149afbf4c8996fb92427ae41e4649b934ca495991b7852b855"
    );
}

#[test]
fn one_byte_more_is_another_name() {
    assert_ne!(sha256_hex(b"abc"), sha256_hex(b"abd"));
    assert_ne!(sha256_hex(b"abc"), sha256_hex(b"abc\0"));
}
