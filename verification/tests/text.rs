use ovit_tools::text::{
    contains_bytes, contains_text, pad_left, pad_right, to_decimal, to_hexadecimal, trim,
};

#[test]
fn numerals_have_no_leading_zeros() {
    for n in [0u64, 1, 9, 10, 15, 16, 99, 100, 255, 256, 4_294_967_296, u64::MAX] {
        assert_eq!(to_decimal(n), format!("{}", n));
        assert_eq!(to_hexadecimal(n), format!("{:x}", n));
    }
    assert_eq!(to_decimal(1024), "1024");
    assert_eq!(to_hexadecimal(48879), "beef");
}

#[test]
fn padding_counts_characters() {
    assert_eq!(pad_left("7", 3, '0'), "007");
    assert_eq!(pad_left("1234", 3, '0'), "1234");
    assert_eq!(pad_left("", 0, 'x'), "");
    assert_eq!(pad_right("caf\u{e9}", 6, ' '), "caf\u{e9}  ");
    assert_eq!(pad_right("caf\u{e9}", 6, ' '), format!("{:6}", "caf\u{e9}"));
    assert_eq!(pad_right("long", 2, ' '), "long");
}

#[test]
fn parts_are_found_in_text() {
    assert!(contains_text("mfs application region", "application"));
    assert!(contains_text("application", "application"));
    assert!(contains_text("aab", "ab"));
    assert!(contains_text("abc", ""));
    assert!(contains_text("", ""));
    assert!(contains_text("\u{e9}t\u{e9}", "t\u{e9}"));
    assert!(!contains_text("applicatio", "application"));
    assert!(!contains_text("MFS media region", "application"));
}

#[test]
fn runs_are_found_in_bytes() {
    assert!(contains_bytes(b"xxSeinfeldyy", b"Seinfeld"));
    assert!(contains_bytes(b"aaab", b"aab"));
    assert!(contains_bytes(b"end", b"nd"));
    assert!(!contains_bytes(b"seinfeld", b"Seinfeld"));
    assert!(!contains_bytes(b"Sein", b"Seinfeld"));
    let data = [1u8, 2, 1, 2, 3];
    for n in 1..4 {
        for run in [&data[..n], &[2, 1, 2][..], &[1, 2, 3], &[3, 1], &[2, 2]] {
            let expected = data.windows(run.len()).any(|w| w == run);
            assert_eq!(contains_bytes(&data, run), expected);
        }
    }
}

#[test]
fn white_space_is_trimmed_at_either_end() {
    assert_eq!(trim("  Star Trek\t\n"), "Star Trek");
    assert_eq!(trim(" \u{3000} "), "");
    assert_eq!(trim(""), "");
    assert_eq!(trim("a"), "a");
    // Every character there is, on either side of a letter.
    for c in '\0'..=char::MAX {
        if c as u32 > 0x4000 && c as u32 % 97 != 0 {
            continue;
        }
        let text = format!("{}x{}", c, c);
        assert_eq!(trim(&text), text.trim(), "{:?}", c);
    }
}
