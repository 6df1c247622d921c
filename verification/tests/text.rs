//! Text and bytes.

use rshx::bytes::{find_from, holds_bytes, keep, lower};
use rshx::text::{
    bytes_of, chars_of, copied, find, is_before, join, last_line, lines, pad, parse_u32,
    place, same, slice_to, split, string_of, trim, write_decimal, write_hexadecimal, write_signed,
    write_zero_padded,
};

fn words(words: &[&str]) -> Vec<String> {
    words.iter().map(|word| word.to_string()).collect()
}

#[test]
fn strings_and_characters_convert_both_ways() {
    let text = "a\u{e9}\u{1f600}";
    assert_eq!(chars_of(text), ['a', '\u{e9}', '\u{1f600}']);
    assert_eq!(string_of(&chars_of(text)), text);
    assert_eq!(bytes_of(text), text.as_bytes());
    assert!(same(text, "a\u{e9}\u{1f600}") && !same("a", "ab") && !same("a", "b"));
    assert_eq!(copied(&words(&["a", "b"])), words(&["a", "b"]));
}

#[test]
fn words_are_found_and_joined() {
    let list = words(&["b", "a", "b"]);
    assert_eq!(join(&list, ", "), "b, a, b");
    assert_eq!(join(&[], ", "), "");
    assert_eq!(place(&list, "b"), 0);
    assert_eq!(place(&list, "c"), 3);
}

#[test]
fn texts_are_ordered_character_by_character() {
    assert!(is_before("a", "ab") && is_before("Z", "a") && is_before("", "a"));
    assert!(!is_before("a", "a") && !is_before("b", "ab"));
}

#[test]
fn texts_are_cut_as_asked() {
    let cs = chars_of("a,,b");
    let parts: Vec<String> = split(&cs, ',').iter().map(|p| string_of(p)).collect();
    assert_eq!(parts, ["a", "", "b"]);
    assert_eq!(find(&cs, 'b'), 3);
    assert_eq!(find(&cs, 'x'), 4);
    assert_eq!(slice_to(&cs, 1, 3), [',', ',']);
    assert_eq!(string_of(&trim(&chars_of("\t\u{85} x y \u{2029}"))), "x y");
    assert_eq!(trim(&chars_of(" \n")), Vec::<char>::new());
    assert_eq!(lines("a\r\nb\n\nc"), words(&["a", "b", "", "c"]));
    assert_eq!(lines("a\n"), words(&["a"]));
    assert_eq!(lines(""), Vec::<String>::new());
    assert_eq!(last_line("a\n\n").unwrap(), "a");
    assert_eq!(last_line("\n\n"), None);
    assert_eq!(pad("ab", 4), "ab  ");
    assert_eq!(pad("abc", 2), "abc");
}

#[test]
fn numbers_are_written_and_read() {
    assert_eq!(write_decimal(0), "0");
    assert_eq!(write_decimal(u64::MAX), u64::MAX.to_string());
    assert_eq!(write_hexadecimal(0xdead_beef), "deadbeef");
    assert_eq!(write_signed(i32::MIN), "-2147483648");
    assert_eq!(write_signed(7), "7");
    assert_eq!(write_zero_padded(7, 3), "007");
    assert_eq!(write_zero_padded(1234, 3), "1234");
    for (text, number) in [
        ("0", Some(0)),
        ("007", Some(7)),
        ("+42", Some(42)),
        ("4294967295", Some(u32::MAX)),
        ("4294967296", None),
        ("", None),
        ("+", None),
        ("-1", None),
        ("++1", None),
        ("1 ", None),
        ("\u{661}", None),
    ] {
        assert_eq!(parse_u32(&chars_of(text)), number, "{text:?}");
    }
}

#[test]
fn bytes_are_found_and_kept() {
    assert_eq!(find_from(b"abcabc", b"bc", 0), Some(1));
    assert_eq!(find_from(b"abcabc", b"bc", 2), Some(4));
    assert_eq!(find_from(b"abcabc", b"bc", 5), None);
    assert!(holds_bytes(b"xay", b"a") && !holds_bytes(b"", b"a"));
    assert_eq!(lower(b"AZaz09\xc9"), b"azaz09\xc9");
    let mut kept = b"ab".to_vec();
    assert!(keep(b"c", &mut kept, 4));
    assert!(!keep(b"defg", &mut kept, 4));
    assert_eq!(kept, b"abcd");
    assert!(!keep(b"x", &mut kept, 2));
    assert!(keep(b"", &mut kept, 2));
    assert_eq!(kept, b"abcd");
}
