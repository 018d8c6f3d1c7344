use worldrenderer::bytes::{copy_bytes, padded, push_bytes, push_word, read_word};
use worldrenderer::text::{
    array, chars_of, contains, decimal_text, field, join, object, quoted, replace_all, same_text,
    text_of, trimmed, truth_text,
};

#[test]
fn words_are_read_back() {
    let mut out: Vec<u8> = vec![9];
    push_word(&mut out, 0x0102_0304);
    push_word(&mut out, u32::MAX);
    push_bytes(&mut out, &vec![7, 8]);
    assert_eq!(out, [9, 4, 3, 2, 1, 255, 255, 255, 255, 7, 8]);
    assert_eq!(read_word(&out, 1), 0x0102_0304);
    assert_eq!(read_word(&out, 5), u32::MAX);
    assert_eq!(copy_bytes(&out, 4, 2), [1, 255]);
}

#[test]
fn buffers_are_padded_to_words() {
    assert_eq!(padded(&[]), [0, 0, 0, 0]);
    assert_eq!(padded(&[1]), [1, 0, 0, 0]);
    assert_eq!(padded(&[1, 2, 3, 4]), [1, 2, 3, 4]);
    assert_eq!(padded(&[1, 2, 3, 4, 5]), [1, 2, 3, 4, 5, 0, 0, 0]);
}

#[test]
fn numbers_are_spelled() {
    assert_eq!(decimal_text(0), "0");
    assert_eq!(decimal_text(10_203), "10203");
    assert_eq!(decimal_text(u64::MAX), "18446744073709551615");
}

#[test]
fn texts_are_told_apart() {
    assert!(same_text("wörld", "wörld"));
    assert!(!same_text("world", "worl"));
    assert_eq!(text_of(&chars_of("añb")), "añb");
    assert!(contains(&chars_of("image/png"), &chars_of("png")));
    assert!(!contains(&chars_of("image/pn"), &chars_of("png")));
    assert!(contains(&chars_of(""), &chars_of("")));
}

#[test]
fn replacing_goes_from_left_to_right() {
    let out = replace_all(&chars_of("aaab"), &chars_of("aa"), &chars_of("x"));
    assert_eq!(text_of(&out), "xab");
}

#[test]
fn white_space_is_trimmed() {
    let trim = |s: &str| text_of(&trimmed(&chars_of(s)));
    assert_eq!(trim("  a b\n"), "a b");
    assert_eq!(trim("\u{a0}\u{3000}x\u{2003}"), "x");
    assert_eq!(trim(" \t"), "");
    for n in 0..=0x10_ffff_u32 {
        if let Some(c) = char::from_u32(n) {
            let s: String = [c, 'q', c].iter().collect();
            if c.is_whitespace() || n < 0x80 || n % 97 == 0 {
                assert_eq!(trim(&s), s.trim());
            }
        }
    }
}

#[test]
fn objects_and_arrays_are_written() {
    assert_eq!(object(&vec![]), "{}");
    let fields = vec![
        field("a", decimal_text(1)),
        field("b", truth_text(false)),
        field("c", quoted("x")),
    ];
    assert_eq!(object(&fields), "{\"a\":1,\"b\":false,\"c\":\"x\"}");
    assert_eq!(array(&vec![]), "[]");
    assert_eq!(array(&vec!["1".to_string(), "2".to_string()]), "[1,2]");
    assert_eq!(join(&vec!["a".to_string(), "b".to_string()], ", "), "a, b");
}
