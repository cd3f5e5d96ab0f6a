use lint_owl::text::{
    chars_of, decimal_text, ends_with, lines, same_text, starts_with, string_of, trim,
};

#[test]
fn lines_end_in_newline_or_carriage_return_and_newline() {
    assert_eq!(lines("a\nb\r\nc"), vec!["a", "b", "c"]);
    assert_eq!(lines("a\n"), vec!["a"]);
    assert_eq!(lines("a\n\n"), vec!["a", ""]);
    assert_eq!(lines("\r\n"), vec![""]);
    assert_eq!(lines("a\r"), vec!["a\r"]);
    assert_eq!(lines("a\rb\n"), vec!["a\rb"]);
    assert!(lines("").is_empty());
}

#[test]
fn lines_agree_with_the_standard_library() {
    for s in ["", "\n", "\r", "\r\r\n", "a\n\r\nb", "x\r\ny\r", "é\n\u{2028}z\n"] {
        let expected: Vec<&str> = s.lines().collect();
        assert_eq!(lines(s), expected);
    }
}

#[test]
fn trim_takes_white_space_from_both_ends() {
    for s in ["", " ", "\t\r\n a b \u{a0}", "x", "\u{2003}y z\u{85}", "\u{1c}q\u{1c}"] {
        assert_eq!(trim(s), s.trim());
    }
}

#[test]
fn decimal_numbers() {
    assert_eq!(decimal_text(0), "0");
    assert_eq!(decimal_text(9), "9");
    assert_eq!(decimal_text(10), "10");
    assert_eq!(decimal_text(1203), "1203");
    assert_eq!(decimal_text(usize::MAX), format!("{}", usize::MAX));
}

#[test]
fn comparing_texts() {
    assert!(same_text("", ""));
    assert!(same_text("naïve", "naïve"));
    assert!(!same_text("a", "ab"));
    assert!(!same_text("ab", "ac"));
    assert!(ends_with("cur.execute", ".execute"));
    assert!(ends_with("x", ""));
    assert!(!ends_with("execute", ".execute"));
    assert!(!ends_with("cur.executes", ".execute"));
}

#[test]
fn characters_and_back() {
    let v = chars_of("aéb");
    assert_eq!(v, vec!['a', 'é', 'b']);
    assert_eq!(string_of(&v, 1, 3), "éb");
    assert_eq!(string_of(&v, 2, 2), "");
}

#[test]
fn ascii_white_space() {
    for code in 0u8..128 {
        let c = code as char;
        let taken = trim(&format!("{}x{}", c, c)) == "x";
        assert_eq!(taken, matches!(c, ' ' | '\t'..='\r'));
    }
}

#[test]
fn white_space_of_unicode() {
    for c in '\0'..=char::MAX {
        let listed = matches!(
            c,
            ' ' | '\t'..='\r'
                | '\u{85}'
                | '\u{a0}'
                | '\u{1680}'
                | '\u{2000}'..='\u{200a}'
                | '\u{2028}'
                | '\u{2029}'
                | '\u{202f}'
                | '\u{205f}'
                | '\u{3000}'
        );
        assert_eq!(trim(&c.to_string()).is_empty(), listed);
    }
}

#[test]
fn beginnings_of_texts() {
    assert!(starts_with("subprocess.run", "subprocess."));
    assert!(starts_with("a", ""));
    assert!(starts_with("ab", "ab"));
    assert!(!starts_with("a", "ab"));
    assert!(!starts_with("xab", "ab"));
}
