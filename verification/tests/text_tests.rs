use tree_for_ai::text::{
    begins_with, blank, finishes_with, is_whitespace, spells, split_lines, to_chars, trim,
};

#[test]
fn chars_are_those_of_the_text() {
    assert_eq!(to_chars("añ→"), vec!['a', 'ñ', '→']);
    assert_eq!(to_chars(""), Vec::<char>::new());
}

#[test]
fn spelling_prefix_and_suffix() {
    let c = to_chars("Cargo.lock");
    assert!(spells(&c, "Cargo.lock"));
    assert!(!spells(&c, "cargo.lock"));
    assert!(begins_with(&c, "Cargo"));
    assert!(begins_with(&c, ""));
    assert!(!begins_with(&c, "Cargo.lock.x"));
    assert!(finishes_with(&c, ".lock"));
    assert!(finishes_with(&c, "Cargo.lock"));
    assert!(!finishes_with(&c, ".loc"));
}

#[test]
fn whitespace_is_what_std_calls_whitespace() {
    let mut u: u32 = 0;
    while u <= 0x10FFFF {
        if let Some(c) = char::from_u32(u) {
            assert_eq!(is_whitespace(c), c.is_whitespace());
        }
        u += 1;
    }
}

#[test]
fn trim_drops_whitespace_at_both_ends() {
    assert_eq!(trim("  a b \n"), "a b");
    assert_eq!(trim("a"), "a");
    assert_eq!(trim(" \t\r\n"), "");
    assert_eq!(trim(""), "");
    assert_eq!(trim("\u{3000}x\u{a0}"), "x");
    assert!(blank(" \t"));
    assert!(blank(""));
    assert!(!blank(" a "));
}

#[test]
fn lines_split_as_std_splits_them() {
    let texts =
        ["", "a", "a\n", "a\nb", "a\r\nb\r\n", "\n", "\n\n", "a\r", "\r\n", "a\n\nb\n", "\ra\n"];
    for t in texts {
        let expected: Vec<String> = t.lines().map(|l| l.to_string()).collect();
        assert_eq!(split_lines(t), expected);
    }
}
