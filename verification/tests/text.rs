use metrics_migrator::text::{
    chars_of, compare, contains, ends_with, same, starts_with, trimmed, Rank,
};

#[test]
fn compare_goes_by_the_first_difference() {
    assert_eq!(compare("abc", "abd"), Rank::Before);
    assert_eq!(compare("abd", "abc"), Rank::After);
    assert_eq!(compare("b", "abc"), Rank::After);
    assert_eq!(compare("abc", "abc"), Rank::Same);
    assert_eq!(compare("", ""), Rank::Same);
}

#[test]
fn compare_puts_a_prefix_first() {
    assert_eq!(compare("ab", "abc"), Rank::Before);
    assert_eq!(compare("abc", "ab"), Rank::After);
    assert_eq!(compare("", "a"), Rank::Before);
}

#[test]
fn compare_goes_by_code_point() {
    assert_eq!(compare("Z", "a"), Rank::Before);
    assert_eq!(compare("z", "é"), Rank::Before);
    assert_eq!(compare("é", "я"), Rank::Before);
    assert_eq!(compare("\u{ffff}", "\u{10000}"), Rank::Before);
    assert_eq!(compare("я", "я"), Rank::Same);
}

#[test]
fn compare_agrees_with_the_order_of_strings() {
    let texts = ["", "a", "ab", "b", "B", "_", "é", "e\u{301}", "я", "\u{10000}", "~"];
    for left in texts {
        for right in texts {
            let expected = if left < right {
                Rank::Before
            } else if left == right {
                Rank::Same
            } else {
                Rank::After
            };
            assert_eq!(compare(left, right), expected);
            assert_eq!(same(left, right), left == right);
        }
    }
}

#[test]
fn chars_of_lists_the_characters() {
    assert_eq!(chars_of("añ_я"), vec!['a', 'ñ', '_', 'я']);
    assert_eq!(chars_of(""), Vec::<char>::new());
}

#[test]
fn starts_with_and_ends_with_take_the_empty_text() {
    assert!(starts_with("abc", ""));
    assert!(ends_with("abc", ""));
    assert!(starts_with("", ""));
    assert!(ends_with("", ""));
    assert!(!starts_with("", "a"));
    assert!(!ends_with("", "a"));
}

#[test]
fn starts_with_and_ends_with_test_the_ends() {
    assert!(starts_with("backup_size", "backup_"));
    assert!(starts_with("backup_", "backup_"));
    assert!(!starts_with("backup", "backup_"));
    assert!(!starts_with("xbackup_", "backup_"));
    assert!(ends_with("/dev/md126", "md126"));
    assert!(ends_with("md126", "md126"));
    assert!(!ends_with("md126x", "md126"));
    assert!(!ends_with("d126", "md126"));
    assert!(ends_with("день", "нь"));
}

#[test]
fn contains_finds_a_part_anywhere() {
    assert!(contains("abcabd", "abd"));
    assert!(contains("abcabd", "abc"));
    assert!(contains("abcabd", "ca"));
    assert!(contains("abc", "abc"));
    assert!(contains("abc", ""));
    assert!(contains("", ""));
    assert!(!contains("abc", "abcd"));
    assert!(!contains("abcabd", "abe"));
    assert!(!contains("", "a"));
    assert!(contains("aab", "ab"));
}

#[test]
fn trimmed_drops_the_whitespace_at_both_ends() {
    assert_eq!(trimmed("  a b \n"), "a b");
    assert_eq!(trimmed("a"), "a");
    assert_eq!(trimmed(""), "");
    assert_eq!(trimmed(" \t\r\n"), "");
    assert_eq!(trimmed("\u{2003}я \u{a0}"), "я");
    assert_eq!(trimmed("\u{200b}a"), "\u{200b}a");
}

#[test]
fn trimmed_takes_for_whitespace_what_the_standard_library_does() {
    for code in 0..=0x10ffffu32 {
        if let Some(c) = char::from_u32(code) {
            let text = format!("{c}a{c}");
            assert_eq!(trimmed(&text), text.trim(), "U+{:04X}", code);
        }
    }
}
