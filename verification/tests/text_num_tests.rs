use icon_resolver::entry::{IconEntry, is_better};
use icon_resolver::num::{parse_u32, parse_u64, to_dec};
use icon_resolver::text::{lower, replace_char, capitalize_first, trim, str_eq, str_lt,
    contains_sub, split_set, split_nonempty, split_trim_nonempty};

fn entry(size: u32, is_svg: bool, theme_priority: usize) -> IconEntry {
    IconEntry { path: String::new(), size, is_svg, theme_priority }
}

#[test]
fn comparator_precedence() {
    // priority first
    assert!(is_better(&entry(16, false, 0), &entry(512, true, 1)));
    assert!(!is_better(&entry(512, true, 1), &entry(16, false, 0)));
    // then format
    assert!(is_better(&entry(0, true, 2), &entry(512, false, 2)));
    assert!(!is_better(&entry(512, false, 2), &entry(0, true, 2)));
    // then size, sized vectors over scalable
    assert!(is_better(&entry(16, true, 2), &entry(0, true, 2)));
    assert!(!is_better(&entry(0, true, 2), &entry(16, true, 2)));
    assert!(is_better(&entry(64, false, 2), &entry(32, false, 2)));
    // never better than an equal entry
    assert!(!is_better(&entry(32, false, 2), &entry(32, false, 2)));
}

#[test]
fn lowercase_is_ascii_folding() {
    assert_eq!(lower("FireFox-2"), "firefox-2");
    assert_eq!(lower(""), "");
}

#[test]
fn replace_and_capitalize() {
    assert_eq!(replace_char("a b c", ' ', '-'), "a-b-c");
    assert_eq!(replace_char("a-b", '-', '_'), "a_b");
    assert_eq!(capitalize_first("telegram"), "Telegram");
    assert_eq!(capitalize_first(""), "");
}

#[test]
fn trim_strips_surrounding_whitespace() {
    assert_eq!(trim("  a b \t\r\n"), "a b");
    assert_eq!(trim(" \t "), "");
    assert_eq!(trim("x"), "x");
}

#[test]
fn string_comparisons() {
    assert!(str_eq("abc", "abc"));
    assert!(!str_eq("abc", "abd"));
    assert!(str_lt("Firefox", "firefox-browser"));
    assert!(str_lt("abc", "abd"));
    assert!(str_lt("ab", "abc"));
    assert!(!str_lt("abc", "abc"));
    assert!(contains_sub("firefox-browser", "fox"));
    assert!(!contains_sub("thunderbird", "fire"));
    assert!(contains_sub("anything", ""));
}

#[test]
fn splitting_behaviour() {
    let pieces = split_set("a,,b,", &vec![',']);
    assert_eq!(pieces, vec!["a", "", "b", ""]);
    let parts = split_nonempty("Telegram Desktop 4.1", &vec![' ', '*', '-', '_']);
    assert_eq!(parts, vec!["Telegram", "Desktop", "4.1"]);
    let fields = split_trim_nonempty(" x , ,y ", ',');
    assert_eq!(fields, vec!["x", "y"]);
}

#[test]
fn decimal_parse_and_print() {
    assert_eq!(parse_u32("48"), Some(48));
    assert_eq!(parse_u32("+7"), Some(7));
    assert_eq!(parse_u32(""), None);
    assert_eq!(parse_u32("12a"), None);
    assert_eq!(parse_u32("4294967295"), Some(u32::MAX));
    assert_eq!(parse_u32("4294967296"), None);
    assert_eq!(parse_u64("18446744073709551615"), Some(u64::MAX));
    assert_eq!(parse_u64("18446744073709551616"), None);
    assert_eq!(to_dec(0), "0");
    assert_eq!(to_dec(907), "907");
    assert_eq!(parse_u64(to_dec(u64::MAX).as_str()), Some(u64::MAX));
}
