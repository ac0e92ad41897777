use depclean::bignat::BigNat;
use depclean::numeral::read_times;
use depclean::root::choose_root;
use depclean::root::Root;
use depclean::rounding::double_of;
use depclean::rounding::round_fixed;
use depclean::text::begins_with;
use depclean::text::chars_of;
use depclean::text::decimal_text;
use depclean::text::ends_with;
use depclean::text::lines;
use depclean::text::replace;
use depclean::text::same_text;
use depclean::text::split;
use depclean::text::text_between;
use depclean::text::trim;
use depclean::text::trim_chars;

#[test]
fn lines_are_split_as_usual() {
    for text in ["", "\n", "a", "a\n", "a\nb", "a\r\nb\r\n", "\r", "a\r", "a\rb\n", "\n\n", "a\n\nb", "\r\n", "\r\r\n", "\u{e9}\n\u{2028}x"] {
        let wanted: Vec<&str> = text.lines().collect();
        assert_eq!(lines(text), wanted, "{:?}", text);
    }
}

#[test]
fn columns_are_split_as_usual() {
    for text in ["", "\t", "a", "a\tb", "a\t\tb", "\ta\t", "\u{e9}\t\u{e8}"] {
        let wanted: Vec<&str> = text.split('\t').collect();
        assert_eq!(split(text, '\t'), wanted, "{:?}", text);
    }
}

#[test]
fn white_space_is_trimmed_as_usual() {
    for text in ["", " ", "a", " a ", "\ta b\n", "\u{a0}x\u{3000}", "\u{200b}x", " \u{2003} "] {
        assert_eq!(trim(text), text.trim(), "{:?}", text);
        assert_eq!(trim_chars(&chars_of(text)), text.trim().chars().collect::<Vec<char>>());
    }
}

#[test]
fn occurrences_are_replaced_as_usual() {
    for (text, pattern, with) in [
        ("", "", "x"), ("ab", "", "-"), ("aaaa", "aa", "b"), ("aaa", "aa", "b"), ("abc", "bc", ""), ("abc", "abcd", "x"),
        ("abab", "ab", "abab"), ("\u{e9}x\u{e9}", "\u{e9}", "e"),
    ] {
        assert_eq!(replace(text, pattern, with), text.replace(pattern, with), "{:?}", text);
    }
}

#[test]
fn beginnings_and_endings_are_compared() {
    let v = chars_of("a\u{e9}bc");
    assert!(begins_with(&v, "a\u{e9}"));
    assert!(begins_with(&v, ""));
    assert!(!begins_with(&v, "\u{e9}"));
    assert!(!begins_with(&v, "a\u{e9}bcd"));
    assert!(ends_with(&v, "bc"));
    assert!(ends_with(&v, ""));
    assert!(!ends_with(&v, "b"));
    assert!(!ends_with(&v, "xa\u{e9}bc"));
    assert_eq!(text_between(&v, 1, 3), "\u{e9}b");
    assert_eq!(text_between(&v, 2, 2), "");
    assert!(same_text("x", "x"));
    assert!(!same_text("x", "xy"));
}

#[test]
fn numbers_are_written_in_decimal() {
    for n in [0u128, 9, 10, 11, 99, 100, 12345678901234567890, u128::MAX] {
        assert_eq!(decimal_text(n), format!("{}", n));
    }
}

#[test]
fn whole_numbers_become_the_nearest_doubles() {
    for n in [0u64, 1, 3, (1 << 53) - 1, 1 << 53, (1 << 53) + 1, (1 << 53) + 3, (1 << 54) + 2, (1 << 54) + 6, u64::MAX, u64::MAX - 1024] {
        assert_eq!(double_of(n), n as f64 as u128, "{}", n);
    }
    // A rest behind the last place breaks a tie.
    let tie = ((1u128 << 53) + 1) << 56;
    assert_eq!(round_fixed(tie, false), 1 << 53);
    assert_eq!(round_fixed(tie, true), (1 << 53) + 2);
    assert_eq!(round_fixed(0, true), 0);
}

#[test]
fn large_numbers_are_exact() {
    let mut n = BigNat::zero();
    assert_eq!(n.to_u128(), Some(0));
    n.mul_add(5, u32::MAX);
    assert_eq!(n.to_u128(), Some(u32::MAX as u128));
    n.mul_add(u32::MAX, 7);
    assert_eq!(n.to_u128(), Some(u32::MAX as u128 * u32::MAX as u128 + 7));
    n.mul_add(u32::MAX, 0);
    n.mul_add(u32::MAX, 0);
    let four = (u32::MAX as u128).pow(4) + 7 * (u32::MAX as u128).pow(2);
    assert_eq!(n.to_u128(), Some(four));
    n.mul_add(2, 1);
    assert_eq!(n.to_u128(), None);
    assert_eq!(n.div_rem(2), 1);
    assert_eq!(n.to_u128(), Some(four));
    assert_eq!(n.div_rem(10) as u128, four % 10);
    assert_eq!(n.to_u128(), Some(four / 10));
}

#[test]
fn numerals_are_read_with_their_unit() {
    let read = |text: &str, unit: u32| read_times(&chars_of(text), unit);
    assert_eq!(read("1.5", 1024), Some(1536));
    assert_eq!(read("-1.5", 1024), Some(0));
    assert_eq!(read("nan", 1), Some(0));
    assert_eq!(read("inf", 1), Some(u64::MAX));
    assert_eq!(read("-inf", 1), Some(0));
    assert_eq!(read("1e-2", 1024), Some(10));
    assert_eq!(read("", 1), None);
    assert_eq!(read(" 1", 1), None);
    assert_eq!(read("1e", 1), None);
    assert_eq!(read("99999999999999999999999", 1), Some(u64::MAX));
}

#[test]
fn the_argument_says_where_to_begin() {
    let root = |text: &str| choose_root(Some(text.to_string()));
    assert!(matches!(choose_root(None), Root::Current));
    assert!(matches!(root("~"), Root::Home));
    assert!(matches!(root("~/projects"), Root::BelowHome(path) if path == "projects"));
    assert!(matches!(root("~/"), Root::BelowHome(path) if path.is_empty()));
    assert!(matches!(root("~ann"), Root::Given(path) if path == "~ann"));
    assert!(matches!(root("/srv"), Root::Given(path) if path == "/srv"));
    assert!(matches!(root(""), Root::Given(path) if path.is_empty()));
}
