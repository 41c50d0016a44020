use vault::text::replace_all;
use vault::text::split_spaces;
use vault::text::str_eq;
use vault::text::str_lex_lt;
use vault::time::Time;

#[test]
fn str_eq_compares_contents() {
    assert!(str_eq("", ""));
    assert!(str_eq("abc", "abc"));
    assert!(!str_eq("abc", "abd"));
    assert!(!str_eq("abc", "ab"));
    assert!(str_eq("äöü", "äöü"));
}

#[test]
fn lex_orders_strings() {
    assert!(str_lex_lt("a", "b"));
    assert!(str_lex_lt("a", "ab"));
    assert!(!str_lex_lt("ab", "a"));
    assert!(!str_lex_lt("a", "a"));
    assert!(str_lex_lt("2023-05-20_04", "2023-05-20_05"));
    assert!(!str_lex_lt("", ""));
    assert!(str_lex_lt("", "x"));
}

#[test]
fn string_order_is_time_order() {
    // The canonical format is fixed-width and zero-padded precisely so
    // that comparing strings compares instants.
    let early = Time { year: 999, month: 12, day: 31, hour: 23, minute: 59, second: 59, nanos: 999_999_999 };
    let later = Time { year: 1000, month: 1, day: 1, hour: 0, minute: 0, second: 0, nanos: 0 };
    assert!(early.before(&later));
    assert!(str_lex_lt(
        Time::to_string(&early).as_str(),
        Time::to_string(&later).as_str()
    ));
    let a = Time { year: 2023, month: 5, day: 20, hour: 4, minute: 55, second: 11, nanos: 1 };
    let b = Time { year: 2023, month: 5, day: 20, hour: 4, minute: 55, second: 11, nanos: 2 };
    assert!(str_lex_lt(Time::to_string(&a).as_str(), Time::to_string(&b).as_str()));
    assert!(!str_lex_lt(Time::to_string(&b).as_str(), Time::to_string(&a).as_str()));
}

#[test]
fn replace_all_is_left_to_right() {
    assert_eq!(replace_all("aaa", "aa", "b"), "ba");
    assert_eq!(replace_all("abcabc", "b", "xy"), "axycaxyc");
    assert_eq!(replace_all("abc", "z", "q"), "abc");
    assert_eq!(replace_all("", "z", "q"), "");
    // The replacement text is never rescanned.
    assert_eq!(replace_all("ab", "ab", "abab"), "abab");
}

#[test]
fn split_spaces_keeps_empty_tokens() {
    let split = |s: &str| -> Vec<String> { split_spaces(s) };
    assert_eq!(split(""), vec![String::new()]);
    assert_eq!(split("a b"), vec![String::from("a"), String::from("b")]);
    assert_eq!(
        split("a  b"),
        vec![String::from("a"), String::new(), String::from("b")]
    );
    assert_eq!(split(" a"), vec![String::new(), String::from("a")]);
    assert_eq!(split("a "), vec![String::from("a"), String::new()]);
}
