use tree_rust::text::decimal_width;
use tree_rust::text::owned;
use tree_rust::text::push_aligned;
use tree_rust::text::text_order;
use tree_rust::text::push_decimal;
use tree_rust::text::push_decimal_aligned;
use tree_rust::text::push_spaces;
use tree_rust::text::starts_with_dot;

#[test]
fn numerals_have_no_leading_zeros() {
    let mut out = String::from("n=");
    push_decimal(&mut out, 0);
    assert_eq!(out, "n=0");
    push_decimal(&mut out, 7);
    push_decimal(&mut out, 10);
    push_decimal(&mut out, 4096);
    assert_eq!(out, "n=07104096");
    let mut big = String::new();
    push_decimal(&mut big, u64::MAX);
    assert_eq!(big, "18446744073709551615");
}

#[test]
fn the_width_of_a_numeral_is_its_number_of_digits() {
    assert_eq!(decimal_width(0), 1);
    assert_eq!(decimal_width(9), 1);
    assert_eq!(decimal_width(10), 2);
    assert_eq!(decimal_width(99), 2);
    assert_eq!(decimal_width(100), 3);
    assert_eq!(decimal_width(u64::MAX), 20);
}

#[test]
fn a_numeral_is_moved_to_the_right_edge_of_its_field() {
    let mut out = String::new();
    push_decimal_aligned(&mut out, 42, 5);
    assert_eq!(out, "   42");
    push_decimal_aligned(&mut out, 42, 2);
    assert_eq!(out, "   4242");
    push_decimal_aligned(&mut out, 12345, 3);
    assert_eq!(out, "   424212345");
    push_decimal_aligned(&mut out, 0, 0);
    assert_eq!(out, "   4242123450");
}

#[test]
fn spaces_are_appended() {
    let mut out = String::from("a");
    push_spaces(&mut out, 0);
    assert_eq!(out, "a");
    push_spaces(&mut out, 3);
    assert_eq!(out, "a   ");
}

#[test]
fn a_hidden_name_begins_with_a_dot() {
    assert!(starts_with_dot(".cfg"));
    assert!(starts_with_dot("."));
    assert!(starts_with_dot(".."));
    assert!(!starts_with_dot(""));
    assert!(!starts_with_dot("a.b"));
    assert!(!starts_with_dot("é."));
}

#[test]
fn an_owned_copy_holds_the_same_text() {
    assert_eq!(owned("héllo"), "héllo");
    assert_eq!(owned(""), "");
}

#[test]
fn a_text_is_moved_to_the_right_edge_of_its_field() {
    let mut out = String::from("|");
    push_aligned(&mut out, "ab", 4);
    assert_eq!(out, "|  ab");
    push_aligned(&mut out, "abcd", 4);
    assert_eq!(out, "|  ababcd");
    push_aligned(&mut out, "é", 3);
    assert_eq!(out, "|  ababcd  é");
    push_aligned(&mut out, "long", 2);
    assert_eq!(out, "|  ababcd  élong");
    push_aligned(&mut out, "", 0);
    assert_eq!(out, "|  ababcd  élong");
}

#[test]
fn strings_are_ordered_character_by_character() {
    assert!(text_order("a", "b") < 0);
    assert!(text_order("b", "a") > 0);
    assert_eq!(text_order("abc", "abc"), 0);
    assert_eq!(text_order("", ""), 0);
    assert!(text_order("", "a") < 0);
    assert!(text_order("a", "") > 0);
    assert!(text_order("ab", "abc") < 0);
    assert!(text_order("abd", "abc") > 0);
    assert!(text_order("Z", "a") < 0);
    assert!(text_order("z", "é") < 0);
    assert!(text_order("é", "\u{10000}") < 0);
    assert!(text_order("\u{ffff}", "\u{10000}") < 0);
    for (a, b) in [("x", "y"), ("same", "same"), ("héllo", "hello"), ("a\u{10ffff}", "a\u{e000}"), ("10", "9")] {
        let expected = a.cmp(b) as i8;
        assert_eq!(text_order(a, b).signum(), expected);
    }
}
