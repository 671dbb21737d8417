use stack_lang::documents::{printed_text, table_of};
use stack_lang::numeral::{decimal_text, numeral_of_count, Numeral};
use stack_lang::syntax::analyze_syntax;
use stack_lang::text::{join_strings, lines, replace_str, split_str, trim, trim_end_matching, trim_start_matching};
use stack_lang::value::Type;

#[test]
fn tokens_split_at_blanks() {
    assert_eq!(analyze_syntax("1 2\tadd\nprint"), vec!["1", "2", "add", "print"]);
    assert_eq!(analyze_syntax("  a   b  "), vec!["a", "b"]);
    assert_eq!(analyze_syntax(""), Vec::<String>::new());
}

#[test]
fn tokens_keep_literals_whole() {
    assert_eq!(analyze_syntax("(hello world) [1 2] {1, 2; 3, 4} #a comment#"),
        vec!["(hello world)", "[1 2]", "{1, 2; 3, 4}", "#a comment#"]);
    assert_eq!(analyze_syntax("(a (b c) d) x"), vec!["(a (b c) d)", "x"]);
}

#[test]
fn tokens_escape_and_ideographic_space() {
    assert_eq!(analyze_syntax("a\u{3000}b"), vec!["a", "b"]);
    assert_eq!(analyze_syntax("(x\\ny)"), vec!["(x\\ny)"]);
}

#[test]
fn split_then_join_is_identity() {
    let pieces = split_str("a--b----c", "--");
    assert_eq!(pieces, vec!["a", "b", "", "c"]);
    assert_eq!(join_strings(&pieces, "--"), "a--b----c");
}

#[test]
fn split_with_empty_key() {
    assert_eq!(split_str("ab", ""), vec!["", "a", "b", ""]);
}

#[test]
fn replace_cases() {
    assert_eq!(replace_str("aaa", "a", "b"), "bbb");
    assert_eq!(replace_str("abc", "b", "b"), "abc");
    assert_eq!(replace_str("aaaa", "aa", "x"), "xx");
}

#[test]
fn trimming() {
    assert_eq!(trim("  \t hi there \n"), "hi there");
    assert_eq!(trim_end_matching("ab\0\0", '\0'), "ab");
    assert_eq!(trim_start_matching("xyxyz", "xy"), "z");
}

#[test]
fn lines_of_text() {
    assert_eq!(lines("a\r\nb\n\nc"), vec!["a", "b", "", "c"]);
    assert_eq!(lines("a\n"), vec!["a"]);
    assert_eq!(lines(""), Vec::<String>::new());
    assert_eq!(lines("a\r"), vec!["a\r"]);
}

#[test]
fn printed_escapes() {
    assert_eq!(printed_text("a\\nb\\tc\\r"), "a\nb\tc\r");
}

#[test]
fn counts_are_exact_numbers() {
    let n = numeral_of_count(42).unwrap();
    assert_eq!(n.text, "42");
    assert_eq!(f64::from_bits(n.bits), 42.0);
    assert!(numeral_of_count(1u64 << 53).is_none());
    assert_eq!(decimal_text(1234567), "1234567");
}

#[test]
fn table_rows_become_objects() {
    let num = |x: f64| Type::Number(Numeral { bits: x.to_bits(), text: x.to_string() });
    let rows = vec![
        vec![("id".to_string(), num(1.0)), ("name".to_string(), Type::String("a".to_string()))],
        vec![("id".to_string(), num(2.0)), ("id".to_string(), num(3.0))],
    ];
    let t = table_of(rows);
    assert_eq!(t.display(), "[Object<table> Object<table>]");
    match &t {
        Type::List(items) => {
            match &items[1] {
                Type::Object(name, fields) => {
                    assert_eq!(name, "table");
                    assert_eq!(fields.len(), 1);
                    assert_eq!(fields[0].1.display(), "3");
                }
                _ => panic!("not an object"),
            }
        }
        _ => panic!("not a list"),
    }
}

#[test]
fn tokens_joined_by_spaces_read_back_the_same() {
    let code = "  (a  b)\t[1 2\n3]  {1, 2; 3, 4} #c d#\n x) y ";
    let tokens = analyze_syntax(code);
    let again = analyze_syntax(&tokens.join(" "));
    assert_eq!(again, tokens);
}
