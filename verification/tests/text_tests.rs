use gossip::text::{i32_to_string, usize_to_string};

#[test]
fn i32_to_string_writes_decimal() {
    assert_eq!(i32_to_string(0), "0");
    assert_eq!(i32_to_string(42), "42");
    assert_eq!(i32_to_string(-7), "-7");
    assert_eq!(i32_to_string(i32::MIN), "-2147483648");
    assert_eq!(i32_to_string(i32::MAX), "2147483647");
}

#[test]
fn usize_to_string_writes_decimal() {
    assert_eq!(usize_to_string(0), "0");
    assert_eq!(usize_to_string(1203), "1203");
}

use gossip::text::{chars_of, lines_of, split_at_char};

#[test]
fn lines_split_on_newline() {
    let lines = lines_of(&chars_of("a\n\nbc\n"));
    assert_eq!(lines, vec![vec!['a'], vec![], vec!['b', 'c'], vec![]]);
    assert_eq!(lines_of(&chars_of("")), vec![Vec::<char>::new()]);
}

#[test]
fn split_on_separator() {
    assert_eq!(split_at_char(&chars_of("a/b"), '/'), vec![vec!['a'], vec!['b']]);
}
