use angrr::text::{bytes_le, chars_of, parse_decimal};

#[test]
fn chars_of_keeps_every_character() {
    assert_eq!(chars_of("a-1"), vec!['a', '-', '1']);
    assert_eq!(chars_of(""), Vec::<char>::new());
    assert_eq!(chars_of("é√"), vec!['é', '√']);
}

#[test]
fn parse_decimal_reads_digits() {
    assert_eq!(parse_decimal(&vec!['0']), Some(0));
    assert_eq!(parse_decimal(&vec!['4', '2']), Some(42));
    assert_eq!(parse_decimal(&vec!['0', '0', '7']), Some(7));
}

#[test]
fn parse_decimal_refuses_what_is_no_number() {
    assert_eq!(parse_decimal(&Vec::new()), None);
    assert_eq!(parse_decimal(&vec!['1', 'x']), None);
    assert_eq!(parse_decimal(&vec!['+', '1']), None);
}

#[test]
fn parse_decimal_at_the_limit() {
    let max: Vec<char> = usize::MAX.to_string().chars().collect();
    assert_eq!(parse_decimal(&max), Some(usize::MAX));
    let mut beyond = max.clone();
    beyond.push('0');
    assert_eq!(parse_decimal(&beyond), None);
    let mut next: Vec<char> = (usize::MAX as u128 + 1).to_string().chars().collect();
    assert_eq!(parse_decimal(&next), None);
    next.insert(0, '0');
    assert_eq!(parse_decimal(&next), None);
}

#[test]
fn bytes_le_is_the_order_of_a_dictionary() {
    assert!(bytes_le(b"", b""));
    assert!(bytes_le(b"", b"a"));
    assert!(!bytes_le(b"a", b""));
    assert!(bytes_le(b"A", b"B"));
    assert!(!bytes_le(b"B", b"A"));
    assert!(bytes_le(b"ab", b"abc"));
    assert!(!bytes_le(b"abc", b"ab"));
    assert!(bytes_le(b"abc", b"abc"));
    assert!(bytes_le(b"Z", b"a"));
}

#[test]
fn bytes_le_agrees_with_the_order_of_strings() {
    let names = ["", "a", "A", "ab", "b", "policy", "Policy", "é", "z"];
    for a in names {
        for b in names {
            assert_eq!(bytes_le(a.as_bytes(), b.as_bytes()), a <= b);
        }
    }
}
