use stream_astar::adjacency::{is_white_space, parse_node};

#[test]
fn parses_nodes_separated_by_spaces() {
    assert_eq!(parse_node("1 2"), Some(vec![1, 2]));
}

#[test]
fn empty_line_is_an_empty_row() {
    assert_eq!(parse_node(""), Some(vec![]));
}

#[test]
fn blank_line_is_an_empty_row() {
    assert_eq!(parse_node(" \t \n"), Some(vec![]));
}

#[test]
fn leading_and_trailing_space_is_skipped() {
    assert_eq!(parse_node("  7\t8\r\n"), Some(vec![7, 8]));
}

#[test]
fn keeps_the_order_and_repeats_of_a_line() {
    assert_eq!(parse_node("5 3 5 0"), Some(vec![5, 3, 5, 0]));
}

#[test]
fn leading_zeros_do_not_count() {
    assert_eq!(parse_node("007 000"), Some(vec![7, 0]));
}

#[test]
fn plus_sign_is_accepted() {
    assert_eq!(parse_node("+5 +0"), Some(vec![5, 0]));
}

#[test]
fn lone_sign_is_malformed() {
    assert_eq!(parse_node("1 + 2"), None);
}

#[test]
fn doubled_sign_is_malformed() {
    assert_eq!(parse_node("++5"), None);
}

#[test]
fn sign_inside_a_token_is_malformed() {
    assert_eq!(parse_node("5+"), None);
}

#[test]
fn minus_sign_is_malformed() {
    assert_eq!(parse_node("-1"), None);
    assert_eq!(parse_node("-0"), None);
}

#[test]
fn letters_are_malformed() {
    assert_eq!(parse_node("1 x 2"), None);
    assert_eq!(parse_node("12a"), None);
}

#[test]
fn fraction_is_malformed() {
    assert_eq!(parse_node("1.5"), None);
}

#[test]
fn digits_of_other_scripts_are_malformed() {
    assert_eq!(parse_node("\u{0663}"), None);
}

#[test]
fn greatest_node_is_accepted() {
    let text = usize::MAX.to_string();
    assert_eq!(parse_node(&text), Some(vec![usize::MAX]));
}

#[test]
fn node_above_the_greatest_is_malformed() {
    let text = format!("{}", usize::MAX as u128 + 1);
    assert_eq!(parse_node(&text), None);
    assert_eq!(parse_node("99999999999999999999999999999999999999999"), None);
}

#[test]
fn last_token_decides_too() {
    assert_eq!(parse_node("1 2 3x"), None);
}

#[test]
fn unicode_white_space_separates() {
    assert_eq!(parse_node("1\u{00A0}2\u{3000}3\u{2003}4\u{0085}5"), Some(vec![1, 2, 3, 4, 5]));
}

#[test]
fn zero_width_space_is_no_separator() {
    assert_eq!(parse_node("1\u{200B}2"), None);
}

#[test]
fn white_space_is_what_std_calls_white_space() {
    let mut code: u32 = 0;
    while code <= 0x3100 {
        if let Some(c) = char::from_u32(code) {
            assert_eq!(is_white_space(c), c.is_whitespace());
        }
        code += 1;
    }
}

#[test]
fn agrees_with_std_on_tokens() {
    let tokens = ["0", "1", "42", "+7", "-7", "", "+", "1_000", "0x10", "18446744073709551615", "18446744073709551616", " 5", "５"];
    for token in tokens {
        if token.chars().any(char::is_whitespace) || token.is_empty() {
            continue;
        }
        let ours = parse_node(token);
        match token.parse::<usize>() {
            Ok(node) => assert_eq!(ours, Some(vec![node])),
            Err(_) => assert_eq!(ours, None),
        }
    }
}
