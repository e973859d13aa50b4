use http_server::text::bytes_eq;
use http_server::text::decimal_bytes;
use http_server::text::find;
use http_server::text::parse_number_bytes;
use http_server::text::split_bytes;
use http_server::text::to_lower;
use http_server::text::trim_bytes;

fn pieces(s: &str, sep: &str) -> Vec<String> {
    split_bytes(s.as_bytes(), sep.as_bytes())
        .into_iter()
        .map(|p| String::from_utf8(p).unwrap())
        .collect()
}

#[test]
fn bytes_eq_compares_content() {
    assert!(bytes_eq(b"abc", b"abc"));
    assert!(!bytes_eq(b"abc", b"abd"));
    assert!(!bytes_eq(b"abc", b"ab"));
    assert!(bytes_eq(b"", b""));
}

#[test]
fn find_gives_leftmost_occurrence() {
    assert_eq!(find(b"a: b: c", b": "), Some(1));
    assert_eq!(find(b"abc", b"abc"), Some(0));
    assert_eq!(find(b"abc", b"x"), None);
    assert_eq!(find(b"ab", b"abc"), None);
    assert_eq!(find(b"abc", b""), Some(0));
}

#[test]
fn split_at_single_byte() {
    assert_eq!(pieces("/echo/abc", "/"), vec!["", "echo", "abc"]);
    assert_eq!(pieces("/", "/"), vec!["", ""]);
    assert_eq!(pieces("", "/"), vec![""]);
    assert_eq!(pieces("abc", "/"), vec!["abc"]);
    assert_eq!(pieces("a//b", "/"), vec!["a", "", "b"]);
}

#[test]
fn split_at_two_bytes_does_not_overlap() {
    assert_eq!(pieces("gzip, deflate, br", ", "), vec!["gzip", "deflate", "br"]);
    assert_eq!(pieces("x: : y", ": "), vec!["x", "", "y"]);
    assert_eq!(pieces("aaa", "aa"), vec!["", "a"]);
    assert_eq!(pieces("a: ", ": "), vec!["a", ""]);
}

#[test]
fn split_at_empty_separator_keeps_whole() {
    assert_eq!(pieces("abc", ""), vec!["abc"]);
}

#[test]
fn trim_removes_ascii_white_space_at_both_ends() {
    assert_eq!(trim_bytes(b"  a b \r\n"), b"a b");
    assert_eq!(trim_bytes(b"\t\x0b\x0c x"), b"x");
    assert_eq!(trim_bytes(b" \r\n"), b"");
    assert_eq!(trim_bytes(b""), b"");
    assert_eq!(trim_bytes(b"abc"), b"abc");
}

#[test]
fn to_lower_folds_ascii_letters_only() {
    assert_eq!(to_lower(b"Content-Length"), b"content-length".to_vec());
    assert_eq!(to_lower(b"AZaz09@[`{"), b"azaz09@[`{".to_vec());
    assert_eq!(to_lower(&[0xc3, 0x84]), vec![0xc3, 0x84]);
}

#[test]
fn decimal_of_numbers() {
    assert_eq!(decimal_bytes(0), b"0".to_vec());
    assert_eq!(decimal_bytes(7), b"7".to_vec());
    assert_eq!(decimal_bytes(10), b"10".to_vec());
    assert_eq!(decimal_bytes(1234567890), b"1234567890".to_vec());
    assert_eq!(decimal_bytes(usize::MAX), usize::MAX.to_string().into_bytes());
}

#[test]
fn parse_number_reads_digits() {
    assert_eq!(parse_number_bytes(b"0"), Some(0));
    assert_eq!(parse_number_bytes(b"5"), Some(5));
    assert_eq!(parse_number_bytes(b"0042"), Some(42));
    assert_eq!(parse_number_bytes(b"+17"), Some(17));
    assert_eq!(
        parse_number_bytes(usize::MAX.to_string().as_bytes()),
        Some(usize::MAX)
    );
}

#[test]
fn parse_number_refuses_what_is_no_number() {
    assert_eq!(parse_number_bytes(b""), None);
    assert_eq!(parse_number_bytes(b"+"), None);
    assert_eq!(parse_number_bytes(b"-1"), None);
    assert_eq!(parse_number_bytes(b"12a"), None);
    assert_eq!(parse_number_bytes(b" 12"), None);
    assert_eq!(parse_number_bytes(b"++1"), None);
    assert_eq!(parse_number_bytes(b"1.5"), None);
}

#[test]
fn parse_number_refuses_overflow() {
    let mut too_big = usize::MAX.to_string();
    too_big.push('0');
    assert_eq!(parse_number_bytes(too_big.as_bytes()), None);
    let next = (usize::MAX as u128 + 1).to_string();
    assert_eq!(parse_number_bytes(next.as_bytes()), None);
}

#[test]
fn parse_number_agrees_with_std() {
    for s in ["0", "9", "10", "+3", "007", "x", "", "+", "18446744073709551615", "18446744073709551616"] {
        assert_eq!(parse_number_bytes(s.as_bytes()), s.parse::<usize>().ok());
    }
}
