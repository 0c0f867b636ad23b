use pso_for_order_batching_rust::number::{parse_u32, parse_u64, parse_usize, NumberError};
use pso_for_order_batching_rust::seeds::parse_seeds;
use pso_for_order_batching_rust::text::{chars_of, split_lines, split_tokens, trim_spaces};

fn chars(s: &str) -> Vec<char> {
    s.chars().collect()
}

fn strings(v: &[Vec<char>]) -> Vec<String> {
    v.iter().map(|l| l.iter().collect()).collect()
}

#[test]
fn lines_end_at_newlines() {
    assert_eq!(strings(&split_lines(&chars("a b\nc\n"))), vec!["a b", "c"]);
    assert_eq!(strings(&split_lines(&chars("a\nb"))), vec!["a", "b"]);
    assert_eq!(strings(&split_lines(&chars("a\n\n"))), vec!["a", ""]);
    assert_eq!(strings(&split_lines(&chars("\n"))), vec![""]);
    assert!(split_lines(&chars("")).is_empty());
}

#[test]
fn carriage_returns_stay_in_lines() {
    assert_eq!(strings(&split_lines(&chars("1 2\r\n3\r\n"))), vec!["1 2\r", "3\r"]);
}

#[test]
fn tokens_split_on_any_white_space() {
    assert_eq!(strings(&split_tokens(&chars("  12\t3 \r 45\u{a0}6  "))), vec!["12", "3", "45", "6"]);
    assert!(split_tokens(&chars(" \t\r ")).is_empty());
    assert_eq!(strings(&split_tokens(&chars("x"))), vec!["x"]);
}

#[test]
fn trim_removes_white_space_at_both_ends() {
    let t: String = trim_spaces(&chars(" \t 42 7\r ")).iter().collect();
    assert_eq!(t, "42 7");
    assert!(trim_spaces(&chars("   ")).is_empty());
}

#[test]
fn chars_of_keeps_every_character() {
    assert_eq!(chars_of("añ\u{3000}b"), vec!['a', 'ñ', '\u{3000}', 'b']);
}

#[test]
fn numbers_read_like_str_parse() {
    assert_eq!(parse_u32(&chars("0")), Ok(0));
    assert_eq!(parse_u32(&chars("+17")), Ok(17));
    assert_eq!(parse_u32(&chars("0004294967295")), Ok(u32::MAX));
    assert_eq!(parse_u32(&chars("4294967296")), Err(NumberError::Overflow));
    assert_eq!(parse_u32(&chars("")), Err(NumberError::Empty));
    assert_eq!(parse_u32(&chars("+")), Err(NumberError::InvalidDigit));
    assert_eq!(parse_u32(&chars("-1")), Err(NumberError::InvalidDigit));
    assert_eq!(parse_u32(&chars("12a")), Err(NumberError::InvalidDigit));
    assert_eq!(parse_usize(&chars("18446744073709551615")), Ok(usize::MAX));
    assert_eq!(parse_u64(&chars("18446744073709551616")), Err(NumberError::Overflow));
}

#[test]
fn first_problem_in_a_number_decides_the_error() {
    // The value grows past the maximum before the letter is reached.
    assert_eq!(parse_u32(&chars("99999999999x")), Err(NumberError::Overflow));
    // The letter comes before the value grows past the maximum.
    assert_eq!(parse_u32(&chars("9x9999999999")), Err(NumberError::InvalidDigit));
}

#[test]
fn numbers_agree_with_std() {
    for s in ["0", "1", "+9", "4294967295", "4294967296", "", "+", "-", "-0", " 1", "1 ", "0x10", "٣"] {
        let ours = parse_u32(&chars(s)).ok();
        let std_value = s.parse::<u32>().ok();
        assert_eq!(ours, std_value, "token {s:?}");
    }
}

#[test]
fn seeds_skip_blank_lines_and_trim() {
    let seeds = parse_seeds("  7\n\n 42 \r\n\t\n18446744073709551615\n").ok().unwrap();
    assert_eq!(seeds, vec![7, 42, u64::MAX]);
    assert!(parse_seeds("").ok().unwrap().is_empty());
}

#[test]
fn seed_errors_count_non_blank_lines() {
    let err = parse_seeds("1\n\n   \n2\n 3 4 \n5\n").err().unwrap();
    assert_eq!(err.line, 3);
    assert_eq!(err.text.iter().collect::<String>(), "3 4");
    let err = parse_seeds("x\n").err().unwrap();
    assert_eq!(err.line, 1);
}
