use abfs::input::{parse_number_usize, parse_weight_milli, read_graph, InputError};

#[test]
fn usize_token_basic() {
    let buf = b"  42,rest";
    assert_eq!(parse_number_usize(buf, 0), Ok((42, 4)));
}

#[test]
fn usize_token_leading_commas() {
    let buf = b",,7 ";
    assert_eq!(parse_number_usize(buf, 0), Ok((7, 3)));
}

#[test]
fn usize_token_eof() {
    let buf = b"  , \t\n";
    assert_eq!(parse_number_usize(buf, 0), Err(InputError::UnexpectedEof));
}

#[test]
fn usize_token_malformed() {
    let buf = b"  x12";
    assert_eq!(parse_number_usize(buf, 0), Err(InputError::MalformedNumber));
}

#[test]
fn usize_token_overflow() {
    let buf = b"99999999999999999999999";
    assert_eq!(parse_number_usize(buf, 0), Err(InputError::Overflow));
}

#[test]
fn weight_whole_number() {
    assert_eq!(parse_weight_milli(b"1 ", 0), Ok((1000, 1)));
}

#[test]
fn weight_fraction() {
    assert_eq!(parse_weight_milli(b"1.5", 0), Ok((1500, 3)));
}

#[test]
fn weight_smallest_thousandth() {
    assert_eq!(parse_weight_milli(b"0.001", 0), Ok((1, 5)));
}

#[test]
fn weight_truncates_below_thousandth() {
    assert_eq!(parse_weight_milli(b"0.0009", 0), Ok((0, 6)));
}

#[test]
fn weight_exponent() {
    assert_eq!(parse_weight_milli(b"2e3", 0), Ok((2_000_000, 3)));
}

#[test]
fn weight_upper_exponent_and_fraction() {
    assert_eq!(parse_weight_milli(b"1.5E-1", 0), Ok((150, 6)));
}

#[test]
fn weight_leading_plus_and_bare_fraction() {
    assert_eq!(parse_weight_milli(b"+.5", 0), Ok((500, 3)));
}

#[test]
fn weight_trailing_dot() {
    assert_eq!(parse_weight_milli(b"3.", 0), Ok((3000, 2)));
}

#[test]
fn weight_zero_with_huge_exponent() {
    assert_eq!(parse_weight_milli(b"0e999999999999999999999", 0), Ok((0, 23)));
}

#[test]
fn weight_tiny_exponent_truncates_to_zero() {
    assert_eq!(parse_weight_milli(b"5e-40", 0), Ok((0, 5)));
}

#[test]
fn weight_negative_rejected() {
    assert_eq!(parse_weight_milli(b"-1", 0), Err(InputError::NegativeWeight));
}

#[test]
fn weight_double_dot_malformed() {
    assert_eq!(parse_weight_milli(b"1.2.3", 0), Err(InputError::MalformedNumber));
}

#[test]
fn weight_bare_exponent_malformed() {
    assert_eq!(parse_weight_milli(b"e5", 0), Err(InputError::MalformedNumber));
}

#[test]
fn weight_exponent_without_digits_malformed() {
    assert_eq!(parse_weight_milli(b"1e+", 0), Err(InputError::MalformedNumber));
}

#[test]
fn weight_eof() {
    assert_eq!(parse_weight_milli(b" \t", 0), Err(InputError::UnexpectedEof));
}

#[test]
fn weight_overflow_large_exponent() {
    assert_eq!(parse_weight_milli(b"1e30", 0), Err(InputError::Overflow));
}

#[test]
fn weight_overflow_long_mantissa() {
    // Thirty-one digits of mantissa pass the cap.
    assert_eq!(
        parse_weight_milli(b"1000000000000000000000000000000", 0),
        Err(InputError::Overflow)
    );
}

#[test]
fn graph_two_nodes() {
    let (g, n) = read_graph(b"2 0 1.5 2 0").expect("well-formed grid");
    assert_eq!(n, 2);
    assert_eq!(g.n, 2);
    assert_eq!(g.values, vec![0, 1500, 2000, 0]);
}

#[test]
fn graph_commas_and_newlines() {
    let (g, n) = read_graph(b"2,\n0,1\n2,0\n").expect("well-formed grid");
    assert_eq!(n, 2);
    assert_eq!(g.values, vec![0, 1000, 2000, 0]);
}

#[test]
fn graph_truncated_grid() {
    assert!(matches!(read_graph(b"2 0 1"), Err(InputError::UnexpectedEof)));
}

#[test]
fn graph_bad_weight() {
    assert!(matches!(read_graph(b"1 x"), Err(InputError::MalformedNumber)));
}

#[test]
fn graph_negative_weight() {
    assert!(matches!(read_graph(b"1 -3"), Err(InputError::NegativeWeight)));
}

#[test]
fn graph_node_count_too_large() {
    assert!(matches!(read_graph(b"99999999999 0"), Err(InputError::TooLarge)));
}

#[test]
fn graph_empty() {
    assert!(matches!(read_graph(b""), Err(InputError::UnexpectedEof)));
}

#[test]
fn graph_zero_nodes() {
    let (g, n) = read_graph(b"0").expect("an empty grid is well-formed");
    assert_eq!(n, 0);
    assert_eq!(g.values, Vec::<u64>::new());
}
