use page_order::Input;

#[test]
fn test_parse_values() {
    let input = Input::parse("47|53\n12|34\n\n1,2,3\n4,5").unwrap();
    assert_eq!(input.constraints, vec![(47, 53), (12, 34)]);
    assert_eq!(input.updates, vec![vec![1, 2, 3], vec![4, 5]]);
}

#[test]
fn test_parse_trailing_newline() {
    let input = Input::parse("1|2\n\n3,4\n").unwrap();
    assert_eq!(input.constraints, vec![(1, 2)]);
    assert_eq!(input.updates, vec![vec![3, 4]]);
}

#[test]
fn test_parse_carriage_returns() {
    let input = Input::parse("1|2\r\n3|4\r\n\n5,6\r\n7\r\n").unwrap();
    assert_eq!(input.constraints, vec![(1, 2), (3, 4)]);
    assert_eq!(input.updates, vec![vec![5, 6], vec![7]]);
}

#[test]
fn test_parse_missing_blank_line() {
    assert!(Input::parse("1|2\n3,4").is_err());
    assert!(Input::parse("").is_err());
}

#[test]
fn test_parse_missing_pipe() {
    assert!(Input::parse("1|2\n34\n\n5,6").is_err());
}

#[test]
fn test_parse_bad_number() {
    assert!(Input::parse("1|x\n\n5,6").is_err());
    assert!(Input::parse("1|2\n\n5,a").is_err());
    assert!(Input::parse("1|2\n\n5,,6").is_err());
    assert!(Input::parse("1|2\n\n").is_err());
}

#[test]
fn test_parse_number_too_large() {
    // 2^32 does not fit a page number, 2^32 - 1 does.
    assert!(Input::parse("1|4294967296\n\n5,6").is_err());
    let input = Input::parse("1|4294967295\n\n5,6").unwrap();
    assert_eq!(input.constraints, vec![(1, 4294967295)]);
}

#[test]
fn test_parse_empty_blocks_rejected() {
    assert!(Input::parse("\n\n5,6").is_err());
    assert!(Input::parse("1|2\n\n\n").is_err());
}

#[test]
fn test_parse_rejects_signs_and_spaces() {
    assert!(Input::parse("1 |2\n\n5,6").is_err());
    assert!(Input::parse("+1|2\n\n5,6").is_err());
    assert!(Input::parse("1|2\n\n5, 6").is_err());
}
