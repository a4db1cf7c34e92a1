use ant_system::aco_file_parser::{
    parse_fixed, parse_tokens, parse_usize, split_spaces, AcoFileParseError, AcoFileParser,
};

fn lines(text: &[&str]) -> Vec<Vec<u8>> {
    text.iter().map(|l| l.as_bytes().to_vec()).collect()
}

#[test]
fn split_keeps_every_byte() {
    let toks = split_spaces(&b"a bc  d".to_vec());
    let toks: Vec<&[u8]> = toks.iter().map(|t| t.as_slice()).collect();
    assert_eq!(toks, vec![b"a" as &[u8], b"bc", b"", b"d"]);
    let toks = split_spaces(&b"".to_vec());
    assert_eq!(toks.len(), 1);
    assert_eq!(toks[0].len(), 0);
}

#[test]
fn usize_tokens_parse_exactly() {
    assert_eq!(parse_usize(&b"30".to_vec()), Some(30));
    assert_eq!(parse_usize(&b"0".to_vec()), Some(0));
    assert_eq!(parse_usize(&b"007".to_vec()), Some(7));
    assert_eq!(parse_usize(&b"".to_vec()), None);
    assert_eq!(parse_usize(&b"3a".to_vec()), None);
    assert_eq!(parse_usize(&b"99999999999999999999999999".to_vec()), None);
}

#[test]
fn fixed_tokens_parse_to_thousandths() {
    assert_eq!(parse_fixed(&b"2".to_vec()), Some(2000));
    assert_eq!(parse_fixed(&b"1.5".to_vec()), Some(1500));
    assert_eq!(parse_fixed(&b"0.25".to_vec()), Some(250));
    assert_eq!(parse_fixed(&b"3.1415".to_vec()), Some(3141));
    assert_eq!(parse_fixed(&b"0.0005".to_vec()), Some(0));
    assert_eq!(parse_fixed(&b"".to_vec()), None);
    assert_eq!(parse_fixed(&b".5".to_vec()), None);
    assert_eq!(parse_fixed(&b"5.".to_vec()), None);
    assert_eq!(parse_fixed(&b"1.2.3".to_vec()), None);
    assert_eq!(parse_fixed(&b"x".to_vec()), None);
}

#[test]
fn a_small_file_parses() {
    let parser = AcoFileParser::new(String::from("./graphs/test3.aco"));
    let file = parser
        .parse_lines(&lines(&[
            "c a three node triangle",
            "p 3",
            "i 0 1 1",
            "i 1 0 1",
            "i 1 1 0",
        ]))
        .unwrap();
    assert_eq!(file.size, 3);
    assert_eq!(file.rows, vec![0, 1000, 1000, 1000, 0, 1000, 1000, 1000, 0]);
}

#[test]
fn unparseable_cells_are_passed_over() {
    // The row marker and broken tokens are skipped; the count check
    // then sees only the good cells.
    let parser = AcoFileParser::new(String::from("p"));
    let file = parser
        .parse_lines(&lines(&["p 2", "i 0 2.5", "i 2.5 0"]))
        .unwrap();
    assert_eq!(file.rows, vec![0, 2500, 2500, 0]);
}

#[test]
fn file_errors_are_reported() {
    let parser = AcoFileParser::new(String::from("p"));
    assert!(matches!(
        parser.parse_lines(&lines(&["c only a comment"])),
        Err(AcoFileParseError::EmptyFile)
    ));
    assert!(matches!(
        parser.parse_lines(&lines(&[])),
        Err(AcoFileParseError::EmptyFile)
    ));
    assert!(matches!(
        parser.parse_lines(&lines(&["p"])),
        Err(AcoFileParseError::NoSizeSet)
    ));
    assert!(matches!(
        parser.parse_lines(&lines(&["p x"])),
        Err(AcoFileParseError::InvalidSizeValue)
    ));
    assert!(matches!(
        parser.parse_lines(&lines(&["i 1 2"])),
        Err(AcoFileParseError::IvalidFileStructure)
    ));
    assert!(matches!(
        parser.parse_lines(&lines(&["p 3", "i 1 2"])),
        Err(AcoFileParseError::IvalidFileStructure)
    ));
}

#[test]
fn tokenized_input_parses_too() {
    let toks: Vec<Vec<Vec<u8>>> = vec![
        vec![b"p".to_vec(), b"2".to_vec()],
        vec![b"i".to_vec(), b"0".to_vec(), b"1".to_vec()],
        vec![b"i".to_vec(), b"1".to_vec(), b"0".to_vec()],
    ];
    let file = parse_tokens(&toks).unwrap();
    assert_eq!(file.size, 2);
    assert_eq!(file.rows, vec![0, 1000, 1000, 0]);
}

#[test]
fn parser_remembers_its_path() {
    let parser = AcoFileParser::new(String::from("./graphs/test30.aco"));
    assert_eq!(parser.path().as_str(), "./graphs/test30.aco");
}
