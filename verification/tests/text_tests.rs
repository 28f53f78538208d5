use csx3::text::{IntError, chars_of, parse_usize, split_lines, split_fields, read_value};

fn chars(s: &str) -> Vec<char> {
    s.chars().collect()
}

#[test]
fn usize_fields_read_as_from_str_does() {
    assert_eq!(parse_usize(&chars("123")), Ok(123));
    assert_eq!(parse_usize(&chars("+7")), Ok(7));
    assert_eq!(parse_usize(&chars("007")), Ok(7));
    assert_eq!(parse_usize(&chars("")), Err(IntError::Empty));
    assert_eq!(parse_usize(&chars("+")), Err(IntError::InvalidDigit));
    assert_eq!(parse_usize(&chars("-1")), Err(IntError::InvalidDigit));
    assert_eq!(parse_usize(&chars("12a")), Err(IntError::InvalidDigit));
    assert_eq!(parse_usize(&chars(" 1")), Err(IntError::InvalidDigit));
    let max = usize::MAX.to_string();
    assert_eq!(parse_usize(&chars(&max)), Ok(usize::MAX));
    let over = format!("{}0", usize::MAX);
    assert_eq!(parse_usize(&chars(&over)), Err(IntError::PosOverflow));
    assert_eq!(read_value(&chars("42")), Some(42));
    assert_eq!(read_value(&chars("4 2")), None);
}

#[test]
fn lines_split_as_str_lines_does() {
    for text in ["a\nbb\r\n\nc", "a\n", "", "\n", "x\r", "one\r\ntwo\r\n"] {
        let got: Vec<String> = split_lines(&chars_of(text)).iter().map(|l| l.iter().collect()).collect();
        let want: Vec<String> = text.lines().map(|l| l.to_string()).collect();
        assert_eq!(got, want);
    }
}

#[test]
fn fields_split_as_str_split_does() {
    for text in ["1 2 3", "1  2", " 1", "1 ", "", "abc"] {
        let got: Vec<String> = split_fields(&chars(text), ' ').iter().map(|f| f.iter().collect()).collect();
        let want: Vec<String> = text.split(' ').map(|f| f.to_string()).collect();
        assert_eq!(got, want);
    }
    let got: Vec<String> = split_fields(&chars("1\t2,5\t"), '\t').iter().map(|f| f.iter().collect()).collect();
    assert_eq!(got, vec!["1".to_string(), "2,5".to_string(), String::new()]);
}
