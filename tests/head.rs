use uniqr::head::parse_positive_int;

#[test]
fn test_parse_positive_int() {
    let res = parse_positive_int("3");
    assert!(res.is_ok());
    assert_eq!(res.unwrap(), 3);

    let res = parse_positive_int("foo");
    assert!(res.is_err());
    assert_eq!(res.unwrap_err().to_string(), "foo".to_string());

    let res = parse_positive_int("0");
    assert!(res.is_err());
    assert_eq!(res.unwrap_err().to_string(), "0".to_string());
}

#[test]
fn parse_positive_int_trims_white_space() {
    assert_eq!(parse_positive_int("  42\n"), Ok(42));
    assert_eq!(parse_positive_int("\t7 "), Ok(7));
}

#[test]
fn parse_positive_int_accepts_plus_sign() {
    assert_eq!(parse_positive_int("+5"), Ok(5));
    assert_eq!(parse_positive_int("++5"), Err("++5".to_string()));
}

#[test]
fn parse_positive_int_rejects_bad_text() {
    assert_eq!(parse_positive_int(""), Err("".to_string()));
    assert_eq!(parse_positive_int("   "), Err("   ".to_string()));
    assert_eq!(parse_positive_int("-3"), Err("-3".to_string()));
    assert_eq!(parse_positive_int("1 2"), Err("1 2".to_string()));
    assert_eq!(parse_positive_int(" 000 "), Err(" 000 ".to_string()));
}

#[test]
fn parse_positive_int_limits() {
    let max = usize::MAX.to_string();
    assert_eq!(parse_positive_int(&max), Ok(usize::MAX));
    let over = format!("{}0", usize::MAX);
    assert_eq!(parse_positive_int(&over), Err(over.clone()));
    assert_eq!(parse_positive_int("007"), Ok(7));
}
