use macrun::util::{
    iso_timestamp_now, timestamp_text, parse_env_file, parse_env_mapping, parse_pair, shell_quote, unquote,
    validate_env_name, EnvError, EnvMapping,
};

#[test]
fn parse_pair_accepts_basic_assignment() {
    let (name, value) = parse_pair("APP_API_KEY=secret").unwrap();
    assert_eq!(name, "APP_API_KEY");
    assert_eq!(value, "secret");
}

#[test]
fn parse_env_file_ignores_comments_and_unquotes() {
    let parsed = parse_env_file(
        "# comment\nexport RBAC_JWT_SECRET=secret\nK2DB_MONGO_URI=\"mongodb://127.0.0.1\"\n",
    )
    .unwrap();
    assert_eq!(parsed.len(), 2);
    assert_eq!(parsed[0].0, "RBAC_JWT_SECRET");
    assert_eq!(parsed[1].1, "mongodb://127.0.0.1");
}

#[test]
fn shell_quote_wraps_single_quotes() {
    assert_eq!(shell_quote("ab'cd"), "'ab'\\''cd'");
}

#[test]
fn parse_env_mapping_defaults_target_to_source() {
    assert_eq!(
        parse_env_mapping("APP_CLIENT_SECRET").unwrap(),
        EnvMapping {
            source: "APP_CLIENT_SECRET".to_owned(),
            target: "APP_CLIENT_SECRET".to_owned(),
        }
    );
}

#[test]
fn parse_env_mapping_accepts_source_and_target() {
    assert_eq!(
        parse_env_mapping("APP_CLIENT_SECRET=APP_CLIENT_SECRET_CIPHERTEXT").unwrap(),
        EnvMapping {
            source: "APP_CLIENT_SECRET".to_owned(),
            target: "APP_CLIENT_SECRET_CIPHERTEXT".to_owned(),
        }
    );
}

#[test]
fn parse_pair_splits_at_the_first_equals_sign() {
    let (name, value) = parse_pair("URL=a=b").unwrap();
    assert_eq!(name, "URL");
    assert_eq!(value, "a=b");
    let (name, value) = parse_pair("EMPTY=").unwrap();
    assert_eq!(name, "EMPTY");
    assert_eq!(value, "");
}

#[test]
fn parse_pair_refuses_missing_equals_and_bad_names() {
    assert_eq!(parse_pair("NOVALUE"), Err(EnvError::MissingAssignment("NOVALUE".to_owned())));
    assert_eq!(parse_pair("=x"), Err(EnvError::EmptyName));
    assert_eq!(parse_pair("1A=x"), Err(EnvError::LeadingDigit("1A".to_owned())));
    assert_eq!(parse_pair("A-B=x"), Err(EnvError::InvalidCharacter("A-B".to_owned())));
}

#[test]
fn validate_env_name_checks_in_order() {
    assert_eq!(validate_env_name(""), Err(EnvError::EmptyName));
    assert_eq!(validate_env_name("9-A"), Err(EnvError::LeadingDigit("9-A".to_owned())));
    assert_eq!(validate_env_name("A B"), Err(EnvError::InvalidCharacter("A B".to_owned())));
    assert_eq!(validate_env_name("É"), Err(EnvError::InvalidCharacter("É".to_owned())));
    assert_eq!(validate_env_name("_A1z"), Ok(()));
}

#[test]
fn parse_env_mapping_checks_both_names() {
    assert_eq!(parse_env_mapping("A=1B"), Err(EnvError::LeadingDigit("1B".to_owned())));
    assert_eq!(parse_env_mapping("A=B=C"), Err(EnvError::InvalidCharacter("B=C".to_owned())));
    assert_eq!(parse_env_mapping("A="), Err(EnvError::EmptyName));
}

#[test]
fn parse_env_file_reports_the_first_bad_line() {
    let err = parse_env_file("A=1\n\n  oops  \nB=2\n").unwrap_err();
    assert_eq!(err, EnvError::InvalidLine(3, "  oops  ".to_owned()));
    let err = parse_env_file("A=1\n1B=2\n").unwrap_err();
    assert_eq!(err, EnvError::LeadingDigit("1B".to_owned()));
}

#[test]
fn parse_env_file_trims_and_handles_crlf() {
    let parsed = parse_env_file("  export  NAME = 'quoted value' \r\nOTHER=\"x\r\n\nLAST=end").unwrap();
    assert_eq!(
        parsed,
        vec![
            ("NAME".to_owned(), "quoted value".to_owned()),
            ("OTHER".to_owned(), "\"x".to_owned()),
            ("LAST".to_owned(), "end".to_owned()),
        ]
    );
    assert_eq!(parse_env_file("").unwrap(), Vec::new());
    assert_eq!(parse_env_file("# only\n\n").unwrap(), Vec::new());
}

#[test]
fn unquote_takes_off_one_matching_pair() {
    assert_eq!(unquote("\"a\""), "a");
    assert_eq!(unquote("'a'"), "a");
    assert_eq!(unquote("\"a'"), "\"a'");
    assert_eq!(unquote("\""), "\"");
    assert_eq!(unquote("\"\"\"\""), "\"\"");
}

#[test]
fn shell_quote_handles_empty_and_plain_values() {
    assert_eq!(shell_quote(""), "''");
    assert_eq!(shell_quote("plain"), "'plain'");
    assert_eq!(shell_quote("''"), "''\\'''\\'''");
}

#[test]
fn iso_timestamp_now_is_decimal_seconds() {
    let t = iso_timestamp_now();
    assert!(!t.is_empty());
    assert!(t.chars().all(|c| c.is_ascii_digit()));
    assert!(t.parse::<u64>().unwrap() > 1_600_000_000);
}

#[test]
fn timestamps_are_decimal_seconds_or_zero() {
    assert_eq!(timestamp_text(Some(1700000000)), "1700000000");
    assert_eq!(timestamp_text(Some(0)), "0");
    assert_eq!(timestamp_text(None), "0");
}
