use http_load_gen::input_params::{
    accept_target, check_output_file, check_target_url, connections_in_range,
    is_csv_extension, output_file_verdict, InputParams, ReportWriteError, UriParts,
    ValidationError, CONNECTIONS_LIMIT, DEFAULT_CONNECTIONS, DEFAULT_REQUESTS, MIN_CONNECTIONS,
};

#[test]
fn test_low_connections_in_range() {
    let args = InputParams::new("0", DEFAULT_REQUESTS, "http://example.com");
    assert_eq!(args.is_err(), true);
}

#[test]
fn test_high_connections_in_range() {
    let args = InputParams::new("65123", DEFAULT_REQUESTS, "http://example.com");
    assert_eq!(args.is_err(), true);
}

#[test]
fn test_valid_connections_in_range() {
    let args = InputParams::new("12", DEFAULT_REQUESTS, "http://example.com");
    assert_eq!(args.is_ok(), true);
}

#[test]
fn test_valid_url() {
    let args = InputParams::new("12", DEFAULT_REQUESTS, "http:/example@com");
    assert_eq!(args.is_err(), true);
}

#[test]
fn defaults_are_acceptable() {
    assert_eq!(DEFAULT_CONNECTIONS, 4);
    assert_eq!(DEFAULT_REQUESTS, 1000);
    assert!(MIN_CONNECTIONS <= DEFAULT_CONNECTIONS && DEFAULT_CONNECTIONS < CONNECTIONS_LIMIT);
    let text = format!("{}", DEFAULT_CONNECTIONS);
    assert_eq!(connections_in_range(&text), Ok(4));
}

#[test]
fn connections_at_the_edges() {
    assert_eq!(connections_in_range("1"), Ok(1));
    assert_eq!(connections_in_range("64999"), Ok(64999));
    assert!(connections_in_range("65000").is_err());
    assert!(connections_in_range("65535").is_err());
    assert!(connections_in_range("65536").is_err());
    assert!(connections_in_range("0").is_err());
}

#[test]
fn connections_numeral_forms() {
    assert_eq!(connections_in_range("+7"), Ok(7));
    assert_eq!(connections_in_range("007"), Ok(7));
    assert_eq!(connections_in_range("00000000000000000000000012"), Ok(12));
    assert!(connections_in_range("").is_err());
    assert!(connections_in_range("+").is_err());
    assert!(connections_in_range("-1").is_err());
    assert!(connections_in_range("++1").is_err());
    assert!(connections_in_range(" 12").is_err());
    assert!(connections_in_range("12 ").is_err());
    assert!(connections_in_range("1_000").is_err());
    assert!(connections_in_range("12a").is_err());
    assert!(connections_in_range("0x10").is_err());
    assert!(connections_in_range("١٢").is_err());
    assert!(connections_in_range("99999999999999999999999999").is_err());
}

#[test]
fn connections_agree_with_the_standard_parser() {
    let texts = [
        "0", "1", "4", "+4", "512", "64999", "65000", "65535", "65536", "", "+", "-", "-4", "4.0",
        "0004", "4 ", "four", "+-4", "4+", "18446744073709551616",
    ];
    for text in texts {
        let expected = match text.parse::<u16>() {
            Ok(value) if (1..65_000).contains(&value) => Some(value),
            _ => None,
        };
        assert_eq!(connections_in_range(text).ok(), expected, "{:?}", text);
    }
}

#[test]
fn connections_error_message() {
    assert_eq!(
        connections_in_range("none"),
        Err(String::from("Value must be in the range [1..512]"))
    );
    assert_eq!(
        connections_in_range("0"),
        Err(String::from("Value must be in the range [1..512]"))
    );
}

#[test]
fn params_keep_their_values() {
    let params = InputParams::new("12", 30, "http://example.com/x").unwrap();
    assert_eq!(params.connections, 12);
    assert_eq!(params.requests, 30);
    assert_eq!(params.target_url, "http://example.com/x");
    assert_eq!(params.output_file, None);
    let params = params.with_output_file("out.csv", false).unwrap();
    assert_eq!(params.connections, 12);
    assert_eq!(params.requests, 30);
    assert_eq!(params.target_url, "http://example.com/x");
    assert_eq!(params.output_file, Some(String::from("out.csv")));
}

#[test]
fn params_take_a_report_file_that_may_be_written() {
    let params = || InputParams::new("12", 30, "http://example.com/x").unwrap();
    assert_eq!(
        params().with_output_file("out.txt", false).err(),
        Some(ReportWriteError::Extension)
    );
    assert_eq!(
        params().with_output_file("out.txt", true).err(),
        Some(ReportWriteError::Extension)
    );
    assert_eq!(
        params().with_output_file("out.csv", true).err(),
        Some(ReportWriteError::AlreadyExists)
    );
    assert!(params().with_output_file("out.csv", false).is_ok());
}

#[test]
fn params_errors_in_order() {
    assert_eq!(
        InputParams::new("0", 0, "nowhere").err(),
        Some(ValidationError::Connections)
    );
    assert_eq!(InputParams::new("1", 0, "nowhere").err(), Some(ValidationError::Requests));
    assert_eq!(InputParams::new("1", 1, "nowhere").err(), Some(ValidationError::TargetUrl));
    assert!(InputParams::new("1", 1, "http://somewhere").is_ok());
}

#[test]
fn target_needs_scheme_and_host() {
    assert_eq!(check_target_url("http://example.com"), Ok(()));
    assert_eq!(check_target_url("https://example.com:8443/a/b?c=d"), Ok(()));
    assert_eq!(check_target_url("http://127.0.0.1:8080/"), Ok(()));
    assert_eq!(check_target_url("http://[::1]:8080/"), Ok(()));
    assert_eq!(check_target_url("/only/a/path"), Err(ValidationError::TargetUrl));
    assert_eq!(check_target_url("example.com"), Err(ValidationError::TargetUrl));
    assert_eq!(check_target_url("example.com:80"), Err(ValidationError::TargetUrl));
    assert_eq!(check_target_url("*"), Err(ValidationError::TargetUrl));
    assert_eq!(check_target_url(""), Err(ValidationError::TargetUrl));
    assert_eq!(check_target_url("http://"), Err(ValidationError::TargetUrl));
    assert_eq!(check_target_url("http:/example@com"), Err(ValidationError::TargetUrl));
    assert_eq!(check_target_url("http://exa mple.com"), Err(ValidationError::TargetUrl));
}

#[test]
fn target_with_empty_host_is_turned_down() {
    assert_eq!(check_target_url("http://:80/"), Err(ValidationError::TargetUrl));
}

#[test]
fn target_with_empty_scheme_is_turned_down() {
    assert_eq!(check_target_url("://host"), Err(ValidationError::TargetUrl));
    assert_eq!(check_target_url("://host/path"), Err(ValidationError::TargetUrl));
    assert_eq!(InputParams::new("1", 1, "://host").err(), Some(ValidationError::TargetUrl));
    let empty_scheme =
        Some(UriParts { scheme: Some(String::new()), host: Some(String::from("host")) });
    assert_eq!(accept_target(&empty_scheme), Err(ValidationError::TargetUrl));
}

#[test]
fn target_from_given_parts() {
    let whole = Some(UriParts {
        scheme: Some(String::from("http")),
        host: Some(String::from("example.com")),
    });
    assert_eq!(accept_target(&whole), Ok(()));
    let no_scheme = Some(UriParts { scheme: None, host: Some(String::from("example.com")) });
    assert_eq!(accept_target(&no_scheme), Err(ValidationError::TargetUrl));
    let no_host = Some(UriParts { scheme: Some(String::from("http")), host: None });
    assert_eq!(accept_target(&no_host), Err(ValidationError::TargetUrl));
    let empty_host =
        Some(UriParts { scheme: Some(String::from("http")), host: Some(String::new()) });
    assert_eq!(accept_target(&empty_host), Err(ValidationError::TargetUrl));
    assert_eq!(accept_target(&None), Err(ValidationError::TargetUrl));
}

#[test]
fn csv_extension_only() {
    assert!(is_csv_extension(&Some(String::from("csv"))));
    assert!(!is_csv_extension(&Some(String::from("CSV"))));
    assert!(!is_csv_extension(&Some(String::from("cs"))));
    assert!(!is_csv_extension(&Some(String::from("csvx"))));
    assert!(!is_csv_extension(&Some(String::new())));
    assert!(!is_csv_extension(&None));
}

#[test]
fn verdict_checks_the_extension_first() {
    let csv = Some(String::from("csv"));
    let txt = Some(String::from("txt"));
    assert_eq!(output_file_verdict("a.csv", &csv, false), Ok(String::from("a.csv")));
    assert_eq!(output_file_verdict("a.csv", &csv, true), Err(ReportWriteError::AlreadyExists));
    assert_eq!(output_file_verdict("a.txt", &txt, false), Err(ReportWriteError::Extension));
    assert_eq!(output_file_verdict("a.txt", &txt, true), Err(ReportWriteError::Extension));
    assert_eq!(output_file_verdict("a", &None, false), Err(ReportWriteError::Extension));
}

#[test]
fn report_file_without_csv_extension_is_turned_down() {
    assert_eq!(check_output_file("report.txt", false), Err(ReportWriteError::Extension));
    assert_eq!(check_output_file("report", false), Err(ReportWriteError::Extension));
    assert_eq!(check_output_file("report.csv.bak", false), Err(ReportWriteError::Extension));
    assert_eq!(check_output_file(".csv", false), Err(ReportWriteError::Extension));
    assert_eq!(check_output_file("csv", false), Err(ReportWriteError::Extension));
    assert_eq!(check_output_file("", false), Err(ReportWriteError::Extension));
    assert_eq!(check_output_file("report.txt", true), Err(ReportWriteError::Extension));
}

#[test]
fn report_file_that_exists_is_turned_down() {
    assert_eq!(check_output_file("report.csv", true), Err(ReportWriteError::AlreadyExists));
    assert_eq!(check_output_file("out/run.1.csv", true), Err(ReportWriteError::AlreadyExists));
}

#[test]
fn report_file_that_is_new_is_accepted() {
    assert_eq!(check_output_file("report.csv", false), Ok(String::from("report.csv")));
    assert_eq!(check_output_file("out/run.1.csv", false), Ok(String::from("out/run.1.csv")));
}
