use editorconfig_updater::analyzer::analyzer_report_rules;
use editorconfig_updater::error_codes::parse_error_codes;
use editorconfig_updater::registry::FormatError;
use editorconfig_updater::resx::{extract_messages, parse_message_table, RawEvent};
use editorconfig_updater::severity::{severity_from_level, severity_from_name, Severity};

fn b(s: &str) -> Vec<u8> {
    s.as_bytes().to_vec()
}

#[test]
fn error_codes_well_formed_block() {
    let text = b("// Licensed header\ninternal enum ErrorCode\n{\n    ERR_First = 1,\n    WRN_Second = 2, // comment\n\n    // a comment line\n    #region grouping\n    INF_Third=3\n}\ntrailing text\n");
    let m = parse_error_codes(&text).unwrap();
    assert_eq!(m.len(), 3);
    assert_eq!(m.get(&b("ERR_First")).copied(), Some(1));
    assert_eq!(m.get(&b("WRN_Second")).copied(), Some(2));
    assert_eq!(m.get(&b("INF_Third")).copied(), Some(3));
    assert_eq!(m.get(&b("Missing")).copied(), None);
}

#[test]
fn error_codes_no_marker_is_empty() {
    let text = b("nothing here\nat all\n");
    let m = parse_error_codes(&text).unwrap();
    assert_eq!(m.len(), 0);
}

#[test]
fn error_codes_duplicate_name_overwrites() {
    let text = b("ERR_A = 1,\nERR_A = 2,\n}\n");
    let m = parse_error_codes(&text).unwrap();
    assert_eq!(m.len(), 1);
    assert_eq!(m.get(&b("ERR_A")).copied(), Some(2));
}

#[test]
fn error_codes_bad_integer_is_fatal() {
    let text = b("ERR_A = one,\n}\n");
    assert_eq!(parse_error_codes(&text).unwrap_err(), FormatError::BadInteger);
}

#[test]
fn error_codes_skips_lines_without_one_assignment() {
    let text = b("ERR_A = 1,\nno assignment here_\nERR_B = 2 = 3,\nERR_C = 4,\n}\n");
    let m = parse_error_codes(&text).unwrap();
    assert_eq!(m.len(), 2);
    assert_eq!(m.get(&b("ERR_A")).copied(), Some(1));
    assert_eq!(m.get(&b("ERR_C")).copied(), Some(4));
}

#[test]
fn prefix_severity_table_is_total() {
    assert_eq!(severity_from_name(&b("FTL_X")), Some(Severity::Error));
    assert_eq!(severity_from_name(&b("ERR_X")), Some(Severity::Error));
    assert_eq!(severity_from_name(&b("WRN_X")), Some(Severity::Warning));
    assert_eq!(severity_from_name(&b("INF_X")), Some(Severity::Suggestion));
    assert_eq!(severity_from_name(&b("HDN_X")), Some(Severity::Hidden));
    assert_eq!(severity_from_name(&b("XYZ_X")), None);
    assert_eq!(severity_from_name(&b("er")), None);
}

#[test]
fn analyzer_level_vocabulary() {
    assert_eq!(severity_from_level(&b("fatal")), Some(Severity::Error));
    assert_eq!(severity_from_level(&b("error")), Some(Severity::Error));
    assert_eq!(severity_from_level(&b("warning")), Some(Severity::Warning));
    assert_eq!(severity_from_level(&b("information")), Some(Severity::Suggestion));
    assert_eq!(severity_from_level(&b("note")), Some(Severity::Suggestion));
    assert_eq!(severity_from_level(&b("hidden")), Some(Severity::Hidden));
    assert_eq!(severity_from_level(&b("loud")), None);
}

#[test]
fn message_table_commits_data_value_pairs() {
    let doc = b("<root>\n  <data name=\"IDS_Foo\"><value>Hello &amp; bye</value></data>\n  <data name=\"IDS_Bar\" type=\"t\"><value>Line</value></data>\n  <data other=\"x\"><value>not captured</value></data>\n</root>\n");
    let m = parse_message_table(&doc).unwrap();
    assert_eq!(m.len(), 2);
    assert_eq!(m.get(&b("IDS_Foo")).cloned(), Some(b("Hello & bye")));
    assert_eq!(m.get(&b("IDS_Bar")).cloned(), Some(b("Line")));
}

#[test]
fn message_table_dangling_value_commits_nothing() {
    let doc = b("<root><data name=\"IDS_Open\"><value>text");
    let m = parse_message_table(&doc).unwrap();
    assert_eq!(m.get(&b("IDS_Open")), None);
}

#[test]
fn message_table_malformed_is_fatal() {
    let doc = b("<root><data name=\"A\"><value>x</wrong></data></root>");
    assert_eq!(parse_message_table(&doc).unwrap_err(), FormatError::MalformedXml);
}

#[test]
fn state_machine_commits_text_of_same_length() {
    let events = vec![
        RawEvent::Start(b("data"), vec![(b("name"), b("K"))]),
        RawEvent::Start(b("value"), Vec::new()),
        RawEvent::Text(b("seven77")),
        RawEvent::End(b("value")),
    ];
    let m = extract_messages(&events);
    assert_eq!(m.len(), 1);
    assert_eq!(m.get(&b("K")).map(|v| v.len()), Some(7));
}

#[test]
fn analyzer_report_basic() {
    let doc = b("{\"runs\":[{\"rules\":{\"CA1802\":{\"id\":\"CA1802\",\"shortDescription\":\"Use const\",\"defaultLevel\":\"warning\"},\"CA1000\":{\"id\":\"CA1000\",\"shortDescription\":\"Generic\",\"defaultLevel\":\"hidden\"}}}]}");
    let rules = analyzer_report_rules(&doc).unwrap();
    assert_eq!(rules.len(), 2);
    let r = rules.iter().find(|r| r.id == b("CA1802")).unwrap();
    assert_eq!(r.message, b("Use const"));
    assert_eq!(r.severity, Severity::Warning);
    let r2 = rules.iter().find(|r| r.id == b("CA1000")).unwrap();
    assert_eq!(r2.severity, Severity::Hidden);
}

#[test]
fn analyzer_report_strips_byte_order_marker() {
    let mut doc = vec![0xefu8, 0xbb, 0xbf];
    doc.extend_from_slice(
        b"{\"runs\":[{\"rules\":{\"X\":{\"id\":\"X\",\"shortDescription\":\"d\",\"defaultLevel\":\"note\"}}}]}",
    );
    let rules = analyzer_report_rules(&doc).unwrap();
    assert_eq!(rules.len(), 1);
    assert_eq!(rules[0].severity, Severity::Suggestion);
}

#[test]
fn analyzer_report_empty_payload_yields_nothing() {
    let rules = analyzer_report_rules(&Vec::new()).unwrap();
    assert_eq!(rules.len(), 0);
}

#[test]
fn analyzer_report_missing_field_is_fatal() {
    let doc = b("{\"runs\":[{\"rules\":{\"X\":{\"id\":\"X\",\"defaultLevel\":\"note\"}}}]}");
    assert_eq!(analyzer_report_rules(&doc).unwrap_err(), FormatError::RuleField);
}

#[test]
fn analyzer_report_unknown_level_is_fatal() {
    let doc = b(
        "{\"runs\":[{\"rules\":{\"X\":{\"id\":\"X\",\"shortDescription\":\"d\",\"defaultLevel\":\"loud\"}}}]}",
    );
    assert_eq!(analyzer_report_rules(&doc).unwrap_err(), FormatError::BadLevel);
}

#[test]
fn analyzer_report_malformed_is_fatal() {
    let doc = b("{\"runs\": [");
    assert_eq!(analyzer_report_rules(&doc).unwrap_err(), FormatError::MalformedJson);
}
