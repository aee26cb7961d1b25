use editorconfig_updater::analyzer::AnalyzerRule;
use editorconfig_updater::builder::{build_registry, cs_code_vec};
use editorconfig_updater::merge::merge_config;
use editorconfig_updater::registry::{DiagnosticRecord, Registry};
use editorconfig_updater::severity::{severity_word_vec, Severity};
use editorconfig_updater::sorted_map::SortedMap;
use editorconfig_updater::text::{cleaned_vec, parse_i32, to_lower_vec};

fn b(s: &str) -> Vec<u8> {
    s.as_bytes().to_vec()
}

fn reg_of(entries: &[(&str, &str, &str)]) -> Registry {
    let mut reg: Registry = SortedMap::new();
    for (code, message, severity) in entries {
        let rec = DiagnosticRecord {
            code: b(code),
            message: b(message),
            severity: b(severity),
        };
        reg.insert(to_lower_vec(&b(code)), rec);
    }
    reg
}

#[test]
fn end_to_end_merge_scenario() {
    let reg = reg_of(&[
        ("cs0001", "Missing semicolon", "error"),
        ("ca1802", "Use const", "suggestion"),
    ]);
    let input = b("root = true\ndotnet_diagnostic.cs0001.severity = warning\n");
    let out = merge_config(reg, &input);
    let expected = b("root = true\ndotnet_diagnostic.ca1802.severity = suggestion # Use const\ndotnet_diagnostic.cs0001.severity = warning # Missing semicolon\n");
    assert_eq!(String::from_utf8(out).unwrap(), String::from_utf8(expected).unwrap());
}

#[test]
fn override_wins_and_message_is_kept() {
    let reg = reg_of(&[("cs0001", "Missing semicolon", "error")]);
    let input = b("dotnet_diagnostic.cs0001.severity = silent\n");
    let out = merge_config(reg, &input);
    assert_eq!(
        String::from_utf8(out).unwrap(),
        "dotnet_diagnostic.cs0001.severity = silent # Missing semicolon\n"
    );
}

#[test]
fn unknown_override_is_skipped() {
    let reg = reg_of(&[("cs0001", "Msg", "error")]);
    let input = b("dotnet_diagnostic.zz9999.severity = silent\n");
    let out = merge_config(reg, &input);
    assert_eq!(
        String::from_utf8(out).unwrap(),
        "dotnet_diagnostic.cs0001.severity = error # Msg\n"
    );
}

#[test]
fn passthrough_lines_keep_their_order() {
    let reg = reg_of(&[("cs0001", "Msg", "error")]);
    let input = b("root = true\n\n[*.cs]\ndotnet_diagnostic.cs0001.severity = none\nindent_size = 4\ndotnet_diagnostic.cs0001.severity = error\ncharset = utf-8\n");
    let out = String::from_utf8(merge_config(reg, &input)).unwrap();
    let expected = "root = true\n\n[*.cs]\ndotnet_diagnostic.cs0001.severity = error # Msg\nindent_size = 4\ncharset = utf-8\n";
    assert_eq!(out, expected);
}

#[test]
fn merge_twice_is_byte_identical() {
    let reg1 = reg_of(&[
        ("cs0001", "First\r\nmessage   with\nbreaks", "error"),
        ("ca9999", "Other", "none"),
    ]);
    let reg2 = reg_of(&[
        ("cs0001", "First\r\nmessage   with\nbreaks", "error"),
        ("ca9999", "Other", "none"),
    ]);
    let input = b("root = true  \ndotnet_diagnostic.cs0001.severity = silent\n[*.cs]\n");
    let once = merge_config(reg1, &input);
    let twice = merge_config(reg2, &once);
    assert_eq!(once, twice);
}

#[test]
fn message_is_reduced_to_one_line() {
    let reg = reg_of(&[("cs0001", "  a\r\nmulti \t line \n message ", "error")]);
    let out = String::from_utf8(merge_config(reg, &b("dotnet_diagnostic.cs0001.severity = x\n")))
        .unwrap();
    assert_eq!(out, "dotnet_diagnostic.cs0001.severity = x # a multi line message\n");
}

#[test]
fn cleaned_collapses_whitespace_runs() {
    assert_eq!(cleaned_vec(&b("  a\r\nb   c\t")), b("a b c"));
    assert_eq!(cleaned_vec(&b("")), b(""));
    assert_eq!(cleaned_vec(&b("   ")), b(""));
}

#[test]
fn code_formatting_is_zero_padded() {
    assert_eq!(cs_code_vec(1), b("CS0001"));
    assert_eq!(cs_code_vec(123), b("CS0123"));
    assert_eq!(cs_code_vec(12345), b("CS12345"));
    assert_eq!(cs_code_vec(0), b("CS0000"));
}

#[test]
fn integer_parse_matches_std() {
    assert_eq!(parse_i32(&b("42")), Some(42));
    assert_eq!(parse_i32(&b("-7")), Some(-7));
    assert_eq!(parse_i32(&b("+9")), Some(9));
    assert_eq!(parse_i32(&b("2147483647")), Some(2147483647));
    assert_eq!(parse_i32(&b("-2147483648")), Some(-2147483648));
    assert_eq!(parse_i32(&b("2147483648")), None);
    assert_eq!(parse_i32(&b("4 2")), None);
    assert_eq!(parse_i32(&b("")), None);
    assert_eq!(parse_i32(&b("-")), None);
}

#[test]
fn registry_built_from_three_sources() {
    let mut codes: SortedMap<i32> = SortedMap::new();
    codes.insert(b("ERR_Semi"), 1);
    codes.insert(b("WRN_Style"), 22);
    let mut msgs: SortedMap<Vec<u8>> = SortedMap::new();
    msgs.insert(b("ERR_Semi"), b("Missing semicolon"));
    let rules = vec![AnalyzerRule {
        id: b("CA1802"),
        message: b("Use const"),
        severity: Severity::Suggestion,
    }];
    let reg = build_registry(&codes, &msgs, &rules).unwrap();
    assert_eq!(reg.len(), 3);
    let r = reg.get(&b("cs0001")).unwrap();
    assert_eq!(r.code, b("CS0001"));
    assert_eq!(r.message, b("Missing semicolon"));
    assert_eq!(r.severity, b("error"));
    let r2 = reg.get(&b("cs0022")).unwrap();
    assert_eq!(r2.message, b("Unknown"));
    assert_eq!(r2.severity, b("warning"));
    let r3 = reg.get(&b("ca1802")).unwrap();
    assert_eq!(r3.code, b("CA1802"));
    assert_eq!(r3.severity, b("suggestion"));
}

#[test]
fn analyzer_rule_overwrites_compiler_record() {
    let mut codes: SortedMap<i32> = SortedMap::new();
    codes.insert(b("ERR_Semi"), 1);
    let msgs: SortedMap<Vec<u8>> = SortedMap::new();
    let rules = vec![AnalyzerRule {
        id: b("CS0001"),
        message: b("Fresh text"),
        severity: Severity::Warning,
    }];
    let reg = build_registry(&codes, &msgs, &rules).unwrap();
    assert_eq!(reg.len(), 1);
    let r = reg.get(&b("cs0001")).unwrap();
    assert_eq!(r.message, b("Fresh text"));
    assert_eq!(r.severity, b("warning"));
}

#[test]
fn bad_prefix_is_fatal_for_the_build() {
    let mut codes: SortedMap<i32> = SortedMap::new();
    codes.insert(b("XYZ_Strange"), 5);
    let msgs: SortedMap<Vec<u8>> = SortedMap::new();
    let reg = build_registry(&codes, &msgs, &Vec::new());
    match reg {
        Err(e) => assert_eq!(e, editorconfig_updater::registry::FormatError::BadPrefix),
        Ok(_) => panic!("a bad prefix must be rejected"),
    }
}

#[test]
fn empty_file_stays_empty() {
    let reg = reg_of(&[("cs0001", "Msg", "error")]);
    let out = merge_config(reg, &Vec::new());
    assert_eq!(out, Vec::<u8>::new());
}

#[test]
fn missing_final_newline_is_added() {
    let reg = reg_of(&[]);
    let out = merge_config(reg, &b("root = true"));
    assert_eq!(String::from_utf8(out).unwrap(), "root = true\n");
}

#[test]
fn severity_words_are_the_directive_vocabulary() {
    assert_eq!(severity_word_vec(Severity::Error), b("error"));
    assert_eq!(severity_word_vec(Severity::Warning), b("warning"));
    assert_eq!(severity_word_vec(Severity::Suggestion), b("suggestion"));
    assert_eq!(severity_word_vec(Severity::Hidden), b("none"));
}
