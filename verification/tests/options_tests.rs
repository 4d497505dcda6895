use umber::custom_langs::CustomLang;
use umber::options::{
    normalize_language_name, parse_file_spec, parse_line_range, parse_line_range_arg,
    parse_line_range_suffix, parse_style_components, resolve_language_alias, resolve_theme_choice,
    RangeError, ThemeChoice,
};
use umber::slicing::LineRange;

#[test]
fn line_ranges_accept_all_separators() {
    for raw in ["10-20", "10:20", "10,20", " 10-20 ", "L10-20", "l10-L20"] {
        let r = parse_line_range(raw).unwrap_or_else(|| panic!("{raw} should parse"));
        assert_eq!(r, LineRange { start: 10, end: 20 }, "{raw}");
    }
    assert_eq!(parse_line_range("7"), Some(LineRange { start: 7, end: 7 }));
}

#[test]
fn bad_line_ranges_are_rejected() {
    for raw in ["", "0", "5-2", "0-3", "3-0", "a-b", "5-", "-5", "1-2-3x", "L"] {
        assert_eq!(parse_line_range(raw), None, "{raw}");
    }
    assert!(matches!(
        parse_line_range_arg("nope"),
        Err(RangeError::InvalidRange)
    ));
    assert_eq!(
        parse_line_range_arg("3,9"),
        Ok(LineRange { start: 3, end: 9 })
    );
}

#[test]
fn file_specs_take_their_suffix_range() {
    let spec = parse_file_spec("src/main.rs#L10-L20", None).expect("should parse");
    assert_eq!(spec.path, "src/main.rs");
    assert_eq!(spec.line_range, Some(LineRange { start: 10, end: 20 }));

    let spec = parse_file_spec("plain.txt", Some(LineRange { start: 2, end: 4 })).unwrap();
    assert_eq!(spec.path, "plain.txt");
    assert_eq!(spec.line_range, Some(LineRange { start: 2, end: 4 }));

    assert!(matches!(
        parse_file_spec("#L10", None),
        Err(RangeError::MissingPath)
    ));
    assert!(matches!(
        parse_file_spec("x#L", None),
        Err(RangeError::MissingRange)
    ));
    assert!(matches!(
        parse_file_spec("x#Lgarbage", None),
        Err(RangeError::InvalidRange)
    ));
}

#[test]
fn style_components_toggle_their_flags() {
    let c = parse_style_components(Some("numbers,changes"));
    assert!(c.decoration_config.show_numbers);
    assert!(c.decoration_config.show_changes);
    assert!(!c.decoration_config.show_headers);
    assert!(c.highlight_locals);
    assert!(!c.highlight_injections);

    let c = parse_style_components(Some(" headers , rich ,unknown"));
    assert!(!c.decoration_config.show_numbers);
    assert!(c.decoration_config.show_headers);
    assert!(c.highlight_injections);
    assert!(c.highlight_locals);

    let c = parse_style_components(None);
    assert!(!c.decoration_config.show_numbers);
    assert!(!c.decoration_config.show_changes);
    assert!(c.highlight_locals);
}

#[test]
fn theme_names_resolve_to_choices() {
    assert!(matches!(resolve_theme_choice("auto"), ThemeChoice::Auto));
    assert!(matches!(resolve_theme_choice(""), ThemeChoice::Auto));
    assert!(matches!(resolve_theme_choice(" dark "), ThemeChoice::Dark));
    assert!(matches!(resolve_theme_choice("light"), ThemeChoice::Light));
    match resolve_theme_choice("dracula:variant") {
        ThemeChoice::Named(n) => assert_eq!(n, "dracula"),
        other => panic!("expected a named theme, got {other:?}"),
    }
}

#[test]
fn language_names_normalize_and_alias() {
    assert_eq!(normalize_language_name("  RuSt "), "rust");
    assert_eq!(resolve_language_alias("xml"), "html");
    assert_eq!(resolve_language_alias("xhtml"), "html");
    assert_eq!(resolve_language_alias("svg"), "html");
    assert_eq!(resolve_language_alias("plist"), "html");
    assert_eq!(resolve_language_alias("rust"), "rust");
}

#[test]
fn custom_languages_resolve_by_name() {
    assert_eq!(CustomLang::for_name("hcl"), Some(CustomLang::Hcl));
    assert_eq!(CustomLang::for_name("terraform"), Some(CustomLang::Terraform));
    assert_eq!(CustomLang::for_name("tf"), Some(CustomLang::Terraform));
    assert_eq!(CustomLang::for_name("rust"), None);
    assert_eq!(CustomLang::Hcl.name(), "hcl");
    assert_eq!(CustomLang::Terraform.name(), "terraform");
}

#[test]
fn range_errors_describe_themselves() {
    assert_eq!(
        RangeError::MissingPath.message(),
        "missing file path before line range"
    );
    assert_eq!(RangeError::MissingRange.message(), "missing line range after #L");
    assert_eq!(RangeError::InvalidRange.message(), "invalid line range");
}

#[test]
fn suffix_splits_at_the_last_marker() {
    let r = parse_line_range_suffix("a#L1-2/b#L3-4").unwrap().unwrap();
    assert_eq!(r.0, "a#L1-2/b");
    assert_eq!(r.1, LineRange { start: 3, end: 4 });
    assert!(parse_line_range_suffix("no marker here").unwrap().is_none());
}
