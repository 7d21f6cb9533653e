use djson::test_utils::{fmt_snapshot_case, fmt_snapshot_cases};

#[test]
fn formats_a_case_with_its_fields() {
    let formatted = fmt_snapshot_case("division", &[("input", "1 / 0"), ("error", "division by zero")]);
    assert_eq!(formatted, "division\ninput: `1 / 0`\nerror: `division by zero`");
}

#[test]
fn trims_and_indents_field_values() {
    let formatted = fmt_snapshot_case("multi", &[("error", "first\nsecond\n  \n")]);
    assert_eq!(formatted, "multi\nerror: `first\n        second`");
}

#[test]
fn formats_a_case_without_fields() {
    assert_eq!(fmt_snapshot_case("alone", &[]), "alone\n");
}

#[test]
fn joins_cases_with_an_empty_line() {
    let joined = fmt_snapshot_cases(vec![("a", "1"), ("b", "2")], |(label, value)| {
        fmt_snapshot_case(label, &[("value", value)])
    });
    assert_eq!(joined, "a\nvalue: `1`\n\nb\nvalue: `2`");
}

#[test]
fn joins_no_cases_into_nothing() {
    let joined = fmt_snapshot_cases(Vec::<&str>::new(), |label: &str| label.to_string());
    assert_eq!(joined, "");
}
