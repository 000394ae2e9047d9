use scribe::format_check::count_placeholders;

#[test]
fn test_count_placeholders() {
    assert_eq!(count_placeholders("Hello {}"), 1);
    assert_eq!(count_placeholders("Value: {} {}"), 2);
    assert_eq!(count_placeholders("{{escaped}}"), 0);
    assert_eq!(count_placeholders("Mixed {{ }} and {}"), 1);
}

#[test]
fn count_placeholders_counts_named_and_positional() {
    assert_eq!(count_placeholders(""), 0);
    assert_eq!(count_placeholders("{0} {name} {:?}"), 3);
    assert_eq!(count_placeholders("}}{{"), 0);
}
