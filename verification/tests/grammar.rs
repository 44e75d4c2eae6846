use justcsv::{record, RecordResult};

fn fields(items: &[&str]) -> RecordResult {
    RecordResult::Complete(items.iter().map(|s| s.to_string()).collect())
}

#[test]
fn parse_just_record() {
    let line = "мама,мыла,раму\r\n";
    assert_eq!(fields(&["мама", "мыла", "раму"]), record(line, ',', '"'));
}

#[test]
fn parse_with_escaped() {
    let line = "мама, \"мыла\",раму";
    assert_eq!(fields(&["мама", "мыла", "раму"]), record(line, ',', '"'));
}

#[test]
fn parse_multiline() {
    let line = "мама, \"мыла\ntwo times\"\t\t,раму";
    assert_eq!(
        fields(&["мама", "мыла\ntwo times", "раму"]),
        record(line, ',', '"')
    );
}

#[test]
fn fail_after_dquote() {
    let comma = ',';
    let dquote = '"';
    println!("{:?}", record("мама,мыла, \"раму\"abc", comma, dquote));
    assert!(matches!(
        record("мама,мыла, \"раму\"abc", comma, dquote),
        RecordResult::Malformed
    ));
    assert_eq!(
        fields(&["мама", "мыла", "раму"]),
        record("мама,\"мыла\", \"раму\" ", comma, dquote)
    );
}

#[test]
fn escaped_dquote() {
    let line = "мама, \"мыла\n\"\"two times\"\"\"\t\t,раму";
    assert_eq!(
        fields(&["мама", "мыла\n\"two times\"", "раму"]),
        record(line, ',', '"')
    );
}

#[test]
fn unterminated_quote_is_incomplete() {
    assert!(matches!(
        record("a,\"unfinished", ',', '"'),
        RecordResult::Incomplete
    ));
}

#[test]
fn empty_trailing_field() {
    assert_eq!(fields(&["4", "5", ""]), record("4,5,\r\n", ',', '"'));
}

#[test]
fn custom_separator_and_quote() {
    assert_eq!(
        fields(&["one", "two;half", "three"]),
        record("one;'two;half';three", ';', '\'')
    );
}
