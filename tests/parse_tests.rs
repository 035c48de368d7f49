use contacts::codec::{parse_records, render_records};
use contacts::record::{parse_record, ParseError, Record};
use contacts::store::Records;
use contacts::text::{contains_chars, int_chars, split_chars};

fn chars(s: &str) -> Vec<char> {
    s.chars().collect()
}

#[test]
fn parse_full_record() {
    let r = parse_record("1,Alice,a@x.com").unwrap();
    assert_eq!(r.id, 1);
    assert_eq!(r.name, "Alice");
    assert_eq!(r.email.as_deref(), Some("a@x.com"));
}

#[test]
fn parse_without_email() {
    let r = parse_record("4,Dana").unwrap();
    assert_eq!(r.id, 4);
    assert_eq!(r.email, None);
    let r = parse_record("2,Bob,").unwrap();
    assert_eq!(r.email, None);
}

#[test]
fn parse_ignores_extra_fields() {
    let r = parse_record("-12,Eve,e@x.com,extra,more").unwrap();
    assert_eq!(r.id, -12);
    assert_eq!(r.email.as_deref(), Some("e@x.com"));
}

#[test]
fn parse_keeps_email_untrimmed() {
    let r = parse_record("+5,Fay, f@x.com ").unwrap();
    assert_eq!(r.id, 5);
    assert_eq!(r.email.as_deref(), Some(" f@x.com "));
}

#[test]
fn parse_invalid_id() {
    assert!(matches!(parse_record("bad,Name"), Err(ParseError::InvalidId(_))));
    assert!(matches!(parse_record(",Name"), Err(ParseError::InvalidId(_))));
    assert!(matches!(parse_record(" 1,Name"), Err(ParseError::InvalidId(_))));
    assert!(matches!(parse_record("9223372036854775808,Big"), Err(ParseError::InvalidId(_))));
    assert!(matches!(parse_record("-,Sign"), Err(ParseError::InvalidId(_))));
}

#[test]
fn parse_extreme_ids() {
    assert_eq!(parse_record("9223372036854775807,Max").unwrap().id, i64::MAX);
    assert_eq!(parse_record("-9223372036854775808,Min").unwrap().id, i64::MIN);
}

#[test]
fn parse_missing_name() {
    match parse_record("3,,c@x.com") {
        Err(ParseError::MissingField(f)) => assert_eq!(f, "name"),
        other => panic!("unexpected {:?}", other),
    }
    assert!(matches!(parse_record("3"), Err(ParseError::MissingField(_))));
}

#[test]
fn parse_empty_line() {
    assert!(matches!(parse_record(""), Err(ParseError::EmptyRecord)));
}

#[test]
fn load_skips_bad_lines() {
    let text = "1,Alice,a@x.com\n\nbad,Name\n3,,c@x.com\n4,Dana";
    let (recs, failures) = parse_records(text, false);
    assert!(failures.is_empty());
    let out = recs.into_vec();
    assert_eq!(out.len(), 2);
    assert_eq!(out[0].id, 1);
    assert_eq!(out[0].name, "Alice");
    assert_eq!(out[1].id, 4);
    assert_eq!(out[1].email, None);
}

#[test]
fn load_verbose_reports_failures() {
    let text = "1,Alice,a@x.com\n\nbad,Name\n3,,c@x.com\n4,Dana";
    let (_, failures) = parse_records(text, true);
    assert_eq!(failures.len(), 2);
    assert_eq!(failures[0].line_number, 3);
    assert_eq!(failures[0].line, "bad,Name");
    assert!(matches!(failures[0].error, ParseError::InvalidId(_)));
    assert_eq!(failures[1].line_number, 4);
    assert!(matches!(failures[1].error, ParseError::MissingField(_)));
}

#[test]
fn load_later_line_wins() {
    let (recs, _) = parse_records("id,name,email\n2,Old,\n2,New,n@x.com\n", false);
    let out = recs.into_vec();
    assert_eq!(out.len(), 1);
    assert_eq!(out[0].name, "New");
}

#[test]
fn load_empty_content() {
    let (recs, failures) = parse_records("", true);
    assert!(recs.into_vec().is_empty());
    assert!(failures.is_empty());
}

fn sample() -> Records {
    let mut recs = Records::new();
    recs.add(Record { id: 2, name: "Bob".to_string(), email: None });
    recs.add(Record { id: 1, name: "Alice".to_string(), email: Some("alice@example.com".to_string()) });
    recs.add(Record { id: -3, name: "Neg".to_string(), email: None });
    recs
}

#[test]
fn render_exact_text() {
    assert_eq!(
        render_records(sample()),
        "id,name,email\n-3,Neg,\n1,Alice,alice@example.com\n2,Bob,\n"
    );
    assert_eq!(render_records(Records::new()), "id,name,email\n");
}

#[test]
fn render_twice_identical() {
    assert_eq!(render_records(sample()), render_records(sample()));
}

#[test]
fn round_trip_keeps_records() {
    let text = render_records(sample());
    let (recs, failures) = parse_records(&text, true);
    assert_eq!(failures.len(), 1);
    assert_eq!(failures[0].line_number, 1);
    let out = recs.into_vec();
    let orig = sample().into_vec();
    assert_eq!(out.len(), orig.len());
    for (a, b) in out.iter().zip(orig.iter()) {
        assert_eq!(a.id, b.id);
        assert_eq!(a.name, b.name);
        assert_eq!(a.email, b.email);
    }
}

#[test]
fn substring_search() {
    assert!(contains_chars(&chars("malice"), &chars("ali")));
    assert!(contains_chars(&chars("abc"), &chars("")));
    assert!(!contains_chars(&chars("ab"), &chars("abc")));
    assert!(!contains_chars(&chars("Alice"), &chars("ali")));
}

#[test]
fn split_keeps_empty_fields() {
    let f = split_chars(&chars("a,,b,"), ',');
    assert_eq!(f, vec![chars("a"), vec![], chars("b"), vec![]]);
    assert_eq!(split_chars(&vec![], ','), vec![Vec::<char>::new()]);
}

#[test]
fn decimal_spelling() {
    assert_eq!(int_chars(0), chars("0"));
    assert_eq!(int_chars(-407), chars("-407"));
    assert_eq!(int_chars(i64::MIN), chars("-9223372036854775808"));
    assert_eq!(int_chars(i64::MAX), chars("9223372036854775807"));
}
