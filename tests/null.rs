use pdf_objects::Null;

#[test]
fn parse_null_1() {
    let (rem, parsed) = Null::parse(b"null").unwrap();
    assert!(rem.is_empty());
    assert_eq!(parsed, Null);
}

#[test]
fn parse_null_2() {
    let parsed = Null::parse(b"nul");
    assert!(parsed.is_err())
}
