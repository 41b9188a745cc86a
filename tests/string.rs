use pdf_objects::String;

#[test]
fn parse_string_1() {
    let (rem, parsed) = String::parse(b"<901fa3>").unwrap();
    assert!(rem.is_empty());
    assert_eq!(parsed.get(), [0x90, 0x1f, 0xa3]);
}
#[test]
fn parse_string_2() {
    let (rem, parsed) = String::parse(b"<901fa>").unwrap();
    assert!(rem.is_empty());
    assert_eq!(parsed.get(), [0x90, 0x1f, 0xa0]);
}
#[test]
fn parse_string_3() {
    let (rem, parsed) = String::parse(b"< 9 0 1 f a 3 >").unwrap();
    assert!(rem.is_empty());
    assert_eq!(parsed.get(), [0x90, 0x1f, 0xa3]);
}
#[test]
fn parse_string_4() {
    let (rem, parsed) = String::parse(b"<  >").unwrap();
    assert!(rem.is_empty());
    assert_eq!(parsed.get(), []);
}
#[test]
fn parse_string_5() {
    let (rem, parsed) = String::parse(b"( This is string number 1? )").unwrap();
    assert!(rem.is_empty());
    assert_eq!(parsed.get(), b" This is string number 1? ");
}
#[test]
fn parse_string_6() {
    let (rem, parsed) = String::parse(b"(strangeonium spectroscopy)").unwrap();
    assert!(rem.is_empty());
    assert_eq!(parsed.get(), b"strangeonium spectroscopy");
}
#[test]
fn parse_string_7() {
    let (rem, parsed) =
        String::parse(b"(This string is split \\\nacross \\\n\\\rthree lines)").unwrap();
    assert!(rem.is_empty());
    assert_eq!(parsed.get(), b"This string is split across three lines");
}
#[test]
fn parse_string_8() {
    let (rem, parsed) = String::parse(b"(string with \\245two octal characters\\307)").unwrap();
    assert!(rem.is_empty());
    let mut esp = b"string with ".to_vec();
    esp.push(0o245);
    esp.append(&mut b"two octal characters".to_vec());
    esp.push(0o307);
    assert_eq!(parsed.get(), esp.as_slice());
}
#[test]
fn parse_string_9() {
    let (rem, parsed) = String::parse(b"(\\24)").unwrap();
    assert!(rem.is_empty());
    assert_eq!(parsed.get(), [0o24]);
}
#[test]
fn parse_string_10() {
    let (rem, parsed) = String::parse(b"(\\24r)").unwrap();
    assert!(rem.is_empty());
    assert_eq!(parsed.get(), [0o24, b'r']);
}
#[test]
fn parse_string_11() {
    let (rem, parsed) = String::parse(b"(\\2)").unwrap();
    assert!(rem.is_empty());
    assert_eq!(parsed.get(), [0o2]);
}
#[test]
fn parse_string_12() {
    let (rem, parsed) = String::parse(b"(\\2r)").unwrap();
    assert!(rem.is_empty());
    assert_eq!(parsed.get(), [0o2, b'r']);
}

#[test]
fn parse_string_13() {
    let (rem, parsed) = String::parse(b"(())").unwrap();
    assert!(rem.is_empty());
    assert_eq!(parsed.get(), b"()");
}
#[test]
fn parse_string_14() {
    let parsed = String::parse(b"(()");
    assert!(parsed.is_err());
}
#[test]
fn parse_string_15() {
    let (rem, parsed) = String::parse(b"(()(()))").unwrap();
    assert!(rem.is_empty());
    assert_eq!(parsed.get(), b"()(())");
}
#[test]
fn parse_string_16() {
    let (rem, parsed) = String::parse(b"(()(()))").unwrap();
    assert!(rem.is_empty());
    assert_eq!(parsed.get(), b"()(())");
}
#[test]
fn parse_string_17() {
    let (rem, parsed) = String::parse(b"(\\))").unwrap();
    assert!(rem.is_empty());
    assert_eq!(parsed.get(), b")");
}
#[test]
fn parse_string_18() {
    let (rem, parsed) = String::parse(b"(\\()").unwrap();
    assert!(rem.is_empty());
    assert_eq!(parsed.get(), b"(");
}
