use pdf_objects::{Integer, Real};

fn real_value(r: &Real) -> f32 {
    let v: f32 = std::str::from_utf8(r.text()).unwrap().parse().unwrap();
    if r.is_negative() {
        -v
    } else {
        v
    }
}

#[test]
fn parse_integer_1() {
    let (rem, parsed) = Integer::parse(b"123").unwrap();
    assert!(rem.is_empty());
    assert_eq!(parsed.get(), 123);
}

#[test]
fn parse_integer_2() {
    let (rem, parsed) = Integer::parse(b"+17").unwrap();
    assert!(rem.is_empty());
    assert_eq!(parsed.get(), 17);
}

#[test]
fn parse_integer_3() {
    let (rem, parsed) = Integer::parse(b"-98").unwrap();
    assert!(rem.is_empty());
    assert_eq!(parsed.get(), -98);
}

#[test]
fn parse_integer_4() {
    let parsed = Integer::parse(b"1.");
    assert!(parsed.is_err());
}

#[test]
fn parse_integer_5() {
    let parsed = Integer::parse(b".1");
    assert!(parsed.is_err());
}

#[test]
fn parse_integer_6() {
    let parsed = Integer::parse(b" 1");
    assert!(parsed.is_err());
}

#[test]
fn parse_real_1() {
    let (rem, parsed) = Real::parse(b"34.5").unwrap();
    assert!(rem.is_empty());
    assert_eq!(real_value(&parsed), 34.5);
}

#[test]
fn parse_real_2() {
    let (rem, parsed) = Real::parse(b"+34.5").unwrap();
    assert!(rem.is_empty());
    assert_eq!(real_value(&parsed), 34.5);
}

#[test]
fn parse_real_3() {
    let (rem, parsed) = Real::parse(b"-34.5").unwrap();
    assert!(rem.is_empty());
    assert_eq!(real_value(&parsed), -34.5);
}

#[test]
fn parse_real_4() {
    let (rem, parsed) = Real::parse(b"34.").unwrap();
    assert!(rem.is_empty());
    assert_eq!(real_value(&parsed), 34.);
}

#[test]
fn parse_real_5() {
    let (rem, parsed) = Real::parse(b".34").unwrap();
    assert!(rem.is_empty());
    assert_eq!(real_value(&parsed), 0.34);
}

#[test]
fn parse_real_6() {
    let (rem, parsed) = Real::parse(b"34").unwrap();
    assert!(rem.is_empty());
    assert_eq!(real_value(&parsed), 34.0);
}

#[test]
fn parse_real_7() {
    let (rem, parsed) = Real::parse(b"1.2.3").unwrap();
    assert_eq!(rem, b".3");
    assert_eq!(real_value(&parsed), 1.2);
}

#[test]
fn parse_real_8() {
    let parsed = Real::parse(b" 1.2.3");
    assert!(parsed.is_err())
}

#[test]
fn parse_real_9() {
    let (rem, parsed) = Real::parse(b"1.2e-1").unwrap();
    assert_eq!(rem, b"e-1");
    assert_eq!(real_value(&parsed), 1.2);
}
