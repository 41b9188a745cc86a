use pdf_objects::{Dictionary, GetObj, Name, Real};

fn real_value(r: &Real) -> f32 {
    let v: f32 = std::str::from_utf8(r.text()).unwrap().parse().unwrap();
    if r.is_negative() {
        -v
    } else {
        v
    }
}

#[test]
fn parse_dictionary_1() {
    let (rem, parsed) = Dictionary::parse(b"<<>>").unwrap();
    assert!(rem.is_empty());
    assert!(parsed.is_empty());
}
#[test]
fn parse_dictionary_2() {
    let (rem, parsed) = Dictionary::parse(b"<</Version 0.1>>").unwrap();
    assert!(rem.is_empty());
    let v: &Real = parsed
        .get(&Name::new(b"Version"))
        .unwrap()
        .get_obj()
        .unwrap();
    assert_eq!(real_value(v), 0.1);
}
#[test]
fn parse_dictionary_3() {
    let (rem, parsed) = Dictionary::parse(b"<< /Version 0.1 >>").unwrap();
    assert!(rem.is_empty());
    let v: &Real = parsed
        .get(&Name::new(b"Version"))
        .unwrap()
        .get_obj()
        .unwrap();
    assert_eq!(real_value(v), 0.1);
}
#[test]
fn parse_dictionary_4() {
    let (rem, parsed) = Dictionary::parse(b"<</Type /Dic /Version 0.1>>").unwrap();
    assert!(rem.is_empty());
    let v: &Real = parsed
        .get(&Name::new(b"Version"))
        .unwrap()
        .get_obj()
        .unwrap();
    assert_eq!(real_value(v), 0.1);
    let t: &Name = parsed.get(&Name::new(b"Type")).unwrap().get_obj().unwrap();
    assert_eq!(t.get(), b"Dic");
}
#[test]
fn parse_dictionary_5() {
    let (rem, parsed) =
        Dictionary::parse(b"<</Type /Dic /Version 0.1/Sub << /Type /Sub >>>>").unwrap();
    assert!(rem.is_empty());
    let v: &Real = parsed
        .get(&Name::new(b"Version"))
        .unwrap()
        .get_obj()
        .unwrap();
    assert_eq!(real_value(v), 0.1);
    let t: &Name = parsed.get(&Name::new(b"Type")).unwrap().get_obj().unwrap();
    assert_eq!(t.get(), b"Dic");
    let sd: &Dictionary = parsed.get(&Name::new(b"Sub")).unwrap().get_obj().unwrap();
    let st: &Name = sd.get(&Name::new(b"Type")).unwrap().get_obj().unwrap();

    assert_eq!(st.get(), b"Sub");
}
#[test]
fn parse_dictionary_6() {
    let (rem, parsed) = Dictionary::parse(b"<</var null>>").unwrap();
    assert!(rem.is_empty());
    assert!(parsed.is_empty());
}
#[test]
fn parse_dictionary_7() {
    let (rem, parsed) = Dictionary::parse(b"<</Type /Dic /Version 0.1 /Sub null>>").unwrap();
    assert!(rem.is_empty());
    let v: &Real = parsed
        .get(&Name::new(b"Version"))
        .unwrap()
        .get_obj()
        .unwrap();
    assert_eq!(real_value(v), 0.1);
    let t: &Name = parsed.get(&Name::new(b"Type")).unwrap().get_obj().unwrap();
    assert_eq!(t.get(), b"Dic");
    let sub = parsed.get(&Name::new(b"Sub"));
    assert!(sub.is_none())
}
