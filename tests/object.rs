use pdf_objects::{
    Array, Boolean, Dictionary, GetObj, Integer, Name, Null, Object, Real, Stream, String,
};

fn real_value(r: &Real) -> f32 {
    let v: f32 = std::str::from_utf8(r.text()).unwrap().parse().unwrap();
    if r.is_negative() {
        -v
    } else {
        v
    }
}

#[test]
fn parse_boolean() {
    let (rem, obj) = Object::parse(b"true").unwrap();
    assert!(rem.is_empty());
    let obj: &Boolean = obj.get_obj().unwrap();
    assert!(obj.get())
}
#[test]
fn parse_name() {
    let (rem, obj) = Object::parse(b"/name").unwrap();
    assert!(rem.is_empty());
    let obj: &Name = obj.get_obj().unwrap();
    assert_eq!(obj.get(), b"name")
}
#[test]
fn parse_integer() {
    let (rem, obj) = Object::parse(b"5").unwrap();
    assert!(rem.is_empty());
    let obj: &Integer = obj.get_obj().unwrap();
    assert_eq!(obj.get(), 5)
}
#[test]
fn parse_real() {
    let (rem, obj) = Object::parse(b"5.").unwrap();
    assert!(rem.is_empty());
    let obj: &Real = obj.get_obj().unwrap();
    assert_eq!(real_value(obj), 5.0)
}
#[test]
fn parse_lit_string() {
    let (rem, obj) = Object::parse(b"(str)").unwrap();
    assert!(rem.is_empty());
    let obj: &String = obj.get_obj().unwrap();
    assert_eq!(obj.get(), b"str")
}
#[test]
fn parse_hex_string() {
    let (rem, obj) = Object::parse(b"<abc>").unwrap();
    assert!(rem.is_empty());
    let obj: &String = obj.get_obj().unwrap();
    assert_eq!(obj.get(), [0xab, 0xc0])
}
#[test]
fn parse_array() {
    let (rem, obj) = Object::parse(b"[ 3.14 -5 true (Ralph) /SomeName ]").unwrap();
    assert!(rem.is_empty());
    let obj: &Array = obj.get_obj().unwrap();
    assert_eq!(obj.get().len(), 5)
}
#[test]
fn parse_null() {
    let (rem, obj) = Object::parse(b"null").unwrap();
    assert!(rem.is_empty());
    let obj: &Null = obj.get_obj().unwrap();
    assert_eq!(*obj, Null)
}
#[test]
fn parse_dictionary() {
    let (rem, parsed) = Dictionary::parse(b"<</Name (Prinz)>>").unwrap();
    assert!(rem.is_empty());
    let v: &String = parsed.get(&Name::new(b"Name")).unwrap().get_obj().unwrap();
    assert_eq!(v.get(), b"Prinz");
}
#[test]
fn mod_stream_1() {
    let (rem, parsed) = Object::parse(b"<</Length 6>>stream\nstream\nendstream").unwrap();
    assert!(rem.is_empty());
    let stream: &Stream = parsed.get_obj().unwrap();
    let length: &Integer = stream
        .get_info()
        .get(&Name::new(b"Length"))
        .unwrap()
        .get_obj()
        .unwrap();
    assert_eq!(length.get(), 6);
    let data = stream.get_data();
    assert_eq!(data, b"stream");
}
