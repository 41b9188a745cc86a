use pdf_objects::{Array, Boolean, GetObj, Name, Real};

fn real_value(r: &Real) -> f32 {
    let v: f32 = std::str::from_utf8(r.text()).unwrap().parse().unwrap();
    if r.is_negative() {
        -v
    } else {
        v
    }
}

#[test]
fn parse_array_1() {
    let (rem, parsed) = Array::parse(b"[]").unwrap();
    assert!(rem.is_empty());
    assert!(parsed.get().is_empty())
}
#[test]
fn parse_array_2() {
    let (rem, parsed) = Array::parse(b"[1.0]").unwrap();
    assert!(rem.is_empty());
    let e1: &Real = parsed.get()[0].get_obj().unwrap();
    assert_eq!(real_value(e1), 1.0)
}
#[test]
fn parse_array_3() {
    let (rem, parsed) = Array::parse(b"[/size 1.0]").unwrap();
    assert!(rem.is_empty());
    let e2: &Name = parsed.get()[0].get_obj().unwrap();
    assert_eq!(e2.get(), b"size");
    let e2: &Real = parsed.get()[1].get_obj().unwrap();
    assert_eq!(real_value(e2), 1.0)
}
#[test]
fn parse_array_4() {
    let (rem, parsed) = Array::parse(b"[ /size 1.0 ]").unwrap();
    assert!(rem.is_empty());
    let e2: &Name = parsed.get()[0].get_obj().unwrap();
    assert_eq!(e2.get(), b"size");
    let e2: &Real = parsed.get()[1].get_obj().unwrap();
    assert_eq!(real_value(e2), 1.0)
}
#[test]
fn parse_array_5() {
    let (rem, parsed) = Array::parse(b"[ /size 1.0 []]").unwrap();
    assert!(rem.is_empty());
    let e2: &Name = parsed.get()[0].get_obj().unwrap();
    assert_eq!(e2.get(), b"size");
    let e2: &Real = parsed.get()[1].get_obj().unwrap();
    assert_eq!(real_value(e2), 1.0);
    let e3: &Array = parsed.get()[2].get_obj().unwrap();
    assert!(e3.get().is_empty())
}
#[test]
fn parse_array_6() {
    let (rem, parsed) = Array::parse(b"[ /size 1.0 [true]]").unwrap();
    assert!(rem.is_empty());
    let e2: &Name = parsed.get()[0].get_obj().unwrap();
    assert_eq!(e2.get(), b"size");
    let e2: &Real = parsed.get()[1].get_obj().unwrap();
    assert_eq!(real_value(e2), 1.0);
    let e3: &Array = parsed.get()[2].get_obj().unwrap();
    let e3: &Boolean = e3.get()[0].get_obj().unwrap();
    assert!(e3.get());
}
