use pdf_objects::{
    fix_hex_str, Array, Boolean, Dictionary, ErrorKind, GetObj, Integer, Name, Object, Real,
    Stream, String,
};

#[test]
fn integer_written_and_parsed_again() {
    for text in [&b"+17"[..], b"-98", b"0", b"007", b"2147483647", b"-2147483647"] {
        let (_, first) = Integer::parse(text).unwrap();
        let written = format!("{}", first.get());
        let (rem, again) = Integer::parse(written.as_bytes()).unwrap();
        assert!(rem.is_empty());
        assert_eq!(again, first);
    }
}

#[test]
fn name_written_and_parsed_again() {
    let (_, first) = Name::parse(b"/A;b*c?%rest").unwrap();
    let mut written = b"/".to_vec();
    written.extend_from_slice(first.get());
    let (rem, again) = Name::parse(&written).unwrap();
    assert!(rem.is_empty());
    assert_eq!(again.get(), first.get());
}

#[test]
fn boolean_and_real_written_and_parsed_again() {
    let (_, b) = Boolean::parse(b"false").unwrap();
    let written = if b.get() { "true" } else { "false" };
    let (rem, again) = Boolean::parse(written.as_bytes()).unwrap();
    assert!(rem.is_empty());
    assert_eq!(again, b);
    let (_, r) = Real::parse(b"-12.50x").unwrap();
    let mut written = if r.is_negative() { b"-".to_vec() } else { Vec::new() };
    written.extend_from_slice(r.text());
    assert_eq!(written, b"-12.50");
    let (rem, again) = Real::parse(&written).unwrap();
    assert!(rem.is_empty());
    assert_eq!(again, r);
}

#[test]
fn null_entry_is_no_entry() {
    let (rem, with_null) = Dictionary::parse(b"<</K null>>").unwrap();
    assert!(rem.is_empty());
    let (_, empty) = Dictionary::parse(b"<<>>").unwrap();
    assert!(with_null.is_empty());
    assert_eq!(with_null, empty);
    assert!(with_null.get(&Name::new(b"K")).is_none());
}

#[test]
fn later_pair_overrides_earlier() {
    let (_, d) = Dictionary::parse(b"<</A 1 /A 2 /B 3 /B null>>").unwrap();
    let a: &Integer = d.get(&Name::new(b"A")).unwrap().get_obj().unwrap();
    assert_eq!(a.get(), 2);
    let b: &Integer = d.get(&Name::new(b"B")).unwrap().get_obj().unwrap();
    assert_eq!(b.get(), 3);
    assert!(d.get(&Name::new(b"C")).is_none());
}

#[test]
fn odd_hex_digits_are_padded() {
    let (_, s) = String::parse(b"<7>").unwrap();
    assert_eq!(s.get(), [0x70]);
    let (_, s) = String::parse(b"<AbZ\n1>").unwrap();
    assert_eq!(s.get(), [0xab, 0x10]);
    assert_eq!(fix_hex_str(b"9 0 1 f a"), b"901fa0".to_vec());
    assert_eq!(fix_hex_str(b"xyz"), b"".to_vec());
}

#[test]
fn unbalanced_literal_string_fails() {
    let err = String::parse(b"(()").unwrap_err();
    assert_eq!(err.kind, ErrorKind::Unbalanced);
    let (rem, s) = String::parse(b"(a\\(b)c").unwrap();
    assert_eq!(rem, b"c");
    assert_eq!(s.get(), b"a(b");
}

#[test]
fn escapes_decode_forward() {
    let (_, s) = String::parse(b"(\\\\)").unwrap();
    assert_eq!(s.get(), b"\\");
    let (_, s) = String::parse(b"(\\\\n)").unwrap();
    assert_eq!(s.get(), b"\\n");
    let (_, s) = String::parse(b"(\\n\\r\\t\\b\\f)").unwrap();
    assert_eq!(s.get(), [0x0a, 0x0d, 0x09, 0x08, 0x0c]);
    let (_, s) = String::parse(b"(\\q)").unwrap();
    assert_eq!(s.get(), b"\\q");
    let (_, s) = String::parse(b"(\\18)").unwrap();
    assert_eq!(s.get(), [0o1, b'8']);
    let (_, s) = String::parse(b"(\\3771)").unwrap();
    assert_eq!(s.get(), [0xff, b'1']);
    let (_, s) = String::parse(b"(a\\\r\n\r\nb)").unwrap();
    assert_eq!(s.get(), b"ab");
}

#[test]
fn octal_escape_beyond_a_byte_fails() {
    let err = String::parse(b"(\\400)").unwrap_err();
    assert_eq!(err.kind, ErrorKind::Overflow);
}

#[test]
fn integer_overflow_fails() {
    assert_eq!(Integer::parse(b"-2147483648").unwrap_err().kind, ErrorKind::Overflow);
    assert_eq!(Integer::parse(b"2147483648").unwrap_err().kind, ErrorKind::Overflow);
    assert_eq!(Integer::parse(b"99999999999999999999").unwrap_err().kind, ErrorKind::Overflow);
    assert_eq!(Integer::parse(b"-2147483647").unwrap().1.get(), -2147483647);
    assert_eq!(Integer::parse(b"00000000002147483647").unwrap().1.get(), 2147483647);
}

#[test]
fn integer_error_kinds() {
    assert_eq!(Integer::parse(b"12.5").unwrap_err().kind, ErrorKind::Expected);
    assert_eq!(Integer::parse(b"+").unwrap_err().kind, ErrorKind::Empty);
    assert_eq!(Integer::parse(b"").unwrap_err().kind, ErrorKind::Empty);
}

#[test]
fn name_error_kinds() {
    assert_eq!(Name::parse(b"/ x").unwrap_err().kind, ErrorKind::Empty);
    assert_eq!(Name::parse(b"x").unwrap_err().kind, ErrorKind::Expected);
}

#[test]
fn stream_with_exact_length() {
    let (rem, parsed) = Stream::parse(b"<</Length 6>>stream\nstream\nendstream").unwrap();
    assert!(rem.is_empty());
    assert_eq!(parsed.get_data(), b"stream");
    let (rem, parsed) = Stream::parse(b"<</Length 0>> stream \r\nendstream tail").unwrap();
    assert_eq!(rem, b" tail");
    assert_eq!(parsed.get_data(), b"");
}

#[test]
fn stream_with_short_length_fails() {
    let err = Stream::parse(b"<</Length 5>>stream\nstream\nendstream").unwrap_err();
    assert_eq!(err.kind, ErrorKind::StreamEnd);
}

#[test]
fn stream_without_endstream_fails() {
    let err = Stream::parse(b"<</Length 6>>stream\nstream\n").unwrap_err();
    assert_eq!(err.kind, ErrorKind::StreamEnd);
}

#[test]
fn stream_length_errors() {
    let long = Stream::parse(b"<</Length 60>>stream\nstream\nendstream").unwrap_err();
    assert_eq!(long.kind, ErrorKind::StreamLength);
    let negative = Stream::parse(b"<</Length -1>>stream\nendstream").unwrap_err();
    assert_eq!(negative.kind, ErrorKind::StreamLength);
    let missing = Stream::parse(b"<</Size 1>>stream\nxendstream").unwrap_err();
    assert_eq!(missing.kind, ErrorKind::StreamLength);
    let real = Stream::parse(b"<</Length 1.0>>stream\nxendstream").unwrap_err();
    assert_eq!(real.kind, ErrorKind::StreamLength);
    let no_space = Stream::parse(b"<</Length 1>>streamxendstream").unwrap_err();
    assert_eq!(no_space.kind, ErrorKind::Empty);
    let no_keyword = Stream::parse(b"<</Length 1>>").unwrap_err();
    assert_eq!(no_keyword.kind, ErrorKind::Expected);
}

#[test]
fn failed_stream_falls_back_to_dictionary() {
    let (rem, obj) = Object::parse(b"<</Length 5>>stream\nstream\nendstream").unwrap();
    let d: &Dictionary = obj.get_obj().unwrap();
    let n: &Integer = d.get(&Name::new(b"Length")).unwrap().get_obj().unwrap();
    assert_eq!(n.get(), 5);
    assert_eq!(rem, b"stream\nstream\nendstream");
}

#[test]
fn dictionary_before_hex_string() {
    let (rem, obj) = Object::parse(b"<</A 1>>").unwrap();
    assert!(rem.is_empty());
    let d: &Dictionary = obj.get_obj().unwrap();
    let a: &Integer = d.get(&Name::new(b"A")).unwrap().get_obj().unwrap();
    assert_eq!(a.get(), 1);
    let (rem, obj) = Object::parse(b"<ab>").unwrap();
    assert!(rem.is_empty());
    let s: &String = obj.get_obj().unwrap();
    assert_eq!(s.get(), [0xab]);
}

#[test]
fn nested_array() {
    let (rem, obj) = Object::parse(b"[ /k 1.0 [true] ]").unwrap();
    assert!(rem.is_empty());
    let a: &Array = obj.get_obj().unwrap();
    assert_eq!(a.get().len(), 3);
    let k: &Name = a.get()[0].get_obj().unwrap();
    assert_eq!(k.get(), b"k");
    let r: &Real = a.get()[1].get_obj().unwrap();
    assert_eq!(r.text(), b"1.0");
    let inner: &Array = a.get()[2].get_obj().unwrap();
    assert_eq!(inner.get().len(), 1);
    let b: &Boolean = inner.get()[0].get_obj().unwrap();
    assert!(b.get());
}

#[test]
fn array_with_tabs_and_newlines() {
    let (rem, a) = Array::parse(b"[1\t2\n(x)\r<01>]rest").unwrap();
    assert_eq!(rem, b"rest");
    assert_eq!(a.get().len(), 4);
    let i: Option<&Integer> = a.get()[1].get_obj();
    assert_eq!(i.unwrap().get(), 2);
    let not_real: Option<&Real> = a.get()[1].get_obj();
    assert!(not_real.is_none());
    assert_eq!(Array::parse(b"[1 2").unwrap_err().kind, ErrorKind::Expected);
}

#[test]
fn nothing_matches() {
    assert_eq!(Object::parse(b"}").unwrap_err().kind, ErrorKind::NoMatch);
    assert_eq!(Object::parse(b"").unwrap_err().kind, ErrorKind::NoMatch);
    assert_eq!(Object::parse(b" 1").unwrap_err().kind, ErrorKind::NoMatch);
}

#[test]
fn dispatcher_order_of_numbers() {
    let (rem, obj) = Object::parse(b"12.5 ").unwrap();
    assert_eq!(rem, b" ");
    let r: &Real = obj.get_obj().unwrap();
    assert_eq!(r.text(), b"12.5");
    let (_, obj) = Object::parse(b"-7]").unwrap();
    let i: &Integer = obj.get_obj().unwrap();
    assert_eq!(i.get(), -7);
}

#[test]
fn dictionaries_equal_whatever_the_order() {
    let (_, a) = Dictionary::parse(b"<</A 1 /B 2>>").unwrap();
    let (_, b) = Dictionary::parse(b"<</B 2 /A 1>>").unwrap();
    assert_eq!(a, b);
    let (_, c) = Dictionary::parse(b"<</B 2 /A 1 /A 3 /A 1>>").unwrap();
    assert_eq!(a, c);
    let (_, d) = Dictionary::parse(b"<</A 1 /B 2 /C 3>>").unwrap();
    assert_ne!(a, d);
    let (_, e) = Dictionary::parse(b"<</A 1 /B (2)>>").unwrap();
    assert_ne!(a, e);
}

#[test]
fn objects_compare_by_meaning() {
    let (_, x) = Object::parse(b"[1 <</K [true]>> (s)]").unwrap();
    let (_, y) = Object::parse(b"[ 1 << /K [ true ] >> <73> ]").unwrap();
    assert_eq!(x, y);
    let (_, z) = Object::parse(b"[1 <</K [false]>> (s)]").unwrap();
    assert_ne!(x, z);
    let (_, s1) = Object::parse(b"<</Length 1>>stream\nxendstream").unwrap();
    let (_, s2) = Object::parse(b"<< /Length 1 >> stream\r\nx endstream").unwrap();
    assert_eq!(s1, s2);
}

#[test]
fn clones_are_equal() {
    let (_, x) = Object::parse(b"[/k 1.0 <</A (a) /B [null]>> <</Length 0>>stream\nendstream]").unwrap();
    let y = x.clone();
    assert_eq!(x, y);
    let a: &Array = y.get_obj().unwrap();
    assert_eq!(a.get().len(), 4);
    let d: &Dictionary = a.get()[2].get_obj().unwrap();
    let copy = d.clone();
    assert_eq!(&copy, d);
}
