use rserv::http::{
    counting_body, decimal_digits, Base, Code, Method, Request, Response, Stream, StringStream,
};

fn head_of(response: Response) -> String {
    let mut out = StringStream::new();
    assert_eq!(response.write_header(&mut out), Ok(()));
    String::from_utf8(out.bytes).unwrap()
}

#[test]
fn generate() {
    let mut response = Response { ..Response::default() };

    response.code = Some(Code::OK);
    response.base.version = Some(String::from("1.1"));

    response
        .base
        .insert_header(String::from("test"), String::from("header"));

    let text = head_of(response);
    println!("{}", text);
    assert_eq!(text, "HTTP/1.1 200 OK\r\ntest: header\r\n\r\n");
}

#[test]
fn head_without_headers() {
    let mut response = Response::default();
    response.code = Some(Code::OK);
    response.base.version = Some(String::from("1.1"));
    assert_eq!(head_of(response), "HTTP/1.1 200 OK\r\n\r\n");
}

#[test]
fn head_not_found_keeps_header_order() {
    let mut response = Response::default();
    response.code = Some(Code::NotFound);
    response.base.version = Some(String::from("1.0"));
    response.base.insert_header(String::from("b"), String::from("2"));
    response.base.insert_header(String::from("a"), String::from("1"));
    assert_eq!(head_of(response), "HTTP/1.0 404 Not Found\r\nb: 2\r\na: 1\r\n\r\n");
}

#[test]
fn insert_header_replaces_equal_key() {
    let mut base = Base::default();
    assert_eq!(base.insert_header(String::from("k"), String::from("v1")), None);
    assert_eq!(base.insert_header(String::from("x"), String::from("y")), None);
    assert_eq!(
        base.insert_header(String::from("k"), String::from("v2")),
        Some(String::from("v1"))
    );
    assert_eq!(base.headers.len(), 2);
    assert_eq!(base.headers[0], (String::from("k"), String::from("v2")));
    assert_eq!(base.headers[1], (String::from("x"), String::from("y")));
}

#[test]
fn code_values_and_phrases() {
    assert_eq!(Code::OK.value(), 200);
    assert_eq!(Code::OK.reason_phrase(), "OK");
    assert_eq!(Code::NotFound.value(), 404);
    assert_eq!(Code::NotFound.reason_phrase(), "Not Found");
}

#[test]
fn method_values() {
    assert_eq!(Method::Get.value(), "Get");
    assert_eq!(Method::Post.value(), "Post");
    let request = Request { base: Base::default(), method: Some(Method::Post), path: String::from("/") };
    assert_eq!(request.method.unwrap().value(), "Post");
}

#[test]
fn decimal_digits_edges() {
    assert_eq!(decimal_digits(0), b"0".to_vec());
    assert_eq!(decimal_digits(9), b"9".to_vec());
    assert_eq!(decimal_digits(10), b"10".to_vec());
    assert_eq!(decimal_digits(404), b"404".to_vec());
    assert_eq!(decimal_digits(u32::MAX), b"4294967295".to_vec());
}

#[test]
fn counting_body_text() {
    assert_eq!(counting_body(0), Vec::<u8>::new());
    assert_eq!(counting_body(3), b" 0  1  2 ".to_vec());
    let fifty = String::from_utf8(counting_body(50)).unwrap();
    assert!(fifty.starts_with(" 0  1 "));
    assert!(fifty.ends_with(" 48  49 "));
}

#[test]
fn stream_line_helpers() {
    let mut out = StringStream::new();
    assert_eq!(out.write(b"ab"), Ok(()));
    assert_eq!(out.write_str("c"), Ok(()));
    assert_eq!(out.writeln("d"), Ok(()));
    assert_eq!(out.new_line(), Ok(()));
    assert_eq!(out.bytes, b"abcd\r\n\r\n".to_vec());
}
