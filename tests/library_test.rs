use vial::head::{MAX_HEADER_BLOCK_LEN, MAX_HEADER_VALUE_LEN};
use vial::util::{content_type, decode_form_value, text_of};
use vial::{parse, Error, Request, Response, Status};

fn request(text: &str) -> Request {
    Request::from_bytes(text.as_bytes().to_vec()).unwrap()
}

fn form_encode(s: &str) -> String {
    let mut out = String::new();
    for b in s.bytes() {
        if b == b' ' {
            out.push('+');
        } else if b.is_ascii_alphanumeric() || b == b'-' || b == b'.' || b == b'_' || b == b'~' {
            out.push(b as char);
        } else {
            out.push_str(&format!("%{:02X}", b));
        }
    }
    out
}

#[test]
fn scenario_simple_get() {
    let r = request("GET / HTTP/1.1\r\nHost: www.codecademy.com\r\n\r\n");
    assert_eq!(r.path(), "/");
    assert_eq!(r.method(), "GET");
    assert_eq!(r.header("Host"), Some("www.codecademy.com"));
    assert!(r.body().is_empty());
}

#[test]
fn repeated_parses_agree() {
    let text = "POST /a%20b HTTP/1.1\r\nHost: x\r\nContent-Type: application/x-www-form-urlencoded\r\nContent-Length: 7\r\n\r\nk=v&w=z";
    let a = request(text);
    let b = request(text);
    assert_eq!(a.method(), b.method());
    assert_eq!(a.path(), b.path());
    assert_eq!(a.path(), "/a b");
    assert_eq!(a.header_names, b.header_names);
    assert_eq!(a.header_values, b.header_values);
    assert_eq!(a.body(), b.body());
    assert_eq!(a.form_keys, b.form_keys);
    assert_eq!(a.form_values, b.form_values);
}

#[test]
fn header_lookup_in_any_case() {
    for sent in ["host", "HOST", "Host"] {
        let r = request(&format!("GET / HTTP/1.1\r\n{}: example.org\r\n\r\n", sent));
        for asked in ["host", "HOST", "Host", "hOsT"] {
            assert_eq!(r.header(asked), Some("example.org"));
        }
    }
}

#[test]
fn first_of_repeated_headers_wins() {
    let r = request("GET / HTTP/1.1\r\nX-A: one\r\nx-a: two\r\n\r\n");
    assert_eq!(r.header("X-A"), Some("one"));
    assert_eq!(r.header("X-B"), None);
}

#[test]
fn folded_value_reads_as_unfolded() {
    let folded = request("GET / HTTP/1.1\r\nX-Long: first part\r\n   second part \r\n\r\n");
    let plain = request("GET / HTTP/1.1\r\nX-Long: first part second part\r\n\r\n");
    assert_eq!(folded.header("X-Long"), plain.header("X-Long"));
    assert_eq!(folded.header("X-Long"), Some("first part second part"));
}

#[test]
fn continuation_without_header_is_rejected() {
    let err = Request::from_bytes(b"GET / HTTP/1.1\r\n folded\r\n\r\n".to_vec());
    assert_eq!(err.unwrap_err(), Error::ParseHeaderName);
}

#[test]
fn lf_alone_ends_lines() {
    let r = request("GET /x HTTP/1.0\nHost: a\n\n");
    assert_eq!(r.path(), "/x");
    assert_eq!(r.header("host"), Some("a"));
}

#[test]
fn form_round_trip() {
    for s in ["hi there", "a+b=c&d", "<abc></abc>", "50% off", "ünïcödé ✓", ""] {
        assert_eq!(decode_form_value(&form_encode(s)), s);
    }
}

#[test]
fn carriage_returns_never_survive() {
    assert_eq!(decode_form_value("a%0Db\r"), "ab");
    assert!(!decode_form_value("%0D%0A+x").contains('\r'));
}

#[test]
fn decode_form_value_cases() {
    assert_eq!(decode_form_value("hi+there"), "hi there");
    assert_eq!(decode_form_value("%3Cabc%3E%3C%2Fabc%3E"), "<abc></abc>");
    assert_eq!(decode_form_value("%2B"), "+");
    assert_eq!(decode_form_value("100%"), "100%");
    assert_eq!(decode_form_value("%zz"), "%zz");
    assert_eq!(decode_form_value("%ff"), "\u{fffd}");
}

#[test]
fn text_of_replaces_invalid_bytes() {
    assert_eq!(text_of(&[104, 105]), "hi");
    assert_eq!(text_of(&[0xC3, 0xA9]), "é");
    assert_eq!(text_of(&[0x61, 0xFF, 0x62]), "a\u{fffd}b");
}

#[test]
fn form_fields() {
    let body = "a=1&&b&a=2&c=x%20y&e%3Dq=z+w&=";
    let r = request(&format!(
        "POST / HTTP/1.1\r\nContent-Type: application/x-www-form-urlencoded; charset=utf-8\r\nContent-Length: {}\r\n\r\n{}",
        body.len(),
        body
    ));
    assert_eq!(r.form("a"), Some("1"));
    assert_eq!(r.form("b"), Some(""));
    assert_eq!(r.form("c"), Some("x y"));
    assert_eq!(r.form("e=q"), Some("z w"));
    assert_eq!(r.form(""), Some(""));
    assert_eq!(r.form("d"), None);
}

#[test]
fn form_needs_urlencoded_type() {
    let r = request("POST / HTTP/1.1\r\nContent-Type: text/plain\r\nContent-Length: 3\r\n\r\na=1");
    assert_eq!(r.form("a"), None);
    let r = request("POST / HTTP/1.1\r\nContent-Length: 3\r\n\r\na=1");
    assert_eq!(r.form("a"), None);
}

#[test]
fn decoding_twice_agrees() {
    let r = request("POST / HTTP/1.1\r\nContent-Type: application/x-www-form-urlencoded\r\nContent-Length: 9\r\n\r\nname=Bob+");
    assert_eq!(r.form("name"), r.form("name"));
    assert_eq!(r.form("name"), Some("Bob "));
    let body = "--b\r\nContent-Disposition: form-data; name=\"f\"\r\n\r\nabc\r\n--b--";
    let r = request(&format!(
        "POST / HTTP/1.1\r\nContent-Type: multipart/form-data; boundary=b\r\nContent-Length: {}\r\n\r\n{}",
        body.len(),
        body
    ));
    let first = r.parse_multipart().unwrap();
    let second = r.parse_multipart().unwrap();
    assert_eq!(first.len(), second.len());
    for (a, b) in first.iter().zip(second.iter()) {
        assert_eq!(a.field_name, b.field_name);
        assert_eq!(a.file_name, b.file_name);
        assert_eq!(a.span, b.span);
    }
}

#[test]
fn scenario_long_single_header() {
    let value: String = std::iter::repeat("abcdefghij").take(85).collect();
    let r = request(&format!("GET / HTTP/1.1\r\nX-Big: {}\r\n\r\n", value));
    assert_eq!(r.header("X-Big"), Some(value.as_str()));
}

#[test]
fn single_value_over_bound_is_rejected() {
    let value = "v".repeat(MAX_HEADER_VALUE_LEN + 1);
    let err = Request::from_bytes(format!("GET / HTTP/1.1\r\nX: {}\r\n\r\n", value).into_bytes());
    assert_eq!(err.unwrap_err(), Error::ParseHeaderValue);
    let value = "v".repeat(MAX_HEADER_VALUE_LEN);
    let r = request(&format!("GET / HTTP/1.1\r\nX: {}\r\n\r\n", value));
    assert_eq!(r.header("x").unwrap().len(), MAX_HEADER_VALUE_LEN);
}

#[test]
fn header_block_over_bound_is_rejected() {
    let mut text = String::from("GET / HTTP/1.1\r\n");
    let mut used = 0;
    let mut i = 0;
    while used <= MAX_HEADER_BLOCK_LEN {
        let name = format!("X-{}", i);
        let value = "w".repeat(1000);
        used += name.len() + value.len();
        text.push_str(&format!("{}: {}\r\n", name, value));
        i += 1;
    }
    text.push_str("\r\n");
    assert_eq!(
        Request::from_bytes(text.into_bytes()).unwrap_err(),
        Error::ParseHeaderValue
    );
}

#[test]
fn endless_head_is_rejected() {
    let text = format!("GET / HTTP/1.1\r\nX: {}", "z".repeat(MAX_HEADER_BLOCK_LEN + 10));
    assert_eq!(parse(text.into_bytes()).unwrap_err(), Error::ParseHeaderValue);
}

#[test]
fn partial_head_and_body() {
    assert!(matches!(parse(b"GET / HTTP/1.1\r\nHost: a\r\n".to_vec()), Ok(Status::Partial)));
    assert!(matches!(parse(b"GET / HT".to_vec()), Ok(Status::Partial)));
    assert!(matches!(
        parse(b"POST / HTTP/1.1\r\nContent-Length: 5\r\n\r\nab".to_vec()),
        Ok(Status::Partial)
    ));
    assert_eq!(
        Request::from_bytes(b"GET / HTTP/1.1\r\nHost: a\r\n".to_vec()).unwrap_err(),
        Error::ConnectionClosed
    );
}

#[test]
fn scenario_body_cut_short() {
    let err = Request::from_bytes(b"POST / HTTP/1.1\r\nContent-Length: 500\r\n\r\n0123456789".to_vec());
    assert_eq!(err.unwrap_err(), Error::ConnectionClosed);
}

#[test]
fn body_is_exactly_content_length() {
    let r = request("POST / HTTP/1.1\r\nContent-Length: 3\r\n\r\nabcdef");
    assert_eq!(r.body(), b"abc");
}

#[test]
fn bad_content_length_is_rejected() {
    for v in ["abc", "", "-1", "99999999999999999999999999"] {
        let text = format!("POST / HTTP/1.1\r\nContent-Length: {}\r\n\r\n", v);
        assert_eq!(Request::from_bytes(text.into_bytes()).unwrap_err(), Error::ParseHeaderValue);
    }
}

#[test]
fn transfer_encoding_is_unsupported() {
    let text = "POST / HTTP/1.1\r\nTransfer-Encoding: chunked\r\n\r\n5\r\nhello\r\n0\r\n\r\n";
    assert_eq!(
        Request::from_bytes(text.as_bytes().to_vec()).unwrap_err(),
        Error::UnsupportedEncoding
    );
}

#[test]
fn malformed_request_lines() {
    for line in ["GET /\r\n\r\n", "get / HTTP/1.1\r\n\r\n", "GET  / HTTP/1.1\r\n\r\n", "GET / HTTP/1.1 x\r\n\r\n", " / HTTP/1.1\r\n\r\n"] {
        assert_eq!(
            Request::from_bytes(line.as_bytes().to_vec()).unwrap_err(),
            Error::ParseHeaderName
        );
    }
}

fn multipart_request(content_type: &str, body: &str) -> Request {
    request(&format!(
        "POST / HTTP/1.1\r\nContent-Type: {}\r\nContent-Length: {}\r\n\r\n{}",
        content_type,
        body.len(),
        body
    ))
}

#[test]
fn scenario_two_parts_in_order() {
    let body = "--XyZ\r\nContent-Disposition: form-data; name=\"a\"; filename=\"move.rs\"\r\n\r\nfn main() {}\r\n--XyZ\r\ncontent-disposition: form-data; name=b\r\nContent-Type: text/plain\r\n\r\nplain\r\n--XyZ--\r\n";
    let r = multipart_request("multipart/form-data; boundary=XyZ", body);
    let parts = r.parse_multipart().unwrap();
    assert_eq!(parts.len(), 2);
    assert_eq!(parts[0].field_name, "a");
    assert_eq!(parts[0].file_name, "move.rs");
    assert_eq!(r.body_part(&parts[0].span), b"fn main() {}");
    assert_eq!(parts[1].field_name, "b");
    assert_eq!(parts[1].file_name, "");
    assert_eq!(r.body_part(&parts[1].span), b"plain");
    let mut total = 0;
    for p in &parts {
        assert_eq!(r.body_part(&p.span).len(), p.span.end - p.span.start);
        total += p.span.end - p.span.start;
    }
    assert!(parts[0].span.end < parts[1].span.start);
    assert!(total <= r.body().len());
}

#[test]
fn multipart_failures_are_decode_errors() {
    let body = "--b\r\nContent-Disposition: form-data; name=\"f\"\r\n\r\nx\r\n--b--";
    let no_boundary = multipart_request("multipart/form-data", body);
    assert_eq!(no_boundary.parse_multipart().unwrap_err(), Error::Decode);
    let not_multipart = multipart_request("text/plain; boundary=b", body);
    assert_eq!(not_multipart.parse_multipart().unwrap_err(), Error::Decode);
    let bad_boundary = multipart_request("multipart/form-data; boundary=\"a b\"", body);
    assert_eq!(bad_boundary.parse_multipart().unwrap_err(), Error::Decode);
    let missing = multipart_request("multipart/form-data; boundary=zz", body);
    assert_eq!(missing.parse_multipart().unwrap_err(), Error::Decode);
    let unclosed = multipart_request(
        "multipart/form-data; boundary=b",
        "--b\r\nContent-Disposition: form-data; name=\"f\"\r\n\r\nx",
    );
    assert_eq!(unclosed.parse_multipart().unwrap_err(), Error::Decode);
    let no_disposition = multipart_request(
        "multipart/form-data; boundary=b",
        "--b\r\nContent-Type: text/plain\r\n\r\nx\r\n--b--",
    );
    assert_eq!(no_disposition.parse_multipart().unwrap_err(), Error::Decode);
    let not_form_data = multipart_request(
        "multipart/form-data; boundary=b",
        "--b\r\nContent-Disposition: attachment; name=\"f\"\r\n\r\nx\r\n--b--",
    );
    assert_eq!(not_form_data.parse_multipart().unwrap_err(), Error::Decode);
}

#[test]
fn quoted_boundary_is_unquoted() {
    let body = "--b1\r\nContent-Disposition: form-data; name=\"f\"\r\n\r\n\r\n--b1--";
    let r = multipart_request("multipart/form-data; charset=x; boundary=\"b1\"", body);
    assert_eq!(r.boundary().unwrap(), "b1");
    let parts = r.parse_multipart().unwrap();
    assert_eq!(parts.len(), 1);
    assert_eq!(r.body_part(&parts[0].span).len(), 0);
}

#[test]
fn content_types_by_extension() {
    assert_eq!(content_type("a.gif"), "image/gif");
    assert_eq!(content_type("a.jpg"), "image/jpeg");
    assert_eq!(content_type("a.b.jpeg"), "image/jpeg");
    assert_eq!(content_type("x.png"), "image/png");
    assert_eq!(content_type("doc.pdf"), "application/pdf");
    assert_eq!(content_type("site.css"), "text/css; charset=utf8");
    assert_eq!(content_type("index.htm"), "text/html; charset=utf8");
    assert_eq!(content_type("index.html"), "text/html; charset=utf8");
    assert_eq!(content_type("notes.txt"), "text/plain; charset=utf8");
    assert_eq!(content_type("gif"), "image/gif");
    assert_eq!(content_type("archive.tar.gz"), "text/plain; charset=utf8");
    assert_eq!(content_type(""), "text/plain; charset=utf8");
}

#[test]
fn responses() {
    let r = Response::new();
    assert_eq!(r.code, 200);
    assert_eq!(r.body, "");
    assert_eq!(r.content_type, "text/html; charset=utf8");
    let r = Response::from("hello").with_code(404);
    assert_eq!(r.code, 404);
    assert_eq!(r.text(), "hello");
    let r = Response::new().with_body("<p>x</p>");
    assert_eq!(r.body, "<p>x</p>");
    let r = Response::from_file("style.css", Ok("body {}".to_string()));
    assert_eq!(r.code, 200);
    assert_eq!(r.body, "body {}");
    assert_eq!(r.content_type, "text/css; charset=utf8");
    let r = Response::from_file("missing.css", Err("NotFound".to_string()));
    assert_eq!(r.code, 500);
    assert_eq!(r.body, "<h1>500 Internal Error</h1><pre>NotFound");
    assert_eq!(r.content_type, "text/html; charset=utf8");
}
