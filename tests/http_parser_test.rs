#![allow(non_snake_case)]

use vial::{parse, Error, Request, Status};

fn parse_fixture(text: &str) -> Request {
    match parse(text.as_bytes().to_vec()).unwrap() {
        Status::Complete(request) => request,
        _ => panic!("Expected Status::Complete"),
    }
}

fn from_text(text: &str) -> Result<Request, Error> {
    Request::from_bytes(text.as_bytes().to_vec())
}

const BIG_VALUE: &str = "gWbWykBHgObDHriErqIKRBqebBekBpHsqUJqQcDtDctkaeeFBwNelgvzigaEkUPKAfcnYGhgbzDOvGumdewDzCqOantKfsvaZuggZaTjqtUzOXHVYwsSjknsMTPyWzvzGrNdRExaSIjiehYvuSAMdOMpwakKlKxCPwYAyAlpqXpoiargAZnAVIRfUJVpBnotmQRsDtAZoFfSXyRvqGQluzWWVTOCItNSCqBPUfFQGoxoSewvuSStgDtCYfCnFCFNczEwGkLiPidmrpbQDPuIvopUbxvojuUrBfgjoTwslrnDIJGAWIMoMkOQzYdzxVaCDfSQlmHwkpdkxByhuWXmuLgAzgJvIuhAMMlXaHIMcGmymGCxsgUjUkzKwrzafCsfkSivOXIzNSmTGhdgBufQTqdlRbuDBZijZCOXmpwhKFzlaSleXzgMaEpDiEjxzPUwIOwhomPDVSzaTqEZCpivNWyfunffMNUaLdkxLudYEpSgwTOGUipJjvXbocrKbfFG";

fn post(path: &str, headers: &str, body: &str) -> String {
    format!(
        "POST {} HTTP/1.1\r\n{}Content-Length: {}\r\n\r\n{}",
        path,
        headers,
        body.len(),
        body
    )
}

fn multipart_fixture(boundary: &str, files: &[(&str, &str, usize)]) -> String {
    let mut body = String::new();
    for (field, file, len) in files {
        body.push_str(&format!(
            "--{}\r\nContent-Disposition: form-data; name=\"{}\"; filename=\"{}\"\r\nContent-Type: application/octet-stream\r\n\r\n{}\r\n",
            boundary,
            field,
            file,
            "r".repeat(*len)
        ));
    }
    body.push_str(&format!("--{}--\r\n", boundary));
    post(
        "/upload",
        &format!(
            "Host: localhost:7667\r\nContent-Type: multipart/form-data; boundary={}\r\n",
            boundary
        ),
        &body,
    )
}

#[test]
fn parses_simple_GET() {
    let request = parse_fixture("GET / HTTP/1.1\r\nHost: www.codecademy.com\r\n\r\n");
    assert_eq!("/", request.path());
    assert_eq!("GET", request.method());
    assert_eq!("www.codecademy.com", request.header("Host").unwrap());
}

#[test]
fn parses_another_GET() {
    let request = parse_fixture(
        "GET /docs/index.html HTTP/1.1\r\nHost: www.nowhere123.com\r\nAccept: image/gif, image/jpeg, */*\r\nAccept-Language: en-us\r\nAccept-Encoding: gzip, deflate\r\nUser-Agent: Mozilla/4.0 (compatible; MSIE 6.0; Windows NT 5.1)\r\n\r\n",
    );
    assert_eq!("/docs/index.html", request.path());
    assert_eq!("GET", request.method());
    assert_eq!("www.nowhere123.com", request.header("Host").unwrap());
    assert_eq!("en-us", request.header("Accept-Language").unwrap());
    assert_eq!(
        "Mozilla/4.0 (compatible; MSIE 6.0; Windows NT 5.1)",
        request.header("User-Agent").unwrap()
    );
    assert_eq!(
        "image/gif, image/jpeg, */*",
        request.header("Accept").unwrap()
    );
}

#[test]
fn parses_big_GET() {
    let text = format!(
        "GET /big HTTP/1.1\r\nHost: localhost\r\nX-SOME-HEADER: {}\r\nX-SOMEOTHER-HEADER: {}\r\nX-ONEMORE-HEADER: {}\r\n\r\n",
        &BIG_VALUE[..400],
        &BIG_VALUE[50..450],
        BIG_VALUE
    );
    let request = parse_fixture(&text);
    assert_eq!("/big", request.path());
    assert_eq!("GET", request.method());
    assert!(request.header("X-SOME-HEADER").is_some());
    assert!(request.header("X-SOMEOTHER-HEADER").is_some());
    assert_eq!(request.header("X-ONEMORE-HEADER").unwrap(), BIG_VALUE);
}

#[test]
fn parses_stacked_headers_GET() {
    let request = parse_fixture(
        "GET /index.html HTTP/1.1\r\nHost: www.nowhere123.com\r\nAccept: image/gif,\r\n  image/jpeg,\r\n\t*/*\r\nAccept-Language: en-us\r\n\r\n",
    );
    assert_eq!("/index.html", request.path());
    assert_eq!("GET", request.method());
    assert_eq!("www.nowhere123.com", request.header("Host").unwrap());
    assert_eq!(
        "image/gif, image/jpeg, */*",
        request.header("Accept").unwrap()
    );
}

#[test]
fn parses_simple_POST() {
    let text = post(
        "/cgi-bin/process.cgi",
        "User-Agent: Mozilla/4.0 (compatible; MSIE5.01; Windows NT)\r\nHost: www.tutorialspoint.com\r\nContent-Type: application/x-www-form-urlencoded\r\n",
        "content=hi+there&licenseID=1234&paramsXML=%3Cabc%3E%3C%2Fabc%3E",
    );
    let request = from_text(&text).unwrap();
    assert_eq!("/cgi-bin/process.cgi", request.path());
    assert_eq!("POST", request.method());
    assert_eq!(Some("hi there"), request.form("content"));
    assert_eq!(Some("1234"), request.form("licenseID"));
    assert_eq!(Some("<abc></abc>"), request.form("paramsXML"));
    assert_eq!(None, request.form("something"));

    let text = post(
        "/",
        "Host: localhost:7667\r\nConnection: keep-alive\r\nUser-Agent: Mozilla/5.0 (Macintosh; Intel Mac OS X 10_15_4) AppleWebKit/537.36 (KHTML, like Gecko) Chrome/83.0.4103.97 Safari/537.36\r\nContent-Type: application/x-www-form-urlencoded\r\n",
        "name=Bobert&age=50-99",
    );
    let request = from_text(&text).unwrap();
    assert_eq!("/", request.path());
    assert_eq!("POST", request.method());
    assert_eq!("keep-alive", request.header("Connection").unwrap());
    assert_eq!("Mozilla/5.0 (Macintosh; Intel Mac OS X 10_15_4) AppleWebKit/537.36 (KHTML, like Gecko) Chrome/83.0.4103.97 Safari/537.36", request.header("User-Agent").unwrap());
    assert_eq!(Some("Bobert"), request.form("name"));
    assert_eq!(Some("50-99"), request.form("age"));
}

#[test]
fn parses_multipart_POST() {
    let boundary = "---------------------------60699960924810079512517829907";
    let text = multipart_fixture(boundary, &[("file", "borrow.rs", 208)]);
    let request = from_text(&text).unwrap();
    assert_eq!(boundary, request.boundary().unwrap());
    let parts = request.parse_multipart().unwrap();
    let mut count = 0;
    for p in parts {
        count += 1;
        assert_eq!(request.body_part(&p.span).len(), 208);
    }
    assert_eq!(count, 1);
}

#[test]
fn parses_multipart2_POST() {
    let boundary = "---------------------------63696236615513812933444437561";
    let text = multipart_fixture(boundary, &[("file", "move.rs", 523), ("file2", "borrow.rs", 208)]);
    let request = from_text(&text).unwrap();
    assert_eq!(boundary, request.boundary().unwrap());
    let parts = request.parse_multipart().unwrap();
    let mut count = 0;
    for p in parts {
        count += 1;
        if count == 1 {
            assert_eq!(p.file_name, "move.rs");
            assert_eq!(request.body_part(&p.span).len(), 523);
        } else {
            assert_eq!(p.file_name, "borrow.rs");
            assert_eq!(request.body_part(&p.span).len(), 208);
        }
    }
    assert_eq!(count, 2);
}

#[test]
fn rejects_malformed_headers() {
    let err = from_text("GET / HTTP/1.1\r\nHost: localhost\r\nBad Header: yes\r\n\r\n");
    assert_eq!(err.unwrap_err(), Error::ParseHeaderName);

    let err = from_text("GET /index.html HTTP/1.1\r\nHost localhost\r\n\r\n");
    assert_eq!(err.unwrap_err(), Error::ParseHeaderName);

    let err = from_text("POST / HTTP/1.1\r\nContent(Type): text/plain\r\nContent-Length: 2\r\n\r\nhi");
    assert_eq!(err.unwrap_err(), Error::ParseHeaderName);
}

#[test]
fn rejects_large_headers() {
    let mut text = String::from("GET / HTTP/1.1\r\n");
    for i in 0..40 {
        text.push_str(&format!("X-Filler-{}: {}\r\n", i, &BIG_VALUE[..300]));
    }
    text.push_str("\r\n");
    let err = from_text(&text);
    assert_eq!(err.unwrap_err(), Error::ParseHeaderValue);
}

#[test]
fn rejects_expected_but_no_body() {
    let err = from_text("POST /upload HTTP/1.1\r\nHost: localhost\r\nContent-Length: 500\r\n\r\n0123456789");
    assert_eq!(err.unwrap_err(), Error::ConnectionClosed);
}

#[test]
fn fuzzed1() {
    let text = post(
        "/Ogk/process.cgi",
        "User-Agent: M\u{7f}zilla/4.0 (co;;;;;;;;atible; MSIE5.01; Windows NT)\r\nHost: www.tutorialspoint.com\r\nContent-Type: application/x-www-form-urlencoded\r\nAccept-Language: en-us\r\nAccept-Encoding: gzip, deflate\r\n",
        "licenseID=string&content=string&/paramsXML=string%%%3",
    );
    let request = from_text(&text).unwrap();
    assert_eq!("/Ogk/process.cgi", request.path());
    assert_eq!("POST", request.method());
}
