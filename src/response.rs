//! A response: status code, body and content type.
use crate::util::content_type;
use vstd::prelude::*;
use vstd::string::StringSliceAdditionalSpecFns;

verus! {

broadcast use vstd::string::to_string_from_display_ensures_for_str;

/// What a handler answers: a status code, a body and its content type.
#[derive(Debug, Clone)]
pub struct Response {
    pub code: usize,
    pub body: String,
    pub content_type: String,
}

/// The content type of a response that sets none.
pub open spec fn default_content_type() -> Seq<char> {
    "text/html; charset=utf8"@
}

/// The start of the body of a response to a file that could not be read.
pub open spec fn read_error_prefix() -> Seq<char> {
    "<h1>500 Internal Error</h1><pre>"@
}

/// Relies on `String`'s `Add<&str>`: the result is `a` followed by `b`.
#[verifier::external_body]
fn joined(a: String, b: &str) -> (r: String)
    ensures
        r@ == a@ + b@,
{
    a + b
}

impl Default for Response {
    fn default() -> (r: Response)
        ensures
            r.code == 200,
            r.body@ == Seq::<char>::empty(),
            r.content_type@ == default_content_type(),
    {
        Response { code: 200, body: String::new(), content_type: "text/html; charset=utf8".to_string() }
    }
}

impl Response {
    /// A `200` response with an empty HTML body.
    pub fn new() -> (r: Response)
        ensures
            r.code == 200,
            r.body@ == Seq::<char>::empty(),
            r.content_type@ == default_content_type(),
    {
        Response::default()
    }

    /// A `200` HTML response whose body is `from`.
    pub fn from(from: &str) -> (r: Response)
        ensures
            r.code == 200,
            r.body@ == from@,
            r.content_type@ == default_content_type(),
    {
        Response::new().with_body(from)
    }

    /// The response to a file at `path` whose reading gave `read`: its text
    /// with the content type of its extension, or a `500` that shows the error.
    pub fn from_file(path: &str, read: Result<String, String>) -> (r: Response)
        ensures
            match read {
                Ok(text) => r.code == 200 && r.body@ == text@ && r.content_type@ == content_type_view(path),
                Err(e) => r.code == 500 && r.body@ == read_error_prefix() + e@ && r.content_type@
                    == default_content_type(),
            },
    {
        Response::new().with_file_contents(path, read)
    }

    /// This response with status `code`.
    pub fn with_code(self, code: usize) -> (r: Response)
        ensures
            r.code == code,
            r.body == self.body,
            r.content_type == self.content_type,
    {
        Response { code, ..self }
    }

    /// This response with body `body`.
    pub fn with_body(self, body: &str) -> (r: Response)
        ensures
            r.code == self.code,
            r.body@ == body@,
            r.content_type == self.content_type,
    {
        Response { body: body.to_string(), ..self }
    }

    /// This response serving a file at `path` whose reading gave `read`.
    pub fn with_file_contents(self, path: &str, read: Result<String, String>) -> (r: Response)
        ensures
            match read {
                Ok(text) => r.code == self.code && r.body@ == text@ && r.content_type@ == content_type_view(path),
                Err(e) => r.code == 500 && r.body@ == read_error_prefix() + e@ && r.content_type
                    == self.content_type,
            },
    {
        match read {
            Ok(text) => Response { code: self.code, body: text, content_type: content_type(path).to_string() },
            Err(e) => {
                let start = "<h1>500 Internal Error</h1><pre>".to_string();
                Response { code: 500, body: joined(start, e.as_str()), content_type: self.content_type }
            },
        }
    }

    /// The text a response shows: its body.
    pub fn text(&self) -> (r: &str)
        ensures
            r@ == self.body@,
    {
        self.body.as_str()
    }
}

/// The content type chosen for a file at `path`, as text.
pub open spec fn content_type_view(path: &str) -> Seq<char> {
    crate::util::content_type_of(
        path.spec_bytes().subrange(crate::util::extension_start(path.spec_bytes()), path.spec_bytes().len() as int),
    )@
}

} // verus!
