//! A minimal HTTP/1.x server's request parser and response writer.
//!
//! A request is read line by line: the request line (method, path and
//! version separated by single spaces), then header lines of the form
//! `Name: value`, up to the first empty line.
use vstd::prelude::*;
use vstd::string::*;
use crate::headers::{Headers, pairs_map};
use crate::text::{decimal, decimal_string, split, split_first, text_eq};
use vstd::slice::slice_to_vec;
use vstd::utf8::encode_utf8;

verus! {

/// The request methods the server accepts.
#[allow(non_camel_case_types, clippy::upper_case_acronyms)]
#[derive(Debug, Clone, Copy, PartialEq, Eq, Structural)]
pub enum HttpMethod {
    GET,
    HEAD,
}

/// The protocol versions the server recognises.
#[allow(non_camel_case_types)]
#[derive(Debug, Clone, Copy, PartialEq, Eq, Structural)]
pub enum HttpVersion {
    V1_1,
    V2,
    V3,
}

/// Why a request was refused.
#[derive(Debug, Clone, Copy, PartialEq, Eq, Structural)]
pub enum HttpError {
    /// The request line names no known method.
    InvalidMethod,
    /// The request line names no known version.
    InvalidVersion,
    /// A header line holds no `": "` separator.
    HeaderValueNotFound,
    /// The request ended before its request line and a header were read.
    InvalidRequest,
}

impl HttpError {
    /// The text the server reports for this error.
    pub fn message(&self) -> (m: &'static str)
        ensures
            m@ == self.spec_message(),
    {
        match self {
            HttpError::InvalidMethod => "Invalid HTTP Method",
            HttpError::InvalidVersion => "Invalid HTTP Version",
            HttpError::HeaderValueNotFound => "Header value not found.",
            HttpError::InvalidRequest => "Invalid HTTP Request.",
        }
    }

    /// The text of each error.
    pub open spec fn spec_message(&self) -> Seq<char> {
        match self {
            HttpError::InvalidMethod => "Invalid HTTP Method"@,
            HttpError::InvalidVersion => "Invalid HTTP Version"@,
            HttpError::HeaderValueNotFound => "Header value not found."@,
            HttpError::InvalidRequest => "Invalid HTTP Request."@,
        }
    }
}

/// The method a token names.
pub open spec fn method_from(tok: Seq<char>) -> Option<HttpMethod> {
    if tok == "GET"@ {
        Some(HttpMethod::GET)
    } else if tok == "HEAD"@ {
        Some(HttpMethod::HEAD)
    } else {
        None
    }
}

/// The version a token names.
pub open spec fn version_from(tok: Seq<char>) -> Option<HttpVersion> {
    if tok == "HTTP/1.1"@ {
        Some(HttpVersion::V1_1)
    } else if tok == "HTTP/2"@ {
        Some(HttpVersion::V2)
    } else if tok == "HTTP/3"@ {
        Some(HttpVersion::V3)
    } else {
        None
    }
}

/// The token that names a version.
pub open spec fn version_text(v: HttpVersion) -> Seq<char> {
    match v {
        HttpVersion::V1_1 => "HTTP/1.1"@,
        HttpVersion::V2 => "HTTP/2"@,
        HttpVersion::V3 => "HTTP/3"@,
    }
}

impl HttpMethod {
    /// The method named by `value`.
    pub fn try_from(value: &str) -> (r: Result<HttpMethod, HttpError>)
        ensures
            r == (match method_from(value@) {
                Some(m) => Ok(m),
                None => Err(HttpError::InvalidMethod),
            }),
    {
        if text_eq(value, "GET") {
            Ok(HttpMethod::GET)
        } else if text_eq(value, "HEAD") {
            Ok(HttpMethod::HEAD)
        } else {
            Err(HttpError::InvalidMethod)
        }
    }
}

impl HttpVersion {
    /// The version named by `value`.
    pub fn from_str(value: &str) -> (r: Result<HttpVersion, HttpError>)
        ensures
            r == (match version_from(value@) {
                Some(v) => Ok(v),
                None => Err(HttpError::InvalidVersion),
            }),
    {
        if text_eq(value, "HTTP/1.1") {
            Ok(HttpVersion::V1_1)
        } else if text_eq(value, "HTTP/2") {
            Ok(HttpVersion::V2)
        } else if text_eq(value, "HTTP/3") {
            Ok(HttpVersion::V3)
        } else {
            Err(HttpError::InvalidVersion)
        }
    }

    /// The token that names this version.
    pub fn to_string(&self) -> (s: String)
        ensures
            s@ == version_text(*self),
    {
        match self {
            HttpVersion::V1_1 => "HTTP/1.1".to_owned(),
            HttpVersion::V2 => "HTTP/2".to_owned(),
            HttpVersion::V3 => "HTTP/3".to_owned(),
        }
    }
}

/// The separator of the fields of a request line.
pub open spec fn space() -> Seq<char> {
    seq![' ']
}

/// The separator of a header's name and value.
pub open spec fn colon_space() -> Seq<char> {
    seq![':', ' ']
}

/// The inputs on which reading a request line completes: a line whose first
/// field names a method has at least three fields.
pub open spec fn request_line_in_domain(s: Seq<char>) -> bool {
    method_from(split(s, space())[0]) is Some ==> split(s, space()).len() >= 3
}

/// The method, path and version a request line gives, or why it is refused.
pub open spec fn request_line_result(s: Seq<char>) -> Result<(HttpMethod, Seq<char>, HttpVersion), HttpError> {
    let f = split(s, space());
    match method_from(f[0]) {
        None => Err(HttpError::InvalidMethod),
        Some(m) => match version_from(f[2]) {
            None => Err(HttpError::InvalidVersion),
            Some(v) => Ok((m, f[1], v)),
        },
    }
}

/// The name and value a header line gives, or why it is refused.
pub open spec fn header_line_result(s: Seq<char>) -> Result<(Seq<char>, Seq<char>), HttpError> {
    let f = split(s, colon_space());
    if f.len() >= 2 {
        Ok((f[0], f[1]))
    } else {
        Err(HttpError::HeaderValueNotFound)
    }
}

/// Whether reading `s` as a request line completes (see
/// `request_line_in_domain`); a caller tests this before
/// `parse_request_line`.
pub fn request_line_complete(s: &str) -> (b: bool)
    ensures
        b == request_line_in_domain(s@),
{
    proof {
        reveal_strlit(" ");
        assert(" "@ =~= space());
    }
    let (m, rest1) = split_first(s, " ");
    match HttpMethod::try_from(m) {
        Err(_) => true,
        Ok(_) => match rest1 {
            None => false,
            Some(rest1) => {
                let (_, rest2) = split_first(rest1, " ");
                rest2.is_some()
            },
        },
    }
}

/// Splits a request line into method, path and version.
pub fn parse_request_line(s: &str) -> (r: Result<(HttpMethod, String, HttpVersion), HttpError>)
    requires
        request_line_in_domain(s@),
    ensures
        match request_line_result(s@) {
            Ok((m, p, v)) => r matches Ok((m2, p2, v2)) && m2 == m && p2@ == p && v2 == v,
            Err(e) => r == Err::<(HttpMethod, String, HttpVersion), HttpError>(e),
        },
{
    proof {
        reveal_strlit(" ");
        assert(" "@ =~= space());
    }
    let (m, rest1) = split_first(s, " ");
    let method = match HttpMethod::try_from(m) {
        Ok(method) => method,
        Err(e) => return Err(e),
    };
    let rest1 = match rest1 {
        Some(rest1) => rest1,
        None => vstd::pervasive::unreached(),
    };
    let (p, rest2) = split_first(rest1, " ");
    let rest2 = match rest2 {
        Some(rest2) => rest2,
        None => vstd::pervasive::unreached(),
    };
    let (v, _) = split_first(rest2, " ");
    let version = match HttpVersion::from_str(v) {
        Ok(version) => version,
        Err(e) => return Err(e),
    };
    Ok((method, p.to_owned(), version))
}


/// Splits a header line into name and value at its first `": "`; the value
/// ends at the next `": "`, if there is one.
pub fn parse_header_line(s: &str) -> (r: Result<(String, String), HttpError>)
    ensures
        match header_line_result(s@) {
            Ok((k, v)) => r matches Ok((k2, v2)) && k2@ == k && v2@ == v,
            Err(e) => r == Err::<(String, String), HttpError>(e),
        },
{
    proof {
        reveal_strlit(": ");
        assert(": "@ =~= colon_space());
    }
    let (key, rest) = split_first(s, ": ");
    let rest = match rest {
        Some(rest) => rest,
        None => return Err(HttpError::HeaderValueNotFound),
    };
    let (value, _) = split_first(rest, ": ");
    proof {
        crate::text::lemma_split_len(rest@, colon_space());
    }
    Ok((key.to_owned(), value.to_owned()))
}

/// What a complete request holds.
pub struct HttpRequestView {
    pub method: HttpMethod,
    pub path: Seq<char>,
    pub http_version: HttpVersion,
    pub headers: Map<Seq<char>, Seq<char>>,
}

/// A request that was read completely.
#[derive(Debug)]
pub struct HttpRequest {
    pub method: HttpMethod,
    pub path: String,
    pub http_version: HttpVersion,
    pub headers: Headers,
}

impl View for HttpRequest {
    type V = HttpRequestView;

    open spec fn view(&self) -> HttpRequestView {
        HttpRequestView {
            method: self.method,
            path: self.path@,
            http_version: self.http_version,
            headers: self.headers@,
        }
    }
}

/// The header map that an optional header collection stands for.
pub open spec fn headers_map(h: Option<Headers>) -> Map<Seq<char>, Seq<char>> {
    match h {
        Some(h) => h@,
        None => Map::empty(),
    }
}

/// A request being read: what the lines so far have given.
pub struct ParsingHttpRequest {
    pub method: Option<HttpMethod>,
    pub path: Option<String>,
    pub http_version: Option<HttpVersion>,
    pub headers: Option<Headers>,
    pub read_headers: bool,
}

impl Default for ParsingHttpRequest {
    /// Nothing read yet.
    fn default() -> (p: ParsingHttpRequest)
        ensures
            p.method is None,
            p.path is None,
            p.http_version is None,
            p.headers is None,
            !p.read_headers,
    {
        ParsingHttpRequest::new()
    }
}

impl ParsingHttpRequest {
    /// Whether the request line is still to come.
    pub open spec fn spec_reading_request_line(&self) -> bool {
        self.method is None && self.path is None && self.http_version is None
    }

    /// Whether header lines are being read.
    pub open spec fn spec_reading_headers(&self) -> bool {
        !self.spec_reading_request_line() && !self.read_headers
    }

    /// Nothing read yet.
    pub fn new() -> (p: ParsingHttpRequest)
        ensures
            p.method is None,
            p.path is None,
            p.http_version is None,
            p.headers is None,
            !p.read_headers,
    {
        ParsingHttpRequest {
            method: None,
            path: None,
            http_version: None,
            headers: None,
            read_headers: false,
        }
    }

    /// Whether the request line is still to come.
    pub fn reading_request_line(&self) -> (b: bool)
        ensures
            b == self.spec_reading_request_line(),
    {
        self.method.is_none() && self.path.is_none() && self.http_version.is_none()
    }

    /// Records the fields of the request line.
    pub fn set_request_line(&mut self, method: HttpMethod, path: String, http_version: HttpVersion)
        ensures
            final(self).method == Some(method),
            final(self).path == Some(path),
            final(self).http_version == Some(http_version),
            final(self).headers == old(self).headers,
            final(self).read_headers == old(self).read_headers,
    {
        self.method(method);
        self.path(path);
        self.http_version(http_version);
    }

    fn method(&mut self, method: HttpMethod)
        ensures
            *final(self) == (ParsingHttpRequest { method: Some(method), ..*old(self) }),
    {
        self.method = Some(method);
    }

    fn path(&mut self, path: String)
        ensures
            *final(self) == (ParsingHttpRequest { path: Some(path), ..*old(self) }),
    {
        self.path = Some(path);
    }

    fn http_version(&mut self, http_version: HttpVersion)
        ensures
            *final(self) == (ParsingHttpRequest { http_version: Some(http_version), ..*old(self) }),
    {
        self.http_version = Some(http_version);
    }

    /// Whether header lines are being read.
    pub fn reading_headers(&self) -> (b: bool)
        ensures
            b == self.spec_reading_headers(),
    {
        !self.reading_request_line() && !self.read_headers
    }

    /// Sets header `k` to `v`, starting the header collection if there is none.
    pub fn set_header(&mut self, k: String, v: String)
        ensures
            final(self).headers is Some,
            headers_map(final(self).headers) == headers_map(old(self).headers).insert(k@, v@),
            final(self).method == old(self).method,
            final(self).path == old(self).path,
            final(self).http_version == old(self).http_version,
            final(self).read_headers == old(self).read_headers,
    {
        if self.headers.is_none() {
            self.headers = Some(Headers::new());
        }
        match &mut self.headers {
            Some(headers) => {
                headers.insert(k, v);
            },
            None => {},
        }
    }

    /// The request, when its request line and at least one header were read.
    pub fn validate(self) -> (r: Result<HttpRequest, HttpError>)
        ensures
            (self.method is Some && self.path is Some && self.http_version is Some
                && self.headers is Some) <==> r is Ok,
            r is Err ==> r == Err::<HttpRequest, HttpError>(HttpError::InvalidRequest),
            r matches Ok(req) ==> req.method == self.method->0 && req.path == self.path->0
                && req.http_version == self.http_version->0 && req.headers == self.headers->0,
    {
        match (self.method, self.path, self.http_version, self.headers) {
            (Some(method), Some(path), Some(http_version), Some(headers)) => Ok(
                HttpRequest { method, path, http_version, headers },
            ),
            _ => Err(HttpError::InvalidRequest),
        }
    }
}


/// The index of the first empty line at or after `from`, or the number of
/// lines where there is none.
pub open spec fn first_blank(lines: Seq<Seq<char>>, from: nat) -> nat
    decreases lines.len() - from,
{
    if from >= lines.len() {
        lines.len()
    } else if lines[from as int].len() == 0 {
        from
    } else {
        first_blank(lines, from + 1)
    }
}

/// The header map that header lines give, each setting its field in turn.
pub open spec fn header_lines_map(hs: Seq<Seq<char>>) -> Map<Seq<char>, Seq<char>>
    decreases hs.len(),
{
    if hs.len() == 0 {
        Map::empty()
    } else {
        let kv = header_line_result(hs.last())->Ok_0;
        header_lines_map(hs.drop_last()).insert(kv.0, kv.1)
    }
}

/// The request that the lines of a request give, or why it is refused: the
/// first line is the request line; the header lines follow it up to the first
/// empty line or the end; there must be at least one header line, and each
/// must hold a `": "`. Lines after the empty line are not read.
pub open spec fn request_result(lines: Seq<Seq<char>>) -> Result<HttpRequestView, HttpError> {
    if lines.len() == 0 {
        Err(HttpError::InvalidRequest)
    } else {
        match request_line_result(lines[0]) {
            Err(e) => Err(e),
            Ok((m, p, v)) => {
                let hs = lines.subrange(1, first_blank(lines, 1) as int);
                if exists|j: int| 0 <= j < hs.len() && (#[trigger] header_line_result(hs[j])) is Err {
                    Err(HttpError::HeaderValueNotFound)
                } else if hs.len() == 0 {
                    Err(HttpError::InvalidRequest)
                } else {
                    Ok(
                        HttpRequestView {
                            method: m,
                            path: p,
                            http_version: v,
                            headers: header_lines_map(hs),
                        },
                    )
                }
            },
        }
    }
}

/// The text of each line.
pub open spec fn lines_view(lines: Seq<String>) -> Seq<Seq<char>> {
    lines.map_values(|l: String| l@)
}

proof fn lemma_first_blank_bounds(lines: Seq<Seq<char>>, from: nat)
    requires
        from <= lines.len(),
    ensures
        from <= first_blank(lines, from) <= lines.len(),
        first_blank(lines, from) < lines.len() ==> lines[first_blank(lines, from) as int].len() == 0,
    decreases lines.len() - from,
{
    if from < lines.len() && lines[from as int].len() != 0 {
        lemma_first_blank_bounds(lines, from + 1);
    }
}

impl ParsingHttpRequest {
    /// Takes in the next line of the request. `Ok(true)` says that the empty
    /// line after the headers was read and nothing more is to be read.
    pub fn feed_line(&mut self, line: &str) -> (r: Result<bool, HttpError>)
        requires
            old(self).spec_reading_request_line() ==> request_line_in_domain(line@),
        ensures
            old(self).spec_reading_request_line() ==> match request_line_result(line@) {
                Ok((m, p, v)) => {
                    &&& r == Ok::<bool, HttpError>(false)
                    &&& final(self).method == Some(m)
                    &&& final(self).path matches Some(pp) && pp@ == p
                    &&& final(self).http_version == Some(v)
                    &&& final(self).headers == old(self).headers
                    &&& final(self).read_headers == old(self).read_headers
                },
                Err(e) => r == Err::<bool, HttpError>(e) && *final(self) == *old(self),
            },
            old(self).spec_reading_headers() ==> if line@.len() == 0 {
                &&& r == Ok::<bool, HttpError>(true)
                &&& *final(self) == (ParsingHttpRequest { read_headers: true, ..*old(self) })
            } else {
                match header_line_result(line@) {
                    Ok((k, v)) => {
                        &&& r == Ok::<bool, HttpError>(false)
                        &&& final(self).headers is Some
                        &&& headers_map(final(self).headers) == headers_map(old(self).headers).insert(k, v)
                        &&& final(self).method == old(self).method
                        &&& final(self).path == old(self).path
                        &&& final(self).http_version == old(self).http_version
                        &&& final(self).read_headers == old(self).read_headers
                    },
                    Err(e) => r == Err::<bool, HttpError>(e) && *final(self) == *old(self),
                }
            },
            !old(self).spec_reading_request_line() && !old(self).spec_reading_headers() ==> r
                == Ok::<bool, HttpError>(false) && *final(self) == *old(self),
    {
        if self.reading_request_line() {
            match parse_request_line(line) {
                Ok((method, path, http_version)) => {
                    self.set_request_line(method, path, http_version);
                    Ok(false)
                },
                Err(e) => Err(e),
            }
        } else if self.reading_headers() {
            if line.is_empty() {
                self.read_headers = true;
                return Ok(true);
            }
            match parse_header_line(line) {
                Ok((key, value)) => {
                    self.set_header(key, value);
                    Ok(false)
                },
                Err(e) => Err(e),
            }
        } else {
            Ok(false)
        }
    }
}

/// Reads a request from its lines.
pub fn parse_http_request(lines: &Vec<String>) -> (r: Result<HttpRequest, HttpError>)
    requires
        lines@.len() > 0 ==> request_line_in_domain(lines@[0]@),
    ensures
        match request_result(lines_view(lines@)) {
            Ok(req) => r matches Ok(got) && got@ == req,
            Err(e) => r is Err && r->Err_0 == e,
        },
{
    let ghost lv = lines_view(lines@);
    let mut parsing = ParsingHttpRequest::default();
    let mut i: usize = 0;
    while i < lines.len()
        invariant
            lv == lines_view(lines@),
            lv.len() == lines@.len(),
            lines@.len() > 0 ==> request_line_in_domain(lines@[0]@),
            i <= lines.len(),
            i == 0 ==> parsing.spec_reading_request_line() && parsing.headers is None
                && !parsing.read_headers,
            i >= 1 ==> {
                &&& request_line_result(lv[0]) matches Ok((m, p, v))
                &&& parsing.method == Some(m)
                &&& parsing.path matches Some(pp) && pp@ == p
                &&& parsing.http_version == Some(v)
                &&& !parsing.read_headers
                &&& (parsing.headers is Some <==> i >= 2)
                &&& headers_map(parsing.headers) == header_lines_map(lv.subrange(1, i as int))
                &&& forall|j: int| 1 <= j < i ==> (#[trigger] header_line_result(lv[j])) is Ok
                &&& first_blank(lv, 1) == first_blank(lv, i as nat)
            },
        decreases lines.len() - i,
    {
        let line: &str = lines[i].as_str();
        assert(line@ == lv[i as int]);
        let ghost before = parsing;
        match parsing.feed_line(line) {
            Err(e) => {
                proof {
                    if i >= 1 {
                        let hs = lv.subrange(1, first_blank(lv, 1) as int);
                        lemma_first_blank_bounds(lv, i as nat);
                        assert(hs[i - 1] == lv[i as int]);
                        assert(header_line_result(hs[i - 1]) is Err);
                    }
                }
                return Err(e);
            },
            Ok(true) => {
                proof {
                    let hs = lv.subrange(1, first_blank(lv, 1) as int);
                    assert(hs =~= lv.subrange(1, i as int));
                    assert forall|j: int| 0 <= j < hs.len() implies (#[trigger] header_line_result(
                        hs[j],
                    )) is Ok by {
                        assert(hs[j] == lv[j + 1]);
                    }
                }
                return parsing.validate();
            },
            Ok(false) => {
                proof {
                    if i >= 1 {
                        let sub = lv.subrange(1, i + 1);
                        assert(sub.drop_last() =~= lv.subrange(1, i as int));
                        assert(sub.last() == lv[i as int]);
                    }
                }
            },
        }
        i = i + 1;
    }
    proof {
        if lv.len() > 0 {
            let hs = lv.subrange(1, first_blank(lv, 1) as int);
            assert(hs =~= lv.subrange(1, i as int));
            assert forall|j: int| 0 <= j < hs.len() implies (#[trigger] header_line_result(
                hs[j],
            )) is Ok by {
                assert(hs[j] == lv[j + 1]);
            }
        }
    }
    parsing.validate()
}


/// The media types a response can declare.
#[allow(clippy::upper_case_acronyms)]
#[derive(Debug, Clone, Copy, PartialEq, Eq, Structural)]
pub enum ContentType {
    HTML,
    JSON,
}

impl ContentType {
    /// The media type's name.
    pub fn to_str(self) -> (s: &'static str)
        ensures
            s@ == (match self {
                ContentType::HTML => "text/html"@,
                ContentType::JSON => "application/json"@,
            }),
    {
        match self {
            ContentType::HTML => "text/html",
            ContentType::JSON => "application/json",
        }
    }
}

/// A successful response carrying a body.
pub struct HttpResponse {
    pub http_version: HttpVersion,
    pub content_length: usize,
    pub content_type: ContentType,
    pub connection: String,
    pub body: Vec<u8>,
}

/// The status line and header block of a response whose body has
/// `body_len` bytes. The declared type is always `text/html` and the
/// connection always `close`.
pub open spec fn response_head(v: HttpVersion, body_len: nat) -> Seq<char> {
    version_text(v) + " 200 OK\r\n"@ + "Content-length: "@ + decimal(body_len) + "\r\n"@
        + "Content-Type: text/html\r\n"@ + "Connection: close\r\n"@ + "\r\n"@
}

impl HttpResponse {
    /// The bytes sent for this response: the UTF-8 encoding of the head,
    /// then the body.
    pub fn to_bytes(&self) -> (r: Vec<u8>)
        ensures
            r@ == encode_utf8(response_head(self.http_version, self.body@.len())) + self.body@,
    {
        let mut head = self.http_version.to_string();
        head.append(" 200 OK\r\n");
        head.append("Content-length: ");
        let len = decimal_string(self.body.len());
        head.append(len.as_str());
        head.append("\r\n");
        head.append("Content-Type: text/html\r\n");
        head.append("Connection: close\r\n");
        head.append("\r\n");
        let mut res = slice_to_vec(head.as_str().as_bytes());
        let mut body = slice_to_vec(self.body.as_slice());
        res.append(&mut body);
        res
    }
}


/// The token that names a method.
pub open spec fn method_text(m: HttpMethod) -> Seq<char> {
    match m {
        HttpMethod::GET => "GET"@,
        HttpMethod::HEAD => "HEAD"@,
    }
}

/// Reading back a version's token gives the version.
pub proof fn law_version_round_trip(v: HttpVersion)
    ensures
        version_from(version_text(v)) == Some(v),
{
    reveal_strlit("HTTP/1.1");
    reveal_strlit("HTTP/2");
    reveal_strlit("HTTP/3");
    assert("HTTP/1.1"@.len() != "HTTP/2"@.len());
    assert("HTTP/1.1"@.len() != "HTTP/3"@.len());
    assert("HTTP/2"@ != "HTTP/3"@) by {
        assert("HTTP/2"@[5] != "HTTP/3"@[5]);
    }
}

/// Reading back a method's token gives the method.
pub proof fn law_method_round_trip(m: HttpMethod)
    ensures
        method_from(method_text(m)) == Some(m),
{
    reveal_strlit("GET");
    reveal_strlit("HEAD");
    assert("GET"@.len() != "HEAD"@.len());
}


/// A request line written from a method, a path without spaces and a
/// version is read back as the same three.
pub proof fn law_request_line_round_trip(m: HttpMethod, p: Seq<char>, v: HttpVersion)
    requires
        !p.contains(' '),
    ensures
        request_line_in_domain(method_text(m) + space() + p + space() + version_text(v)),
        request_line_result(method_text(m) + space() + p + space() + version_text(v)) == Ok::<
            (HttpMethod, Seq<char>, HttpVersion),
            HttpError,
        >((m, p, v)),
{
    reveal_strlit("GET");
    reveal_strlit("HEAD");
    reveal_strlit("HTTP/1.1");
    reveal_strlit("HTTP/2");
    reveal_strlit("HTTP/3");
    law_method_round_trip(m);
    law_version_round_trip(v);
    let mt = method_text(m);
    let vt = version_text(v);
    assert(!mt.contains(' '));
    assert(!vt.contains(' '));
    let line = mt + space() + p + space() + vt;
    assert(line =~= mt + space() + (p + space() + vt));
    crate::text::lemma_split_char_prefix(mt, ' ', p + space() + vt);
    crate::text::lemma_split_char_prefix(p, ' ', vt);
    crate::text::lemma_split_char_whole(vt, ' ');
    assert(split(line, space()) =~= seq![mt, p, vt]);
}

/// A header line written from a name and a value in which `": "` does not
/// occur is read back as the same name and value.
pub proof fn law_header_line_round_trip(k: Seq<char>, v: Seq<char>)
    requires
        !crate::text::contains_sep(k, colon_space()),
        !crate::text::contains_sep(v, colon_space()),
    ensures
        header_line_result(k + colon_space() + v) == Ok::<(Seq<char>, Seq<char>), HttpError>((k, v)),
{
    let sep = colon_space();
    let s = k + sep + v;
    assert forall|i: int| 0 <= i < k.len() implies !crate::text::matches_at(s, sep, i) by {
        if crate::text::matches_at(s, sep, i) {
            if i + 2 <= k.len() {
                assert(k.subrange(i, i + 2) =~= s.subrange(i, i + 2));
                assert(crate::text::matches_at(k, sep, i));
            } else {
                assert(s.subrange(i, i + 2)[1] == s[i + 1]);
                assert(s[i + 1] == ':');
            }
        }
    }
    crate::text::lemma_split_prefix(k, sep, v);
    crate::text::lemma_split_whole(v, sep);
    assert(split(s, sep) =~= seq![k, v]);
}


proof fn lemma_first_blank_extend(lines: Seq<Seq<char>>, more: Seq<Seq<char>>, from: nat)
    requires
        from <= lines.len(),
        first_blank(lines, from) < lines.len(),
    ensures
        first_blank(lines + more, from) == first_blank(lines, from),
    decreases lines.len() - from,
{
    if lines[from as int].len() != 0 {
        lemma_first_blank_extend(lines, more, from + 1);
    }
}

/// Nothing after the empty line that ends the headers is read: lines that
/// follow it do not change the outcome.
pub proof fn law_lines_after_blank_unread(lines: Seq<Seq<char>>, more: Seq<Seq<char>>)
    requires
        1 <= lines.len(),
        first_blank(lines, 1) < lines.len(),
    ensures
        request_result(lines + more) == request_result(lines),
{
    lemma_first_blank_extend(lines, more, 1);
    lemma_first_blank_bounds(lines, 1);
    let all = lines + more;
    assert(all[0] == lines[0]);
    assert(all.subrange(1, first_blank(all, 1) as int) =~= lines.subrange(1, first_blank(lines, 1) as int));
}

/// The status line of a response names the version it was given: its first
/// space-separated field reads back as that version, and the line is that
/// version's token followed by " 200 OK" and CR LF.
pub proof fn law_response_status_line(v: HttpVersion, n: nat)
    ensures
        version_from(split(response_head(v, n), space())[0]) == Some(v),
        response_head(v, n).take(version_text(v).len() as int + 9) == version_text(v) + " 200 OK\r\n"@,
{
    reveal_strlit("HTTP/1.1");
    reveal_strlit("HTTP/2");
    reveal_strlit("HTTP/3");
    reveal_strlit(" 200 OK\r\n");
    law_version_round_trip(v);
    let vt = version_text(v);
    let h = response_head(v, n);
    let after = h.skip(vt.len() as int + 1);
    assert(!vt.contains(' '));
    assert(h.take(vt.len() as int) =~= vt);
    assert(h[vt.len() as int] == ' ');
    assert(h =~= vt + seq![' '] + after);
    crate::text::lemma_split_char_prefix(vt, ' ', after);
    assert(h.take(vt.len() as int + 9) =~= vt + " 200 OK\r\n"@);
}

/// The text of a header line for a name and a value.
pub open spec fn header_line_text(kv: (Seq<char>, Seq<char>)) -> Seq<char> {
    kv.0 + colon_space() + kv.1
}

proof fn lemma_first_blank_at(lines: Seq<Seq<char>>, from: nat, k: nat)
    requires
        from <= k < lines.len(),
        lines[k as int].len() == 0,
        forall|j: int| from <= j < k ==> (#[trigger] lines[j]).len() > 0,
    ensures
        first_blank(lines, from) == k,
    decreases k - from,
{
    if from < k {
        lemma_first_blank_at(lines, from + 1, k);
    }
}

proof fn lemma_header_lines_map(hs: Seq<(Seq<char>, Seq<char>)>)
    requires
        forall|i: int|
            0 <= i < hs.len() ==> !crate::text::contains_sep((#[trigger] hs[i]).0, colon_space())
                && !crate::text::contains_sep(hs[i].1, colon_space()),
    ensures
        header_lines_map(hs.map_values(|kv: (Seq<char>, Seq<char>)| header_line_text(kv))) == pairs_map(hs),
    decreases hs.len(),
{
    let hl = hs.map_values(|kv: (Seq<char>, Seq<char>)| header_line_text(kv));
    if hs.len() == 0 {
        assert(hl.len() == 0);
    } else {
        let dl = hs.drop_last();
        lemma_header_lines_map(dl);
        assert(hl.drop_last() =~= dl.map_values(|kv: (Seq<char>, Seq<char>)| header_line_text(kv)));
        let last = hs.last();
        law_header_line_round_trip(last.0, last.1);
        assert(hl.last() == header_line_text(last));
    }
}

/// A request made of a request line (any method, a path without spaces, any
/// version), one or more header lines `name: value` in which `": "` does not
/// occur, and an empty line is accepted as exactly that method, path and
/// version, with each header set in turn, whatever the header names are and
/// whatever follows the empty line.
pub proof fn law_request_accepted(
    m: HttpMethod,
    p: Seq<char>,
    v: HttpVersion,
    hs: Seq<(Seq<char>, Seq<char>)>,
    more: Seq<Seq<char>>,
)
    requires
        !p.contains(' '),
        hs.len() > 0,
        forall|i: int|
            0 <= i < hs.len() ==> !crate::text::contains_sep((#[trigger] hs[i]).0, colon_space())
                && !crate::text::contains_sep(hs[i].1, colon_space()),
    ensures
        request_result(
            seq![method_text(m) + space() + p + space() + version_text(v)]
                + hs.map_values(|kv: (Seq<char>, Seq<char>)| header_line_text(kv))
                + seq![Seq::<char>::empty()] + more,
        ) == Ok::<HttpRequestView, HttpError>(
            HttpRequestView { method: m, path: p, http_version: v, headers: pairs_map(hs) },
        ),
{
    let rl = method_text(m) + space() + p + space() + version_text(v);
    let hl = hs.map_values(|kv: (Seq<char>, Seq<char>)| header_line_text(kv));
    let lines = seq![rl] + hl + seq![Seq::<char>::empty()] + more;
    law_request_line_round_trip(m, p, v);
    assert(lines[0] == rl);
    let k = (hl.len() + 1) as nat;
    assert forall|j: int| 1 <= j < k implies (#[trigger] lines[j]).len() > 0 by {
        assert(lines[j] == hl[j - 1]);
        assert(hl[j - 1] == header_line_text(hs[j - 1]));
    }
    assert(lines[k as int] == Seq::<char>::empty());
    lemma_first_blank_at(lines, 1, k);
    let sub = lines.subrange(1, k as int);
    assert(sub =~= hl);
    assert forall|j: int| 0 <= j < sub.len() implies (#[trigger] header_line_result(sub[j])) is Ok by {
        assert(sub[j] == header_line_text(hs[j]));
        law_header_line_round_trip(hs[j].0, hs[j].1);
    }
    lemma_header_lines_map(hs);
}

} // verus!
