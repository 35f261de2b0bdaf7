//! HTTP/1.x framing for the notebook and editor servers: where a request's
//! head ends, what the head says, whether a request comes from this server's
//! own page, and the heads of the messages the servers write.
use vstd::prelude::*;
use vstd::utf8::{decode_utf8, valid_utf8};

use crate::text::{
    ascii_lower_seq, chars_eq, chars_of, decimal, decimal_string, lowercased, parse_unsigned,
    push_str, split_words, str_eq, string_of, trim, trimmed, unsigned_value, words,
};

verus! {

/// The longest request head accepted, in bytes before the blank line.
pub const MAX_HEADER: usize = 8192;

/// The longest request body accepted, in bytes.
pub const MAX_BODY: usize = 65536;

/// `\r\n\r\n` starts at byte `p`.
pub open spec fn blank_line_at(bytes: Seq<u8>, p: int) -> bool {
    &&& 0 <= p
    &&& p + 4 <= bytes.len()
    &&& bytes[p] == 13u8
    &&& bytes[p + 1] == 10u8
    &&& bytes[p + 2] == 13u8
    &&& bytes[p + 3] == 10u8
}

/// `p` is where the first `\r\n\r\n` starts.
pub open spec fn first_blank_line(bytes: Seq<u8>, p: int) -> bool {
    &&& blank_line_at(bytes, p)
    &&& forall|q: int| 0 <= q < p ==> !#[trigger] blank_line_at(bytes, q)
}

pub open spec fn has_blank_line(bytes: Seq<u8>) -> bool {
    exists|p: int| #[trigger] blank_line_at(bytes, p)
}

/// Where the first `\r\n\r\n` starts, if anywhere.
pub fn find_blank_line(bytes: &[u8]) -> (r: Option<usize>)
    ensures
        match r {
            Some(p) => first_blank_line(bytes@, p as int),
            None => !has_blank_line(bytes@),
        },
{
    let n = bytes.len();
    let mut p: usize = 0;
    while n >= 4 && p <= n - 4
        invariant
            n == bytes@.len(),
            n >= 4 ==> p <= n - 3,
            forall|q: int| 0 <= q < p ==> !#[trigger] blank_line_at(bytes@, q),
        decreases n - p,
    {
        if bytes[p] == 13u8 && bytes[p + 1] == 10u8 && bytes[p + 2] == 13u8 && bytes[p + 3] == 10u8 {
            return Some(p);
        }
        p = p + 1;
    }
    None
}

/// How far a request head has arrived.
pub enum HeaderProgress {
    /// The head ends just before this byte offset (its blank line included).
    Complete(usize),
    /// The head is longer than `MAX_HEADER`.
    TooLarge,
    /// The blank line has not arrived yet.
    NeedMore,
}

/// What the bytes received so far say of the request head: complete (and
/// where it ends), too large, or not complete yet.
pub fn header_progress(received: &[u8]) -> (r: HeaderProgress)
    ensures
        match r {
            HeaderProgress::Complete(end) => exists|p: int|
                first_blank_line(received@, p) && p <= MAX_HEADER && end == p + 4,
            HeaderProgress::TooLarge => (exists|p: int|
                first_blank_line(received@, p) && p > MAX_HEADER) || (!has_blank_line(received@)
                && received@.len() > MAX_HEADER),
            HeaderProgress::NeedMore => !has_blank_line(received@) && received@.len()
                <= MAX_HEADER,
        },
{
    match find_blank_line(received) {
        Some(p) => {
            if p > MAX_HEADER {
                HeaderProgress::TooLarge
            } else {
                HeaderProgress::Complete(p + 4)
            }
        },
        None => {
            if received.len() > MAX_HEADER {
                HeaderProgress::TooLarge
            } else {
                HeaderProgress::NeedMore
            }
        },
    }
}

/// The message of the error `std::str::from_utf8` gives for bytes that are
/// not UTF-8 (`Utf8Error::to_string`); it depends on the bytes alone.
pub uninterp spec fn utf8_error_text(bytes: Seq<u8>) -> Seq<char>;

/// `std::str::from_utf8`: the text the bytes encode, when they are valid
/// UTF-8; otherwise the decoder's error message.
#[verifier::external_body]
pub(crate) fn utf8_text(bytes: &[u8]) -> (r: Result<String, String>)
    ensures
        r is Ok <==> valid_utf8(bytes@),
        r matches Ok(s) ==> s@ == decode_utf8(bytes@),
        r matches Err(m) ==> m@ == utf8_error_text(bytes@),
{
    match std::str::from_utf8(bytes) {
        Ok(text) => Ok(text.to_owned()),
        Err(error) => Err(error.to_string()),
    }
}

/// Splitting at `\r\n` (`str::split("\r\n")`), where `current` is the part
/// of a line already read.
pub open spec fn lines_from(s: Seq<char>, current: Seq<char>) -> Seq<Seq<char>>
    decreases s.len(),
{
    if s.len() == 0 {
        seq![current]
    } else if s.len() >= 2 && s[0] == '\r' && s[1] == '\n' {
        seq![current] + lines_from(s.skip(2), seq![])
    } else {
        lines_from(s.drop_first(), current.push(s[0]))
    }
}

/// The pieces between `\r\n` separators; there is always at least one.
pub open spec fn crlf_lines(s: Seq<char>) -> Seq<Seq<char>> {
    lines_from(s, seq![])
}

proof fn lemma_lines_from_nonempty(s: Seq<char>, current: Seq<char>)
    ensures
        lines_from(s, current).len() >= 1,
    decreases s.len(),
{
    if s.len() == 0 {
    } else if s.len() >= 2 && s[0] == '\r' && s[1] == '\n' {
        lemma_lines_from_nonempty(s.skip(2), seq![]);
    } else {
        lemma_lines_from_nonempty(s.drop_first(), current.push(s[0]));
    }
}

pub open spec fn views_of(v: Seq<Vec<char>>) -> Seq<Seq<char>> {
    v.map_values(|w: Vec<char>| w@)
}

/// The characters split at each `\r\n`.
fn split_lines(s: &Vec<char>) -> (r: Vec<Vec<char>>)
    ensures
        views_of(r@) == crlf_lines(s@),
{
    let n = s.len();
    let mut out: Vec<Vec<char>> = Vec::new();
    let mut current: Vec<char> = Vec::new();
    let mut i: usize = 0;
    assert(s@.skip(0) =~= s@);
    while i < n
        invariant
            n == s@.len(),
            i <= n,
            views_of(out@) + lines_from(s@.skip(i as int), current@) == crlf_lines(s@),
        decreases n - i,
    {
        let ghost rest = s@.skip(i as int);
        let ghost before = views_of(out@);
        if i + 1 < n && s[i] == '\r' && s[i + 1] == '\n' {
            assert(rest.skip(2) =~= s@.skip(i + 2));
            let line = current;
            out.push(line);
            current = Vec::new();
            assert(before + (seq![line@] + lines_from(s@.skip(i + 2), seq![])) =~= before.push(line@)
                + lines_from(s@.skip(i + 2), seq![]));
            i = i + 2;
        } else {
            assert(rest.drop_first() =~= s@.skip(i + 1));
            current.push(s[i]);
            i = i + 1;
        }
    }
    let ghost before = views_of(out@);
    let line = current;
    out.push(line);
    out
}

/// `str::split_once(':')`: the text before the first colon and the text after it.
pub open spec fn split_at_colon(s: Seq<char>) -> Option<(Seq<char>, Seq<char>)>
    decreases s.len(),
{
    if s.len() == 0 {
        None
    } else if s[0] == ':' {
        Some((Seq::empty(), s.drop_first()))
    } else {
        match split_at_colon(s.drop_first()) {
            Some((a, b)) => Some((seq![s[0]] + a, b)),
            None => None,
        }
    }
}

proof fn lemma_split_at_colon(s: Seq<char>, p: int)
    requires
        0 <= p <= s.len(),
        forall|q: int| 0 <= q < p ==> s[q] != ':',
    ensures
        p < s.len() && s[p] == ':' ==> split_at_colon(s) == Some((s.take(p), s.skip(p + 1))),
        p == s.len() ==> split_at_colon(s) is None,
    decreases p,
{
    if p > 0 {
        lemma_split_at_colon(s.drop_first(), p - 1);
    }
}

/// A header line as the server keeps it: the name (trimmed, in ASCII lower
/// case) and the value (trimmed). Lines without a colon are not headers.
pub open spec fn header_of(line: Seq<char>) -> Option<(Seq<char>, Seq<char>)> {
    match split_at_colon(line) {
        Some((name, value)) => Some((ascii_lower_seq(trim(name)), trim(value))),
        None => None,
    }
}

/// The headers of the lines, in order.
pub open spec fn headers_of(lines: Seq<Seq<char>>) -> Seq<(Seq<char>, Seq<char>)>
    decreases lines.len(),
{
    if lines.len() == 0 {
        Seq::empty()
    } else {
        match header_of(lines.last()) {
            Some(h) => headers_of(lines.drop_last()).push(h),
            None => headers_of(lines.drop_last()),
        }
    }
}

/// The value of the first header with this name.
pub open spec fn first_header(headers: Seq<(Seq<char>, Seq<char>)>, name: Seq<char>) -> Option<
    Seq<char>,
>
    decreases headers.len(),
{
    if headers.len() == 0 {
        None
    } else if headers[0].0 == name {
        Some(headers[0].1)
    } else {
        first_header(headers.drop_first(), name)
    }
}

pub open spec fn header_views(headers: Seq<(String, String)>) -> Seq<(Seq<char>, Seq<char>)> {
    headers.map_values(|h: (String, String)| (h.0@, h.1@))
}

fn header_line(line: &Vec<char>) -> (r: Option<(String, String)>)
    ensures
        match r {
            Some(h) => header_of(line@) == Some((h.0@, h.1@)),
            None => header_of(line@) is None,
        },
{
    let n = line.len();
    let mut p: usize = 0;
    while p < n && line[p] != ':'
        invariant
            n == line@.len(),
            p <= n,
            forall|q: int| 0 <= q < p ==> line@[q] != ':',
        decreases n - p,
    {
        p = p + 1;
    }
    proof {
        lemma_split_at_colon(line@, p as int);
    }
    if p == n {
        return None;
    }
    let mut name: Vec<char> = Vec::new();
    let mut value: Vec<char> = Vec::new();
    let mut k: usize = 0;
    while k < n
        invariant
            n == line@.len(),
            p < n,
            k <= n,
            name@ =~= line@.take(if k <= p {
                k as int
            } else {
                p as int
            }),
            value@ =~= if k <= p + 1 {
                Seq::<char>::empty()
            } else {
                line@.subrange(p + 1, k as int)
            },
        decreases n - k,
    {
        if k < p {
            name.push(line[k]);
        } else if k > p {
            value.push(line[k]);
        }
        k = k + 1;
    }
    let key = lowercased(&trimmed(&name));
    let text = trimmed(&value);
    Some((string_of(&key), string_of(&text)))
}

/// The headers of the lines after the request line.
fn collect_headers(lines: &Vec<Vec<char>>) -> (r: Vec<(String, String)>)
    requires
        lines@.len() >= 1,
    ensures
        header_views(r@) == headers_of(views_of(lines@).drop_first()),
{
    let mut out: Vec<(String, String)> = Vec::new();
    let mut i: usize = 1;
    while i < lines.len()
        invariant
            1 <= i <= lines@.len(),
            header_views(out@) == headers_of(views_of(lines@).subrange(1, i as int)),
        decreases lines@.len() - i,
    {
        let ghost prefix = views_of(lines@).subrange(1, i + 1);
        assert(prefix.drop_last() =~= views_of(lines@).subrange(1, i as int));
        match header_line(&lines[i]) {
            Some(h) => {
                let ghost before = header_views(out@);
                out.push(h);
            },
            None => {},
        }
        i = i + 1;
    }
    out
}

/// The value of the first header named `name`.
fn find_header<'a>(headers: &'a Vec<(String, String)>, name: &str) -> (r: Option<&'a String>)
    ensures
        match r {
            Some(v) => first_header(header_views(headers@), name@) == Some(v@),
            None => first_header(header_views(headers@), name@) is None,
        },
{
    let key = chars_of(name);
    let mut i: usize = 0;
    assert(header_views(headers@).skip(0) =~= header_views(headers@));
    while i < headers.len()
        invariant
            i <= headers@.len(),
            key@ == name@,
            first_header(header_views(headers@), name@) == first_header(
                header_views(headers@).skip(i as int),
                name@,
            ),
        decreases headers@.len() - i,
    {
        let ghost rest = header_views(headers@).skip(i as int);
        assert(rest.drop_first() =~= header_views(headers@).skip(i + 1));
        let candidate = chars_of(headers[i].0.as_str());
        if chars_eq(&candidate, &key) {
            return Some(&headers[i].1);
        }
        i = i + 1;
    }
    None
}

/// What a request declares as its body length: `Ok(0)` without a
/// `content-length` header, the value of the first one when it is an
/// unsigned decimal number that fits a `usize`, and `Err` otherwise.
pub open spec fn declared_length(headers: Seq<(Seq<char>, Seq<char>)>) -> Result<nat, ()> {
    match first_header(headers, "content-length"@) {
        None => Ok(0),
        Some(v) => match unsigned_value(v) {
            Some(n) => if n <= usize::MAX {
                Ok(n)
            } else {
                Err(())
            },
            None => Err(()),
        },
    }
}

/// Why a request could not be read.
#[derive(PartialEq, Eq, Structural, Debug)]
pub enum RequestError {
    IncompleteHeader,
    HeaderTooLarge,
    InvalidHeader,
    InvalidRequestLine,
    InvalidContentLength,
    BodyTooLarge,
    IncompleteBody,
}

impl RequestError {
    /// The message the server reports for this error.
    pub fn message(&self) -> (m: &'static str)
        ensures
            m@ == request_error_message(*self),
    {
        match self {
            RequestError::IncompleteHeader => "incomplete HTTP header",
            RequestError::HeaderTooLarge => "HTTP header too large",
            RequestError::InvalidHeader => "invalid HTTP header",
            RequestError::InvalidRequestLine => "invalid request line",
            RequestError::InvalidContentLength => "invalid content length",
            RequestError::BodyTooLarge => "HTTP body too large",
            RequestError::IncompleteBody => "incomplete HTTP body",
        }
    }
}

pub open spec fn request_error_message(e: RequestError) -> Seq<char> {
    match e {
        RequestError::IncompleteHeader => "incomplete HTTP header"@,
        RequestError::HeaderTooLarge => "HTTP header too large"@,
        RequestError::InvalidHeader => "invalid HTTP header"@,
        RequestError::InvalidRequestLine => "invalid request line"@,
        RequestError::InvalidContentLength => "invalid content length"@,
        RequestError::BodyTooLarge => "HTTP body too large"@,
        RequestError::IncompleteBody => "incomplete HTTP body"@,
    }
}

/// What a request head says: its method, its path, its headers (names in
/// lower case) and the length of the body that follows.
pub struct RequestHead {
    pub method: String,
    pub path: String,
    pub headers: Vec<(String, String)>,
    pub content_length: usize,
}

pub open spec fn word_or_empty(ws: Seq<Seq<char>>, i: int) -> Seq<char> {
    if 0 <= i < ws.len() {
        ws[i]
    } else {
        Seq::empty()
    }
}

pub open spec fn version_ok(w: Seq<char>) -> bool {
    w == "HTTP/1.1"@ || w == "HTTP/1.0"@
}

/// What the head made of these bytes reads as: `Err` with the reason, or
/// the method, path, headers and body length.
pub open spec fn head_result(bytes: Seq<u8>) -> Result<
    (Seq<char>, Seq<char>, Seq<(Seq<char>, Seq<char>)>, nat),
    RequestError,
> {
    if !valid_utf8(bytes) {
        Err(RequestError::InvalidHeader)
    } else {
        let lines = crlf_lines(decode_utf8(bytes));
        let request_line = words(lines[0]);
        if !(request_line.len() > 2 && version_ok(request_line[2])) {
            Err(RequestError::InvalidRequestLine)
        } else {
            let headers = headers_of(lines.drop_first());
            match declared_length(headers) {
                Err(_) => Err(RequestError::InvalidContentLength),
                Ok(n) => if n > MAX_BODY {
                    Err(RequestError::BodyTooLarge)
                } else {
                    Ok(
                        (
                            word_or_empty(request_line, 0),
                            word_or_empty(request_line, 1),
                            headers,
                            n,
                        ),
                    )
                },
            }
        }
    }
}

impl RequestHead {
    pub open spec fn parts(&self) -> (Seq<char>, Seq<char>, Seq<(Seq<char>, Seq<char>)>, nat) {
        (self.method@, self.path@, header_views(self.headers@), self.content_length as nat)
    }
}

fn word_at(ws: &Vec<Vec<char>>, i: usize) -> (r: String)
    ensures
        r@ == word_or_empty(views_of(ws@), i as int),
{
    if i < ws.len() {
        string_of(&ws[i])
    } else {
        String::new()
    }
}

/// Reads a complete request head (the bytes up to and including its blank
/// line).
pub fn parse_head(head: &[u8]) -> (r: Result<RequestHead, RequestError>)
    ensures
        match r {
            Ok(h) => head_result(head@) == Ok::<_, RequestError>(h.parts()),
            Err(e) => head_result(head@) == Err::<
                (Seq<char>, Seq<char>, Seq<(Seq<char>, Seq<char>)>, nat),
                _,
            >(e),
        },
{
    let text = match utf8_text(head) {
        Ok(text) => text,
        Err(_) => {
            return Err(RequestError::InvalidHeader);
        },
    };
    let chars = chars_of(text.as_str());
    let lines = split_lines(&chars);
    proof {
        lemma_lines_from_nonempty(chars@, seq![]);
    }
    let request_line = split_words(&lines[0]);
    let ghost rl = words(crlf_lines(chars@)[0]);
    let version_ok = if request_line.len() > 2 {
        chars_eq(&request_line[2], &chars_of("HTTP/1.1")) || chars_eq(
            &request_line[2],
            &chars_of("HTTP/1.0"),
        )
    } else {
        false
    };
    if !version_ok {
        return Err(RequestError::InvalidRequestLine);
    }
    let headers = collect_headers(&lines);
    let length = match find_header(&headers, "content-length") {
        None => 0,
        Some(value) => {
            let digits = chars_of(value.as_str());
            match parse_unsigned(&digits, usize::MAX as u64) {
                Some(n) => n as usize,
                None => {
                    return Err(RequestError::InvalidContentLength);
                },
            }
        },
    };
    if length > MAX_BODY {
        return Err(RequestError::BodyTooLarge);
    }
    let method = word_at(&request_line, 0);
    let path = word_at(&request_line, 1);
    Ok(RequestHead { method, path, headers, content_length: length })
}

/// The body of a request whose head ends at `header_end` and declares
/// `length` bytes, once that many bytes have arrived after the head.
pub fn request_body(received: &[u8], header_end: usize, length: usize) -> (r: Option<Vec<u8>>)
    requires
        header_end <= received@.len(),
    ensures
        r is Some <==> received@.len() - header_end >= length,
        r matches Some(body) ==> body@ == received@.subrange(
            header_end as int,
            header_end + length,
        ),
{
    if received.len() - header_end < length {
        return None;
    }
    let mut body: Vec<u8> = Vec::new();
    let end = header_end + length;
    let mut i: usize = header_end;
    while i < end
        invariant
            end == header_end + length,
            header_end <= i <= end <= received@.len(),
            body@ =~= received@.subrange(header_end as int, i as int),
        decreases end - i,
    {
        body.push(received[i]);
        i = i + 1;
    }
    Some(body)
}

/// The text after the last `:` (all of it when there is none), as
/// `rsplit(':').next()` gives it.
pub open spec fn after_last_colon(s: Seq<char>) -> Seq<char>
    decreases s.len(),
{
    if s.len() == 0 {
        s
    } else if s.last() == ':' {
        Seq::empty()
    } else {
        after_last_colon(s.drop_last()).push(s.last())
    }
}

/// `localhost` with the port of the server's address.
pub open spec fn alternate_host(host: Seq<char>) -> Seq<char> {
    "localhost:"@ + after_last_colon(host)
}

/// Some `host` header names this server, by its address or as `localhost`.
pub open spec fn host_ok(headers: Seq<(Seq<char>, Seq<char>)>, host: Seq<char>) -> bool {
    exists|i: int|
        0 <= i < headers.len() && (#[trigger] headers[i]).0 == "host"@ && (headers[i].1 == host
            || headers[i].1 == alternate_host(host))
}

/// The first `origin` header, if there is one, is this server's own page.
pub open spec fn origin_ok(headers: Seq<(Seq<char>, Seq<char>)>, host: Seq<char>) -> bool {
    match first_header(headers, "origin"@) {
        None => true,
        Some(o) => o == "http://"@ + host || o == "http://"@ + alternate_host(host),
    }
}

/// Whether a request may be served.
#[derive(PartialEq, Eq, Structural)]
pub enum Admission {
    Allowed,
    /// No `host` header names this server.
    InvalidHost,
    /// The request comes from another site's page.
    InvalidOrigin,
}

fn port_of(host: &Vec<char>) -> (r: Vec<char>)
    ensures
        r@ == after_last_colon(host@),
{
    let mut start: usize = host.len();
    assert(host@.take(start as int) =~= host@);
    while start > 0 && host[start - 1] != ':'
        invariant
            start <= host@.len(),
            after_last_colon(host@) == after_last_colon(host@.take(start as int)) + host@.skip(
                start as int,
            ),
        decreases start,
    {
        let ghost t = host@.take(start as int);
        assert(t.drop_last() =~= host@.take(start - 1));
        assert(after_last_colon(t.drop_last()).push(t.last()) + host@.skip(start as int)
            =~= after_last_colon(host@.take(start - 1)) + host@.skip(start - 1));
        start = start - 1;
    }
    let mut r: Vec<char> = Vec::new();
    let mut k: usize = start;
    while k < host.len()
        invariant
            start <= k <= host@.len(),
            r@ =~= host@.subrange(start as int, k as int),
        decreases host@.len() - k,
    {
        r.push(host[k]);
        k = k + 1;
    }
    r
}

fn concat_chars(a: &str, b: &Vec<char>) -> (r: Vec<char>)
    ensures
        r@ == a@ + b@,
{
    let mut r = chars_of(a);
    let mut i: usize = 0;
    let ghost start = r@;
    while i < b.len()
        invariant
            i <= b@.len(),
            r@ =~= start + b@.take(i as int),
        decreases b@.len() - i,
    {
        r.push(b[i]);
        i = i + 1;
    }
    r
}

/// Whether a request with these headers may be served by the server at
/// `host`: some `host` header must name it (by its address, or as
/// `localhost` with its port), and an `origin` header, when there is one,
/// must be the page of one of those two names.
pub fn admission(headers: &Vec<(String, String)>, host: &str) -> (r: Admission)
    ensures
        r == (if !host_ok(header_views(headers@), host@) {
            Admission::InvalidHost
        } else if !origin_ok(header_views(headers@), host@) {
            Admission::InvalidOrigin
        } else {
            Admission::Allowed
        }),
{
    let ghost hs = header_views(headers@);
    let own = chars_of(host);
    let port = port_of(&own);
    let alternate = concat_chars("localhost:", &port);
    let host_key = chars_of("host");
    let mut found = false;
    let mut i: usize = 0;
    while i < headers.len() && !found
        invariant
            i <= headers@.len(),
            hs == header_views(headers@),
            own@ == host@,
            alternate@ == alternate_host(host@),
            host_key@ == "host"@,
            found ==> host_ok(hs, host@),
            !found ==> forall|j: int|
                0 <= j < i ==> !((#[trigger] hs[j]).0 == "host"@ && (hs[j].1 == host@ || hs[j].1
                    == alternate_host(host@))),
        decreases headers@.len() - i,
    {
        let key = chars_of(headers[i].0.as_str());
        let value = chars_of(headers[i].1.as_str());
        if chars_eq(&key, &host_key) && (chars_eq(&value, &own) || chars_eq(&value, &alternate)) {
            assert(hs[i as int] == (headers@[i as int].0@, headers@[i as int].1@));
            found = true;
        }
        i = i + 1;
    }
    if !found {
        return Admission::InvalidHost;
    }
    match find_header(headers, "origin") {
        None => Admission::Allowed,
        Some(origin) => {
            let o = chars_of(origin.as_str());
            let page = concat_chars("http://", &own);
            let alternate_page = concat_chars("http://", &alternate);
            if chars_eq(&o, &page) || chars_eq(&o, &alternate_page) {
                Admission::Allowed
            } else {
                Admission::InvalidOrigin
            }
        },
    }
}

/// Whether the request's host and origin are this server's own.
pub fn valid_request_origin(headers: &Vec<(String, String)>, host: &str) -> (r: bool)
    ensures
        r == (host_ok(header_views(headers@), host@) && origin_ok(header_views(headers@), host@)),
{
    match admission(headers, host) {
        Admission::Allowed => true,
        _ => false,
    }
}

/// What the notebook server does with a request.
#[derive(PartialEq, Eq, Structural)]
pub enum Route {
    /// `GET /`: the page.
    Page,
    /// `GET /api/state`: the notebook's snapshot.
    State,
    /// `POST /api/signal`: a widget changed.
    Signal,
    NotFound,
}

pub fn route(method: &str, path: &str) -> (r: Route)
    ensures
        r == (if method@ == "GET"@ && path@ == "/"@ {
            Route::Page
        } else if method@ == "GET"@ && path@ == "/api/state"@ {
            Route::State
        } else if method@ == "POST"@ && path@ == "/api/signal"@ {
            Route::Signal
        } else {
            Route::NotFound
        }),
{
    if str_eq(method, "GET") && str_eq(path, "/") {
        Route::Page
    } else if str_eq(method, "GET") && str_eq(path, "/api/state") {
        Route::State
    } else if str_eq(method, "POST") && str_eq(path, "/api/signal") {
        Route::Signal
    } else {
        Route::NotFound
    }
}

/// What the editor server does with a request.
#[derive(PartialEq, Eq, Structural)]
pub enum EditorRoute {
    /// `GET /`: the page.
    Page,
    /// `GET /api/source`: the source file and its cells.
    Source,
    /// `GET /api/state`: the worker's snapshot, with the build status.
    State,
    /// `POST /api/signal` or `POST /api/run`: passed on to the worker.
    Forward,
    /// `POST /api/source`: save the whole file.
    SaveSource,
    /// `POST /api/cell`: save one cell.
    SaveCell,
    NotFound,
}

pub fn editor_route(method: &str, path: &str) -> (r: EditorRoute)
    ensures
        r == (if method@ == "GET"@ && path@ == "/"@ {
            EditorRoute::Page
        } else if method@ == "GET"@ && path@ == "/api/source"@ {
            EditorRoute::Source
        } else if method@ == "GET"@ && path@ == "/api/state"@ {
            EditorRoute::State
        } else if method@ == "POST"@ && (path@ == "/api/signal"@ || path@ == "/api/run"@) {
            EditorRoute::Forward
        } else if method@ == "POST"@ && path@ == "/api/source"@ {
            EditorRoute::SaveSource
        } else if method@ == "POST"@ && path@ == "/api/cell"@ {
            EditorRoute::SaveCell
        } else {
            EditorRoute::NotFound
        }),
{
    let get = str_eq(method, "GET");
    let post = str_eq(method, "POST");
    if get && str_eq(path, "/") {
        EditorRoute::Page
    } else if get && str_eq(path, "/api/source") {
        EditorRoute::Source
    } else if get && str_eq(path, "/api/state") {
        EditorRoute::State
    } else if post && (str_eq(path, "/api/signal") || str_eq(path, "/api/run")) {
        EditorRoute::Forward
    } else if post && str_eq(path, "/api/source") {
        EditorRoute::SaveSource
    } else if post && str_eq(path, "/api/cell") {
        EditorRoute::SaveCell
    } else {
        EditorRoute::NotFound
    }
}

/// The head of a response: status line, content type and length, no
/// caching, no content sniffing, and the connection closed afterwards.
pub open spec fn response_head_text(status: Seq<char>, mime: Seq<char>, length: nat) -> Seq<char> {
    "HTTP/1.1 "@ + status + "\r\nContent-Type: "@ + mime + "\r\nContent-Length: "@ + decimal(length)
        + "\r\nCache-Control: no-store\r\nX-Content-Type-Options: nosniff\r\nConnection: close\r\n\r\n"@
}

pub fn response_head(status: &str, mime: &str, length: usize) -> (r: String)
    ensures
        r@ == response_head_text(status@, mime@, length as nat),
{
    let mut r = "HTTP/1.1 ".to_owned();
    push_str(&mut r, status);
    push_str(&mut r, "\r\nContent-Type: ");
    push_str(&mut r, mime);
    push_str(&mut r, "\r\nContent-Length: ");
    let digits = decimal_string(length);
    push_str(&mut r, digits.as_str());
    push_str(
        &mut r,
        "\r\nCache-Control: no-store\r\nX-Content-Type-Options: nosniff\r\nConnection: close\r\n\r\n",
    );
    r
}

/// The head of a request the editor sends to its notebook worker.
pub open spec fn worker_request_text(method: Seq<char>, path: Seq<char>, addr: Seq<char>, length: nat) -> Seq<char> {
    method + " "@ + path + " HTTP/1.1\r\nHost: "@ + addr
        + "\r\nContent-Type: application/json\r\nContent-Length: "@ + decimal(length)
        + "\r\nConnection: close\r\n\r\n"@
}

pub fn worker_request_head(method: &str, path: &str, addr: &str, length: usize) -> (r: String)
    ensures
        r@ == worker_request_text(method@, path@, addr@, length as nat),
{
    let mut r = method.to_owned();
    push_str(&mut r, " ");
    push_str(&mut r, path);
    push_str(&mut r, " HTTP/1.1\r\nHost: ");
    push_str(&mut r, addr);
    push_str(&mut r, "\r\nContent-Type: application/json\r\nContent-Length: ");
    let digits = decimal_string(length);
    push_str(&mut r, digits.as_str());
    push_str(&mut r, "\r\nConnection: close\r\n\r\n");
    r
}

/// Why a worker's response could not be read.
#[derive(Debug)]
pub enum WorkerResponseError {
    /// No blank line ends the head.
    NoHeadEnd,
    /// The head is not UTF-8; the decoder's message.
    InvalidHead(String),
    /// The status line has no numeric status.
    InvalidStatus,
}

impl WorkerResponseError {
    pub fn message(&self) -> (m: String)
        ensures
            m@ == match *self {
                WorkerResponseError::NoHeadEnd => "invalid worker HTTP response"@,
                WorkerResponseError::InvalidHead(text) => text@,
                WorkerResponseError::InvalidStatus => "invalid worker status"@,
            },
    {
        match self {
            WorkerResponseError::NoHeadEnd => "invalid worker HTTP response".to_owned(),
            WorkerResponseError::InvalidHead(text) => text.clone(),
            WorkerResponseError::InvalidStatus => "invalid worker status".to_owned(),
        }
    }
}

/// The words of the head of a response whose blank line starts at `p`, when
/// the head is UTF-8.
pub open spec fn head_words(response: Seq<u8>, p: int) -> Seq<Seq<char>> {
    words(decode_utf8(response.take(p)))
}

/// The status a head's words give: the second word, a decimal number that
/// fits a `u16`.
pub open spec fn status_of(ws: Seq<Seq<char>>) -> Option<nat> {
    if ws.len() > 1 {
        match unsigned_value(ws[1]) {
            Some(v) => if v <= u16::MAX {
                Some(v)
            } else {
                None
            },
            None => None,
        }
    } else {
        None
    }
}

/// The status of a worker's response, and where its body starts.
///
/// The head ends at the first blank line; the status is the second word of
/// the head.
pub fn worker_status(response: &[u8]) -> (r: Result<(u16, usize), WorkerResponseError>)
    ensures
        match r {
            Ok((status, body_start)) => exists|p: int|
                first_blank_line(response@, p) && valid_utf8(response@.take(p)) && body_start == p
                    + 4 && status_of(head_words(response@, p)) == Some(status as nat),
            Err(WorkerResponseError::NoHeadEnd) => !has_blank_line(response@),
            Err(WorkerResponseError::InvalidHead(m)) => exists|p: int|
                first_blank_line(response@, p) && !valid_utf8(response@.take(p))
                    && m@ == utf8_error_text(response@.take(p)),
            Err(WorkerResponseError::InvalidStatus) => exists|p: int|
                first_blank_line(response@, p) && valid_utf8(response@.take(p)) && status_of(
                    head_words(response@, p),
                ) is None,
        },
{
    let split = match find_blank_line(response) {
        Some(p) => p,
        None => {
            return Err(WorkerResponseError::NoHeadEnd);
        },
    };
    let total = response.len();
    let mut head: Vec<u8> = Vec::new();
    let mut i: usize = 0;
    while i < split
        invariant
            split + 4 <= response@.len(),
            total == response@.len(),
            i <= split,
            head@ =~= response@.take(i as int),
        decreases split - i,
    {
        head.push(response[i]);
        i = i + 1;
    }
    let text = match utf8_text(head.as_slice()) {
        Ok(text) => text,
        Err(message) => {
            return Err(WorkerResponseError::InvalidHead(message));
        },
    };
    let chars = chars_of(text.as_str());
    let ws = split_words(&chars);
    if ws.len() < 2 {
        return Err(WorkerResponseError::InvalidStatus);
    }
    match parse_unsigned(&ws[1], 65535) {
        Some(status) => Ok((status as u16, split + 4)),
        None => Err(WorkerResponseError::InvalidStatus),
    }
}

} // verus!
