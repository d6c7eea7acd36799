//! The HTTP request parser: a line-oriented state machine over raw bytes.
//!
//! The stream side (reading bytes off a socket) lives outside the library;
//! everything here works on the byte sequence the stream yields.

use vstd::prelude::*;

use crate::ascii::{
    bytes_eq, first_at, first_non_ws, first_ws, is_ws, lemma_first_at, lemma_first_non_ws,
    lemma_first_ws, scan_for, scan_non_ws, scan_ws, spec_lower, spec_trim, subvec, to_lower, trim,
};
use crate::dict::{spec_insert, unique_keys, Dict};
use crate::util::{spec_decode, url_decode};

verus! {

#[derive(Debug, Clone, Copy, PartialEq, Eq, Structural)]
pub enum HttpMethod {
    Unknown,
    GET,
    POST,
    PUT,
    PATCH,
    DELETE,
}

impl Default for HttpMethod {
    fn default() -> (r: Self)
        ensures
            r == HttpMethod::Unknown,
    {
        HttpMethod::Unknown
    }
}

#[derive(Debug, Clone, Copy, PartialEq, Eq, Structural)]
pub enum HttpVersion {
    V0_9,
    V1,
    V1_1,
    Unknown,
}

impl Default for HttpVersion {
    fn default() -> (r: Self)
        ensures
            r == HttpVersion::Unknown,
    {
        HttpVersion::Unknown
    }
}

/// Why a request was rejected.  A parse failure closes the connection
/// without a response; only a log line records it.
#[derive(Debug, Clone, Copy, PartialEq, Eq, Structural)]
pub enum ParseError {
    /// The request line has no recognised method, or fewer than two tokens.
    InvalidMethod,
    /// A version token that is neither `HTTP/1.0` nor `HTTP/1.1`.
    InvalidVersion,
    /// A header line without a colon.
    InvalidHeaderLine,
    /// A malformed percent-escape in the path or the query string.
    InvalidEncoding,
    /// More than `MAX_HEADER_SIZE` bytes before the blank-line terminator.
    HeaderTooLarge,
    /// End of input before the blank-line terminator.
    Truncated,
    /// The byte stream itself failed; raised by the caller that reads it.
    IoError,
}

/// Byte budget for the request line and all header lines together.
pub const MAX_HEADER_SIZE: usize = 1024 * 4;

/// Mathematical image of a parsed request.
pub ghost struct ReqView {
    pub method: HttpMethod,
    pub path: Seq<u8>,
    pub raw_path: Seq<u8>,
    pub version: HttpVersion,
    pub headers: Seq<(Seq<u8>, Seq<u8>)>,
    pub parameters: Option<Seq<(Seq<u8>, Seq<u8>)>>,
}

/// A parsed request: decoded paths, lower-cased header and parameter keys.
#[derive(Debug)]
pub struct HttpRequest {
    pub method: HttpMethod,
    pub path: Vec<u8>,
    pub raw_path: Vec<u8>,
    pub version: HttpVersion,
    pub headers: Dict,
    pub parameters: Option<Dict>,
}

impl View for HttpRequest {
    type V = ReqView;

    open spec fn view(&self) -> ReqView {
        ReqView {
            method: self.method,
            path: self.path@,
            raw_path: self.raw_path@,
            version: self.version,
            headers: self.headers@,
            parameters: match self.parameters {
                Some(d) => Some(d@),
                None => None,
            },
        }
    }
}

/// Key uniqueness of the header and parameter maps.
pub open spec fn req_view_wf(r: ReqView) -> bool {
    unique_keys(r.headers) && match r.parameters {
        Some(p) => unique_keys(p),
        None => true,
    }
}

/// The empty request that parsing starts from.
pub open spec fn spec_req_default() -> ReqView {
    ReqView {
        method: HttpMethod::Unknown,
        path: Seq::empty(),
        raw_path: Seq::empty(),
        version: HttpVersion::Unknown,
        headers: Seq::empty(),
        parameters: None,
    }
}

impl HttpRequest {
    pub open spec fn wf(&self) -> bool {
        req_view_wf(self@)
    }
}

impl Default for HttpRequest {
    fn default() -> (r: Self)
        ensures
            r@ == spec_req_default(),
            r.wf(),
    {
        let r = HttpRequest {
            method: HttpMethod::Unknown,
            path: Vec::new(),
            raw_path: Vec::new(),
            version: HttpVersion::Unknown,
            headers: Dict::new(),
            parameters: None,
        };
        proof {
            assert(r@.path =~= spec_req_default().path);
            assert(r@.raw_path =~= spec_req_default().raw_path);
            assert(r@.headers =~= spec_req_default().headers);
        }
        r
    }
}

pub open spec fn tok_get() -> Seq<u8> {
    seq![103u8, 101u8, 116u8]
}

pub open spec fn tok_post() -> Seq<u8> {
    seq![112u8, 111u8, 115u8, 116u8]
}

pub open spec fn tok_put() -> Seq<u8> {
    seq![112u8, 117u8, 116u8]
}

pub open spec fn tok_patch() -> Seq<u8> {
    seq![112u8, 97u8, 116u8, 99u8, 104u8]
}

pub open spec fn tok_delete() -> Seq<u8> {
    seq![100u8, 101u8, 108u8, 101u8, 116u8, 101u8]
}

pub open spec fn tok_http10() -> Seq<u8> {
    seq![104u8, 116u8, 116u8, 112u8, 47u8, 49u8, 46u8, 48u8]
}

pub open spec fn tok_http11() -> Seq<u8> {
    seq![104u8, 116u8, 116u8, 112u8, 47u8, 49u8, 46u8, 49u8]
}

/// Method named by a lower-cased token.
pub open spec fn method_of(t: Seq<u8>) -> Option<HttpMethod> {
    if t == tok_get() {
        Some(HttpMethod::GET)
    } else if t == tok_post() {
        Some(HttpMethod::POST)
    } else if t == tok_put() {
        Some(HttpMethod::PUT)
    } else if t == tok_patch() {
        Some(HttpMethod::PATCH)
    } else if t == tok_delete() {
        Some(HttpMethod::DELETE)
    } else {
        None
    }
}

/// What parsing one request line yields.
pub ghost struct ReqLine {
    pub method: HttpMethod,
    pub path: Seq<u8>,
    pub raw_path: Seq<u8>,
    pub version: HttpVersion,
    pub parameters: Option<Seq<(Seq<u8>, Seq<u8>)>>,
}

/// One query segment folded into the accumulated parameter map: split
/// at the first `=`, the value being everything after it; an empty key
/// is skipped; the decoded key is lower-cased; a later binding of a key
/// wins.
pub open spec fn seg_apply(seg: Seq<u8>, acc: Seq<(Seq<u8>, Seq<u8>)>) -> Result<
    Seq<(Seq<u8>, Seq<u8>)>,
    ParseError,
> {
    let e1 = first_at(seg, 61, 0);
    let key = seg.take(e1);
    if key.len() == 0 {
        Ok(acc)
    } else {
        let value = if e1 == seg.len() {
            Seq::empty()
        } else {
            seg.skip(e1 + 1)
        };
        match spec_decode(key) {
            None => Err(ParseError::InvalidEncoding),
            Some(dk) => match spec_decode(value) {
                None => Err(ParseError::InvalidEncoding),
                Some(dv) => Ok(spec_insert(acc, spec_lower(dk), dv)),
            },
        }
    }
}

/// The query string folded segment by segment, segments separated by `&`.
pub open spec fn params_from(qs: Seq<u8>, i: int, acc: Seq<(Seq<u8>, Seq<u8>)>) -> Result<
    Seq<(Seq<u8>, Seq<u8>)>,
    ParseError,
>
    decreases qs.len() + 1 - i,
    via params_from_dec
{
    if i < 0 || i > qs.len() {
        Ok(acc)
    } else {
        let a = first_at(qs, 38, i);
        match seg_apply(qs.subrange(i, a), acc) {
            Err(e) => Err(e),
            Ok(acc2) => if a == qs.len() {
                Ok(acc2)
            } else {
                params_from(qs, a + 1, acc2)
            },
        }
    }
}

#[via_fn]
proof fn params_from_dec(qs: Seq<u8>, i: int, acc: Seq<(Seq<u8>, Seq<u8>)>) {
    if 0 <= i <= qs.len() {
        lemma_first_at(qs, 38, i);
    }
}

/// The parameter map of a whole query string.
pub open spec fn params_of(qs: Seq<u8>) -> Result<Seq<(Seq<u8>, Seq<u8>)>, ParseError> {
    params_from(qs, 0, Seq::empty())
}

/// What parsing the request line yields: whitespace-separated tokens, at
/// least two of them; a case-insensitive method; the raw path split at
/// the first `?` into path and query; both paths percent-decoded; an
/// optional case-insensitive version token, `HTTP/0.9` when absent.
pub open spec fn parse_request_line_spec(line: Seq<u8>) -> Result<ReqLine, ParseError> {
    let i1 = first_non_ws(line, 0);
    let e1 = first_ws(line, i1);
    let i2 = first_non_ws(line, e1);
    if i2 >= line.len() {
        Err(ParseError::InvalidMethod)
    } else {
        let tok1 = line.subrange(i1, e1);
        let e2 = first_ws(line, i2);
        let tok2 = line.subrange(i2, e2);
        match method_of(spec_lower(tok1)) {
            None => Err(ParseError::InvalidMethod),
            Some(m) => match spec_decode(tok2) {
                None => Err(ParseError::InvalidEncoding),
                Some(draw) => {
                    let q1 = first_at(tok2, 63, 0);
                    match spec_decode(tok2.take(q1)) {
                        None => Err(ParseError::InvalidEncoding),
                        Some(dpath) => {
                            let params = if q1 == tok2.len() {
                                Ok(None)
                            } else {
                                match params_of(tok2.subrange(q1 + 1, first_at(tok2, 63, q1 + 1))) {
                                    Err(e) => Err(e),
                                    Ok(ps) => Ok(Some(ps)),
                                }
                            };
                            match params {
                                Err(e) => Err(e),
                                Ok(ps) => {
                                    let i3 = first_non_ws(line, e2);
                                    if i3 >= line.len() {
                                        Ok(ReqLine {
                                            method: m,
                                            path: dpath,
                                            raw_path: draw,
                                            version: HttpVersion::V0_9,
                                            parameters: ps,
                                        })
                                    } else {
                                        let tok3 = spec_lower(
                                            line.subrange(i3, first_ws(line, i3)),
                                        );
                                        if tok3 == tok_http10() {
                                            Ok(ReqLine {
                                                method: m,
                                                path: dpath,
                                                raw_path: draw,
                                                version: HttpVersion::V1,
                                                parameters: ps,
                                            })
                                        } else if tok3 == tok_http11() {
                                            Ok(ReqLine {
                                                method: m,
                                                path: dpath,
                                                raw_path: draw,
                                                version: HttpVersion::V1_1,
                                                parameters: ps,
                                            })
                                        } else {
                                            Err(ParseError::InvalidVersion)
                                        }
                                    }
                                },
                            }
                        },
                    }
                },
            },
        }
    }
}

/// A request after its request line: the line's fields are taken over,
/// the headers stay.
pub open spec fn apply_req_line(r: ReqView, rl: ReqLine) -> ReqView {
    ReqView {
        method: rl.method,
        path: rl.path,
        raw_path: rl.raw_path,
        version: rl.version,
        headers: r.headers,
        parameters: rl.parameters,
    }
}

/// What parsing one header line yields: split at the first colon, the
/// key trimmed and lower-cased, the value trimmed; no colon is an error.
pub open spec fn parse_header_line_spec(line: Seq<u8>, headers: Seq<(Seq<u8>, Seq<u8>)>) -> Result<
    Seq<(Seq<u8>, Seq<u8>)>,
    ParseError,
> {
    let c = first_at(line, 58, 0);
    if c == line.len() {
        Err(ParseError::InvalidHeaderLine)
    } else {
        Ok(
            spec_insert(
                headers,
                spec_lower(spec_trim(line.take(c))),
                spec_trim(line.skip(c + 1)),
            ),
        )
    }
}

/// Parse one header line into the header map.
pub fn parse_header_line(line: &Vec<u8>, headers: &mut Dict) -> (r: Result<(), ParseError>)
    requires
        old(headers).wf(),
    ensures
        final(headers).wf(),
        match r {
            Ok(()) => parse_header_line_spec(line@, old(headers)@) == Ok::<_, ParseError>(
                final(headers)@,
            ),
            Err(e) => parse_header_line_spec(line@, old(headers)@) == Err::<
                Seq<(Seq<u8>, Seq<u8>)>,
                _,
            >(e) && final(headers)@ == old(headers)@,
        },
{
    proof {
        lemma_first_at(line@, 58, 0);
    }
    let c = scan_for(line, 58, 0);
    if c == line.len() {
        return Err(ParseError::InvalidHeaderLine);
    }
    let key = to_lower(&trim(&subvec(line, 0, c)));
    let value = trim(&subvec(line, c + 1, line.len()));
    proof {
        assert(line@.subrange(0, c as int) =~= line@.take(c as int));
        assert(line@.subrange(c + 1, line@.len() as int) =~= line@.skip(c + 1));
    }
    headers.insert(key, value);
    Ok(())
}

/// Parse a query string into a parameter map.
fn parse_params(qs: &Vec<u8>) -> (r: Result<Dict, ParseError>)
    ensures
        match r {
            Ok(d) => params_of(qs@) == Ok::<_, ParseError>(d@) && d.wf(),
            Err(e) => params_of(qs@) == Err::<Seq<(Seq<u8>, Seq<u8>)>, _>(e),
        },
{
    let mut d = Dict::new();
    let mut i: usize = 0;
    proof {
        assert(params_of(qs@) == params_from(qs@, 0, d@));
    }
    loop
        invariant_except_break
            i <= qs@.len(),
            d.wf(),
            params_of(qs@) == params_from(qs@, i as int, d@),
        ensures
            d.wf(),
            params_of(qs@) == Ok::<_, ParseError>(d@),
        decreases qs@.len() - i,
    {
        proof {
            lemma_first_at(qs@, 38, i as int);
        }
        let a = scan_for(qs, 38, i);
        let seg = subvec(qs, i, a);
        let ghost acc0 = d@;
        // fold this segment into the map
        proof {
            lemma_first_at(seg@, 61, 0);
        }
        let e1 = scan_for(&seg, 61, 0);
        let key = subvec(&seg, 0, e1);
        proof {
            assert(seg@.subrange(0, e1 as int) =~= seg@.take(e1 as int));
        }
        if key.len() > 0 {
            let value: Vec<u8> = if e1 == seg.len() {
                Vec::new()
            } else {
                let v = subvec(&seg, e1 + 1, seg.len());
                proof {
                    assert(v@ =~= seg@.skip(e1 + 1));
                }
                v
            };
            let dk = match url_decode(&key) {
                Ok(x) => x,
                Err(_) => {
                    return Err(ParseError::InvalidEncoding);
                },
            };
            let dv = match url_decode(&value) {
                Ok(x) => x,
                Err(_) => {
                    return Err(ParseError::InvalidEncoding);
                },
            };
            let lk = to_lower(&dk);
            d.insert(lk, dv);
            proof {
                assert(seg_apply(seg@, acc0) == Ok::<_, ParseError>(d@));
            }
        } else {
            proof {
                assert(seg_apply(seg@, acc0) == Ok::<_, ParseError>(d@));
            }
        }
        if a == qs.len() {
            break ;
        }
        i = a + 1;
    }
    Ok(d)
}

/// Parse the request line into the request; on an error the request is
/// left as it was.
pub fn parse_request_line(line: &Vec<u8>, request: &mut HttpRequest) -> (r: Result<(), ParseError>)
    requires
        old(request).wf(),
    ensures
        final(request).wf(),
        match r {
            Ok(()) => parse_request_line_spec(line@) is Ok && final(request)@ == apply_req_line(
                old(request)@,
                parse_request_line_spec(line@).unwrap(),
            ),
            Err(e) => parse_request_line_spec(line@) == Err::<ReqLine, _>(e) && *final(request)
                == *old(request),
        },
{
    proof {
        lemma_first_non_ws(line@, 0);
        lemma_first_ws(line@, first_non_ws(line@, 0));
    }
    let i1 = scan_non_ws(line, 0);
    let e1 = scan_ws(line, i1);
    proof {
        lemma_first_non_ws(line@, e1 as int);
    }
    let i2 = scan_non_ws(line, e1);
    if i2 == line.len() {
        return Err(ParseError::InvalidMethod);
    }
    proof {
        lemma_first_ws(line@, i2 as int);
    }
    let e2 = scan_ws(line, i2);
    let tok1 = to_lower(&subvec(line, i1, e1));
    let method = if bytes_eq(&tok1, &vec![103u8, 101u8, 116u8]) {
        HttpMethod::GET
    } else if bytes_eq(&tok1, &vec![112u8, 111u8, 115u8, 116u8]) {
        HttpMethod::POST
    } else if bytes_eq(&tok1, &vec![112u8, 117u8, 116u8]) {
        HttpMethod::PUT
    } else if bytes_eq(&tok1, &vec![112u8, 97u8, 116u8, 99u8, 104u8]) {
        HttpMethod::PATCH
    } else if bytes_eq(&tok1, &vec![100u8, 101u8, 108u8, 101u8, 116u8, 101u8]) {
        HttpMethod::DELETE
    } else {
        proof {
            assert(method_of(spec_lower(line@.subrange(i1 as int, e1 as int))) is None);
        }
        return Err(ParseError::InvalidMethod);
    };
    proof {
        assert(method_of(spec_lower(line@.subrange(i1 as int, e1 as int))) == Some(method));
    }
    let raw = subvec(line, i2, e2);
    let decoded_raw = match url_decode(&raw) {
        Ok(d) => d,
        Err(_) => {
            return Err(ParseError::InvalidEncoding);
        },
    };
    proof {
        lemma_first_at(raw@, 63, 0);
    }
    let q1 = scan_for(&raw, 63, 0);
    let pathpart = subvec(&raw, 0, q1);
    proof {
        assert(raw@.subrange(0, q1 as int) =~= raw@.take(q1 as int));
    }
    let decoded_path = match url_decode(&pathpart) {
        Ok(d) => d,
        Err(_) => {
            return Err(ParseError::InvalidEncoding);
        },
    };
    let parameters: Option<Dict> = if q1 < raw.len() {
        proof {
            lemma_first_at(raw@, 63, q1 + 1);
        }
        let q2 = scan_for(&raw, 63, q1 + 1);
        let qs = subvec(&raw, q1 + 1, q2);
        match parse_params(&qs) {
            Ok(d) => Some(d),
            Err(e) => {
                return Err(e);
            },
        }
    } else {
        None
    };
    proof {
        lemma_first_non_ws(line@, e2 as int);
    }
    let i3 = scan_non_ws(line, e2);
    let version = if i3 == line.len() {
        HttpVersion::V0_9
    } else {
        proof {
            lemma_first_ws(line@, i3 as int);
        }
        let e3 = scan_ws(line, i3);
        let tok3 = to_lower(&subvec(line, i3, e3));
        if bytes_eq(&tok3, &vec![104u8, 116u8, 116u8, 112u8, 47u8, 49u8, 46u8, 48u8]) {
            HttpVersion::V1
        } else if bytes_eq(&tok3, &vec![104u8, 116u8, 116u8, 112u8, 47u8, 49u8, 46u8, 49u8]) {
            HttpVersion::V1_1
        } else {
            return Err(ParseError::InvalidVersion);
        }
    };
    request.method = method;
    request.path = decoded_path;
    request.raw_path = decoded_raw;
    request.version = version;
    request.parameters = parameters;
    Ok(())
}

/// The parser's running state: bytes consumed so far, the line being
/// accumulated, the previous byte, and the request built up to here.
pub ghost struct ParserState {
    pub total: int,
    pub line: Seq<u8>,
    pub prev: Option<u8>,
    pub req: ReqView,
}

pub open spec fn init_parser_state() -> ParserState {
    ParserState { total: 0, line: Seq::empty(), prev: None, req: spec_req_default() }
}

/// One byte at a time: `\r` is stripped, `\n` closes a line.  A `\r\n`
/// on an empty line completes the request.  Until the request line is
/// parsed (the method is still `Unknown`) a closed line is a request
/// line, afterwards a header line.  Byte `MAX_HEADER_SIZE + 1` aborts with
/// `HeaderTooLarge` unless it completed the request; exhausting the
/// input first is `Truncated`.
pub open spec fn run_parser(rest: Seq<u8>, st: ParserState) -> Result<ReqView, ParseError>
    decreases rest.len(),
{
    if rest.len() == 0 {
        Err(ParseError::Truncated)
    } else {
        let b = rest[0];
        let total2 = st.total + 1;
        if b == 10 {
            if st.prev == Some(13u8) && st.line.len() == 0 {
                Ok(st.req)
            } else if st.req.method == HttpMethod::Unknown {
                match parse_request_line_spec(st.line) {
                    Err(e) => Err(e),
                    Ok(rl) => {
                        let st2 = ParserState {
                            total: total2,
                            line: Seq::empty(),
                            prev: Some(10u8),
                            req: apply_req_line(st.req, rl),
                        };
                        if total2 > MAX_HEADER_SIZE {
                            Err(ParseError::HeaderTooLarge)
                        } else {
                            run_parser(rest.drop_first(), st2)
                        }
                    },
                }
            } else {
                match parse_header_line_spec(st.line, st.req.headers) {
                    Err(e) => Err(e),
                    Ok(h2) => {
                        let st2 = ParserState {
                            total: total2,
                            line: Seq::empty(),
                            prev: Some(10u8),
                            req: ReqView {
                                method: st.req.method,
                                path: st.req.path,
                                raw_path: st.req.raw_path,
                                version: st.req.version,
                                headers: h2,
                                parameters: st.req.parameters,
                            },
                        };
                        if total2 > MAX_HEADER_SIZE {
                            Err(ParseError::HeaderTooLarge)
                        } else {
                            run_parser(rest.drop_first(), st2)
                        }
                    },
                }
            }
        } else {
            let st2 = ParserState {
                total: total2,
                line: if b == 13 {
                    st.line
                } else {
                    st.line.push(b)
                },
                prev: Some(b),
                req: st.req,
            };
            if total2 > MAX_HEADER_SIZE {
                Err(ParseError::HeaderTooLarge)
            } else {
                run_parser(rest.drop_first(), st2)
            }
        }
    }
}

/// What the whole parser yields on a byte sequence.
pub open spec fn parse_http_spec(input: Seq<u8>) -> Result<ReqView, ParseError> {
    run_parser(input, init_parser_state())
}

/// Parse a raw request held in a byte buffer, as the byte-at-a-time
/// stream parser reads it.  Trailing bytes after the blank-line
/// terminator are ignored, as a stream reader never reads them.
pub fn parse_http_request(input: &Vec<u8>) -> (r: Result<HttpRequest, ParseError>)
    ensures
        match r {
            Ok(req) => parse_http_spec(input@) == Ok::<_, ParseError>(req@) && req.wf(),
            Err(e) => parse_http_spec(input@) == Err::<ReqView, _>(e),
        },
{
    let mut request = HttpRequest::default();
    let mut line: Vec<u8> = Vec::new();
    let mut prev: Option<u8> = None;
    let mut total: usize = 0;
    let mut i: usize = 0;
    proof {
        assert(input@.skip(0) =~= input@);
    }
    while i < input.len()
        invariant
            i <= input@.len(),
            total == i,
            total <= MAX_HEADER_SIZE,
            request.wf(),
            parse_http_spec(input@) == run_parser(
                input@.skip(i as int),
                ParserState { total: total as int, line: line@, prev: prev, req: request@ },
            ),
        decreases input.len() - i,
    {
        let ghost st = ParserState {
            total: total as int,
            line: line@,
            prev: prev,
            req: request@,
        };
        let b = input[i];
        proof {
            assert(input@.skip(i as int)[0] == b);
            assert(input@.skip(i as int).drop_first() =~= input@.skip(i + 1));
        }
        total = total + 1;
        if b == 10 {
            let blank = line.len() == 0;
            let was_cr = match prev {
                Some(p) => p == 13,
                None => false,
            };
            if was_cr && blank {
                return Ok(request);
            } else if matches!(request.method, HttpMethod::Unknown) {
                match parse_request_line(&line, &mut request) {
                    Ok(()) => {},
                    Err(e) => {
                        return Err(e);
                    },
                }
            } else {
                match parse_header_line(&line, &mut request.headers) {
                    Ok(()) => {},
                    Err(e) => {
                        return Err(e);
                    },
                }
            }
            line.clear();
            proof {
                assert(line@ =~= Seq::<u8>::empty());
            }
        } else if b != 13 {
            line.push(b);
        }
        prev = Some(b);
        if total > MAX_HEADER_SIZE {
            return Err(ParseError::HeaderTooLarge);
        }
        i = i + 1;
    }
    Err(ParseError::Truncated)
}

proof fn lemma_budget_no_newline(rest: Seq<u8>, st: ParserState)
    requires
        0 <= st.total <= MAX_HEADER_SIZE,
        rest.len() > MAX_HEADER_SIZE - st.total,
        forall|j: int| 0 <= j <= MAX_HEADER_SIZE - st.total ==> rest[j] != 10,
    ensures
        run_parser(rest, st) == Err::<ReqView, ParseError>(ParseError::HeaderTooLarge),
    decreases rest.len(),
{
    let b = rest[0];
    assert(b != 10);
    if st.total + 1 > MAX_HEADER_SIZE {
    } else {
        let st2 = ParserState {
            total: st.total + 1,
            line: if b == 13 {
                st.line
            } else {
                st.line.push(b)
            },
            prev: Some(b),
            req: st.req,
        };
        assert forall|j: int|
            0 <= j <= MAX_HEADER_SIZE - st2.total implies rest.drop_first()[j] != 10 by {
            assert(rest.drop_first()[j] == rest[j + 1]);
        }
        lemma_budget_no_newline(rest.drop_first(), st2);
    }
}

/// One half of the header budget: a block whose first
/// `MAX_HEADER_SIZE + 1` bytes hold no line break is rejected with
/// `HeaderTooLarge`, whatever those bytes are.
pub proof fn lemma_header_too_large(input: Seq<u8>)
    requires
        input.len() > MAX_HEADER_SIZE,
        forall|j: int| 0 <= j <= MAX_HEADER_SIZE ==> input[j] != 10,
    ensures
        parse_http_spec(input) == Err::<ReqView, ParseError>(ParseError::HeaderTooLarge),
{
    lemma_budget_no_newline(input, init_parser_state());
}

proof fn lemma_ok_within_budget(rest: Seq<u8>, st: ParserState)
    requires
        0 <= st.total <= MAX_HEADER_SIZE,
        run_parser(rest, st) is Ok,
    ensures
        exists|j: int| 0 <= j <= MAX_HEADER_SIZE - st.total && j < rest.len() && rest[j] == 10,
    decreases rest.len(),
{
    assert(rest.len() > 0);
    let b = rest[0];
    if b == 10 && st.prev == Some(13u8) && st.line.len() == 0 {
        assert(rest[0] == 10);
    } else {
        // whichever branch ran, an `Ok` means the limit check passed and
        // the recursion continued
        assert(st.total + 1 <= MAX_HEADER_SIZE);
        if b == 10 {
            if st.req.method == HttpMethod::Unknown {
                match parse_request_line_spec(st.line) {
                    Err(e) => {
                        assert(false);
                    },
                    Ok(rl) => {
                        let st2 = ParserState {
                            total: st.total + 1,
                            line: Seq::empty(),
                            prev: Some(10u8),
                            req: apply_req_line(st.req, rl),
                        };
                        lemma_ok_within_budget(rest.drop_first(), st2);
                        let j = choose|j: int|
                            0 <= j <= MAX_HEADER_SIZE - st2.total && j < rest.drop_first().len()
                                && rest.drop_first()[j] == 10;
                        assert(rest[j + 1] == 10);
                    },
                }
            } else {
                match parse_header_line_spec(st.line, st.req.headers) {
                    Err(e) => {
                        assert(false);
                    },
                    Ok(h2) => {
                        let st2 = ParserState {
                            total: st.total + 1,
                            line: Seq::empty(),
                            prev: Some(10u8),
                            req: ReqView {
                                method: st.req.method,
                                path: st.req.path,
                                raw_path: st.req.raw_path,
                                version: st.req.version,
                                headers: h2,
                                parameters: st.req.parameters,
                            },
                        };
                        lemma_ok_within_budget(rest.drop_first(), st2);
                        let j = choose|j: int|
                            0 <= j <= MAX_HEADER_SIZE - st2.total && j < rest.drop_first().len()
                                && rest.drop_first()[j] == 10;
                        assert(rest[j + 1] == 10);
                    },
                }
            }
        } else {
            let st2 = ParserState {
                total: st.total + 1,
                line: if b == 13 {
                    st.line
                } else {
                    st.line.push(b)
                },
                prev: Some(b),
                req: st.req,
            };
            lemma_ok_within_budget(rest.drop_first(), st2);
            let j = choose|j: int|
                0 <= j <= MAX_HEADER_SIZE - st2.total && j < rest.drop_first().len()
                    && rest.drop_first()[j] == 10;
            assert(rest[j + 1] == 10);
        }
    }
}

/// The other half of the header budget: parsing only ever succeeds when
/// the blank-line terminator's closing byte lies within the first
/// `MAX_HEADER_SIZE + 1` bytes; everything longer is some rejection.
pub proof fn lemma_success_is_bounded(input: Seq<u8>)
    requires
        parse_http_spec(input) is Ok,
    ensures
        exists|j: int| 0 <= j <= MAX_HEADER_SIZE && j < input.len() && input[j] == 10,
{
    lemma_ok_within_budget(input, init_parser_state());
}

/// The request target on the wire: the path, optionally followed by
/// `?` and a query string.
pub open spec fn render_target(path: Seq<u8>, qs: Option<Seq<u8>>) -> Seq<u8> {
    match qs {
        None => path,
        Some(q) => path + seq![63u8] + q,
    }
}

/// A request line on the wire: method, target and an optional version,
/// separated by single spaces.
pub open spec fn render_request_line(
    m_tok: Seq<u8>,
    path: Seq<u8>,
    qs: Option<Seq<u8>>,
    vt: Option<Seq<u8>>,
) -> Seq<u8> {
    m_tok + seq![32u8] + render_target(path, qs) + (match vt {
        Some(v) => seq![32u8] + v,
        None => Seq::<u8>::empty(),
    })
}

/// A renderable request line: a token that names a method; a decodable
/// path without whitespace or `?`; an optional query string of the same
/// shape whose parameters decode; an optional version token naming a
/// version.
pub open spec fn request_line_wf(
    m_tok: Seq<u8>,
    path: Seq<u8>,
    qs: Option<Seq<u8>>,
    vt: Option<Seq<u8>>,
) -> bool {
    &&& m_tok.len() > 0
    &&& (forall|i: int| 0 <= i < m_tok.len() ==> !is_ws(m_tok[i]))
    &&& method_of(spec_lower(m_tok)) is Some
    &&& path.len() > 0
    &&& (forall|i: int| 0 <= i < path.len() ==> !is_ws(path[i]) && path[i] != 63)
    &&& spec_decode(path) is Some
    &&& match qs {
        None => true,
        Some(q) => (forall|i: int| 0 <= i < q.len() ==> !is_ws(q[i]) && q[i] != 63)
            && spec_decode(render_target(path, qs)) is Some && params_of(q) is Ok,
    }
    &&& match vt {
        Some(v) => v.len() > 0 && (forall|i: int| 0 <= i < v.len() ==> !is_ws(v[i])) && (
        spec_lower(v) == tok_http10() || spec_lower(v) == tok_http11()),
        None => true,
    }
}

/// A header block on the wire: each pair as `Key:Value` with a CRLF.
pub open spec fn render_header_block(hs: Seq<(Seq<u8>, Seq<u8>)>) -> Seq<u8>
    decreases hs.len(),
{
    if hs.len() == 0 {
        Seq::empty()
    } else {
        hs[0].0 + seq![58u8] + hs[0].1 + seq![13u8, 10u8] + render_header_block(hs.drop_first())
    }
}

/// A whole request on the wire: request line, header lines, blank line.
pub open spec fn render_request(
    m_tok: Seq<u8>,
    path: Seq<u8>,
    qs: Option<Seq<u8>>,
    vt: Option<Seq<u8>>,
    hs: Seq<(Seq<u8>, Seq<u8>)>,
) -> Seq<u8> {
    render_request_line(m_tok, path, qs, vt) + seq![13u8, 10u8] + render_header_block(hs) + seq![
        13u8,
        10u8,
    ]
}

/// The header map the parser builds from rendered header lines: keys
/// trimmed and lower-cased, values trimmed, later keys replacing
/// earlier ones.
pub open spec fn fold_headers(
    acc: Seq<(Seq<u8>, Seq<u8>)>,
    hs: Seq<(Seq<u8>, Seq<u8>)>,
) -> Seq<(Seq<u8>, Seq<u8>)>
    decreases hs.len(),
{
    if hs.len() == 0 {
        acc
    } else {
        fold_headers(
            spec_insert(acc, spec_lower(spec_trim(hs[0].0)), spec_trim(hs[0].1)),
            hs.drop_first(),
        )
    }
}

/// A renderable header pair: no line break in key or value, no colon
/// in the key.
pub open spec fn header_pair_wf(p: (Seq<u8>, Seq<u8>)) -> bool {
    &&& (forall|j: int| 0 <= j < p.0.len() ==> p.0[j] != 10 && p.0[j] != 13 && p.0[j] != 58)
    &&& (forall|j: int| 0 <= j < p.1.len() ==> p.1[j] != 10 && p.1[j] != 13)
}

/// Renderable header pairs.
pub open spec fn header_block_wf(hs: Seq<(Seq<u8>, Seq<u8>)>) -> bool {
    forall|i: int| 0 <= i < hs.len() ==> #[trigger] header_pair_wf(hs[i])
}

/// The request-line grammar, token by token: for any method token, any
/// decodable path, an optional query string and an optional version
/// token, the line `METHOD PATH[?QS] [VERSION]` parses to exactly that
/// method, the decoded path, the decoded raw path, the query's
/// parameter map, and the named version (`HTTP/0.9` when absent).
#[verifier::rlimit(60)]
pub proof fn lemma_request_line_renders(
    m_tok: Seq<u8>,
    path: Seq<u8>,
    qs: Option<Seq<u8>>,
    vt: Option<Seq<u8>>,
)
    requires
        request_line_wf(m_tok, path, qs, vt),
    ensures
        parse_request_line_spec(render_request_line(m_tok, path, qs, vt)) == Ok::<
            ReqLine,
            ParseError,
        >(
            ReqLine {
                method: method_of(spec_lower(m_tok)).unwrap(),
                path: spec_decode(path).unwrap(),
                raw_path: spec_decode(render_target(path, qs)).unwrap(),
                version: match vt {
                    None => HttpVersion::V0_9,
                    Some(v) => if spec_lower(v) == tok_http10() {
                        HttpVersion::V1
                    } else {
                        HttpVersion::V1_1
                    },
                },
                parameters: match qs {
                    None => None,
                    Some(q) => Some(params_of(q).unwrap()),
                },
            },
        ),
{
    let line = render_request_line(m_tok, path, qs, vt);
    let mid = render_target(path, qs);
    let ml = m_tok.len() as int;
    let pl = path.len() as int;
    let midl = mid.len() as int;
    assert forall|j: int| 0 <= j < midl implies !is_ws(mid[j]) && (j < pl ==> mid[j] == path[j])
        && (j == pl ==> mid[j] == 63) && (j > pl ==> mid[j] != 63) by {
        match qs {
            None => {},
            Some(q) => {
                if j > pl {
                    assert(mid[j] == q[j - pl - 1]);
                }
            },
        }
    }
    assert(forall|j: int| 0 <= j < ml ==> line[j] == m_tok[j]);
    assert(line[ml] == 32);
    assert(forall|j: int| ml + 1 <= j < ml + 1 + midl ==> line[j] == mid[j - ml - 1]);
    match vt {
        Some(v) => {
            assert(line.len() == ml + 1 + midl + 1 + v.len());
            assert(line[ml + 1 + midl] == 32);
            assert(forall|j: int|
                ml + midl + 2 <= j < line.len() ==> line[j] == v[j - ml - midl - 2]);
        },
        None => {
            assert(line.len() == ml + 1 + midl);
        },
    }
    // token boundaries
    lemma_first_non_ws(line, 0);
    let i1 = first_non_ws(line, 0);
    assert(!is_ws(line[0]));
    assert(i1 == 0);
    lemma_first_ws(line, 0);
    let e1 = first_ws(line, 0);
    assert(is_ws(line[ml]));
    if e1 < ml {
        assert(!is_ws(line[e1]));
        assert(is_ws(line[e1]));
    }
    if e1 > ml {
        assert(!is_ws(line[ml]));
    }
    assert(e1 == ml);
    lemma_first_non_ws(line, e1);
    let i2 = first_non_ws(line, e1);
    assert(!is_ws(line[ml + 1]));
    if i2 > ml + 1 {
        assert(is_ws(line[ml + 1]));
    }
    if i2 == ml {
        assert(!is_ws(line[ml]));
    }
    assert(i2 == ml + 1);
    assert(i2 < line.len());
    lemma_first_ws(line, i2);
    let e2 = first_ws(line, i2);
    match vt {
        Some(v) => {
            assert(is_ws(line[ml + 1 + midl]));
            if e2 < ml + 1 + midl {
                assert(!is_ws(line[e2]));
                assert(is_ws(line[e2]));
            }
            if e2 > ml + 1 + midl {
                assert(!is_ws(line[ml + 1 + midl]));
            }
            assert(e2 == ml + 1 + midl);
        },
        None => {
            if e2 < line.len() {
                assert(is_ws(line[e2]));
                assert(!is_ws(line[e2]));
            }
            assert(e2 == line.len());
        },
    }
    let tok1 = line.subrange(i1, e1);
    let tok2 = line.subrange(i2, e2);
    assert(tok1 =~= m_tok);
    assert(tok2 =~= mid);
    // the query separator sits exactly after the path, or nowhere
    lemma_first_at(tok2, 63, 0);
    let q1 = first_at(tok2, 63, 0);
    match qs {
        None => {
            if q1 < tok2.len() {
                assert(tok2[q1] == 63);
                assert(path[q1] != 63);
            }
            assert(q1 == tok2.len());
            assert(tok2.take(q1) =~= tok2);
        },
        Some(q) => {
            assert(mid[pl] == 63);
            if q1 < pl {
                assert(tok2[q1] == 63 && mid[q1] != 63);
            }
            if q1 > pl {
                assert(tok2[pl] != 63 && mid[pl] == 63);
            }
            assert(q1 == pl);
            assert(tok2.take(q1) =~= path);
            // no second separator inside the query string
            lemma_first_at(tok2, 63, q1 + 1);
            let q2 = first_at(tok2, 63, q1 + 1);
            if q2 < tok2.len() {
                assert(tok2[q2] == 63);
                assert(mid[q2] != 63);
            }
            assert(q2 == tok2.len());
            assert(tok2.subrange(q1 + 1, q2) =~= q);
        },
    }
    // version token
    lemma_first_non_ws(line, e2);
    let i3 = first_non_ws(line, e2);
    match vt {
        Some(v) => {
            assert(!is_ws(line[e2 + 1]));
            if i3 == e2 {
                assert(!is_ws(line[e2]));
            }
            if i3 > e2 + 1 {
                assert(is_ws(line[e2 + 1]));
            }
            assert(i3 == e2 + 1);
            lemma_first_ws(line, i3);
            let e3 = first_ws(line, i3);
            if e3 < line.len() {
                assert(is_ws(line[e3]));
                assert(!is_ws(line[e3]));
            }
            assert(e3 == line.len());
            assert(line.subrange(i3, e3) =~= v);
        },
        None => {
            assert(i3 == line.len());
        },
    }
}

proof fn lemma_consume_plain(bytes: Seq<u8>, tail: Seq<u8>, st: ParserState)
    requires
        forall|i: int| 0 <= i < bytes.len() ==> bytes[i] != 10 && bytes[i] != 13,
        0 <= st.total <= MAX_HEADER_SIZE,
    ensures
        run_parser(bytes + tail, st) == (if st.total + bytes.len() > MAX_HEADER_SIZE {
            Err::<ReqView, ParseError>(ParseError::HeaderTooLarge)
        } else {
            run_parser(
                tail,
                ParserState {
                    total: st.total + bytes.len(),
                    line: st.line + bytes,
                    prev: if bytes.len() > 0 {
                        Some(bytes.last())
                    } else {
                        st.prev
                    },
                    req: st.req,
                },
            )
        }),
    decreases bytes.len(),
{
    if bytes.len() == 0 {
        assert(bytes + tail =~= tail);
        assert(st.line + bytes =~= st.line);
    } else {
        let b = bytes[0];
        let input = bytes + tail;
        assert(input[0] == b);
        assert(input.drop_first() =~= bytes.drop_first() + tail);
        let st2 = ParserState {
            total: st.total + 1,
            line: st.line.push(b),
            prev: Some(b),
            req: st.req,
        };
        assert forall|i: int|
            0 <= i < bytes.drop_first().len() implies bytes.drop_first()[i] != 10
            && bytes.drop_first()[i] != 13 by {
            assert(bytes.drop_first()[i] == bytes[i + 1]);
        }
        if st.total + 1 > MAX_HEADER_SIZE {
            // this byte itself runs past the budget
        } else {
            lemma_consume_plain(bytes.drop_first(), tail, st2);
            assert(st.line.push(b) + bytes.drop_first() =~= st.line + bytes);
            if bytes.len() > 1 {
                assert(bytes.drop_first().last() == bytes.last());
            }
        }
    }
}

proof fn lemma_consume_line(line: Seq<u8>, tail: Seq<u8>, st: ParserState)
    requires
        line.len() > 0,
        forall|i: int| 0 <= i < line.len() ==> line[i] != 10 && line[i] != 13,
        st.line.len() == 0,
        0 <= st.total <= MAX_HEADER_SIZE,
    ensures
        run_parser(line + seq![13u8, 10u8] + tail, st) == (if st.total + line.len() + 1
            > MAX_HEADER_SIZE {
            Err::<ReqView, ParseError>(ParseError::HeaderTooLarge)
        } else if st.req.method == HttpMethod::Unknown {
            match parse_request_line_spec(line) {
                Err(e) => Err::<ReqView, ParseError>(e),
                Ok(rl) => if st.total + line.len() + 2 > MAX_HEADER_SIZE {
                    Err::<ReqView, ParseError>(ParseError::HeaderTooLarge)
                } else {
                    run_parser(
                        tail,
                        ParserState {
                            total: st.total + line.len() + 2,
                            line: Seq::empty(),
                            prev: Some(10u8),
                            req: apply_req_line(st.req, rl),
                        },
                    )
                },
            }
        } else {
            match parse_header_line_spec(line, st.req.headers) {
                Err(e) => Err::<ReqView, ParseError>(e),
                Ok(h2) => if st.total + line.len() + 2 > MAX_HEADER_SIZE {
                    Err::<ReqView, ParseError>(ParseError::HeaderTooLarge)
                } else {
                    run_parser(
                        tail,
                        ParserState {
                            total: st.total + line.len() + 2,
                            line: Seq::empty(),
                            prev: Some(10u8),
                            req: ReqView {
                                method: st.req.method,
                                path: st.req.path,
                                raw_path: st.req.raw_path,
                                version: st.req.version,
                                headers: h2,
                                parameters: st.req.parameters,
                            },
                        },
                    )
                },
            }
        }),
{
    let crlf_tail = seq![13u8, 10u8] + tail;
    assert(line + seq![13u8, 10u8] + tail =~= line + crlf_tail);
    lemma_consume_plain(line, crlf_tail, st);
    if st.total + line.len() > MAX_HEADER_SIZE {
        // the budget runs out on a line byte, before any line break
    } else {
        let st1 = ParserState {
            total: st.total + line.len(),
            line: st.line + line,
            prev: Some(line.last()),
            req: st.req,
        };
        assert(st1.line =~= line);
        // the CR byte
        assert(crlf_tail[0] == 13);
        assert(crlf_tail.drop_first() =~= seq![10u8] + tail);
        if st.total + line.len() + 1 > MAX_HEADER_SIZE {
            // the budget runs out on the CR, which never completes a request
        } else {
            let st2 = ParserState {
                total: st.total + line.len() + 1,
                line: st1.line,
                prev: Some(13u8),
                req: st.req,
            };
            assert(run_parser(crlf_tail, st1) == run_parser(seq![10u8] + tail, st2));
            // the LF byte closes a non-empty line
            assert((seq![10u8] + tail)[0] == 10);
            assert((seq![10u8] + tail).drop_first() =~= tail);
            assert(st2.line.len() > 0);
        }
    }
}

proof fn lemma_headers_then_end(hs: Seq<(Seq<u8>, Seq<u8>)>, st: ParserState)
    requires
        header_block_wf(hs),
        st.line.len() == 0,
        st.req.method != HttpMethod::Unknown,
        0 <= st.total <= MAX_HEADER_SIZE,
    ensures
        run_parser(render_header_block(hs) + seq![13u8, 10u8], st) == (if st.total
            + render_header_block(hs).len() + 1 > MAX_HEADER_SIZE {
            Err::<ReqView, ParseError>(ParseError::HeaderTooLarge)
        } else {
            Ok::<ReqView, ParseError>(
                ReqView {
                    method: st.req.method,
                    path: st.req.path,
                    raw_path: st.req.raw_path,
                    version: st.req.version,
                    headers: fold_headers(st.req.headers, hs),
                    parameters: st.req.parameters,
                },
            )
        }),
    decreases hs.len(),
{
    if hs.len() == 0 {
        let input = render_header_block(hs) + seq![13u8, 10u8];
        assert(input =~= seq![13u8, 10u8]);
        assert(input[0] == 13);
        assert(input.drop_first() =~= seq![10u8]);
        if st.total + 1 > MAX_HEADER_SIZE {
            // the budget runs out on the terminator's CR
        } else {
            let st2 = ParserState {
                total: st.total + 1,
                line: st.line,
                prev: Some(13u8),
                req: st.req,
            };
            assert(run_parser(input, st) == run_parser(seq![10u8], st2));
            assert(seq![10u8][0] == 10);
            assert(run_parser(seq![10u8], st2) == Ok::<ReqView, ParseError>(st.req));
            assert(fold_headers(st.req.headers, hs) == st.req.headers);
        }
    } else {
        let k = hs[0].0;
        let v = hs[0].1;
        assert(header_pair_wf(hs[0]));
        let hline = k + seq![58u8] + v;
        let rest_block = render_header_block(hs.drop_first()) + seq![13u8, 10u8];
        assert(render_header_block(hs) + seq![13u8, 10u8] =~= hline + seq![13u8, 10u8]
            + rest_block);
        assert(hline.len() > 0);
        assert forall|i: int| 0 <= i < hline.len() implies hline[i] != 10 && hline[i] != 13 by {
            if i < k.len() {
                assert(hline[i] == k[i]);
            } else if i == k.len() {
                assert(hline[i] == 58);
            } else {
                assert(hline[i] == v[i - k.len() - 1]);
            }
        }
        assert(render_header_block(hs).len() == hline.len() + 2 + render_header_block(
            hs.drop_first(),
        ).len());
        lemma_consume_line(hline, rest_block, st);
        // the line parses: the first colon sits exactly after the key
        lemma_first_at(hline, 58, 0);
        let c = first_at(hline, 58, 0);
        assert(hline[k.len() as int] == 58);
        if c < k.len() {
            assert(hline[c] == k[c]);
            assert(k[c] != 58);
        }
        if c > k.len() {
            assert(hline[k.len() as int] != 58);
        }
        assert(c == k.len());
        assert(c < hline.len());
        assert(hline.take(c) =~= k);
        assert(hline.skip(c + 1) =~= v);
        let h2 = spec_insert(st.req.headers, spec_lower(spec_trim(k)), spec_trim(v));
        assert(parse_header_line_spec(hline, st.req.headers) == Ok::<
            Seq<(Seq<u8>, Seq<u8>)>,
            ParseError,
        >(h2));
        let st2 = ParserState {
            total: st.total + hline.len() + 2,
            line: Seq::empty(),
            prev: Some(10u8),
            req: ReqView {
                method: st.req.method,
                path: st.req.path,
                raw_path: st.req.raw_path,
                version: st.req.version,
                headers: h2,
                parameters: st.req.parameters,
            },
        };
        assert forall|i: int|
            0 <= i < hs.drop_first().len() implies #[trigger] header_pair_wf(
            hs.drop_first()[i],
        ) by {
            assert(hs.drop_first()[i] == hs[i + 1]);
            assert(header_pair_wf(hs[i + 1]));
        }
        if st.total + hline.len() + 2 <= MAX_HEADER_SIZE {
            lemma_headers_then_end(hs.drop_first(), st2);
        }
        assert(fold_headers(st.req.headers, hs) == fold_headers(h2, hs.drop_first()));
    }
}

/// The parser recovers a rendered request: for any method token naming
/// a method, any decodable path without whitespace or `?`, an optional
/// query string, an optional version token, and any renderable headers,
/// within the byte budget, parsing
/// `METHOD PATH[?QS] [VERSION]\r\nK:V\r\n...\r\n\r\n` succeeds with
/// that method, the decoded path, the query's parameter map, that
/// version, and the header map with keys trimmed and lower-cased and
/// values trimmed.
pub proof fn lemma_parser_recovers_request(
    m_tok: Seq<u8>,
    path: Seq<u8>,
    qs: Option<Seq<u8>>,
    vt: Option<Seq<u8>>,
    hs: Seq<(Seq<u8>, Seq<u8>)>,
)
    requires
        request_line_wf(m_tok, path, qs, vt),
        header_block_wf(hs),
        render_request(m_tok, path, qs, vt, hs).len() <= MAX_HEADER_SIZE,
    ensures
        parse_http_spec(render_request(m_tok, path, qs, vt, hs)) == Ok::<ReqView, ParseError>(
            ReqView {
                method: method_of(spec_lower(m_tok)).unwrap(),
                path: spec_decode(path).unwrap(),
                raw_path: spec_decode(render_target(path, qs)).unwrap(),
                version: match vt {
                    None => HttpVersion::V0_9,
                    Some(v) => if spec_lower(v) == tok_http10() {
                        HttpVersion::V1
                    } else {
                        HttpVersion::V1_1
                    },
                },
                headers: fold_headers(Seq::empty(), hs),
                parameters: match qs {
                    None => None,
                    Some(q) => Some(params_of(q).unwrap()),
                },
            },
        ),
{
    let line = render_request_line(m_tok, path, qs, vt);
    let block_end = render_header_block(hs) + seq![13u8, 10u8];
    assert(render_request(m_tok, path, qs, vt, hs) =~= line + seq![13u8, 10u8] + block_end);
    lemma_render_line_no_crlf(m_tok, path, qs, vt);
    let st0 = init_parser_state();
    assert(render_request(m_tok, path, qs, vt, hs).len() == line.len() + 2 + render_header_block(
        hs,
    ).len() + 2);
    lemma_consume_line(line, block_end, st0);
    lemma_request_line_renders(m_tok, path, qs, vt);
    let rl = parse_request_line_spec(line).unwrap();
    let st1 = ParserState {
        total: line.len() as int + 2,
        line: Seq::empty(),
        prev: Some(10u8),
        req: apply_req_line(st0.req, rl),
    };
    assert(st1.req.method != HttpMethod::Unknown);
    lemma_headers_then_end(hs, st1);
    assert(fold_headers(st1.req.headers, hs) == fold_headers(Seq::empty(), hs));
}

proof fn lemma_render_line_no_crlf(
    m_tok: Seq<u8>,
    path: Seq<u8>,
    qs: Option<Seq<u8>>,
    vt: Option<Seq<u8>>,
)
    requires
        forall|i: int| 0 <= i < m_tok.len() ==> !is_ws(m_tok[i]),
        forall|i: int| 0 <= i < path.len() ==> !is_ws(path[i]),
        match qs {
            Some(q) => forall|i: int| 0 <= i < q.len() ==> !is_ws(q[i]),
            None => true,
        },
        match vt {
            Some(v) => forall|i: int| 0 <= i < v.len() ==> !is_ws(v[i]),
            None => true,
        },
    ensures
        forall|i: int|
            0 <= i < render_request_line(m_tok, path, qs, vt).len()
                ==> #[trigger] render_request_line(m_tok, path, qs, vt)[i] != 10
                && render_request_line(m_tok, path, qs, vt)[i] != 13,
{
    let line = render_request_line(m_tok, path, qs, vt);
    let mid = render_target(path, qs);
    let pl = path.len() as int;
    assert forall|j: int| 0 <= j < mid.len() implies !is_ws(mid[j]) by {
        match qs {
            None => {},
            Some(q) => {
                if j > pl {
                    assert(mid[j] == q[j - pl - 1]);
                }
            },
        }
    }
    assert forall|i: int| 0 <= i < line.len() implies #[trigger] line[i] != 10 && line[i]
        != 13 by {
        let ml = m_tok.len() as int;
        let midl = mid.len() as int;
        if i < ml {
            assert(line[i] == m_tok[i]);
            assert(!is_ws(m_tok[i]));
        } else if i == ml {
            assert(line[i] == 32);
        } else if i < ml + 1 + midl {
            assert(line[i] == mid[i - ml - 1]);
            assert(!is_ws(mid[i - ml - 1]));
        } else {
            match vt {
                Some(v) => {
                    if i == ml + 1 + midl {
                        assert(line[i] == 32);
                    } else {
                        assert(line[i] == v[i - ml - midl - 2]);
                        assert(!is_ws(v[i - ml - midl - 2]));
                    }
                },
                None => {},
            }
        }
    }
}

/// The header budget holds of well-formed content too: the same
/// renderable request, once its bytes run past the budget, is rejected
/// with `HeaderTooLarge` however valid its lines are.
pub proof fn lemma_rendered_request_too_large(
    m_tok: Seq<u8>,
    path: Seq<u8>,
    qs: Option<Seq<u8>>,
    vt: Option<Seq<u8>>,
    hs: Seq<(Seq<u8>, Seq<u8>)>,
)
    requires
        request_line_wf(m_tok, path, qs, vt),
        header_block_wf(hs),
        render_request(m_tok, path, qs, vt, hs).len() > MAX_HEADER_SIZE + 1,
    ensures
        parse_http_spec(render_request(m_tok, path, qs, vt, hs)) == Err::<ReqView, ParseError>(
            ParseError::HeaderTooLarge,
        ),
{
    let line = render_request_line(m_tok, path, qs, vt);
    let block_end = render_header_block(hs) + seq![13u8, 10u8];
    assert(render_request(m_tok, path, qs, vt, hs) =~= line + seq![13u8, 10u8] + block_end);
    lemma_render_line_no_crlf(m_tok, path, qs, vt);
    let st0 = init_parser_state();
    assert(render_request(m_tok, path, qs, vt, hs).len() == line.len() + 2 + render_header_block(
        hs,
    ).len() + 2);
    lemma_consume_line(line, block_end, st0);
    if line.len() + 1 <= MAX_HEADER_SIZE {
        lemma_request_line_renders(m_tok, path, qs, vt);
        if line.len() + 2 <= MAX_HEADER_SIZE {
            let rl = parse_request_line_spec(line).unwrap();
            let st1 = ParserState {
                total: line.len() as int + 2,
                line: Seq::empty(),
                prev: Some(10u8),
                req: apply_req_line(st0.req, rl),
            };
            assert(st1.req.method != HttpMethod::Unknown);
            lemma_headers_then_end(hs, st1);
            assert(st1.total + render_header_block(hs).len() + 1 > MAX_HEADER_SIZE);
        }
    }
}

} // verus!
