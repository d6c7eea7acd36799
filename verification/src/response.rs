//! The HTTP response builder and its wire rendering.
//!
//! A response accumulates a status, headers and an optional body; its
//! byte image is `HTTP/1.1 <code> <reason>\r\n`, each header as
//! `Key: Value\r\n` in insertion order, a blank line, then the body.
//! Writing those bytes to a socket happens outside the library.

use vstd::prelude::*;

use crate::ascii::{push_all, spec_dec_rep, u64_to_dec};
use crate::connection::HttpRequest;
use crate::dict::spec_lookup;

verus! {

/// Mathematical image of a response under construction.
pub ghost struct RespView {
    pub status: u16,
    pub status_message: Seq<u8>,
    pub headers: Seq<(Seq<u8>, Seq<u8>)>,
    pub body: Option<Seq<u8>>,
}

/// A response under construction: status code and reason, headers in
/// insertion order (duplicates allowed), and at most one body buffer.
#[derive(Debug)]
pub struct HttpResponse {
    pub status: u16,
    pub status_message: Vec<u8>,
    pub headers: Vec<(Vec<u8>, Vec<u8>)>,
    pub body: Option<Vec<u8>>,
}

impl View for HttpResponse {
    type V = RespView;

    open spec fn view(&self) -> RespView {
        RespView {
            status: self.status,
            status_message: self.status_message@,
            headers: Seq::new(
                self.headers@.len() as nat,
                |i: int| (self.headers@[i].0@, self.headers@[i].1@),
            ),
            body: match self.body {
                Some(b) => Some(b@),
                None => None,
            },
        }
    }
}

pub open spec fn lit_status_prefix() -> Seq<u8> {
    seq![72u8, 84u8, 84u8, 80u8, 47u8, 49u8, 46u8, 49u8, 32u8]
}

pub open spec fn lit_content_type() -> Seq<u8> {
    seq![67u8, 111u8, 110u8, 116u8, 101u8, 110u8, 116u8, 45u8, 84u8, 121u8, 112u8, 101u8]
}

pub open spec fn lit_json_type() -> Seq<u8> {
    seq![
        97u8, 112u8, 112u8, 108u8, 105u8, 99u8, 97u8, 116u8, 105u8, 111u8, 110u8, 47u8, 106u8,
        115u8, 111u8, 110u8, 59u8, 32u8, 99u8, 104u8, 97u8, 114u8, 115u8, 101u8, 116u8, 61u8,
        117u8, 116u8, 102u8, 45u8, 56u8,
    ]
}

pub open spec fn lit_allow_origin() -> Seq<u8> {
    seq![
        65u8, 99u8, 99u8, 101u8, 115u8, 115u8, 45u8, 67u8, 111u8, 110u8, 116u8, 114u8, 111u8,
        108u8, 45u8, 65u8, 108u8, 108u8, 111u8, 119u8, 45u8, 79u8, 114u8, 105u8, 103u8, 105u8,
        110u8,
    ]
}

pub open spec fn lit_origin() -> Seq<u8> {
    seq![111u8, 114u8, 105u8, 103u8, 105u8, 110u8]
}

pub open spec fn lit_star() -> Seq<u8> {
    seq![42u8]
}

/// One header on the wire: `Key: Value\r\n`.
pub open spec fn render_header(h: (Seq<u8>, Seq<u8>)) -> Seq<u8> {
    h.0 + seq![58u8, 32u8] + h.1 + seq![13u8, 10u8]
}

/// All headers on the wire, in order.
pub open spec fn render_headers(hs: Seq<(Seq<u8>, Seq<u8>)>) -> Seq<u8>
    decreases hs.len(),
{
    if hs.len() == 0 {
        Seq::empty()
    } else {
        render_header(hs[0]) + render_headers(hs.drop_first())
    }
}

/// The whole response on the wire: status line, headers, blank line, body.
pub open spec fn spec_render_response(r: RespView) -> Seq<u8> {
    lit_status_prefix() + spec_dec_rep(r.status as nat) + seq![32u8] + r.status_message + seq![
        13u8,
        10u8,
    ] + render_headers(r.headers) + seq![13u8, 10u8] + (match r.body {
        Some(b) => b,
        None => Seq::<u8>::empty(),
    })
}

/// The CORS value a response mirrors back: the request's `origin`
/// header, or `*` when it has none.
pub open spec fn origin_of(headers: Seq<(Seq<u8>, Seq<u8>)>) -> Seq<u8> {
    match spec_lookup(headers, lit_origin()) {
        Some(v) => v,
        None => lit_star(),
    }
}

proof fn lemma_render_headers_snoc(hs: Seq<(Seq<u8>, Seq<u8>)>, x: (Seq<u8>, Seq<u8>))
    ensures
        render_headers(hs.push(x)) == render_headers(hs) + render_header(x),
    decreases hs.len(),
{
    if hs.len() == 0 {
        assert(hs.push(x)[0] == x);
        assert(hs.push(x).drop_first() =~= Seq::<(Seq<u8>, Seq<u8>)>::empty());
        assert(render_headers(Seq::<(Seq<u8>, Seq<u8>)>::empty()) == Seq::<u8>::empty());
        assert(render_headers(hs.push(x)) =~= render_headers(hs) + render_header(x));
    } else {
        lemma_render_headers_snoc(hs.drop_first(), x);
        assert(hs.push(x)[0] == hs[0]);
        assert(hs.push(x).drop_first() =~= hs.drop_first().push(x));
        assert(render_headers(hs.push(x)) =~= render_headers(hs) + render_header(x));
    }
}

pub open spec fn lit_internal_error_reason() -> Seq<u8> {
    seq![
        73u8, 110u8, 116u8, 101u8, 114u8, 110u8, 97u8, 108u8, 32u8, 83u8, 101u8, 114u8, 118u8,
        101u8, 114u8, 32u8, 69u8, 114u8, 114u8, 111u8, 114u8,
    ]
}

/// The best-effort 500 sent when a handler fails: status only, with the
/// request's origin mirrored back, and no body.
pub fn internal_error_response(request: &HttpRequest) -> (r: HttpResponse)
    ensures
        r@.status == 500,
        r@.status_message == lit_internal_error_reason(),
        r@.headers =~= seq![(lit_allow_origin(), origin_of(request@.headers))],
        r@.body is None,
{
    let reason = vec![
        73u8, 110u8, 116u8, 101u8, 114u8, 110u8, 97u8, 108u8, 32u8, 83u8, 101u8, 114u8, 118u8,
        101u8, 114u8, 32u8, 69u8, 114u8, 114u8, 111u8, 114u8,
    ];
    proof {
        assert(reason@ =~= lit_internal_error_reason());
    }
    HttpResponse::new(500, reason).allow_all_origins(request)
}

impl HttpResponse {
    /// A fresh response with a status code and reason phrase, no
    /// headers and no body.
    pub fn new(status: u16, status_message: Vec<u8>) -> (r: Self)
        ensures
            r@.status == status,
            r@.status_message == status_message@,
            r@.headers =~= Seq::<(Seq<u8>, Seq<u8>)>::empty(),
            r@.body is None,
    {
        HttpResponse { status, status_message, headers: Vec::new(), body: None }
    }

    /// Append one header line.
    pub fn set_header(self, key: Vec<u8>, value: Vec<u8>) -> (r: Self)
        ensures
            r@.status == self@.status,
            r@.status_message == self@.status_message,
            r@.headers =~= self@.headers.push((key@, value@)),
            r@.body == self@.body,
    {
        let mut s = self;
        s.headers.push((key, value));
        proof {
            assert(s@.headers =~= self@.headers.push((key@, value@)));
        }
        s
    }

    /// Set the body buffer.
    pub fn set_body(self, body: Vec<u8>) -> (r: Self)
        ensures
            r@.status == self@.status,
            r@.status_message == self@.status_message,
            r@.headers == self@.headers,
            r@.body == Some(body@),
    {
        let mut s = self;
        s.body = Some(body);
        s
    }

    /// Set a JSON body: a `Content-Type` header and the body buffer.
    pub fn set_json_body(self, body: Vec<u8>) -> (r: Self)
        ensures
            r@.status == self@.status,
            r@.status_message == self@.status_message,
            r@.headers =~= self@.headers.push((lit_content_type(), lit_json_type())),
            r@.body == Some(body@),
    {
        let ct = vec![
            67u8, 111u8, 110u8, 116u8, 101u8, 110u8, 116u8, 45u8, 84u8, 121u8, 112u8, 101u8,
        ];
        let jt = vec![
            97u8, 112u8, 112u8, 108u8, 105u8, 99u8, 97u8, 116u8, 105u8, 111u8, 110u8, 47u8, 106u8,
            115u8, 111u8, 110u8, 59u8, 32u8, 99u8, 104u8, 97u8, 114u8, 115u8, 101u8, 116u8, 61u8,
            117u8, 116u8, 102u8, 45u8, 56u8,
        ];
        proof {
            assert(ct@ =~= lit_content_type());
            assert(jt@ =~= lit_json_type());
        }
        self.set_header(ct, jt).set_body(body)
    }

    /// Mirror the request's `Origin` back as
    /// `Access-Control-Allow-Origin`, or allow every origin.
    pub fn allow_all_origins(self, request: &HttpRequest) -> (r: Self)
        ensures
            r@.status == self@.status,
            r@.status_message == self@.status_message,
            r@.headers =~= self@.headers.push((lit_allow_origin(), origin_of(request@.headers))),
            r@.body == self@.body,
    {
        let key = vec![
            65u8, 99u8, 99u8, 101u8, 115u8, 115u8, 45u8, 67u8, 111u8, 110u8, 116u8, 114u8, 111u8,
            108u8, 45u8, 65u8, 108u8, 108u8, 111u8, 119u8, 45u8, 79u8, 114u8, 105u8, 103u8, 105u8,
            110u8,
        ];
        let okey = vec![111u8, 114u8, 105u8, 103u8, 105u8, 110u8];
        proof {
            assert(key@ =~= lit_allow_origin());
            assert(okey@ =~= lit_origin());
        }
        let value: Vec<u8> = match request.headers.get(&okey) {
            Some(v) => crate::ascii::subvec(v, 0, v.len()),
            None => {
                let star = vec![42u8];
                proof {
                    assert(star@ =~= lit_star());
                }
                star
            },
        };
        proof {
            assert(value@ =~= origin_of(request@.headers));
        }
        self.set_header(key, value)
    }

    /// The bytes `send` puts on the wire.
    pub fn to_bytes(&self) -> (r: Vec<u8>)
        ensures
            r@ == spec_render_response(self@),
    {
        let mut out: Vec<u8> = Vec::new();
        let sl = vec![72u8, 84u8, 84u8, 80u8, 47u8, 49u8, 46u8, 49u8, 32u8];
        proof {
            assert(sl@ =~= lit_status_prefix());
        }
        push_all(&mut out, &sl);
        let code = u64_to_dec(self.status as u64);
        push_all(&mut out, &code);
        out.push(32);
        push_all(&mut out, &self.status_message);
        out.push(13);
        out.push(10);
        let ghost prefix = out@;
        proof {
            assert(prefix =~= lit_status_prefix() + spec_dec_rep(self@.status as nat) + seq![32u8]
                + self@.status_message + seq![13u8, 10u8]);
        }
        let mut i: usize = 0;
        while i < self.headers.len()
            invariant
                i <= self.headers@.len(),
                self@.headers.len() == self.headers@.len(),
                out@ == prefix + render_headers(self@.headers.take(i as int)),
                prefix == lit_status_prefix() + spec_dec_rep(self@.status as nat) + seq![32u8]
                    + self@.status_message + seq![13u8, 10u8],
            decreases self.headers.len() - i,
        {
            let ghost before = out@;
            let h: &(Vec<u8>, Vec<u8>) = &self.headers[i];
            push_all(&mut out, &h.0);
            out.push(58);
            out.push(32);
            push_all(&mut out, &h.1);
            out.push(13);
            out.push(10);
            proof {
                assert(self@.headers[i as int] == (self.headers@[i as int].0@,
                self.headers@[i as int].1@));
                assert(out@ =~= before + render_header(self@.headers[i as int]));
                lemma_render_headers_snoc(self@.headers.take(i as int), self@.headers[i as int]);
                assert(self@.headers.take(i as int).push(self@.headers[i as int])
                    =~= self@.headers.take(i + 1));
                assert(out@ =~= prefix + render_headers(self@.headers.take(i + 1)));
            }
            i = i + 1;
        }
        proof {
            assert(self@.headers.take(self@.headers.len() as int) =~= self@.headers);
        }
        out.push(13);
        out.push(10);
        match &self.body {
            Some(b) => {
                push_all(&mut out, b);
            },
            None => {},
        }
        proof {
            assert(out@ =~= spec_render_response(self@));
        }
        out
    }
}

} // verus!
