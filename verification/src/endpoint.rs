//! The music endpoints' logic: the chunk window arithmetic, the
//! query-parameter decisions, and the exact responses handed back.
//!
//! Opening, seeking and reading the file happen outside the library:
//! the decision which bytes to read is made here, and the bytes read
//! come back here to be framed.

use vstd::prelude::*;

use crate::ascii::{parse_dec, spec_dec_rep, spec_parse_dec, u64_to_dec};
use crate::connection::HttpRequest;
use crate::dict::spec_lookup;
use crate::index::MusicIndex;
use crate::response::{
    lit_content_type, lit_json_type, origin_of, HttpResponse, lit_allow_origin,
};
use crate::router::lit_not_found_reason;
use crate::util::spec_json_array;

verus! {

/// Fixed chunk size: 512 KiB.
pub const CHUNK_SIZE: u64 = 1024 * 512;

/// The byte window of chunk `i` in a file of `len` bytes: nothing when
/// the chunk starts at or past the end, else its offset and length.
pub open spec fn spec_chunk_range(file_len: int, chunk_index: int) -> Option<(int, int)> {
    let off = chunk_index * (CHUNK_SIZE as int);
    if off >= file_len {
        None
    } else {
        Some(
            (
                off,
                if file_len - off < CHUNK_SIZE as int {
                    file_len - off
                } else {
                    CHUNK_SIZE as int
                },
            ),
        )
    }
}

/// For chunk index `i`, file length `L` and chunk size `C`: `i*C >= L`
/// yields no window, the out-of-range outcome; otherwise the window
/// starts at `i*C`, holds `min(C, L - i*C)` bytes, is never empty and
/// never reaches past the end of the file.
pub proof fn lemma_chunk_protocol(file_len: int, chunk_index: int)
    requires
        0 <= file_len,
        0 <= chunk_index,
    ensures
        chunk_index * (CHUNK_SIZE as int) >= file_len ==> spec_chunk_range(file_len, chunk_index)
            is None,
        chunk_index * (CHUNK_SIZE as int) < file_len ==> {
            let r = spec_chunk_range(file_len, chunk_index).unwrap();
            &&& r.0 == chunk_index * (CHUNK_SIZE as int)
            &&& r.1 == (if file_len - r.0 < CHUNK_SIZE as int {
                file_len - r.0
            } else {
                CHUNK_SIZE as int
            })
            &&& 0 < r.1 <= CHUNK_SIZE as int
            &&& r.0 + r.1 <= file_len
        },
{
}

/// Compute chunk `chunk_index`'s window in a file of `file_len` bytes.
pub fn chunk_range(file_len: u64, chunk_index: u64) -> (r: Option<(u64, u64)>)
    ensures
        match r {
            None => spec_chunk_range(file_len as int, chunk_index as int) is None,
            Some(p) => spec_chunk_range(file_len as int, chunk_index as int) == Some(
                (p.0 as int, p.1 as int),
            ),
        },
{
    proof {
        assert(chunk_index as int * (1024 * 512) <= u64::MAX as int * (1024 * 512))
            by (nonlinear_arith)
            requires
                chunk_index as int <= u64::MAX as int,
        ;
    }
    let off128: u128 = (chunk_index as u128) * (CHUNK_SIZE as u128);
    proof {
        assert(off128 == chunk_index as int * (CHUNK_SIZE as int));
    }
    if off128 >= file_len as u128 {
        None
    } else {
        let off: u64 = off128 as u64;
        let len: u64 = if file_len - off < CHUNK_SIZE {
            file_len - off
        } else {
            CHUNK_SIZE
        };
        Some((off, len))
    }
}

pub open spec fn lit_chunk_param() -> Seq<u8> {
    seq![99u8, 104u8, 117u8, 110u8, 107u8]
}

pub open spec fn lit_name_param() -> Seq<u8> {
    seq![110u8, 97u8, 109u8, 101u8]
}

/// The chunk index a request asks for: its `chunk` parameter when that
/// parses as a number, zero otherwise.
pub open spec fn spec_chunk_of_params(params: Option<Seq<(Seq<u8>, Seq<u8>)>>) -> u64 {
    match params {
        None => 0,
        Some(p) => match spec_lookup(p, lit_chunk_param()) {
            None => 0,
            Some(v) => match spec_parse_dec(v) {
                None => 0,
                Some(n) => n,
            },
        },
    }
}

/// The track a request asks for: its `name` parameter.
pub open spec fn spec_name_of_params(params: Option<Seq<(Seq<u8>, Seq<u8>)>>) -> Option<Seq<u8>> {
    match params {
        None => None,
        Some(p) => spec_lookup(p, lit_name_param()),
    }
}

/// What the chunk endpoint decides from a request, before any file is
/// touched.
pub enum ChunkQuery {
    /// No `name` parameter: a 400.
    BadRequest,
    /// A name the index does not know: a 404.
    TrackNotFound,
    /// Serve this chunk of the file at this resolved path.
    Serve(Vec<u8>, u64),
}

/// Decide what `GET /api/v1/music/get` does: a missing `name` parameter
/// is a bad request, an unknown track is not found, a known track is
/// served at the requested chunk index (zero when absent or unreadable).
pub fn chunk_query(index: &MusicIndex, request: &HttpRequest) -> (r: ChunkQuery)
    ensures
        match r {
            ChunkQuery::BadRequest => spec_name_of_params(request@.parameters) is None,
            ChunkQuery::TrackNotFound => {
                &&& spec_name_of_params(request@.parameters) is Some
                &&& spec_lookup(index.map@, spec_name_of_params(request@.parameters).unwrap())
                    is None
            },
            ChunkQuery::Serve(path, chunk) => {
                &&& spec_name_of_params(request@.parameters) is Some
                &&& spec_lookup(index.map@, spec_name_of_params(request@.parameters).unwrap())
                    is Some
                &&& path@ == index.path@ + spec_lookup(
                    index.map@,
                    spec_name_of_params(request@.parameters).unwrap(),
                ).unwrap()
                &&& chunk == spec_chunk_of_params(request@.parameters)
            },
        },
{
    let chunk_lit = vec![99u8, 104u8, 117u8, 110u8, 107u8];
    let name_lit = vec![110u8, 97u8, 109u8, 101u8];
    proof {
        assert(chunk_lit@ =~= lit_chunk_param());
        assert(name_lit@ =~= lit_name_param());
    }
    let chunk: u64 = match &request.parameters {
        Some(params) => match params.get(&chunk_lit) {
            Some(v) => match parse_dec(v) {
                Some(n) => n,
                None => 0,
            },
            None => 0,
        },
        None => 0,
    };
    match &request.parameters {
        Some(params) => match params.get(&name_lit) {
            Some(name) => match index.get(name) {
                Some(path) => ChunkQuery::Serve(path, chunk),
                None => ChunkQuery::TrackNotFound,
            },
            None => ChunkQuery::BadRequest,
        },
        None => ChunkQuery::BadRequest,
    }
}

pub open spec fn lit_ok_reason() -> Seq<u8> {
    seq![79u8, 75u8]
}

pub open spec fn lit_bad_request_reason() -> Seq<u8> {
    seq![66u8, 97u8, 100u8, 32u8, 82u8, 101u8, 113u8, 117u8, 101u8, 115u8, 116u8]
}

pub open spec fn lit_range_reason() -> Seq<u8> {
    seq![
        82u8, 97u8, 110u8, 103u8, 101u8, 32u8, 78u8, 111u8, 116u8, 32u8, 83u8, 97u8, 116u8, 105u8,
        115u8, 102u8, 105u8, 97u8, 98u8, 108u8, 101u8,
    ]
}

pub open spec fn lit_audio_type() -> Seq<u8> {
    seq![97u8, 117u8, 100u8, 105u8, 111u8, 47u8, 109u8, 112u8, 101u8, 103u8]
}

pub open spec fn lit_content_length() -> Seq<u8> {
    seq![67u8, 111u8, 110u8, 116u8, 101u8, 110u8, 116u8, 45u8, 76u8, 101u8, 110u8, 103u8, 116u8, 104u8]
}

pub open spec fn lit_track_not_found_body() -> Seq<u8> {
    seq![
        123u8, 34u8, 109u8, 101u8, 115u8, 115u8, 97u8, 103u8, 101u8, 34u8, 58u8, 34u8, 84u8,
        114u8, 97u8, 99u8, 107u8, 32u8, 115u8, 112u8, 101u8, 99u8, 105u8, 102u8, 105u8, 101u8,
        100u8, 32u8, 119u8, 97u8, 115u8, 32u8, 110u8, 111u8, 116u8, 32u8, 102u8, 111u8, 117u8,
        110u8, 100u8, 34u8, 125u8,
    ]
}

pub open spec fn lit_bad_request_body() -> Seq<u8> {
    seq![
        123u8, 32u8, 34u8, 109u8, 101u8, 115u8, 115u8, 97u8, 103u8, 101u8, 34u8, 58u8, 32u8, 34u8,
        80u8, 108u8, 101u8, 97u8, 115u8, 101u8, 32u8, 115u8, 112u8, 101u8, 99u8, 105u8, 102u8,
        121u8, 32u8, 116u8, 114u8, 97u8, 99u8, 107u8, 32u8, 97u8, 110u8, 100u8, 32u8, 99u8, 104u8,
        117u8, 110u8, 107u8, 32u8, 119u8, 105u8, 116u8, 104u8, 32u8, 112u8, 97u8, 116u8, 104u8,
        32u8, 112u8, 97u8, 114u8, 97u8, 109u8, 101u8, 116u8, 101u8, 114u8, 115u8, 34u8, 32u8,
        125u8,
    ]
}

pub open spec fn lit_out_of_bounds_body() -> Seq<u8> {
    seq![
        123u8, 32u8, 34u8, 109u8, 101u8, 115u8, 115u8, 97u8, 103u8, 101u8, 34u8, 58u8, 32u8, 34u8,
        67u8, 104u8, 117u8, 110u8, 107u8, 32u8, 105u8, 115u8, 32u8, 111u8, 117u8, 116u8, 32u8,
        111u8, 102u8, 32u8, 98u8, 111u8, 117u8, 110u8, 100u8, 115u8, 46u8, 34u8, 32u8, 125u8,
    ]
}

/// The track listing: 200, CORS mirrored, and the names as a JSON array.
pub fn list_response(index: &MusicIndex, request: &HttpRequest) -> (r: HttpResponse)
    ensures
        r@.status == 200,
        r@.status_message == lit_ok_reason(),
        r@.headers =~= seq![
            (lit_allow_origin(), origin_of(request@.headers)),
            (lit_content_type(), lit_json_type()),
        ],
        r@.body == Some(spec_json_array(Seq::new(index.map@.len(), |i: int| index.map@[i].0))),
{
    let reason = vec![79u8, 75u8];
    proof {
        assert(reason@ =~= lit_ok_reason());
    }
    HttpResponse::new(200, reason).allow_all_origins(request).set_json_body(
        index.key_json_array(),
    )
}

/// 404 for a track the index does not know, CORS mirrored.
pub fn track_not_found_response(request: &HttpRequest) -> (r: HttpResponse)
    ensures
        r@.status == 404,
        r@.status_message == lit_not_found_reason(),
        r@.headers =~= seq![
            (lit_content_type(), lit_json_type()),
            (lit_allow_origin(), origin_of(request@.headers)),
        ],
        r@.body == Some(lit_track_not_found_body()),
{
    let reason = vec![78u8, 111u8, 116u8, 32u8, 70u8, 111u8, 117u8, 110u8, 100u8];
    let body = vec![
        123u8, 34u8, 109u8, 101u8, 115u8, 115u8, 97u8, 103u8, 101u8, 34u8, 58u8, 34u8, 84u8,
        114u8, 97u8, 99u8, 107u8, 32u8, 115u8, 112u8, 101u8, 99u8, 105u8, 102u8, 105u8, 101u8,
        100u8, 32u8, 119u8, 97u8, 115u8, 32u8, 110u8, 111u8, 116u8, 32u8, 102u8, 111u8, 117u8,
        110u8, 100u8, 34u8, 125u8,
    ];
    proof {
        assert(reason@ =~= lit_not_found_reason());
        assert(body@ =~= lit_track_not_found_body());
    }
    HttpResponse::new(404, reason).set_json_body(body).allow_all_origins(request)
}

/// 400 when the request names no track, CORS mirrored.
pub fn bad_request_response(request: &HttpRequest) -> (r: HttpResponse)
    ensures
        r@.status == 400,
        r@.status_message == lit_bad_request_reason(),
        r@.headers =~= seq![
            (lit_content_type(), lit_json_type()),
            (lit_allow_origin(), origin_of(request@.headers)),
        ],
        r@.body == Some(lit_bad_request_body()),
{
    let reason = vec![66u8, 97u8, 100u8, 32u8, 82u8, 101u8, 113u8, 117u8, 101u8, 115u8, 116u8];
    let body = vec![
        123u8, 32u8, 34u8, 109u8, 101u8, 115u8, 115u8, 97u8, 103u8, 101u8, 34u8, 58u8, 32u8, 34u8,
        80u8, 108u8, 101u8, 97u8, 115u8, 101u8, 32u8, 115u8, 112u8, 101u8, 99u8, 105u8, 102u8,
        121u8, 32u8, 116u8, 114u8, 97u8, 99u8, 107u8, 32u8, 97u8, 110u8, 100u8, 32u8, 99u8, 104u8,
        117u8, 110u8, 107u8, 32u8, 119u8, 105u8, 116u8, 104u8, 32u8, 112u8, 97u8, 116u8, 104u8,
        32u8, 112u8, 97u8, 114u8, 97u8, 109u8, 101u8, 116u8, 101u8, 114u8, 115u8, 34u8, 32u8,
        125u8,
    ];
    proof {
        assert(reason@ =~= lit_bad_request_reason());
        assert(body@ =~= lit_bad_request_body());
    }
    HttpResponse::new(400, reason).set_json_body(body).allow_all_origins(request)
}

/// 416 when the chunk starts at or past the end of the file, CORS
/// mirrored.  A normal outcome, not a fault.
pub fn out_of_range_response(request: &HttpRequest) -> (r: HttpResponse)
    ensures
        r@.status == 416,
        r@.status_message == lit_range_reason(),
        r@.headers =~= seq![
            (lit_content_type(), lit_json_type()),
            (lit_allow_origin(), origin_of(request@.headers)),
        ],
        r@.body == Some(lit_out_of_bounds_body()),
{
    let reason = vec![
        82u8, 97u8, 110u8, 103u8, 101u8, 32u8, 78u8, 111u8, 116u8, 32u8, 83u8, 97u8, 116u8, 105u8,
        115u8, 102u8, 105u8, 97u8, 98u8, 108u8, 101u8,
    ];
    let body = vec![
        123u8, 32u8, 34u8, 109u8, 101u8, 115u8, 115u8, 97u8, 103u8, 101u8, 34u8, 58u8, 32u8, 34u8,
        67u8, 104u8, 117u8, 110u8, 107u8, 32u8, 105u8, 115u8, 32u8, 111u8, 117u8, 116u8, 32u8,
        111u8, 102u8, 32u8, 98u8, 111u8, 117u8, 110u8, 100u8, 115u8, 46u8, 34u8, 32u8, 125u8,
    ];
    proof {
        assert(reason@ =~= lit_range_reason());
        assert(body@ =~= lit_out_of_bounds_body());
    }
    HttpResponse::new(416, reason).set_json_body(body).allow_all_origins(request)
}

/// 200 with one chunk of audio: the content type, the exact content
/// length, and the bytes read as body, CORS mirrored.
pub fn chunk_data_response(request: &HttpRequest, data: Vec<u8>) -> (r: HttpResponse)
    ensures
        r@.status == 200,
        r@.status_message == lit_ok_reason(),
        r@.headers =~= seq![
            (lit_content_type(), lit_audio_type()),
            (lit_content_length(), spec_dec_rep(data@.len() as nat)),
            (lit_allow_origin(), origin_of(request@.headers)),
        ],
        r@.body == Some(data@),
{
    let reason = vec![79u8, 75u8];
    let ct = vec![
        67u8, 111u8, 110u8, 116u8, 101u8, 110u8, 116u8, 45u8, 84u8, 121u8, 112u8, 101u8,
    ];
    let audio = vec![97u8, 117u8, 100u8, 105u8, 111u8, 47u8, 109u8, 112u8, 101u8, 103u8];
    let cl = vec![
        67u8, 111u8, 110u8, 116u8, 101u8, 110u8, 116u8, 45u8, 76u8, 101u8, 110u8, 103u8, 116u8,
        104u8,
    ];
    proof {
        assert(reason@ =~= lit_ok_reason());
        assert(ct@ =~= lit_content_type());
        assert(audio@ =~= lit_audio_type());
        assert(cl@ =~= lit_content_length());
    }
    let len_dec = u64_to_dec(data.len() as u64);
    HttpResponse::new(200, reason).set_header(ct, audio).set_header(cl, len_dec).set_body(
        data,
    ).allow_all_origins(request)
}

} // verus!
