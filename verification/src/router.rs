//! Exact-match routing from (method, decoded path) to a handler, and
//! the canonical 404 response for everything unregistered.

use vstd::prelude::*;

use crate::ascii::bytes_eq;
use crate::connection::HttpMethod;
use crate::response::{lit_content_type, lit_json_type, HttpResponse};

verus! {

/// The handler a request is dispatched to.
#[derive(Debug, Clone, Copy, PartialEq, Eq, Structural)]
pub enum Route {
    /// `GET /api/v1/music/get`: one chunk of one track.
    MusicChunk,
    /// `GET /api/v1/music/all`: the track listing.
    MusicList,
    /// Everything else.
    NotFound,
}

pub open spec fn lit_chunk_path() -> Seq<u8> {
    seq![
        47u8, 97u8, 112u8, 105u8, 47u8, 118u8, 49u8, 47u8, 109u8, 117u8, 115u8, 105u8, 99u8, 47u8,
        103u8, 101u8, 116u8,
    ]
}

pub open spec fn lit_list_path() -> Seq<u8> {
    seq![
        47u8, 97u8, 112u8, 105u8, 47u8, 118u8, 49u8, 47u8, 109u8, 117u8, 115u8, 105u8, 99u8, 47u8,
        97u8, 108u8, 108u8,
    ]
}

pub open spec fn lit_not_found_reason() -> Seq<u8> {
    seq![78u8, 111u8, 116u8, 32u8, 70u8, 111u8, 117u8, 110u8, 100u8]
}

pub open spec fn lit_page_not_found() -> Seq<u8> {
    seq![
        123u8, 34u8, 109u8, 101u8, 115u8, 115u8, 97u8, 103u8, 101u8, 34u8, 58u8, 34u8, 80u8, 97u8,
        103u8, 101u8, 32u8, 110u8, 111u8, 116u8, 32u8, 102u8, 111u8, 117u8, 110u8, 100u8, 34u8,
        125u8,
    ]
}

/// The routing table: only the two music routes exist, both under `GET`;
/// every other pair is unregistered.
pub open spec fn spec_route(method: HttpMethod, path: Seq<u8>) -> Route {
    if method == HttpMethod::GET && path == lit_chunk_path() {
        Route::MusicChunk
    } else if method == HttpMethod::GET && path == lit_list_path() {
        Route::MusicList
    } else {
        Route::NotFound
    }
}

/// Pick the handler for a request; routing itself performs no I/O.
pub fn route(method: HttpMethod, path: &Vec<u8>) -> (r: Route)
    ensures
        r == spec_route(method, path@),
{
    let chunk_path = vec![
        47u8, 97u8, 112u8, 105u8, 47u8, 118u8, 49u8, 47u8, 109u8, 117u8, 115u8, 105u8, 99u8, 47u8,
        103u8, 101u8, 116u8,
    ];
    let list_path = vec![
        47u8, 97u8, 112u8, 105u8, 47u8, 118u8, 49u8, 47u8, 109u8, 117u8, 115u8, 105u8, 99u8, 47u8,
        97u8, 108u8, 108u8,
    ];
    proof {
        assert(chunk_path@ =~= lit_chunk_path());
        assert(list_path@ =~= lit_list_path());
    }
    let is_get = match method {
        HttpMethod::GET => true,
        _ => false,
    };
    if is_get && bytes_eq(path, &chunk_path) {
        Route::MusicChunk
    } else if is_get && bytes_eq(path, &list_path) {
        Route::MusicList
    } else {
        Route::NotFound
    }
}

/// An unregistered (method, path) pair always routes to `NotFound`.
pub proof fn lemma_unregistered_routes_to_not_found(method: HttpMethod, path: Seq<u8>)
    requires
        !(method == HttpMethod::GET && path == lit_chunk_path()),
        !(method == HttpMethod::GET && path == lit_list_path()),
    ensures
        spec_route(method, path) == Route::NotFound,
{
}

/// The canonical 404: status `404 Not Found`, a JSON `Content-Type`
/// header, and the body `{"message":"Page not found"}`.
pub fn not_found() -> (r: HttpResponse)
    ensures
        r@.status == 404,
        r@.status_message == lit_not_found_reason(),
        r@.headers =~= seq![(lit_content_type(), lit_json_type())],
        r@.body == Some(lit_page_not_found()),
{
    let reason = vec![78u8, 111u8, 116u8, 32u8, 70u8, 111u8, 117u8, 110u8, 100u8];
    let body = vec![
        123u8, 34u8, 109u8, 101u8, 115u8, 115u8, 97u8, 103u8, 101u8, 34u8, 58u8, 34u8, 80u8, 97u8,
        103u8, 101u8, 32u8, 110u8, 111u8, 116u8, 32u8, 102u8, 111u8, 117u8, 110u8, 100u8, 34u8,
        125u8,
    ];
    proof {
        assert(reason@ =~= lit_not_found_reason());
        assert(body@ =~= lit_page_not_found());
    }
    HttpResponse::new(404, reason).set_json_body(body)
}

} // verus!
