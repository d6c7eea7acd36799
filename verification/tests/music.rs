use zest::connection::parse_http_request;
use zest::dict::Dict;
use zest::endpoint::{
    bad_request_response, chunk_data_response, chunk_query, chunk_range, list_response,
    out_of_range_response, track_not_found_response, ChunkQuery, CHUNK_SIZE,
};
use zest::index::{index_entry_of, load_index, make_index, IndexError, MusicIndex};

fn index_of_two_tracks() -> MusicIndex {
    let bytes = b"{\"path\":\"/m\",\"entries\":[{\"a\":\"/a.mp3\"},{\"b\":\"/b.mp3\"}]}".to_vec();
    load_index(&bytes).unwrap()
}

#[test]
fn load_index_reads_path_and_entries() {
    let index = index_of_two_tracks();
    assert_eq!(index.path, b"/m".to_vec());
    assert_eq!(index.map.len(), 2);
    assert_eq!(index.get(&b"a".to_vec()).unwrap(), b"/m/a.mp3".to_vec());
    assert_eq!(index.get(&b"b".to_vec()).unwrap(), b"/m/b.mp3".to_vec());
    assert!(index.get(&b"missing".to_vec()).is_none());
}

#[test]
fn load_index_rejects_stray_bytes() {
    assert_eq!(load_index(&b"{xyz}".to_vec()).unwrap_err(), IndexError::InvalidChar);
}

#[test]
fn load_index_rejects_non_index_content() {
    assert_eq!(load_index(&b"{}".to_vec()).unwrap_err(), IndexError::NotAnIndex);
    assert_eq!(
        load_index(&b"{\"entries\":[{\"a\":\"/a.mp3\"}]}".to_vec()).unwrap_err(),
        IndexError::NotAnIndex
    );
}

#[test]
fn make_index_renders_the_file_format() {
    let mut entries = Dict::new();
    entries.insert(b"file1".to_vec(), b"/file1.mp3".to_vec());
    entries.insert(b"file2".to_vec(), b"/file2.mp3".to_vec());

    let bytes = make_index(&entries, &b"music".to_vec()).unwrap();
    assert_eq!(
        bytes,
        b"{\"path\":\"music\",\"entries\":[{\"file1\":\"/file1.mp3\"},{\"file2\":\"/file2.mp3\"}]}"
            .to_vec()
    );
}

#[test]
fn test_make_and_load_index_file() {
    let mut index = Dict::new();
    let path = b"music".to_vec();

    index.insert(b"file1".to_vec(), b"/file1.mp3".to_vec());
    index.insert(b"file2".to_vec(), b"/file2.mp3".to_vec());

    match make_index(&index, &path) {
        Ok(bytes) => {
            match load_index(&bytes) {
                Ok(music_index) => {
                    assert_eq!(music_index.map.len(), 2);
                    assert_eq!(
                        music_index.get(&b"file1".to_vec()).unwrap(),
                        b"music/file1.mp3".to_vec()
                    )
                },
                Err(e) => panic!("Test failed: {:?}", e),
            };
        },
        Err(e) => panic!("Test failed: {:?}", e),
    }
}

#[test]
fn make_index_of_nothing_is_an_error() {
    let entries = Dict::new();
    assert_eq!(
        make_index(&entries, &b"music".to_vec()).unwrap_err(),
        IndexError::EmptyIndex
    );
}

#[test]
fn index_entry_of_keeps_only_music_files() {
    let entry = index_entry_of(
        &b"song.mp3".to_vec(),
        &b"/base/song.mp3".to_vec(),
        5,
        &b"/base".to_vec(),
    )
    .unwrap();
    assert_eq!(entry.0, b"song".to_vec());
    assert_eq!(entry.1, b"/song.mp3".to_vec());

    assert!(index_entry_of(
        &b"notes.txt".to_vec(),
        &b"/base/notes.txt".to_vec(),
        5,
        &b"/base".to_vec()
    )
    .is_none());
}

#[test]
fn chunk_range_matches_the_protocol() {
    let c = CHUNK_SIZE;
    // a file of just under two chunks
    let len = 1_000_000u64;
    assert_eq!(chunk_range(len, 0), Some((0, c)));
    assert_eq!(chunk_range(len, 1), Some((c, len - c)));
    assert_eq!(chunk_range(len, 2), None);
    // the boundary: a chunk starting exactly at the end is out of range
    assert_eq!(chunk_range(c, 1), None);
    assert_eq!(chunk_range(c, 0), Some((0, c)));
    // the empty file has no chunk at all
    assert_eq!(chunk_range(0, 0), None);
    // a huge index does not overflow
    assert_eq!(chunk_range(u64::MAX, u64::MAX), None);
}

#[test]
fn chunk_query_track_not_found() {
    let index = index_of_two_tracks();
    let request = parse_http_request(
        &b"GET /api/v1/music/get?name=missing&chunk=0 HTTP/1.1\r\n\r\n".to_vec(),
    )
    .unwrap();
    match chunk_query(&index, &request) {
        ChunkQuery::TrackNotFound => {},
        _ => panic!("expected the track to be unknown"),
    }
    let response = track_not_found_response(&request).to_bytes();
    let text = String::from_utf8(response).unwrap();
    assert!(text.starts_with("HTTP/1.1 404 Not Found\r\n"));
    assert!(text.ends_with("{\"message\":\"Track specified was not found\"}"));
}

#[test]
fn chunk_query_resolves_known_track() {
    let index = index_of_two_tracks();
    let request = parse_http_request(
        &b"GET /api/v1/music/get?name=a&chunk=3 HTTP/1.1\r\n\r\n".to_vec(),
    )
    .unwrap();
    match chunk_query(&index, &request) {
        ChunkQuery::Serve(path, chunk) => {
            assert_eq!(path, b"/m/a.mp3".to_vec());
            assert_eq!(chunk, 3);
        },
        _ => panic!("expected the track to resolve"),
    }
}

#[test]
fn chunk_query_without_name_is_bad_request() {
    let index = index_of_two_tracks();
    let request =
        parse_http_request(&b"GET /api/v1/music/get?chunk=1 HTTP/1.1\r\n\r\n".to_vec()).unwrap();
    match chunk_query(&index, &request) {
        ChunkQuery::BadRequest => {},
        _ => panic!("expected a bad request"),
    }
    let text = String::from_utf8(bad_request_response(&request).to_bytes()).unwrap();
    assert!(text.starts_with("HTTP/1.1 400 Bad Request\r\n"));
}

#[test]
fn chunk_query_bad_chunk_number_serves_chunk_zero() {
    let index = index_of_two_tracks();
    let request = parse_http_request(
        &b"GET /api/v1/music/get?name=b&chunk=xyz HTTP/1.1\r\n\r\n".to_vec(),
    )
    .unwrap();
    match chunk_query(&index, &request) {
        ChunkQuery::Serve(path, chunk) => {
            assert_eq!(path, b"/m/b.mp3".to_vec());
            assert_eq!(chunk, 0);
        },
        _ => panic!("expected the track to resolve"),
    }
}

#[test]
fn list_response_is_the_json_track_array() {
    let index = index_of_two_tracks();
    let request = parse_http_request(&b"GET /api/v1/music/all HTTP/1.1\r\n\r\n".to_vec()).unwrap();
    let text = String::from_utf8(list_response(&index, &request).to_bytes()).unwrap();
    assert!(text.starts_with("HTTP/1.1 200 OK\r\n"));
    assert!(text.contains("Access-Control-Allow-Origin: *\r\n"));
    // both names, exactly once each, in the array body
    let body = text.split("\r\n\r\n").nth(1).unwrap();
    assert!(body == "[\"a\",\"b\"]" || body == "[\"b\",\"a\"]");
}

#[test]
fn out_of_range_response_is_the_416() {
    let request = parse_http_request(&b"GET /api/v1/music/get HTTP/1.1\r\n\r\n".to_vec()).unwrap();
    let text = String::from_utf8(out_of_range_response(&request).to_bytes()).unwrap();
    assert!(text.starts_with("HTTP/1.1 416 Range Not Satisfiable\r\n"));
    assert!(text.ends_with("{ \"message\": \"Chunk is out of bounds.\" }"));
}

#[test]
fn chunk_data_response_frames_the_bytes_read() {
    let request = parse_http_request(&b"GET /api/v1/music/get HTTP/1.1\r\n\r\n".to_vec()).unwrap();
    let data = vec![1u8, 2, 3, 4, 5];
    let bytes = chunk_data_response(&request, data.clone()).to_bytes();
    let head_len = bytes.len() - data.len();
    let text = String::from_utf8(bytes[..head_len].to_vec()).unwrap();
    assert!(text.starts_with("HTTP/1.1 200 OK\r\n"));
    assert!(text.contains("Content-Type: audio/mpeg\r\n"));
    assert!(text.contains("Content-Length: 5\r\n"));
    assert_eq!(&bytes[head_len..], &data[..]);
}
