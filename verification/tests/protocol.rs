//! Tests of the wire protocol, the server handler, and the client's
//! response handling.

use kvs::client::{get_result, remove_result, set_result};
use kvs::common::{
    decode_get_response, decode_remove_response, decode_request, decode_set_response,
    encode_get_response, encode_remove_response, encode_request, encode_set_response,
};
use kvs::engine_select::{resolve_engine, Engine};
use kvs::{
    GetResponse, KvStore, KvsError, KvsServer, RemoveResponse, Request, SetResponse,
};

#[test]
fn request_encodings_are_canonical() {
    let set = Request::Put { key: "k".to_owned(), value: "v".to_owned() };
    assert_eq!(
        encode_request(&set).as_slice(),
        br#"{"Set":{"key":"k","value":"v"}}"#
    );
    let get = Request::Get { key: "k".to_owned() };
    assert_eq!(encode_request(&get).as_slice(), br#"{"Get":{"key":"k"}}"#);
    let rm = Request::Remove { key: "k".to_owned() };
    assert_eq!(encode_request(&rm).as_slice(), br#"{"Remove":{"key":"k"}}"#);
}

#[test]
fn requests_round_trip() {
    for req in [
        Request::Put { key: "a\"b".to_owned(), value: "x\\y".to_owned() },
        Request::Get { key: "nyckel å".to_owned() },
        Request::Remove { key: "k".to_owned() },
    ] {
        let bytes = encode_request(&req);
        let (back, next) = decode_request(&bytes, 0).unwrap();
        assert_eq!(next, bytes.len());
        match (req, back) {
            (Request::Put { key: k1, value: v1 }, Request::Put { key: k2, value: v2 }) => {
                assert_eq!(k1, k2);
                assert_eq!(v1, v2);
            }
            (Request::Get { key: k1 }, Request::Get { key: k2 }) => assert_eq!(k1, k2),
            (Request::Remove { key: k1 }, Request::Remove { key: k2 }) => assert_eq!(k1, k2),
            _ => panic!("request variant changed in transit"),
        }
    }
}

#[test]
fn responses_round_trip() {
    let ok = encode_set_response(&SetResponse::Okay);
    assert_eq!(ok.as_slice(), br#"{"Ok":null}"#);
    let (resp, next) = decode_set_response(&ok, 0).unwrap();
    assert_eq!(next, ok.len());
    assert_eq!(resp, SetResponse::Okay);

    let err = encode_set_response(&SetResponse::Error("boom \"quoted\"".to_owned()));
    let (resp, _) = decode_set_response(&err, 0).unwrap();
    assert_eq!(resp, SetResponse::Error("boom \"quoted\"".to_owned()));

    let hit = encode_get_response(&GetResponse::Okay(Some("värde".to_owned())));
    let (resp, _) = decode_get_response(&hit, 0).unwrap();
    assert_eq!(resp, GetResponse::Okay(Some("värde".to_owned())));

    let miss = encode_get_response(&GetResponse::Okay(None));
    assert_eq!(miss.as_slice(), br#"{"Ok":null}"#);
    let (resp, _) = decode_get_response(&miss, 0).unwrap();
    assert_eq!(resp, GetResponse::Okay(None));

    let rerr = encode_remove_response(&RemoveResponse::Error("nope".to_owned()));
    let (resp, _) = decode_remove_response(&rerr, 0).unwrap();
    assert_eq!(resp, RemoveResponse::Error("nope".to_owned()));
}

#[test]
fn decode_response_rejects_garbage() {
    assert!(matches!(
        decode_set_response(b"{\"Okk\":null}", 0),
        Err(KvsError::Serde(_))
    ));
    assert!(matches!(
        decode_get_response(b"", 0),
        Err(KvsError::Serde(_))
    ));
}

#[test]
fn server_answers_with_matching_variants() {
    let store = KvStore::open(Vec::new()).unwrap();
    let mut server = KvsServer::new(store);

    let out = server.handle_request(Request::Put {
        key: "k".to_owned(),
        value: "v".to_owned(),
    });
    let (resp, _) = decode_set_response(&out, 0).unwrap();
    assert_eq!(resp, SetResponse::Okay);
    assert!(set_result(resp).is_ok());

    let out = server.handle_request(Request::Get { key: "k".to_owned() });
    let (resp, _) = decode_get_response(&out, 0).unwrap();
    assert_eq!(resp, GetResponse::Okay(Some("v".to_owned())));
    assert_eq!(get_result(resp).unwrap(), Some("v".to_owned()));

    let out = server.handle_request(Request::Get { key: "absent".to_owned() });
    let (resp, _) = decode_get_response(&out, 0).unwrap();
    assert_eq!(resp, GetResponse::Okay(None));
    assert_eq!(get_result(resp).unwrap(), None);

    let out = server.handle_request(Request::Remove { key: "k".to_owned() });
    let (resp, _) = decode_remove_response(&out, 0).unwrap();
    assert_eq!(resp, RemoveResponse::Okay);
    assert!(remove_result(resp).is_ok());

    // Removing again fails on the server; the client sees the message.
    let out = server.handle_request(Request::Remove { key: "k".to_owned() });
    let (resp, _) = decode_remove_response(&out, 0).unwrap();
    match remove_result(resp) {
        Err(KvsError::StringError(m)) => assert_eq!(m, "Key not found"),
        other => panic!("expected a remote error, got {:?}", other.is_ok()),
    }
}

#[test]
fn client_unwraps_error_messages() {
    assert!(matches!(
        set_result(SetResponse::Error("m1".to_owned())),
        Err(KvsError::StringError(m)) if m == "m1"
    ));
    assert!(matches!(
        get_result(GetResponse::Error("m2".to_owned())),
        Err(KvsError::StringError(m)) if m == "m2"
    ));
    assert!(matches!(
        remove_result(RemoveResponse::Error("m3".to_owned())),
        Err(KvsError::StringError(m)) if m == "m3"
    ));
}

#[test]
fn engine_marker_parses() {
    assert_eq!(Engine::from_str("kvs"), Some(Engine::Kvs));
    assert_eq!(Engine::from_str("sled"), Some(Engine::Sled));
    assert_eq!(Engine::from_str("kvs\n"), Some(Engine::Kvs));
    assert_eq!(Engine::from_str("sled\n"), Some(Engine::Sled));
    assert_eq!(Engine::from_str("lmdb"), None);
    assert_eq!(Engine::from_str(""), None);
    assert_eq!(Engine::Kvs.token(), "kvs");
    assert_eq!(Engine::Sled.token(), "sled");
}

#[test]
fn engine_choice_is_pinned() {
    assert_eq!(resolve_engine(None, None), Ok(Engine::Kvs));
    assert_eq!(resolve_engine(None, Some(Engine::Sled)), Ok(Engine::Sled));
    assert_eq!(resolve_engine(Some(Engine::Sled), None), Ok(Engine::Sled));
    assert_eq!(
        resolve_engine(Some(Engine::Kvs), Some(Engine::Kvs)),
        Ok(Engine::Kvs)
    );
    assert!(matches!(
        resolve_engine(Some(Engine::Kvs), Some(Engine::Sled)),
        Err(KvsError::StringError(_))
    ));
}
