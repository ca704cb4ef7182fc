use kvs::common::{
    decode_get_response, decode_remove_response, decode_request, decode_set_response,
    encode_get_response, encode_remove_response, encode_request, encode_set_response, GetResponse,
    RemoveResponse, Request, SetResponse,
};
use kvs::kv::KvStore;
use kvs::server::KvsServer;
use kvs::KvsError;

#[test]
fn request_wire_forms_are_canonical() {
    let get = Request::Get { key: "k".to_owned() };
    assert_eq!(encode_request(&get), "{\"Get\":{\"key\":\"k\"}}");
    let put = Request::Put { key: "k".to_owned(), value: "v".to_owned() };
    assert_eq!(encode_request(&put), "{\"Set\":{\"key\":\"k\",\"value\":\"v\"}}");
    let rm = Request::Remove { key: "k".to_owned() };
    assert_eq!(encode_request(&rm), "{\"Remove\":{\"key\":\"k\"}}");
}

#[test]
fn requests_round_trip() {
    let reqs = vec![
        Request::Get { key: "a key".to_owned() },
        Request::Put { key: "k\"2".to_owned(), value: "v\\2".to_owned() },
        Request::Remove { key: "".to_owned() },
    ];
    let mut stream = String::new();
    for r in &reqs {
        stream.push_str(&encode_request(r));
    }
    let (r1, u1) = decode_request(&stream, 0).unwrap();
    let (r2, u2) = decode_request(&stream, u1).unwrap();
    let (r3, u3) = decode_request(&stream, u1 + u2).unwrap();
    assert_eq!(u1 + u2 + u3, stream.chars().count());
    assert!(matches!(r1, Request::Get { key } if key == "a key"));
    assert!(matches!(r2, Request::Put { key, value } if key == "k\"2" && value == "v\\2"));
    assert!(matches!(r3, Request::Remove { key } if key.is_empty()));
}

#[test]
fn responses_round_trip() {
    let found = GetResponse::Found(Some("the value".to_owned()));
    let text = encode_get_response(&found);
    assert_eq!(text, "{\"Ok\":\"the value\"}");
    let (back, used) = decode_get_response(&text, 0).unwrap();
    assert_eq!(used, text.chars().count());
    assert!(matches!(back, GetResponse::Found(Some(v)) if v == "the value"));

    let absent = GetResponse::Found(None);
    let text = encode_get_response(&absent);
    assert_eq!(text, "{\"Ok\":null}");
    let (back, _) = decode_get_response(&text, 0).unwrap();
    assert!(matches!(back, GetResponse::Found(None)));

    let failed = GetResponse::Failed("Key not found".to_owned());
    let text = encode_get_response(&failed);
    assert_eq!(text, "{\"Err\":\"Key not found\"}");
    let (back, _) = decode_get_response(&text, 0).unwrap();
    assert!(matches!(back, GetResponse::Failed(m) if m == "Key not found"));

    let done = SetResponse::Done;
    let text = encode_set_response(&done);
    assert_eq!(text, "{\"Ok\":null}");
    assert!(matches!(
        decode_set_response(&text, 0),
        Ok((SetResponse::Done, 11))
    ));

    let rdone = RemoveResponse::Done;
    let text = encode_remove_response(&rdone);
    assert!(matches!(
        decode_remove_response(&text, 0),
        Ok((RemoveResponse::Done, 11))
    ));
}

#[test]
fn response_decoding_rejects_garbage() {
    assert!(matches!(
        decode_get_response("{\"Okay\":null}", 0),
        Err(KvsError::Serialization)
    ));
    assert!(matches!(
        decode_set_response("", 0),
        Err(KvsError::Serialization)
    ));
}

// The whole server path minus the sockets: decode a request stream,
// dispatch each request against the engine, and answer on the wire.
#[test]
fn server_round_trip_over_wire_forms() -> Result<(), KvsError> {
    let store = KvStore::open(Vec::new())?;
    let mut server = KvsServer::new(store);

    let mut stream = String::new();
    stream.push_str(&encode_request(&Request::Put {
        key: "k".to_owned(),
        value: "v".to_owned(),
    }));
    stream.push_str(&encode_request(&Request::Get { key: "k".to_owned() }));
    stream.push_str(&encode_request(&Request::Remove { key: "k".to_owned() }));
    stream.push_str(&encode_request(&Request::Get { key: "k".to_owned() }));
    stream.push_str(&encode_request(&Request::Remove { key: "k".to_owned() }));

    let mut at = 0;
    let mut replies: Vec<String> = Vec::new();
    while at < stream.chars().count() {
        let (req, used) = decode_request(&stream, at)?;
        let resp = server.handle_request(req);
        replies.push(kvs::common::encode_response(&resp));
        at += used;
    }
    assert_eq!(
        replies,
        vec![
            "{\"Ok\":null}".to_owned(),
            "{\"Ok\":\"v\"}".to_owned(),
            "{\"Ok\":null}".to_owned(),
            "{\"Ok\":null}".to_owned(),
            "{\"Err\":\"Key not found\"}".to_owned(),
        ]
    );
    Ok(())
}
