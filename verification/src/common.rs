//! What client and server say to each other, and how it is framed.
//!
//! Requests and responses travel as a concatenated stream of
//! self-delimiting records in the same canonical JSON form that the log
//! uses: `{"Get":{"key":"K"}}`, `{"Set":{"key":"K","value":"V"}}` and
//! `{"Remove":{"key":"K"}}` for requests; `{"Ok":"V"}`, `{"Ok":null}`
//! and `{"Err":"M"}` for responses. Each decoder is proved to read back
//! exactly what the matching encoder wrote, and to fail exactly when no
//! well-formed message starts at the given position.

use vstd::prelude::*;
use crate::codec::{esc, enc_set, enc_remove, end_braces, quoted, append_escaped, match_pattern,
    parse_string, lemma_esc_unambiguous, lemma_skip_split, record_stream, decode_command};
use crate::command::{Command, CommandView};
use crate::error::{message_spec, KvsError};

verus! {

/// Mathematical form of a [`Request`].
pub enum RequestView {
    Get { key: Seq<char> },
    Put { key: Seq<char>, value: Seq<char> },
    Remove { key: Seq<char> },
}

/// One operation asked of the server.
///
/// `Put` travels under the wire tag `Set`.
#[derive(Debug)]
pub enum Request {
    /// Look a key up.
    Get { key: String },
    /// Assign a value to a key.
    Put { key: String, value: String },
    /// Delete a key.
    Remove { key: String },
}

impl View for Request {
    type V = RequestView;

    open spec fn view(&self) -> RequestView {
        match self {
            Request::Get { key } => (RequestView::Get { key: key@ }),
            Request::Put { key, value } => (RequestView::Put { key: key@, value: value@ }),
            Request::Remove { key } => (RequestView::Remove { key: key@ }),
        }
    }
}

/// Mathematical form of a [`GetResponse`].
pub enum GetResponseView {
    Found { value: Option<Seq<char>> },
    Failed { msg: Seq<char> },
}

/// The server's answer to a `Get`: the value if the key is live, nothing
/// if it is not, or an error message. Success travels under the wire tag
/// `Ok`, failure under `Err`.
#[derive(Debug)]
pub enum GetResponse {
    /// The lookup succeeded, with the key's value if it was live.
    Found(Option<String>),
    /// The lookup failed; the message says why.
    Failed(String),
}

impl View for GetResponse {
    type V = GetResponseView;

    open spec fn view(&self) -> GetResponseView {
        match self {
            GetResponse::Found(v) => (GetResponseView::Found {
                value: match v {
                    Option::Some(s) => Option::Some(s@),
                    Option::None => Option::None,
                },
            }),
            GetResponse::Failed(m) => (GetResponseView::Failed { msg: m@ }),
        }
    }
}

/// Mathematical form of a [`SetResponse`].
pub enum SetResponseView {
    Done,
    Failed { msg: Seq<char> },
}

/// The server's answer to a `Set`. Success travels as `{"Ok":null}`.
#[derive(Debug)]
pub enum SetResponse {
    /// The assignment was made and is durable to the process.
    Done,
    /// The assignment failed; the message says why.
    Failed(String),
}

impl View for SetResponse {
    type V = SetResponseView;

    open spec fn view(&self) -> SetResponseView {
        match self {
            SetResponse::Done => SetResponseView::Done,
            SetResponse::Failed(m) => (SetResponseView::Failed { msg: m@ }),
        }
    }
}

/// Mathematical form of a [`RemoveResponse`].
pub enum RemoveResponseView {
    Done,
    Failed { msg: Seq<char> },
}

/// The server's answer to a `Remove`. Success travels as `{"Ok":null}`.
#[derive(Debug)]
pub enum RemoveResponse {
    /// The key was deleted and the deletion is durable to the process.
    Done,
    /// The deletion failed; the message says why.
    Failed(String),
}

impl View for RemoveResponse {
    type V = RemoveResponseView;

    open spec fn view(&self) -> RemoveResponseView {
        match self {
            RemoveResponse::Done => RemoveResponseView::Done,
            RemoveResponse::Failed(m) => (RemoveResponseView::Failed { msg: m@ }),
        }
    }
}

/// Any response, tagged by the request kind it answers.
#[derive(Debug)]
pub enum Response {
    /// Answer to a `Get`.
    Get(GetResponse),
    /// Answer to a `Set`.
    Put(SetResponse),
    /// Answer to a `Remove`.
    Remove(RemoveResponse),
}

/// The opening of a `Get` request, up to the first character of the key.
pub open spec fn get_prefix() -> Seq<char> {
    seq!['{', '"', 'G', 'e', 't', '"', ':', '{', '"', 'k', 'e', 'y', '"', ':', '"']
}

/// The encoding of a `Get` request.
pub open spec fn enc_get_req(k: Seq<char>) -> Seq<char> {
    get_prefix() + esc(k) + seq!['"'] + end_braces()
}

/// The encoding of any request.
pub open spec fn encode_request_spec(r: RequestView) -> Seq<char> {
    match r {
        RequestView::Get { key } => enc_get_req(key),
        RequestView::Put { key, value } => enc_set(key, value),
        RequestView::Remove { key } => enc_remove(key),
    }
}

/// The stream that starts with request `r` and continues with `rest`.
pub open spec fn request_stream(r: RequestView, rest: Seq<char>) -> Seq<char> {
    encode_request_spec(r) + rest
}

/// A success response that carries no value.
pub open spec fn ok_null() -> Seq<char> {
    seq!['{', '"', 'O', 'k', '"', ':', 'n', 'u', 'l', 'l', '}']
}

/// The opening of a success response that carries a string.
pub open spec fn ok_str_prefix() -> Seq<char> {
    seq!['{', '"', 'O', 'k', '"', ':', '"']
}

/// The opening of a failure response.
pub open spec fn err_prefix() -> Seq<char> {
    seq!['{', '"', 'E', 'r', 'r', '"', ':', '"']
}

/// The quote and brace that close a string-carrying response.
pub open spec fn close_str() -> Seq<char> {
    seq!['"', '}']
}

/// The encoding of a `Get` response.
pub open spec fn encode_get_response_spec(r: GetResponseView) -> Seq<char> {
    match r {
        GetResponseView::Found { value } => match value {
            Option::Some(v) => ok_str_prefix() + esc(v) + close_str(),
            Option::None => ok_null(),
        },
        GetResponseView::Failed { msg } => err_prefix() + esc(msg) + close_str(),
    }
}

/// The stream that starts with a `Get` response and continues with `rest`.
pub open spec fn get_resp_stream(r: GetResponseView, rest: Seq<char>) -> Seq<char> {
    encode_get_response_spec(r) + rest
}

/// The encoding of a `Set` response.
pub open spec fn encode_set_response_spec(r: SetResponseView) -> Seq<char> {
    match r {
        SetResponseView::Done => ok_null(),
        SetResponseView::Failed { msg } => err_prefix() + esc(msg) + close_str(),
    }
}

/// The stream that starts with a `Set` response and continues with `rest`.
pub open spec fn set_resp_stream(r: SetResponseView, rest: Seq<char>) -> Seq<char> {
    encode_set_response_spec(r) + rest
}

/// The encoding of a `Remove` response.
pub open spec fn encode_remove_response_spec(r: RemoveResponseView) -> Seq<char> {
    match r {
        RemoveResponseView::Done => ok_null(),
        RemoveResponseView::Failed { msg } => err_prefix() + esc(msg) + close_str(),
    }
}

/// The stream that starts with a `Remove` response and continues with
/// `rest`.
pub open spec fn remove_resp_stream(r: RemoveResponseView, rest: Seq<char>) -> Seq<char> {
    encode_remove_response_spec(r) + rest
}

/// The literal text of each fixed part of a wire message.
proof fn lemma_wire_parts()
    ensures
        "{\"Get\":{\"key\":\""@ == get_prefix(),
        "{\"Ok\":null}"@ == ok_null(),
        "{\"Ok\":\""@ == ok_str_prefix(),
        "{\"Err\":\""@ == err_prefix(),
        "\"}"@ == close_str(),
        "}"@ == seq!['}'],
        "\"}}"@ == seq!['"'] + end_braces(),
        "}}"@ == end_braces(),
{
    reveal_strlit("{\"Get\":{\"key\":\"");
    reveal_strlit("{\"Ok\":null}");
    reveal_strlit("{\"Ok\":\"");
    reveal_strlit("{\"Err\":\"");
    reveal_strlit("\"}");
    reveal_strlit("}");
    reveal_strlit("\"}}");
    reveal_strlit("}}");
    assert("{\"Get\":{\"key\":\""@ =~= get_prefix());
    assert("{\"Ok\":null}"@ =~= ok_null());
    assert("{\"Ok\":\""@ =~= ok_str_prefix());
    assert("{\"Err\":\""@ =~= err_prefix());
    assert("\"}"@ =~= close_str());
    assert("}"@ =~= seq!['}']);
    assert("\"}}"@ =~= seq!['"'] + end_braces());
    assert("}}"@ =~= end_braces());
}

/// Serialize a request into its canonical text.
pub fn encode_request(req: &Request) -> (r: String)
    ensures
        r@ == encode_request_spec(req@),
{
    proof {
        lemma_wire_parts();
    }
    match req {
        Request::Get { key } => {
            let mut out = String::new();
            out.append("{\"Get\":{\"key\":\"");
            append_escaped(&mut out, key.as_str());
            out.append("\"}}");
            proof {
                assert(out@ =~= enc_get_req(key@));
            }
            out
        }
        Request::Put { key, value } => {
            let cmd = Command::Put { key: key.clone(), value: value.clone() };
            crate::codec::encode_command(&cmd)
        }
        Request::Remove { key } => {
            let cmd = Command::Remove { key: key.clone() };
            crate::codec::encode_command(&cmd)
        }
    }
}

/// Serialize a `Get` response into its canonical text.
pub fn encode_get_response(resp: &GetResponse) -> (r: String)
    ensures
        r@ == encode_get_response_spec(resp@),
{
    proof {
        lemma_wire_parts();
    }
    let mut out = String::new();
    match resp {
        GetResponse::Found(v) => match v {
            Option::Some(s) => {
                out.append("{\"Ok\":\"");
                append_escaped(&mut out, s.as_str());
                out.append("\"}");
                proof {
                    assert(out@ =~= ok_str_prefix() + esc(s@) + close_str());
                }
            }
            Option::None => {
                out.append("{\"Ok\":null}");
                proof {
                    assert(out@ =~= ok_null());
                }
            }
        },
        GetResponse::Failed(m) => {
            out.append("{\"Err\":\"");
            append_escaped(&mut out, m.as_str());
            out.append("\"}");
            proof {
                assert(out@ =~= err_prefix() + esc(m@) + close_str());
            }
        }
    }
    out
}

/// Serialize a `Set` response into its canonical text.
pub fn encode_set_response(resp: &SetResponse) -> (r: String)
    ensures
        r@ == encode_set_response_spec(resp@),
{
    proof {
        lemma_wire_parts();
    }
    let mut out = String::new();
    match resp {
        SetResponse::Done => {
            out.append("{\"Ok\":null}");
            proof {
                assert(out@ =~= ok_null());
            }
        }
        SetResponse::Failed(m) => {
            out.append("{\"Err\":\"");
            append_escaped(&mut out, m.as_str());
            out.append("\"}");
            proof {
                assert(out@ =~= err_prefix() + esc(m@) + close_str());
            }
        }
    }
    out
}

/// Serialize a `Remove` response into its canonical text.
pub fn encode_remove_response(resp: &RemoveResponse) -> (r: String)
    ensures
        r@ == encode_remove_response_spec(resp@),
{
    proof {
        lemma_wire_parts();
    }
    let mut out = String::new();
    match resp {
        RemoveResponse::Done => {
            out.append("{\"Ok\":null}");
            proof {
                assert(out@ =~= ok_null());
            }
        }
        RemoveResponse::Failed(m) => {
            out.append("{\"Err\":\"");
            append_escaped(&mut out, m.as_str());
            out.append("\"}");
            proof {
                assert(out@ =~= err_prefix() + esc(m@) + close_str());
            }
        }
    }
    out
}

/// Serialize any response into its canonical text.
pub fn encode_response(resp: &Response) -> (r: String)
    ensures
        (match resp {
            Response::Get(g) => r@ == encode_get_response_spec(g@),
            Response::Put(s) => r@ == encode_set_response_spec(s@),
            Response::Remove(m) => r@ == encode_remove_response_spec(m@),
        }),
{
    match resp {
        Response::Get(g) => encode_get_response(g),
        Response::Put(s) => encode_set_response(s),
        Response::Remove(m) => encode_remove_response(m),
    }
}


/// The log record that a `Set` or `Remove` request carries.
pub open spec fn req_command(r: RequestView) -> CommandView {
    match r {
        RequestView::Get { key } => (CommandView::Remove { key }),
        RequestView::Put { key, value } => (CommandView::Put { key, value }),
        RequestView::Remove { key } => (CommandView::Remove { key }),
    }
}

/// A `Set` or `Remove` request on the wire is exactly its log record.
proof fn lemma_request_as_record(s: Seq<char>, at: int, rv: RequestView, rest: Seq<char>)
    requires
        0 <= at <= s.len(),
        s.skip(at) == request_stream(rv, rest),
        rv is Put || rv is Remove,
    ensures
        s.skip(at) == record_stream(req_command(rv), rest),
{
}

/// What a stream that opens like a `Get` request looks like.
proof fn lemma_get_req_stream(s: Seq<char>, at: int, k: Seq<char>, rest: Seq<char>)
    requires
        0 <= at <= s.len(),
        s.skip(at) == request_stream((RequestView::Get { key: k }), rest),
    ensures
        at + 15 <= s.len(),
        s.subrange(at, at + 15) == get_prefix(),
        s.skip(at + 15) == quoted(k, end_braces() + rest),
{
    let q: Seq<char> = seq!['"'];
    let tail = esc(k) + q + (end_braces() + rest);
    assert(s.skip(at) =~= get_prefix() + tail);
    assert(s.skip(at).len() == s.len() - at);
    assert(s.subrange(at, at + 15) =~= (get_prefix() + tail).take(15));
    assert((get_prefix() + tail).take(15) =~= get_prefix());
    assert(s.skip(at + 15) =~= (get_prefix() + tail).skip(15));
    assert((get_prefix() + tail).skip(15) =~= tail);
}

/// Read the request that starts at `start`, if one does.
#[verifier::rlimit(60)]
#[verifier::spinoff_prover]
pub fn decode_request(s: &str, start: usize) -> (r: Result<(Request, usize), KvsError>)
    requires
        start <= s@.len(),
    ensures
        (match r {
            Ok(p) => {
                &&& start + p.1 <= s@.len()
                &&& s@.subrange(start as int, (start + p.1) as int) == encode_request_spec(p.0@)
            },
            Err(e) => {
                &&& e == KvsError::Serialization
                &&& forall|rv: RequestView, rest: Seq<char>|
                    s@.skip(start as int) != request_stream(rv, rest)
            },
        }),
{
    let n = s.unicode_len();
    proof {
        lemma_wire_parts();
    }
    match decode_command(s, start) {
        Ok((cmd, used)) => {
            match cmd {
                Command::Put { key, value } => Ok((Request::Put { key, value }, used)),
                Command::Remove { key } => Ok((Request::Remove { key }, used)),
            }
        }
        Err(_) => {
            if !match_pattern(s, n, start, "{\"Get\":{\"key\":\"") {
                proof {
                    assert forall|rv: RequestView, rest: Seq<char>|
                        s@.skip(start as int) != request_stream(rv, rest) by {
                        if s@.skip(start as int) == request_stream(rv, rest) {
                            match rv {
                                RequestView::Get { key } => {
                                    lemma_get_req_stream(s@, start as int, key, rest);
                                }
                                RequestView::Put { key, value } => {
                                    lemma_request_as_record(s@, start as int, rv, rest);
                                }
                                RequestView::Remove { key } => {
                                    lemma_request_as_record(s@, start as int, rv, rest);
                                }
                            }
                            assert(false);
                        }
                    }
                }
                return Err(KvsError::Serialization);
            }
            let i = start + 15;
            let key_parse = parse_string(s, n, i);
            if key_parse.is_none() {
                proof {
                    assert forall|rv: RequestView, rest: Seq<char>|
                        s@.skip(start as int) != request_stream(rv, rest) by {
                        if s@.skip(start as int) == request_stream(rv, rest) {
                            match rv {
                                RequestView::Get { key } => {
                                    lemma_get_req_stream(s@, start as int, key, rest);
                                }
                                RequestView::Put { key, value } => {
                                    lemma_request_as_record(s@, start as int, rv, rest);
                                }
                                RequestView::Remove { key } => {
                                    lemma_request_as_record(s@, start as int, rv, rest);
                                }
                            }
                            assert(false);
                        }
                    }
                }
                return Err(KvsError::Serialization);
            }
            let (key, used1) = key_parse.unwrap();
            let j = i + used1;
            proof {
                lemma_skip_split(s@, i as int, j as int);
            }
            if !match_pattern(s, n, j, "}}") {
                proof {
                    assert forall|rv: RequestView, rest: Seq<char>|
                        s@.skip(start as int) != request_stream(rv, rest) by {
                        if s@.skip(start as int) == request_stream(rv, rest) {
                            match rv {
                                RequestView::Get { key: k2 } => {
                                    lemma_get_req_stream(s@, start as int, k2, rest);
                                    lemma_esc_unambiguous(
                                        key@,
                                        k2,
                                        s@.skip(j as int),
                                        end_braces() + rest,
                                    );
                                    assert(s@.skip(j as int) == end_braces() + rest);
                                    assert(s@.skip(j as int).len() == n - j);
                                    assert(s@.subrange(j as int, j + 2) =~= (end_braces()
                                        + rest).take(2));
                                    assert((end_braces() + rest).take(2) =~= end_braces());
                                }
                                RequestView::Put { key: k2, value } => {
                                    lemma_request_as_record(s@, start as int, rv, rest);
                                }
                                RequestView::Remove { key: k2 } => {
                                    lemma_request_as_record(s@, start as int, rv, rest);
                                }
                            }
                            assert(false);
                        }
                    }
                }
                return Err(KvsError::Serialization);
            }
            proof {
                assert(s@.subrange(start as int, start + 15) == get_prefix());
                assert(s@.subrange(i as int, j as int) == esc(key@) + seq!['"']);
                assert(s@.subrange(j as int, j + 2) == end_braces());
                assert(s@.subrange(start as int, j + 2) =~= s@.subrange(start as int, start + 15)
                    + s@.subrange(i as int, j as int) + s@.subrange(j as int, j + 2));
                assert(s@.subrange(start as int, j + 2) =~= enc_get_req(key@));
            }
            Ok((Request::Get { key }, j + 2 - start))
        }
    }
}

/// What a stream that opens with a value-carrying success looks like.
proof fn lemma_ok_str_stream(s: Seq<char>, at: int, v: Seq<char>, rest: Seq<char>)
    requires
        0 <= at <= s.len(),
        s.skip(at) == ok_str_prefix() + esc(v) + close_str() + rest,
    ensures
        at + 7 <= s.len(),
        s.subrange(at, at + 7) == ok_str_prefix(),
        s.skip(at + 7) == quoted(v, seq!['}'] + rest),
{
    let q: Seq<char> = seq!['"'];
    let tail = esc(v) + q + (seq!['}'] + rest);
    assert(s.skip(at) =~= ok_str_prefix() + tail);
    assert(s.skip(at).len() == s.len() - at);
    assert(s.subrange(at, at + 7) =~= (ok_str_prefix() + tail).take(7));
    assert((ok_str_prefix() + tail).take(7) =~= ok_str_prefix());
    assert(s.skip(at + 7) =~= (ok_str_prefix() + tail).skip(7));
    assert((ok_str_prefix() + tail).skip(7) =~= tail);
}

/// What a stream that opens with a failure looks like.
proof fn lemma_err_stream(s: Seq<char>, at: int, m: Seq<char>, rest: Seq<char>)
    requires
        0 <= at <= s.len(),
        s.skip(at) == err_prefix() + esc(m) + close_str() + rest,
    ensures
        at + 8 <= s.len(),
        s.subrange(at, at + 8) == err_prefix(),
        s.skip(at + 8) == quoted(m, seq!['}'] + rest),
{
    let q: Seq<char> = seq!['"'];
    let tail = esc(m) + q + (seq!['}'] + rest);
    assert(s.skip(at) =~= err_prefix() + tail);
    assert(s.skip(at).len() == s.len() - at);
    assert(s.subrange(at, at + 8) =~= (err_prefix() + tail).take(8));
    assert((err_prefix() + tail).take(8) =~= err_prefix());
    assert(s.skip(at + 8) =~= (err_prefix() + tail).skip(8));
    assert((err_prefix() + tail).skip(8) =~= tail);
}

/// What a stream that opens with a bare success looks like.
proof fn lemma_ok_null_stream(s: Seq<char>, at: int, rest: Seq<char>)
    requires
        0 <= at <= s.len(),
        s.skip(at) == ok_null() + rest,
    ensures
        at + 11 <= s.len(),
        s.subrange(at, at + 11) == ok_null(),
{
    assert(s.skip(at).len() == s.len() - at);
    assert(s.subrange(at, at + 11) =~= (ok_null() + rest).take(11));
    assert((ok_null() + rest).take(11) =~= ok_null());
}

/// Read the `Get` response that starts at `start`, if one does.
#[verifier::rlimit(60)]
#[verifier::spinoff_prover]
pub fn decode_get_response(s: &str, start: usize) -> (r: Result<(GetResponse, usize), KvsError>)
    requires
        start <= s@.len(),
    ensures
        (match r {
            Ok(p) => {
                &&& start + p.1 <= s@.len()
                &&& s@.subrange(start as int, (start + p.1) as int) == encode_get_response_spec(
                    p.0@,
                )
            },
            Err(e) => {
                &&& e == KvsError::Serialization
                &&& forall|rv: GetResponseView, rest: Seq<char>|
                    s@.skip(start as int) != get_resp_stream(rv, rest)
            },
        }),
{
    let n = s.unicode_len();
    proof {
        lemma_wire_parts();
    }
    if match_pattern(s, n, start, "{\"Ok\":\"") {
        let i = start + 7;
        let val_parse = parse_string(s, n, i);
        if val_parse.is_none() {
            proof {
                assert forall|rv: GetResponseView, rest: Seq<char>|
                    s@.skip(start as int) != get_resp_stream(rv, rest) by {
                    if s@.skip(start as int) == get_resp_stream(rv, rest) {
                        match rv {
                            GetResponseView::Found { value: Option::Some(v2) } => {
                                lemma_ok_str_stream(s@, start as int, v2, rest);
                            }
                            GetResponseView::Found { value: Option::None } => {
                                lemma_ok_null_stream(s@, start as int, rest);
                                assert(s@[start + 6] == '"' && s@[start + 6] == 'n');
                            }
                            GetResponseView::Failed { msg } => {
                                lemma_err_stream(s@, start as int, msg, rest);
                                assert(s@[start + 2] == 'O' && s@[start + 2] == 'E');
                            }
                        }
                        assert(false);
                    }
                }
            }
            return Err(KvsError::Serialization);
        }
        let (v, used1) = val_parse.unwrap();
        let j = i + used1;
        proof {
            lemma_skip_split(s@, i as int, j as int);
        }
        if !match_pattern(s, n, j, "}") {
            proof {
                assert forall|rv: GetResponseView, rest: Seq<char>|
                    s@.skip(start as int) != get_resp_stream(rv, rest) by {
                    if s@.skip(start as int) == get_resp_stream(rv, rest) {
                        match rv {
                            GetResponseView::Found { value: Option::Some(v2) } => {
                                lemma_ok_str_stream(s@, start as int, v2, rest);
                                lemma_esc_unambiguous(
                                    v@,
                                    v2,
                                    s@.skip(j as int),
                                    seq!['}'] + rest,
                                );
                                assert(s@.skip(j as int) == seq!['}'] + rest);
                                assert(s@.skip(j as int).len() == n - j);
                                assert(s@.subrange(j as int, j + 1) =~= (seq!['}']
                                    + rest).take(1));
                                assert((seq!['}'] + rest).take(1) =~= seq!['}']);
                            }
                            GetResponseView::Found { value: Option::None } => {
                                lemma_ok_null_stream(s@, start as int, rest);
                                assert(s@[start + 6] == '"' && s@[start + 6] == 'n');
                            }
                            GetResponseView::Failed { msg } => {
                                lemma_err_stream(s@, start as int, msg, rest);
                                assert(s@[start + 2] == 'O' && s@[start + 2] == 'E');
                            }
                        }
                        assert(false);
                    }
                }
            }
            return Err(KvsError::Serialization);
        }
        proof {
            assert(s@.subrange(start as int, start + 7) == ok_str_prefix());
            assert(s@.subrange(i as int, j as int) == esc(v@) + seq!['"']);
            assert(s@.subrange(j as int, j + 1) == seq!['}']);
            assert(s@.subrange(start as int, j + 1) =~= s@.subrange(start as int, start + 7)
                + s@.subrange(i as int, j as int) + s@.subrange(j as int, j + 1));
            assert(s@.subrange(start as int, j + 1) =~= ok_str_prefix() + esc(v@) + close_str());
        }
        Ok((GetResponse::Found(Some(v)), j + 1 - start))
    } else if match_pattern(s, n, start, "{\"Ok\":null}") {
        proof {
            assert(s@.subrange(start as int, start + 11) == ok_null());
        }
        Ok((GetResponse::Found(None), 11))
    } else if match_pattern(s, n, start, "{\"Err\":\"") {
        let i = start + 8;
        let msg_parse = parse_string(s, n, i);
        if msg_parse.is_none() {
            proof {
                assert forall|rv: GetResponseView, rest: Seq<char>|
                    s@.skip(start as int) != get_resp_stream(rv, rest) by {
                    if s@.skip(start as int) == get_resp_stream(rv, rest) {
                        match rv {
                            GetResponseView::Found { value: Option::Some(v2) } => {
                                lemma_ok_str_stream(s@, start as int, v2, rest);
                            }
                            GetResponseView::Found { value: Option::None } => {
                                lemma_ok_null_stream(s@, start as int, rest);
                            }
                            GetResponseView::Failed { msg } => {
                                lemma_err_stream(s@, start as int, msg, rest);
                            }
                        }
                        assert(false);
                    }
                }
            }
            return Err(KvsError::Serialization);
        }
        let (m, used1) = msg_parse.unwrap();
        let j = i + used1;
        proof {
            lemma_skip_split(s@, i as int, j as int);
        }
        if !match_pattern(s, n, j, "}") {
            proof {
                assert forall|rv: GetResponseView, rest: Seq<char>|
                    s@.skip(start as int) != get_resp_stream(rv, rest) by {
                    if s@.skip(start as int) == get_resp_stream(rv, rest) {
                        match rv {
                            GetResponseView::Found { value } => match value {
                                Option::Some(v2) => {
                                    lemma_ok_str_stream(s@, start as int, v2, rest);
                                }
                                Option::None => {
                                    lemma_ok_null_stream(s@, start as int, rest);
                                }
                            },
                            GetResponseView::Failed { msg } => {
                                lemma_err_stream(s@, start as int, msg, rest);
                                lemma_esc_unambiguous(
                                    m@,
                                    msg,
                                    s@.skip(j as int),
                                    seq!['}'] + rest,
                                );
                                assert(s@.skip(j as int) == seq!['}'] + rest);
                                assert(s@.skip(j as int).len() == n - j);
                                assert(s@.subrange(j as int, j + 1) =~= (seq!['}']
                                    + rest).take(1));
                                assert((seq!['}'] + rest).take(1) =~= seq!['}']);
                            }
                        }
                        assert(false);
                    }
                }
            }
            return Err(KvsError::Serialization);
        }
        proof {
            assert(s@.subrange(start as int, start + 8) == err_prefix());
            assert(s@.subrange(i as int, j as int) == esc(m@) + seq!['"']);
            assert(s@.subrange(j as int, j + 1) == seq!['}']);
            assert(s@.subrange(start as int, j + 1) =~= s@.subrange(start as int, start + 8)
                + s@.subrange(i as int, j as int) + s@.subrange(j as int, j + 1));
            assert(s@.subrange(start as int, j + 1) =~= err_prefix() + esc(m@) + close_str());
        }
        Ok((GetResponse::Failed(m), j + 1 - start))
    } else {
        proof {
            assert forall|rv: GetResponseView, rest: Seq<char>|
                s@.skip(start as int) != get_resp_stream(rv, rest) by {
                if s@.skip(start as int) == get_resp_stream(rv, rest) {
                    match rv {
                        GetResponseView::Found { value: Option::Some(v2) } => {
                            lemma_ok_str_stream(s@, start as int, v2, rest);
                        }
                        GetResponseView::Found { value: Option::None } => {
                            lemma_ok_null_stream(s@, start as int, rest);
                        }
                        GetResponseView::Failed { msg } => {
                            lemma_err_stream(s@, start as int, msg, rest);
                        }
                    }
                    assert(false);
                }
            }
        }
        Err(KvsError::Serialization)
    }
}

/// Read the `Set` response that starts at `start`, if one does.
#[verifier::rlimit(60)]
#[verifier::spinoff_prover]
pub fn decode_set_response(s: &str, start: usize) -> (r: Result<(SetResponse, usize), KvsError>)
    requires
        start <= s@.len(),
    ensures
        (match r {
            Ok(p) => {
                &&& start + p.1 <= s@.len()
                &&& s@.subrange(start as int, (start + p.1) as int) == encode_set_response_spec(
                    p.0@,
                )
            },
            Err(e) => {
                &&& e == KvsError::Serialization
                &&& forall|rv: SetResponseView, rest: Seq<char>|
                    s@.skip(start as int) != set_resp_stream(rv, rest)
            },
        }),
{
    let n = s.unicode_len();
    proof {
        lemma_wire_parts();
    }
    if match_pattern(s, n, start, "{\"Ok\":null}") {
        proof {
            assert(s@.subrange(start as int, start + 11) == ok_null());
        }
        Ok((SetResponse::Done, 11))
    } else if match_pattern(s, n, start, "{\"Err\":\"") {
        let i = start + 8;
        let msg_parse = parse_string(s, n, i);
        if msg_parse.is_none() {
            proof {
                assert forall|rv: SetResponseView, rest: Seq<char>|
                    s@.skip(start as int) != set_resp_stream(rv, rest) by {
                    if s@.skip(start as int) == set_resp_stream(rv, rest) {
                        match rv {
                            SetResponseView::Done => {
                                lemma_ok_null_stream(s@, start as int, rest);
                            }
                            SetResponseView::Failed { msg } => {
                                lemma_err_stream(s@, start as int, msg, rest);
                            }
                        }
                        assert(false);
                    }
                }
            }
            return Err(KvsError::Serialization);
        }
        let (m, used1) = msg_parse.unwrap();
        let j = i + used1;
        proof {
            lemma_skip_split(s@, i as int, j as int);
        }
        if !match_pattern(s, n, j, "}") {
            proof {
                assert forall|rv: SetResponseView, rest: Seq<char>|
                    s@.skip(start as int) != set_resp_stream(rv, rest) by {
                    if s@.skip(start as int) == set_resp_stream(rv, rest) {
                        match rv {
                            SetResponseView::Done => {
                                lemma_ok_null_stream(s@, start as int, rest);
                            }
                            SetResponseView::Failed { msg } => {
                                lemma_err_stream(s@, start as int, msg, rest);
                                lemma_esc_unambiguous(
                                    m@,
                                    msg,
                                    s@.skip(j as int),
                                    seq!['}'] + rest,
                                );
                                assert(s@.skip(j as int) == seq!['}'] + rest);
                                assert(s@.skip(j as int).len() == n - j);
                                assert(s@.subrange(j as int, j + 1) =~= (seq!['}']
                                    + rest).take(1));
                                assert((seq!['}'] + rest).take(1) =~= seq!['}']);
                            }
                        }
                        assert(false);
                    }
                }
            }
            return Err(KvsError::Serialization);
        }
        proof {
            assert(s@.subrange(start as int, start + 8) == err_prefix());
            assert(s@.subrange(i as int, j as int) == esc(m@) + seq!['"']);
            assert(s@.subrange(j as int, j + 1) == seq!['}']);
            assert(s@.subrange(start as int, j + 1) =~= s@.subrange(start as int, start + 8)
                + s@.subrange(i as int, j as int) + s@.subrange(j as int, j + 1));
            assert(s@.subrange(start as int, j + 1) =~= err_prefix() + esc(m@) + close_str());
        }
        Ok((SetResponse::Failed(m), j + 1 - start))
    } else {
        proof {
            assert forall|rv: SetResponseView, rest: Seq<char>|
                s@.skip(start as int) != set_resp_stream(rv, rest) by {
                if s@.skip(start as int) == set_resp_stream(rv, rest) {
                    match rv {
                        SetResponseView::Done => {
                            lemma_ok_null_stream(s@, start as int, rest);
                        }
                        SetResponseView::Failed { msg } => {
                            lemma_err_stream(s@, start as int, msg, rest);
                        }
                    }
                    assert(false);
                }
            }
        }
        Err(KvsError::Serialization)
    }
}

/// Read the `Remove` response that starts at `start`, if one does.
///
/// `Remove` responses are written exactly like `Set` responses, so this
/// reads one and renames it.
pub fn decode_remove_response(s: &str, start: usize) -> (r: Result<
    (RemoveResponse, usize),
    KvsError,
>)
    requires
        start <= s@.len(),
    ensures
        (match r {
            Ok(p) => {
                &&& start + p.1 <= s@.len()
                &&& s@.subrange(start as int, (start + p.1) as int) == encode_remove_response_spec(
                    p.0@,
                )
            },
            Err(e) => {
                &&& e == KvsError::Serialization
                &&& forall|rv: RemoveResponseView, rest: Seq<char>|
                    s@.skip(start as int) != remove_resp_stream(rv, rest)
            },
        }),
{
    match decode_set_response(s, start) {
        Ok((resp, used)) => {
            match resp {
                SetResponse::Done => Ok((RemoveResponse::Done, used)),
                SetResponse::Failed(m) => Ok((RemoveResponse::Failed(m), used)),
            }
        }
        Err(e) => {
            proof {
                assert forall|rv: RemoveResponseView, rest: Seq<char>|
                    s@.skip(start as int) != remove_resp_stream(rv, rest) by {
                    if s@.skip(start as int) == remove_resp_stream(rv, rest) {
                        match rv {
                            RemoveResponseView::Done => {
                                assert(s@.skip(start as int) == set_resp_stream(
                                    SetResponseView::Done,
                                    rest,
                                ));
                            }
                            RemoveResponseView::Failed { msg } => {
                                assert(s@.skip(start as int) == set_resp_stream(
                                    (SetResponseView::Failed { msg }),
                                    rest,
                                ));
                            }
                        }
                        assert(false);
                    }
                }
            }
            Err(e)
        }
    }
}

/// The response a `Get` outcome earns: the value on success, the
/// error's fixed message on failure.
pub fn get_response_of(r: Result<Option<String>, KvsError>) -> (resp: GetResponse)
    ensures
        (match r {
            Ok(v) => resp@ == (GetResponseView::Found {
                value: match v {
                    Option::Some(s) => Option::Some(s@),
                    Option::None => Option::None::<Seq<char>>,
                },
            }),
            Err(e) => resp@ == (GetResponseView::Failed { msg: message_spec(e) }),
        }),
{
    match r {
        Ok(v) => GetResponse::Found(v),
        Err(e) => GetResponse::Failed(String::from_str(e.message())),
    }
}

/// The response a `Set` outcome earns.
pub fn set_response_of(r: Result<(), KvsError>) -> (resp: SetResponse)
    ensures
        (match r {
            Ok(_) => resp@ == SetResponseView::Done,
            Err(e) => resp@ == (SetResponseView::Failed { msg: message_spec(e) }),
        }),
{
    match r {
        Ok(()) => SetResponse::Done,
        Err(e) => SetResponse::Failed(String::from_str(e.message())),
    }
}

/// The response a `Remove` outcome earns.
pub fn remove_response_of(r: Result<(), KvsError>) -> (resp: RemoveResponse)
    ensures
        (match r {
            Ok(_) => resp@ == RemoveResponseView::Done,
            Err(e) => resp@ == (RemoveResponseView::Failed { msg: message_spec(e) }),
        }),
{
    match r {
        Ok(()) => RemoveResponse::Done,
        Err(e) => RemoveResponse::Failed(String::from_str(e.message())),
    }
}

} // verus!
