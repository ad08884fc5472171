//! The wire protocol: request and response types and their codec.
//!
//! Requests and responses travel in the same self-delimiting textual
//! format as the log records, one value after the other, so a stream
//! needs no framing.  A request is one of `{"Set":{"key":K,"value":V}}`,
//! `{"Get":{"key":K}}` or `{"Remove":{"key":K}}`; a response is
//! `{"Ok":null}`, `{"Ok":V}` (a `get` that found a value) or
//! `{"Err":M}`.  The round-trip lemmas prove that whatever one side
//! encodes, the other side decodes back unchanged, so a response
//! always decodes to the variant matching its request.

use crate::codec::{
    enc_record, lemma_enc_record_parses, lemma_match_window, lemma_string_tok_parses, match_at,
    match_at_exec, parse_body_exec, parse_record, parse_str_body, record_tail, skip_ws,
    string_from_utf8, string_tok,
};
use crate::error::KvsError;
use vstd::prelude::*;
use vstd::utf8::{decode_utf8, encode_utf8, valid_utf8};

verus! {

/// A request sent from the client to the server.
#[derive(Debug, Clone)]
pub enum Request {
    Put { key: String, value: String },
    Get { key: String },
    Remove { key: String },
}

/// The server's answer to a `set` request.
#[derive(Debug, Clone, PartialEq, Eq)]
pub enum SetResponse {
    Okay,
    Error(String),
}

/// The server's answer to a `get` request; `Okay(None)` means the key
/// is not present.
#[derive(Debug, Clone, PartialEq, Eq)]
pub enum GetResponse {
    Okay(Option<String>),
    Error(String),
}

/// The server's answer to a `remove` request.
#[derive(Debug, Clone, PartialEq, Eq)]
pub enum RemoveResponse {
    Okay,
    Error(String),
}

// ---------------------------------------------------------------------
// The byte-level grammar
// ---------------------------------------------------------------------

/// The opening of a `Get` request, `{"Get":{"key":"`.
pub open spec fn get_prefix() -> Seq<u8> {
    seq![0x7Bu8, 0x22, 0x47, 0x65, 0x74, 0x22, 0x3A, 0x7B, 0x22, 0x6B, 0x65, 0x79, 0x22, 0x3A, 0x22]
}

/// A success response without a payload, `{"Ok":null}`.
pub open spec fn ok_null() -> Seq<u8> {
    seq![0x7Bu8, 0x22, 0x4F, 0x6B, 0x22, 0x3A, 0x6E, 0x75, 0x6C, 0x6C, 0x7D]
}

/// The opening of a success response with a payload, `{"Ok":"`.
pub open spec fn ok_str_prefix() -> Seq<u8> {
    seq![0x7Bu8, 0x22, 0x4F, 0x6B, 0x22, 0x3A, 0x22]
}

/// The opening of an error response, `{"Err":"`.
pub open spec fn err_prefix() -> Seq<u8> {
    seq![0x7Bu8, 0x22, 0x45, 0x72, 0x72, 0x22, 0x3A, 0x22]
}

/// The byte-level shape of a request: a tag — 0 for `Set`, 1 for
/// `Get`, 2 for `Remove` — with the key's UTF-8 bytes and, for a
/// `Set`, the value's.
pub type SpecRequest = (int, Seq<u8>, Option<Seq<u8>>);

impl Request {
    /// The byte-level shape of this request.
    pub open spec fn spec_req(self) -> SpecRequest {
        match self {
            Request::Put { key, value } => (0int, encode_utf8(key@), Some(encode_utf8(value@))),
            Request::Get { key } => (1int, encode_utf8(key@), None),
            Request::Remove { key } => (2int, encode_utf8(key@), None),
        }
    }
}

/// The encoding of a request shape.
pub open spec fn enc_request(r: SpecRequest) -> Seq<u8> {
    if r.0 == 1 {
        get_prefix() + string_tok(r.1) + record_tail()
    } else if r.0 == 0 {
        enc_record((r.1, r.2))
    } else {
        enc_record((r.1, None))
    }
}

/// A request shape is well formed when its tag is known and its key
/// and value are valid UTF-8, with a value exactly on a `Set`.
pub open spec fn req_valid(r: SpecRequest) -> bool {
    &&& 0 <= r.0 <= 2
    &&& valid_utf8(r.1)
    &&& r.0 == 0 <==> r.2 is Some
    &&& r.2 is Some ==> valid_utf8(r.2->0)
}

/// Parses one request at position `i`, skipping leading blanks.
pub open spec fn parse_request(d: Seq<u8>, i: int) -> Option<(SpecRequest, int)> {
    let j = skip_ws(d, i);
    if match_at(d, j, get_prefix()) {
        match parse_str_body(d, j + get_prefix().len()) {
            Some((kb, j1)) => if match_at(d, j1, record_tail()) && valid_utf8(kb) {
                Some(((1int, kb, None), j1 + record_tail().len()))
            } else {
                None
            },
            None => None,
        }
    } else {
        match parse_record(d, i) {
            Some(((kb, ov), j2)) => Some(
                (
                    (
                        if ov is Some {
                            0int
                        } else {
                            2int
                        },
                        kb,
                        ov,
                    ),
                    j2,
                ),
            ),
            None => None,
        }
    }
}

/// The byte-level shape of a `set` or `remove` response: nothing for
/// success, or the error message's UTF-8 bytes.
pub type SpecSimpleResponse = Option<Seq<u8>>;

/// The byte-level shape of a `get` response: a flag for success, and
/// the value's bytes on a hit or the error message's bytes on failure.
pub type SpecGetResponse = (bool, Option<Seq<u8>>);

/// The encoding of a `set` or `remove` response.
pub open spec fn enc_simple_response(r: SpecSimpleResponse) -> Seq<u8> {
    match r {
        None => ok_null(),
        Some(mb) => err_prefix() + string_tok(mb) + seq![0x7Du8],
    }
}

/// The encoding of a `get` response.
pub open spec fn enc_get_response(r: SpecGetResponse) -> Seq<u8> {
    match r.1 {
        None => ok_null(),
        Some(b) => if r.0 {
            ok_str_prefix() + string_tok(b) + seq![0x7Du8]
        } else {
            err_prefix() + string_tok(b) + seq![0x7Du8]
        },
    }
}

/// Parses one `set` or `remove` response, skipping leading blanks.
pub open spec fn parse_simple_response(d: Seq<u8>, i: int) -> Option<(SpecSimpleResponse, int)> {
    let j = skip_ws(d, i);
    if match_at(d, j, ok_null()) {
        Some((None, j + ok_null().len()))
    } else if match_at(d, j, err_prefix()) {
        match parse_str_body(d, j + err_prefix().len()) {
            Some((mb, j1)) => if j1 < d.len() && d[j1] == 0x7D && valid_utf8(mb) {
                Some((Some(mb), j1 + 1))
            } else {
                None
            },
            None => None,
        }
    } else {
        None
    }
}

/// Parses one `get` response, skipping leading blanks.
pub open spec fn parse_get_response(d: Seq<u8>, i: int) -> Option<(SpecGetResponse, int)> {
    let j = skip_ws(d, i);
    if match_at(d, j, ok_null()) {
        Some(((true, None), j + ok_null().len()))
    } else if match_at(d, j, ok_str_prefix()) {
        match parse_str_body(d, j + ok_str_prefix().len()) {
            Some((vb, j1)) => if j1 < d.len() && d[j1] == 0x7D && valid_utf8(vb) {
                Some(((true, Some(vb)), j1 + 1))
            } else {
                None
            },
            None => None,
        }
    } else if match_at(d, j, err_prefix()) {
        match parse_str_body(d, j + err_prefix().len()) {
            Some((mb, j1)) => if j1 < d.len() && d[j1] == 0x7D && valid_utf8(mb) {
                Some(((false, Some(mb)), j1 + 1))
            } else {
                None
            },
            None => None,
        }
    } else {
        None
    }
}

// ---------------------------------------------------------------------
// Round trips
// ---------------------------------------------------------------------

/// Parsing a window holding `pfx + string_tok(b) + "}"` finds the
/// prefix, the payload, and the closing brace.
proof fn lemma_payload_window(d: Seq<u8>, i: int, pfx: Seq<u8>, b: Seq<u8>)
    requires
        0 <= i,
        i + pfx.len() + string_tok(b).len() + 1 <= d.len(),
        d.subrange(i, i + pfx.len() + string_tok(b).len() + 1) == pfx + string_tok(b) + seq![
            0x7Du8,
        ],
    ensures
        match_at(d, i, pfx),
        parse_str_body(d, i + pfx.len()) == Some(
            (b, i + pfx.len() + string_tok(b).len()),
        ),
        d[i + pfx.len() + string_tok(b).len()] == 0x7D,
{
    let e = pfx + string_tok(b) + seq![0x7Du8];
    let p = pfx.len() as int;
    let tok = string_tok(b).len() as int;
    assert(e.subrange(0, p) =~= pfx);
    lemma_match_window(d, i, e, 0, pfx);
    assert(e.subrange(p, p + tok) =~= string_tok(b));
    assert(d.subrange(i + p, i + p + tok) =~= string_tok(b)) by {
        assert forall|k: int| 0 <= k < tok implies d.subrange(i + p, i + p + tok)[k]
            == string_tok(b)[k] by {
            assert(d.subrange(i, i + e.len())[p + k] == e[p + k]);
        }
    }
    lemma_string_tok_parses(d, i + p, b);
    assert(d.subrange(i, i + e.len())[p + tok] == e[p + tok]);
}

/// A `set` or `remove` response decodes, wherever it is written, to
/// exactly the shape that was encoded.
pub proof fn lemma_simple_response_round_trip(d: Seq<u8>, i: int, r: SpecSimpleResponse)
    requires
        0 <= i,
        i + enc_simple_response(r).len() <= d.len(),
        d.subrange(i, i + enc_simple_response(r).len()) == enc_simple_response(r),
        r is Some ==> valid_utf8(r->0),
    ensures
        parse_simple_response(d, i) == Some((r, i + enc_simple_response(r).len())),
{
    let e = enc_simple_response(r);
    assert(d[i] == e[0]);
    assert(e[0] == 0x7B);
    assert(skip_ws(d, i) == i);
    match r {
        None => {
            assert(d.subrange(i, i + ok_null().len()) =~= ok_null());
        },
        Some(mb) => {
            lemma_payload_window(d, i, err_prefix(), mb);
            assert(!match_at(d, i, ok_null())) by {
                if match_at(d, i, ok_null()) {
                    assert(d.subrange(i, i + ok_null().len())[2] == 0x4F);
                    assert(d.subrange(i, i + e.len())[2] == e[2]);
                    assert(e[2] == 0x45);
                }
            }
        },
    }
}

/// A `get` response decodes, wherever it is written, to exactly the
/// shape that was encoded — in particular a found value comes back as
/// a value, an absent key as an absence, and an error as an error.
pub proof fn lemma_get_response_round_trip(d: Seq<u8>, i: int, r: SpecGetResponse)
    requires
        0 <= i,
        i + enc_get_response(r).len() <= d.len(),
        d.subrange(i, i + enc_get_response(r).len()) == enc_get_response(r),
        r.1 is Some ==> valid_utf8(r.1->0),
        r.1 is None ==> r.0,
    ensures
        parse_get_response(d, i) == Some((r, i + enc_get_response(r).len())),
{
    let e = enc_get_response(r);
    assert(d[i] == e[0]);
    assert(e[0] == 0x7B);
    assert(skip_ws(d, i) == i);
    match r.1 {
        None => {
            assert(d.subrange(i, i + ok_null().len()) =~= ok_null());
        },
        Some(b) => {
            if r.0 {
                lemma_payload_window(d, i, ok_str_prefix(), b);
                assert(!match_at(d, i, ok_null())) by {
                    if match_at(d, i, ok_null()) {
                        assert(d.subrange(i, i + ok_null().len())[6] == 0x6E);
                        assert(d.subrange(i, i + e.len())[6] == e[6]);
                        assert(e[6] == 0x22);
                    }
                }
            } else {
                lemma_payload_window(d, i, err_prefix(), b);
                assert(!match_at(d, i, ok_null())) by {
                    if match_at(d, i, ok_null()) {
                        assert(d.subrange(i, i + ok_null().len())[2] == 0x4F);
                        assert(d.subrange(i, i + e.len())[2] == e[2]);
                        assert(e[2] == 0x45);
                    }
                }
                assert(!match_at(d, i, ok_str_prefix())) by {
                    if match_at(d, i, ok_str_prefix()) {
                        assert(d.subrange(i, i + ok_str_prefix().len())[2] == 0x4F);
                        assert(d.subrange(i, i + e.len())[2] == e[2]);
                        assert(e[2] == 0x45);
                    }
                }
            }
        },
    }
}

/// A request decodes, wherever it is written, to exactly the shape
/// that was encoded.
pub proof fn lemma_request_round_trip(d: Seq<u8>, i: int, r: SpecRequest)
    requires
        0 <= i,
        i + enc_request(r).len() <= d.len(),
        d.subrange(i, i + enc_request(r).len()) == enc_request(r),
        req_valid(r),
    ensures
        parse_request(d, i) == Some((r, i + enc_request(r).len())),
{
    let e = enc_request(r);
    assert(d[i] == e[0]);
    assert(e[0] == 0x7B);
    assert(skip_ws(d, i) == i);
    if r.0 == 1 {
        let p = get_prefix().len() as int;
        let tok = string_tok(r.1).len() as int;
        assert(e.subrange(0, p) =~= get_prefix());
        lemma_match_window(d, i, e, 0, get_prefix());
        assert(e.subrange(p, p + tok) =~= string_tok(r.1));
        assert(d.subrange(i + p, i + p + tok) =~= string_tok(r.1)) by {
            assert forall|k: int| 0 <= k < tok implies d.subrange(i + p, i + p + tok)[k]
                == string_tok(r.1)[k] by {
                assert(d.subrange(i, i + e.len())[p + k] == e[p + k]);
            }
        }
        lemma_string_tok_parses(d, i + p, r.1);
        assert(e.subrange(p + tok, p + tok + 2) =~= record_tail());
        lemma_match_window(d, i, e, p + tok, record_tail());
    } else {
        let rec = (r.1, r.2);
        assert(e == enc_record(rec));
        lemma_enc_record_parses(d, i, rec);
        assert(!match_at(d, i, get_prefix())) by {
            if match_at(d, i, get_prefix()) {
                assert(d.subrange(i, i + get_prefix().len())[2] == 0x47);
                assert(d.subrange(i, i + e.len())[2] == e[2]);
                assert(e[2] == 0x53 || e[2] == 0x52);
            }
        }
    }
}

// ---------------------------------------------------------------------
// Executable encoding and decoding
// ---------------------------------------------------------------------

fn get_prefix_v() -> (v: Vec<u8>)
    ensures
        v@ == get_prefix(),
{
    let v: Vec<u8> = vec![
        0x7Bu8,
        0x22,
        0x47,
        0x65,
        0x74,
        0x22,
        0x3A,
        0x7B,
        0x22,
        0x6B,
        0x65,
        0x79,
        0x22,
        0x3A,
        0x22,
    ];
    assert(v@ =~= get_prefix());
    v
}

fn ok_null_v() -> (v: Vec<u8>)
    ensures
        v@ == ok_null(),
{
    let v: Vec<u8> = vec![0x7Bu8, 0x22, 0x4F, 0x6B, 0x22, 0x3A, 0x6E, 0x75, 0x6C, 0x6C, 0x7D];
    assert(v@ =~= ok_null());
    v
}

fn ok_str_prefix_v() -> (v: Vec<u8>)
    ensures
        v@ == ok_str_prefix(),
{
    let v: Vec<u8> = vec![0x7Bu8, 0x22, 0x4F, 0x6B, 0x22, 0x3A, 0x22];
    assert(v@ =~= ok_str_prefix());
    v
}

fn err_prefix_v() -> (v: Vec<u8>)
    ensures
        v@ == err_prefix(),
{
    let v: Vec<u8> = vec![0x7Bu8, 0x22, 0x45, 0x72, 0x72, 0x22, 0x3A, 0x22];
    assert(v@ =~= err_prefix());
    v
}

impl SetResponse {
    /// The byte-level shape of this response.
    pub open spec fn spec_resp(self) -> SpecSimpleResponse {
        match self {
            SetResponse::Okay => None,
            SetResponse::Error(m) => Some(encode_utf8(m@)),
        }
    }
}

impl RemoveResponse {
    /// The byte-level shape of this response.
    pub open spec fn spec_resp(self) -> SpecSimpleResponse {
        match self {
            RemoveResponse::Okay => None,
            RemoveResponse::Error(m) => Some(encode_utf8(m@)),
        }
    }
}

impl GetResponse {
    /// The byte-level shape of this response.
    pub open spec fn spec_resp(self) -> SpecGetResponse {
        match self {
            GetResponse::Okay(None) => (true, None),
            GetResponse::Okay(Some(v)) => (true, Some(encode_utf8(v@))),
            GetResponse::Error(m) => (false, Some(encode_utf8(m@))),
        }
    }
}

/// Encodes the success-or-message shape shared by `set` and `remove`
/// responses.
fn encode_simple(msg: Option<&String>) -> (out: Vec<u8>)
    ensures
        out@ == enc_simple_response(
            match msg {
                None => None,
                Some(m) => Some(encode_utf8(m@)),
            },
        ),
{
    proof {
        broadcast use vstd::utf8::encode_utf8_valid_utf8;

    }
    match msg {
        None => ok_null_v(),
        Some(m) => {
            let mut out = err_prefix_v();
            crate::codec::append_escaped(&mut out, m.as_str().as_bytes());
            out.push(0x22);
            out.push(0x7D);
            proof {
                assert(out@ =~= err_prefix() + string_tok(encode_utf8(m@)) + seq![0x7Du8]);
            }
            out
        },
    }
}

/// Encodes a `set` response.
pub fn encode_set_response(resp: &SetResponse) -> (out: Vec<u8>)
    ensures
        out@ == enc_simple_response(resp.spec_resp()),
        resp.spec_resp() is Some ==> valid_utf8(resp.spec_resp()->0),
{
    proof {
        broadcast use vstd::utf8::encode_utf8_valid_utf8;

    }
    match resp {
        SetResponse::Okay => encode_simple(None),
        SetResponse::Error(m) => encode_simple(Some(m)),
    }
}

/// Encodes a `remove` response.
pub fn encode_remove_response(resp: &RemoveResponse) -> (out: Vec<u8>)
    ensures
        out@ == enc_simple_response(resp.spec_resp()),
        resp.spec_resp() is Some ==> valid_utf8(resp.spec_resp()->0),
{
    proof {
        broadcast use vstd::utf8::encode_utf8_valid_utf8;

    }
    match resp {
        RemoveResponse::Okay => encode_simple(None),
        RemoveResponse::Error(m) => encode_simple(Some(m)),
    }
}

/// Encodes a `get` response.
pub fn encode_get_response(resp: &GetResponse) -> (out: Vec<u8>)
    ensures
        out@ == enc_get_response(resp.spec_resp()),
        resp.spec_resp().1 is Some ==> valid_utf8(resp.spec_resp().1->0),
        resp.spec_resp().1 is None ==> resp.spec_resp().0,
{
    proof {
        broadcast use vstd::utf8::encode_utf8_valid_utf8;

    }
    match resp {
        GetResponse::Okay(None) => ok_null_v(),
        GetResponse::Okay(Some(v)) => {
            let mut out = ok_str_prefix_v();
            crate::codec::append_escaped(&mut out, v.as_str().as_bytes());
            out.push(0x22);
            out.push(0x7D);
            proof {
                assert(out@ =~= ok_str_prefix() + string_tok(encode_utf8(v@)) + seq![0x7Du8]);
            }
            out
        },
        GetResponse::Error(m) => {
            let mut out = err_prefix_v();
            crate::codec::append_escaped(&mut out, m.as_str().as_bytes());
            out.push(0x22);
            out.push(0x7D);
            proof {
                assert(out@ =~= err_prefix() + string_tok(encode_utf8(m@)) + seq![0x7Du8]);
            }
            out
        },
    }
}

/// Encodes a request.
pub fn encode_request(req: &Request) -> (out: Vec<u8>)
    ensures
        out@ == enc_request(req.spec_req()),
        req_valid(req.spec_req()),
{
    proof {
        broadcast use vstd::utf8::encode_utf8_valid_utf8;

    }
    match req {
        Request::Put { key, value } => {
            let cmd = crate::codec::Command::Put { key: key.clone(), value: value.clone() };
            crate::codec::encode_command(&cmd)
        },
        Request::Remove { key } => {
            let cmd = crate::codec::Command::Remove { key: key.clone() };
            crate::codec::encode_command(&cmd)
        },
        Request::Get { key } => {
            let mut out = get_prefix_v();
            crate::codec::append_escaped(&mut out, key.as_str().as_bytes());
            out.push(0x22);
            out.push(0x7D);
            out.push(0x7D);
            proof {
                assert(out@ =~= get_prefix() + string_tok(encode_utf8(key@)) + record_tail());
            }
            out
        },
    }
}

/// Decodes one request, skipping leading blanks.  Fails with a `Serde`
/// error exactly when no well-formed request starts at `from`.
pub fn decode_request(d: &[u8], from: usize) -> (r: Result<(Request, usize), KvsError>)
    requires
        from <= d@.len(),
    ensures
        r is Ok ==> {
            &&& parse_request(d@, from as int) == Some(
                ((r->Ok_0.0).spec_req(), r->Ok_0.1 as int),
            )
            &&& from < r->Ok_0.1 <= d@.len()
        },
        r is Err ==> parse_request(d@, from as int) is None && r->Err_0 is Serde,
{
    let n = d.len();
    assert(d@.len() <= usize::MAX);
    let i = crate::codec::skip_blanks(d, from);
    let gpfx = get_prefix_v();
    if match_at_exec(d, i, gpfx.as_slice()) {
        match parse_body_exec(d, i + 15) {
            Some((kb, j1)) => {
                let tail: Vec<u8> = vec![0x7Du8, 0x7D];
                assert(tail@ =~= record_tail());
                if match_at_exec(d, j1, tail.as_slice()) {
                    let ghost gkb = kb@;
                    match string_from_utf8(kb) {
                        Some(key) => {
                            proof {
                                vstd::utf8::decode_utf8_encode_utf8(gkb);
                            }
                            Ok((Request::Get { key }, j1 + 2))
                        },
                        None => Err(KvsError::Serde("malformed request".to_owned())),
                    }
                } else {
                    Err(KvsError::Serde("malformed request".to_owned()))
                }
            },
            None => Err(KvsError::Serde("malformed request".to_owned())),
        }
    } else {
        match crate::codec::decode_command(d, from) {
            Ok((cmd, next)) => {
                proof {
                    assert(skip_ws(d@, from as int) == i);
                }
                match cmd {
                    crate::codec::Command::Put { key, value } => Ok(
                        (Request::Put { key, value }, next),
                    ),
                    crate::codec::Command::Remove { key } => Ok(
                        (Request::Remove { key }, next),
                    ),
                }
            },
            Err(e) => Err(e),
        }
    }
}

/// Builds a response value from a decoded success-or-message shape.
fn simple_from_parts(msg: Option<Vec<u8>>) -> (r: Option<Option<String>>)
    ensures
        match r {
            Some(None) => msg is None,
            Some(Some(m)) => msg is Some && valid_utf8(msg->0@) && m@ == decode_utf8(msg->0@),
            None => msg is Some && !valid_utf8(msg->0@),
        },
{
    match msg {
        None => Some(None),
        Some(mb) => match string_from_utf8(mb) {
            Some(m) => Some(Some(m)),
            None => None,
        },
    }
}

/// Decodes one `set` response, skipping leading blanks.  Fails with a
/// `Serde` error exactly when no well-formed response starts at `from`.
pub fn decode_set_response(d: &[u8], from: usize) -> (r: Result<(SetResponse, usize), KvsError>)
    requires
        from <= d@.len(),
    ensures
        r is Ok ==> {
            &&& parse_simple_response(d@, from as int) == Some(
                ((r->Ok_0.0).spec_resp(), r->Ok_0.1 as int),
            )
            &&& from < r->Ok_0.1 <= d@.len()
        },
        r is Err ==> parse_simple_response(d@, from as int) is None && r->Err_0 is Serde,
{
    match decode_simple(d, from) {
        Ok((msg, next)) => match msg {
            None => {
                proof {
                    assert((SetResponse::Okay).spec_resp() is None);
                }
                Ok((SetResponse::Okay, next))
            },
            Some(m) => {
                proof {
                    vstd::utf8::decode_utf8_encode_utf8(
                        parse_simple_response(d@, from as int)->Some_0.0->0,
                    );
                }
                Ok((SetResponse::Error(m), next))
            },
        },
        Err(e) => Err(e),
    }
}

/// Decodes one `remove` response, skipping leading blanks.
pub fn decode_remove_response(d: &[u8], from: usize) -> (r: Result<
    (RemoveResponse, usize),
    KvsError,
>)
    requires
        from <= d@.len(),
    ensures
        r is Ok ==> {
            &&& parse_simple_response(d@, from as int) == Some(
                ((r->Ok_0.0).spec_resp(), r->Ok_0.1 as int),
            )
            &&& from < r->Ok_0.1 <= d@.len()
        },
        r is Err ==> parse_simple_response(d@, from as int) is None && r->Err_0 is Serde,
{
    match decode_simple(d, from) {
        Ok((msg, next)) => match msg {
            None => Ok((RemoveResponse::Okay, next)),
            Some(m) => {
                proof {
                    vstd::utf8::decode_utf8_encode_utf8(
                        parse_simple_response(d@, from as int)->Some_0.0->0,
                    );
                }
                Ok((RemoveResponse::Error(m), next))
            },
        },
        Err(e) => Err(e),
    }
}

/// The shared decoder behind `set` and `remove` responses: yields the
/// error message, or `None` for success.
fn decode_simple(d: &[u8], from: usize) -> (r: Result<(Option<String>, usize), KvsError>)
    requires
        from <= d@.len(),
    ensures
        r is Ok ==> {
            &&& parse_simple_response(d@, from as int) matches Some((sh, j))
            &&& parse_simple_response(d@, from as int)->Some_0.1 == r->Ok_0.1 as int
            &&& from < r->Ok_0.1 <= d@.len()
            &&& (match r->Ok_0.0 {
                None => parse_simple_response(d@, from as int)->Some_0.0 is None,
                Some(m) => parse_simple_response(d@, from as int)->Some_0.0 is Some && m@
                    == decode_utf8(parse_simple_response(d@, from as int)->Some_0.0->0),
            })
        },
        r is Err ==> parse_simple_response(d@, from as int) is None && r->Err_0 is Serde,
{
    let n = d.len();
    assert(d@.len() <= usize::MAX);
    let i = crate::codec::skip_blanks(d, from);
    let oknull = ok_null_v();
    let epfx = err_prefix_v();
    if match_at_exec(d, i, oknull.as_slice()) {
        Ok((None, i + 11))
    } else if match_at_exec(d, i, epfx.as_slice()) {
        match parse_body_exec(d, i + 8) {
            Some((mb, j1)) => {
                if j1 < d.len() && d[j1] == 0x7D {
                    let ghost gmb = mb@;
                    match string_from_utf8(mb) {
                        Some(m) => Ok((Some(m), j1 + 1)),
                        None => Err(KvsError::Serde("malformed response".to_owned())),
                    }
                } else {
                    Err(KvsError::Serde("malformed response".to_owned()))
                }
            },
            None => Err(KvsError::Serde("malformed response".to_owned())),
        }
    } else {
        Err(KvsError::Serde("malformed response".to_owned()))
    }
}

/// Decodes one `get` response, skipping leading blanks.  Fails with a
/// `Serde` error exactly when no well-formed response starts at `from`.
pub fn decode_get_response(d: &[u8], from: usize) -> (r: Result<(GetResponse, usize), KvsError>)
    requires
        from <= d@.len(),
    ensures
        r is Ok ==> {
            &&& parse_get_response(d@, from as int) == Some(
                ((r->Ok_0.0).spec_resp(), r->Ok_0.1 as int),
            )
            &&& from < r->Ok_0.1 <= d@.len()
        },
        r is Err ==> parse_get_response(d@, from as int) is None && r->Err_0 is Serde,
{
    let n = d.len();
    assert(d@.len() <= usize::MAX);
    let i = crate::codec::skip_blanks(d, from);
    let oknull = ok_null_v();
    let opfx = ok_str_prefix_v();
    let epfx = err_prefix_v();
    if match_at_exec(d, i, oknull.as_slice()) {
        Ok((GetResponse::Okay(None), i + 11))
    } else if match_at_exec(d, i, opfx.as_slice()) {
        match parse_body_exec(d, i + 7) {
            Some((vb, j1)) => {
                if j1 < d.len() && d[j1] == 0x7D {
                    let ghost gvb = vb@;
                    match string_from_utf8(vb) {
                        Some(v) => {
                            proof {
                                vstd::utf8::decode_utf8_encode_utf8(gvb);
                            }
                            Ok((GetResponse::Okay(Some(v)), j1 + 1))
                        },
                        None => Err(KvsError::Serde("malformed response".to_owned())),
                    }
                } else {
                    Err(KvsError::Serde("malformed response".to_owned()))
                }
            },
            None => Err(KvsError::Serde("malformed response".to_owned())),
        }
    } else if match_at_exec(d, i, epfx.as_slice()) {
        match parse_body_exec(d, i + 8) {
            Some((mb, j1)) => {
                if j1 < d.len() && d[j1] == 0x7D {
                    let ghost gmb = mb@;
                    match string_from_utf8(mb) {
                        Some(m) => {
                            proof {
                                vstd::utf8::decode_utf8_encode_utf8(gmb);
                            }
                            Ok((GetResponse::Error(m), j1 + 1))
                        },
                        None => Err(KvsError::Serde("malformed response".to_owned())),
                    }
                } else {
                    Err(KvsError::Serde("malformed response".to_owned()))
                }
            },
            None => Err(KvsError::Serde("malformed response".to_owned())),
        }
    } else {
        Err(KvsError::Serde("malformed response".to_owned()))
    }
}

} // verus!
