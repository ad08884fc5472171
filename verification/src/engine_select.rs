//! The choice of storage engine for a directory.
//!
//! A directory is pinned to the engine that first served it by a
//! marker file holding the token `kvs` or `sled`; a later start with
//! the other engine must be refused.  The token may carry a trailing
//! newline.

use crate::error::KvsError;
use vstd::prelude::*;
use vstd::utf8::encode_utf8;

verus! {

/// The available storage engines.
#[derive(Debug, Clone, Copy, PartialEq, Eq, Structural)]
pub enum Engine {
    Kvs,
    Sled,
}

/// The marker bytes `kvs`.
pub open spec fn kvs_token() -> Seq<u8> {
    seq![0x6Bu8, 0x76, 0x73]
}

/// The marker bytes `sled`.
pub open spec fn sled_token() -> Seq<u8> {
    seq![0x73u8, 0x6C, 0x65, 0x64]
}

/// The engine named by marker bytes: the bare token, or the token
/// followed by one newline.
pub open spec fn engine_of_bytes(b: Seq<u8>) -> Option<Engine> {
    if b == kvs_token() || b == kvs_token().push(0x0A) {
        Some(Engine::Kvs)
    } else if b == sled_token() || b == sled_token().push(0x0A) {
        Some(Engine::Sled)
    } else {
        None
    }
}

impl Engine {
    /// Reads an engine name, as the marker file holds it; a trailing
    /// newline is tolerated, anything else is refused.
    pub fn from_str(s: &str) -> (r: Option<Engine>)
        ensures
            r == engine_of_bytes(encode_utf8(s@)),
    {
        let b = s.as_bytes();
        let n = b.len();
        if n == 3 && b[0] == 0x6B && b[1] == 0x76 && b[2] == 0x73 {
            proof {
                assert(b@ =~= kvs_token());
            }
            Some(Engine::Kvs)
        } else if n == 4 && b[0] == 0x6B && b[1] == 0x76 && b[2] == 0x73 && b[3] == 0x0A {
            proof {
                assert(b@ =~= kvs_token().push(0x0A));
            }
            Some(Engine::Kvs)
        } else if n == 4 && b[0] == 0x73 && b[1] == 0x6C && b[2] == 0x65 && b[3] == 0x64 {
            proof {
                assert(b@ =~= sled_token());
            }
            Some(Engine::Sled)
        } else if n == 5 && b[0] == 0x73 && b[1] == 0x6C && b[2] == 0x65 && b[3] == 0x64 && b[4]
            == 0x0A {
            proof {
                assert(b@ =~= sled_token().push(0x0A));
            }
            Some(Engine::Sled)
        } else {
            proof {
                assert(b@ != kvs_token());
                assert(b@ != kvs_token().push(0x0A));
                assert(b@ != sled_token());
                assert(b@ != sled_token().push(0x0A));
            }
            None
        }
    }

    /// The marker token of this engine, as written to the marker file.
    pub fn token(self) -> (s: String)
        ensures
            engine_of_bytes(encode_utf8(s@)) == Some(self),
    {
        match self {
            Engine::Kvs => {
                let s = kvs_literal();
                s
            },
            Engine::Sled => {
                let s = sled_literal();
                s
            },
        }
    }
}

fn kvs_literal() -> (s: String)
    ensures
        encode_utf8(s@) == kvs_token(),
{
    let s = "kvs".to_owned();
    proof {
        reveal_strlit("kvs");
        assert(vstd::utf8::is_ascii_chars(s@));
        vstd::utf8::is_ascii_chars_encode_utf8(s@);
        assert(encode_utf8(s@) =~= kvs_token());
    }
    s
}

fn sled_literal() -> (s: String)
    ensures
        encode_utf8(s@) == sled_token(),
{
    let s = "sled".to_owned();
    proof {
        reveal_strlit("sled");
        assert(vstd::utf8::is_ascii_chars(s@));
        vstd::utf8::is_ascii_chars_encode_utf8(s@);
        assert(encode_utf8(s@) =~= sled_token());
    }
    s
}

/// Decides which engine a process may run against a directory: the
/// recorded marker pins the choice; a request that disagrees with the
/// record is refused; with neither record nor request the default is
/// the log-structured engine.
pub fn resolve_engine(recorded: Option<Engine>, requested: Option<Engine>) -> (r: Result<
    Engine,
    KvsError,
>)
    ensures
        recorded is None && requested is None ==> r == Ok::<Engine, KvsError>(Engine::Kvs),
        recorded is None && requested is Some ==> r == Ok::<Engine, KvsError>(requested->0),
        recorded is Some && requested is None ==> r == Ok::<Engine, KvsError>(recorded->0),
        recorded is Some && requested is Some ==> ((r is Ok <==> recorded->0 == requested->0)
            && (r is Ok ==> r->Ok_0 == recorded->0)),
        r is Err ==> r->Err_0 is StringError,
{
    match (recorded, requested) {
        (None, None) => Ok(Engine::Kvs),
        (None, Some(e)) => Ok(e),
        (Some(e), None) => Ok(e),
        (Some(rec), Some(req)) => if rec == req {
            Ok(rec)
        } else {
            Err(KvsError::StringError("wrong engine for this directory".to_owned()))
        },
    }
}

} // verus!
