//! The server side of the protocol: the engine abstraction and the
//! request handler.
//!
//! [`KvsServer`] holds an engine and turns each decoded request into
//! the encoded response of the matching kind; the surrounding
//! connection loop only shuttles bytes.  [`KvsEngine`] is the contract
//! every engine offers: an invariant it keeps, and — for engines whose
//! behaviour is fully modelled — a key-value map its operations follow.

use crate::common::{
    encode_get_response, encode_remove_response, encode_set_response,
    lemma_get_response_round_trip, lemma_simple_response_round_trip, parse_get_response,
    parse_simple_response, GetResponse, RemoveResponse, Request, SetResponse,
};
use crate::error::KvsError;
use vstd::prelude::*;
use vstd::utf8::encode_utf8;

verus! {

/// The contract of a storage engine.
///
/// `inv` is the engine's invariant; every operation keeps it.  Engines
/// that are fully modelled — `obeys_model()` — additionally follow
/// `model()`, the map from present keys to values: `set` inserts,
/// `remove` removes exactly the present keys, `get` answers from the
/// map.  An engine backed by an outside store keeps `obeys_model()`
/// false: nothing is claimed of data that lives outside the proof.
pub trait KvsEngine: Sized {
    spec fn inv(&self) -> bool;

    spec fn model(&self) -> Map<Seq<char>, Seq<char>>;

    spec fn obeys_model(&self) -> bool;

    /// Sets the value of a string key to a string.
    fn set(&mut self, key: String, value: String) -> (r: Result<(), KvsError>)
        requires
            old(self).inv(),
        ensures
            final(self).inv(),
            final(self).obeys_model() == old(self).obeys_model(),
            old(self).obeys_model() && r is Ok ==> final(self).model() == old(
                self,
            ).model().insert(key@, value@),
            old(self).obeys_model() && r is Err ==> final(self).model() == old(self).model(),
    ;

    /// Gets the string value of a string key, `None` when absent.
    fn get(&mut self, key: String) -> (r: Result<Option<String>, KvsError>)
        requires
            old(self).inv(),
        ensures
            final(self).inv(),
            final(self).obeys_model() == old(self).obeys_model(),
            old(self).obeys_model() ==> final(self).model() == old(self).model(),
            old(self).obeys_model() && r is Ok ==> match r->Ok_0 {
                Some(v) => old(self).model().contains_key(key@) && v@ == old(self).model()[key@],
                None => !old(self).model().contains_key(key@),
            },
    ;

    /// Removes a key; `KeyNotFound` exactly when it is absent.
    fn remove(&mut self, key: String) -> (r: Result<(), KvsError>)
        requires
            old(self).inv(),
        ensures
            final(self).inv(),
            final(self).obeys_model() == old(self).obeys_model(),
            old(self).obeys_model() && r is Ok ==> old(self).model().contains_key(key@)
                && final(self).model() == old(self).model().remove(key@),
            old(self).obeys_model() && r is Err ==> final(self).model() == old(self).model(),
            old(self).obeys_model() && r is Err && r->Err_0 is KeyNotFound ==> !old(
                self,
            ).model().contains_key(key@),
            old(self).obeys_model() && !old(self).model().contains_key(key@) ==> r is Err
                && r->Err_0 is KeyNotFound,
    ;
}

/// Serves requests against a storage engine.
pub struct KvsServer<E: KvsEngine> {
    pub engine: E,
}

impl<E: KvsEngine> KvsServer<E> {
    /// The server's invariant: its engine's.
    pub open spec fn inv(self) -> bool {
        self.engine.inv()
    }

    /// The key-value map the server's engine holds.
    pub open spec fn model(self) -> Map<Seq<char>, Seq<char>> {
        self.engine.model()
    }

    /// Builds a server over the given engine.
    pub fn new(engine: E) -> (s: KvsServer<E>)
        ensures
            s.engine == engine,
    {
        KvsServer { engine }
    }

    /// Handles one request: dispatches it to the engine and encodes the
    /// response of the matching kind, with an engine error carried as
    /// the response's error message.  The connection loop around this
    /// writes the returned bytes back and flushes.
    pub fn handle_request(&mut self, req: Request) -> (out: Vec<u8>)
        requires
            old(self).inv(),
        ensures
            final(self).inv(),
            final(self).engine.obeys_model() == old(self).engine.obeys_model(),
            req is Put || req is Remove ==> parse_simple_response(out@, 0) is Some
                && parse_simple_response(out@, 0)->Some_0.1 == out@.len(),
            req is Get ==> parse_get_response(out@, 0) is Some && parse_get_response(
                out@,
                0,
            )->Some_0.1 == out@.len(),
            req matches Request::Put { key, value } ==> (old(self).engine.obeys_model() ==> {
                &&& (parse_simple_response(out@, 0)->Some_0.0 is None ==> final(self).model()
                    == old(self).model().insert(key@, value@))
                &&& (parse_simple_response(out@, 0)->Some_0.0 is Some ==> final(self).model()
                    == old(self).model())
            }),
            // A remove of an absent key answers with exactly the
            // `Key not found` message, which the client surfaces.
            req matches Request::Remove { key } ==> (old(self).engine.obeys_model() ==> (!old(
                self,
            ).model().contains_key(key@) ==> parse_simple_response(out@, 0)->Some_0.0 == Some(
                encode_utf8("Key not found"@),
            ))),
            req matches Request::Remove { key } ==> (old(self).engine.obeys_model() ==> {
                &&& (parse_simple_response(out@, 0)->Some_0.0 is None ==> old(
                    self,
                ).model().contains_key(key@) && final(self).model() == old(self).model().remove(
                    key@,
                ))
                &&& (parse_simple_response(out@, 0)->Some_0.0 is Some ==> final(self).model()
                    == old(self).model())
            }),
            req matches Request::Get { key } ==> (old(self).engine.obeys_model() ==> {
                &&& final(self).model() == old(self).model()
                &&& (parse_get_response(out@, 0)->Some_0.0 matches (true, Some(vb)) ==> old(
                    self,
                ).model().contains_key(key@) && vb == encode_utf8(old(self).model()[key@]))
                &&& (parse_get_response(out@, 0)->Some_0.0 == (
                    true,
                    Option::<Seq<u8>>::None,
                ) ==> !old(self).model().contains_key(key@))
            }),
    {
        match req {
            Request::Put { key, value } => {
                let resp = match self.engine.set(key, value) {
                    Ok(()) => SetResponse::Okay,
                    Err(e) => SetResponse::Error(e.message()),
                };
                let out = encode_set_response(&resp);
                proof {
                    assert(out@.subrange(0, out@.len() as int) =~= out@);
                    lemma_simple_response_round_trip(out@, 0, resp.spec_resp());
                }
                out
            },
            Request::Get { key } => {
                let resp = match self.engine.get(key) {
                    Ok(v) => GetResponse::Okay(v),
                    Err(e) => GetResponse::Error(e.message()),
                };
                let out = encode_get_response(&resp);
                proof {
                    assert(out@.subrange(0, out@.len() as int) =~= out@);
                    lemma_get_response_round_trip(out@, 0, resp.spec_resp());
                }
                out
            },
            Request::Remove { key } => {
                let resp = match self.engine.remove(key) {
                    Ok(()) => RemoveResponse::Okay,
                    Err(e) => RemoveResponse::Error(e.message()),
                };
                let out = encode_remove_response(&resp);
                proof {
                    assert(out@.subrange(0, out@.len() as int) =~= out@);
                    lemma_simple_response_round_trip(out@, 0, resp.spec_resp());
                }
                out
            },
        }
    }
}

} // verus!
