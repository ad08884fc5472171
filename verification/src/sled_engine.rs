//! The alternative engine backed by the sled embedded store.
//!
//! This engine delegates storage entirely to sled; what it stores
//! lives outside the proof, so it keeps `obeys_model` false and
//! promises only how it adapts sled's answers: values must come back
//! as UTF-8, a removal of an absent key is a `KeyNotFound`, and every
//! write is flushed to durable storage before it is acknowledged.

use crate::error::KvsError;
use crate::server::KvsEngine;
use vstd::prelude::*;
use vstd::string::StrSliceExecFns;
use vstd::utf8::{decode_utf8, valid_utf8};

verus! {

/// The engine's answer for a fetched raw value, as the engine contract
/// demands: an absent value stays absent, UTF-8 bytes decode to their
/// string, and anything else is refused.
pub fn value_result(fetched: Option<Vec<u8>>) -> (r: Result<Option<String>, KvsError>)
    ensures
        fetched is None ==> r is Ok && r->Ok_0 is None,
        fetched is Some && valid_utf8(fetched->0@) ==> r is Ok && r->Ok_0 is Some
            && r->Ok_0->0@ == decode_utf8(fetched->0@),
        fetched is Some && !valid_utf8(fetched->0@) ==> r == Err::<
            Option<String>,
            KvsError,
        >(KvsError::Utf8),
{
    match fetched {
        None => Ok(None),
        Some(bytes) => match crate::codec::string_from_utf8(bytes) {
            Some(v) => Ok(Some(v)),
            None => Err(KvsError::Utf8),
        },
    }
}

/// The engine's verdict on a removal, from the value the key held
/// before: removing a key that held nothing is a `KeyNotFound`.
pub fn removal_result(prev: Option<Vec<u8>>) -> (r: Result<(), KvsError>)
    ensures
        r is Ok <==> prev is Some,
        r is Err ==> r->Err_0 is KeyNotFound,
{
    match prev {
        Some(_) => Ok(()),
        None => Err(KvsError::KeyNotFound),
    }
}

#[verifier::external_type_specification]
#[verifier::external_body]
pub struct ExDb(sled::Db);

/// The sled-backed engine.
pub struct SledKvsEngine {
    db: sled::Db,
}

/// Relies on sled::open: opens or creates the database held under the
/// given directory.  The outcome depends on what is on disk, so
/// nothing is promised of it.
#[verifier::external_body]
fn sled_open(path: &str) -> (r: Result<sled::Db, KvsError>)
    ensures
        r is Err ==> r->Err_0 is Sled,
{
    match sled::open(path) {
        Ok(db) => Ok(db),
        Err(e) => Err(KvsError::Sled(format!("{}", e))),
    }
}

/// Relies on sled::Tree::insert: binds the key to the value and hands
/// back the previous value, if any.  What comes back depends on the
/// database's state, so nothing is promised of it.
#[verifier::external_body]
fn sled_insert(db: &sled::Db, key: &String, value: Vec<u8>) -> (r: Result<
    Option<Vec<u8>>,
    KvsError,
>)
    ensures
        r is Err ==> r->Err_0 is Sled,
{
    match db.insert(key.as_bytes(), value) {
        Ok(prev) => Ok(prev.map(|v| v.as_ref().to_vec())),
        Err(e) => Err(KvsError::Sled(format!("{}", e))),
    }
}

/// Relies on sled::Tree::get: hands back the value bound to the key,
/// if any.  What comes back depends on the database's state, so
/// nothing is promised of it.
#[verifier::external_body]
fn sled_get(db: &sled::Db, key: &String) -> (r: Result<Option<Vec<u8>>, KvsError>)
    ensures
        r is Err ==> r->Err_0 is Sled,
{
    match db.get(key.as_bytes()) {
        Ok(v) => Ok(v.map(|v| v.as_ref().to_vec())),
        Err(e) => Err(KvsError::Sled(format!("{}", e))),
    }
}

/// Relies on sled::Tree::remove: unbinds the key and hands back the
/// value it held, if any.  What comes back depends on the database's
/// state, so nothing is promised of it.
#[verifier::external_body]
fn sled_remove(db: &sled::Db, key: &String) -> (r: Result<Option<Vec<u8>>, KvsError>)
    ensures
        r is Err ==> r->Err_0 is Sled,
{
    match db.remove(key.as_bytes()) {
        Ok(v) => Ok(v.map(|v| v.as_ref().to_vec())),
        Err(e) => Err(KvsError::Sled(format!("{}", e))),
    }
}

/// Relies on sled::Tree::flush: pushes every pending write to durable
/// storage before returning.
#[verifier::external_body]
fn sled_flush(db: &sled::Db) -> (r: Result<(), KvsError>)
    ensures
        r is Err ==> r->Err_0 is Sled,
{
    match db.flush() {
        Ok(_) => Ok(()),
        Err(e) => Err(KvsError::Sled(format!("{}", e))),
    }
}

impl SledKvsEngine {
    /// Opens the sled-backed engine under the given directory.
    pub fn open(path: &str) -> (r: Result<SledKvsEngine, KvsError>)
        ensures
            r is Err ==> r->Err_0 is Sled,
    {
        match sled_open(path) {
            Ok(db) => Ok(SledKvsEngine { db }),
            Err(e) => Err(e),
        }
    }
}

impl KvsEngine for SledKvsEngine {
    open spec fn inv(&self) -> bool {
        true
    }

    open spec fn model(&self) -> Map<Seq<char>, Seq<char>> {
        Map::empty()
    }

    open spec fn obeys_model(&self) -> bool {
        false
    }

    /// Stores the value, flushing before returning.
    fn set(&mut self, key: String, value: String) -> (r: Result<(), KvsError>)
        ensures
            r is Err ==> r->Err_0 is Sled,
    {
        let bytes = value.as_str().as_bytes_vec();
        match sled_insert(&self.db, &key, bytes) {
            Ok(_) => match sled_flush(&self.db) {
                Ok(()) => Ok(()),
                Err(e) => Err(e),
            },
            Err(e) => Err(e),
        }
    }

    /// Reads the stored value; bytes that are not UTF-8 are refused.
    fn get(&mut self, key: String) -> (r: Result<Option<String>, KvsError>)
        ensures
            r is Err ==> (r->Err_0 is Sled || r->Err_0 is Utf8),
    {
        match sled_get(&self.db, &key) {
            Ok(fetched) => value_result(fetched),
            Err(e) => Err(e),
        }
    }

    /// Removes the key; an absent key is a `KeyNotFound`.  Flushes
    /// before returning on success.
    fn remove(&mut self, key: String) -> (r: Result<(), KvsError>)
        ensures
            r is Err ==> (r->Err_0 is Sled || r->Err_0 is KeyNotFound),
    {
        match sled_remove(&self.db, &key) {
            Ok(prev) => match removal_result(prev) {
                Ok(()) => match sled_flush(&self.db) {
                    Ok(()) => Ok(()),
                    Err(e) => Err(e),
                },
                Err(e) => Err(e),
            },
            Err(e) => Err(e),
        }
    }
}

} // verus!
