//! Tests of the sled-backed alternative engine, against a real sled
//! database in a temporary directory.

use kvs::{KvsEngine, KvsError, SledKvsEngine};

#[test]
fn sled_engine_round_trip() {
    let dir = tempfile::tempdir().unwrap();
    let path = dir.path().to_str().unwrap().to_owned();
    let mut engine = SledKvsEngine::open(&path).unwrap();
    engine.set("k1".to_owned(), "v1".to_owned()).unwrap();
    assert_eq!(engine.get("k1".to_owned()).unwrap(), Some("v1".to_owned()));
    engine.set("k1".to_owned(), "v2".to_owned()).unwrap();
    assert_eq!(engine.get("k1".to_owned()).unwrap(), Some("v2".to_owned()));
    assert_eq!(engine.get("other".to_owned()).unwrap(), None);
    engine.remove("k1".to_owned()).unwrap();
    assert_eq!(engine.get("k1".to_owned()).unwrap(), None);
    assert!(matches!(
        engine.remove("k1".to_owned()),
        Err(KvsError::KeyNotFound)
    ));
}

#[test]
fn sled_engine_persists() {
    let dir = tempfile::tempdir().unwrap();
    let path = dir.path().to_str().unwrap().to_owned();
    {
        let mut engine = SledKvsEngine::open(&path).unwrap();
        engine.set("stay".to_owned(), "here".to_owned()).unwrap();
    }
    let mut engine = SledKvsEngine::open(&path).unwrap();
    assert_eq!(engine.get("stay".to_owned()).unwrap(), Some("here".to_owned()));
}
