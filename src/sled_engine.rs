//! The backend that keeps its data in a sled database.

use vstd::prelude::*;
use vstd::utf8::*;
use crate::error::DbError;
use crate::store::{lookup, text_of};
use crate::text::string_from_utf8;

verus! {

broadcast use {encode_utf8_valid_utf8, encode_utf8_decode_utf8};

#[verifier::external_type_specification]
#[verifier::external_body]
pub struct ExSledDb(sled::Db);

#[verifier::external_type_specification]
#[verifier::external_body]
pub struct ExSledError(sled::Error);

/// What a sled database holds: the bytes of each key mapped to the bytes of its value.
pub uninterp spec fn sled_contents(db: sled::Db) -> Map<Seq<u8>, Seq<u8>>;

/// Relies on `sled::open`: opens the database under `path`, creating it if it is absent.
#[verifier::external_body]
fn sled_open(path: &str) -> (r: Result<sled::Db, sled::Error>) {
    sled::open(path)
}

/// Relies on `sled::Tree::insert`: on success the key maps to the new value.
#[verifier::external_body]
fn sled_insert(db: &mut sled::Db, key: &[u8], value: &[u8]) -> (r: Result<(), sled::Error>)
    ensures
        r is Ok ==> sled_contents(*final(db)) == sled_contents(*old(db)).insert(key@, value@),
{
    db.insert(key, value).map(|_| ())
}

/// Relies on `sled::Tree::get`: the bytes stored under the key, if it is there.
#[verifier::external_body]
fn sled_get(db: &sled::Db, key: &[u8]) -> (r: Result<Option<Vec<u8>>, sled::Error>)
    ensures
        r matches Ok(o) ==> match o {
            Some(v) => sled_contents(*db).contains_key(key@) && v@ == sled_contents(*db)[key@],
            None => !sled_contents(*db).contains_key(key@),
        },
{
    db.get(key).map(|o| o.map(|v| v.to_vec()))
}

/// Relies on `sled::Tree::remove`: on success the key is gone, and the old
/// value comes back if there was one.
#[verifier::external_body]
fn sled_remove(db: &mut sled::Db, key: &[u8]) -> (r: Result<Option<Vec<u8>>, sled::Error>)
    ensures
        r matches Ok(o) ==> {
            &&& (o is Some <==> sled_contents(*old(db)).contains_key(key@))
            &&& sled_contents(*final(db)) == sled_contents(*old(db)).remove(key@)
        },
{
    db.remove(key).map(|o| o.map(|v| v.to_vec()))
}

/// The key-value engine that stores its data in sled.
pub struct SledKvsEngine {
    db: sled::Db,
}

/// The string entries of a sled database: keys and values as UTF-8 text.
pub open spec fn text_entries(contents: Map<Seq<u8>, Seq<u8>>) -> Map<Seq<char>, Seq<char>> {
    Map::new(
        |k: Seq<char>| contents.contains_key(encode_utf8(k)),
        |k: Seq<char>| decode_utf8(contents[encode_utf8(k)]),
    )
}

/// What `get` makes of the bytes that sled holds under a key: no value gives
/// `Ok(None)`, UTF-8 bytes give their text, other bytes give `BackendUtf8`.
pub fn decode_stored(found: Option<Vec<u8>>) -> (r: Result<Option<String>, DbError>)
    ensures
        match found {
            None => r matches Ok(None),
            Some(b) => if valid_utf8(b@) {
                r matches Ok(Some(t)) && t@ == decode_utf8(b@)
            } else {
                r matches Err(e) && e is BackendUtf8
            },
        },
{
    match found {
        None => Ok(None),
        Some(bytes) => match string_from_utf8(bytes) {
            Some(t) => Ok(Some(t)),
            None => Err(DbError::BackendUtf8),
        },
    }
}

impl SledKvsEngine {
    /// The bytes that the database holds: each key's bytes mapped to its value's bytes.
    pub closed spec fn stored(&self) -> Map<Seq<u8>, Seq<u8>> {
        sled_contents(self.db)
    }

    /// The entries of the database, read as text.
    pub closed spec fn entries_spec(&self) -> Map<Seq<char>, Seq<char>> {
        text_entries(sled_contents(self.db))
    }

    /// Opens the sled database under `path`.
    pub fn open(path: &str) -> (r: Result<SledKvsEngine, DbError>)
        ensures
            r matches Err(e) ==> e is Backend,
    {
        match sled_open(path) {
            Ok(db) => Ok(SledKvsEngine { db }),
            Err(e) => Err(DbError::Backend(e)),
        }
    }

    /// Stores `value` under `key`.
    pub fn set(&mut self, key: String, value: String) -> (r: Result<(), DbError>)
        ensures
            r is Ok ==> final(self).entries_spec() == old(self).entries_spec().insert(key@, value@),
            r is Ok ==> final(self).stored() == old(self).stored().insert(
                encode_utf8(key@),
                encode_utf8(value@),
            ),
            r matches Err(e) ==> e is Backend,
    {
        let ghost before = sled_contents(self.db);
        match sled_insert(&mut self.db, key.as_str().as_bytes(), value.as_str().as_bytes()) {
            Ok(()) => {
                proof {
                    let after = sled_contents(self.db);
                    assert forall|k2: Seq<char>|
                        #![trigger after.contains_key(encode_utf8(k2))]
                        after.contains_key(encode_utf8(k2)) && k2 != key@ ==> encode_utf8(k2)
                            != encode_utf8(key@) by {
                        if encode_utf8(k2) == encode_utf8(key@) {
                            assert(decode_utf8(encode_utf8(k2)) == decode_utf8(encode_utf8(key@)));
                        }
                    }
                    assert(text_entries(after) =~= text_entries(before).insert(key@, value@));
                }
                Ok(())
            },
            Err(e) => Err(DbError::Backend(e)),
        }
    }

    /// Looks `key` up.
    pub fn get(&self, key: String) -> (r: Result<Option<String>, DbError>)
        ensures
            r matches Ok(o) ==> text_of(o) == lookup(self.entries_spec(), key@),
            r matches Err(e) ==> e is Backend || (e is BackendUtf8 && self.stored().contains_key(
                encode_utf8(key@),
            ) && !valid_utf8(self.stored()[encode_utf8(key@)])),
    {
        match sled_get(&self.db, key.as_str().as_bytes()) {
            Ok(found) => decode_stored(found),
            Err(e) => Err(DbError::Backend(e)),
        }
    }

    /// Removes `key`; `KeyNotFound` where the database does not hold it.
    pub fn remove(&mut self, key: String) -> (r: Result<(), DbError>)
        ensures
            r is Ok ==> old(self).entries_spec().contains_key(key@) && final(self).entries_spec()
                == old(self).entries_spec().remove(key@),
            r is Ok ==> final(self).stored() == old(self).stored().remove(encode_utf8(key@)),
            r matches Err(e) ==> e is Backend || (e is KeyNotFound
                && !old(self).entries_spec().contains_key(key@) && final(self).entries_spec()
                == old(self).entries_spec() && final(self).stored() == old(self).stored()),
    {
        let ghost before = sled_contents(self.db);
        match sled_remove(&mut self.db, key.as_str().as_bytes()) {
            Ok(Some(_)) => {
                proof {
                    let after = sled_contents(self.db);
                    assert forall|k2: Seq<char>|
                        #![trigger before.contains_key(encode_utf8(k2))]
                        before.contains_key(encode_utf8(k2)) && k2 != key@ ==> encode_utf8(k2)
                            != encode_utf8(key@) by {
                        if encode_utf8(k2) == encode_utf8(key@) {
                            assert(decode_utf8(encode_utf8(k2)) == decode_utf8(encode_utf8(key@)));
                        }
                    }
                    assert(text_entries(after) =~= text_entries(before).remove(key@));
                }
                Ok(())
            },
            Ok(None) => {
                proof {
                    let after = sled_contents(self.db);
                    assert(after =~= before);
                }
                Err(DbError::KeyNotFound)
            },
            Err(e) => Err(DbError::Backend(e)),
        }
    }
}

} // verus!
