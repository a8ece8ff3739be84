//! The operations that every engine offers, and the backend that dispatches
//! to one of the two engines.

use vstd::prelude::*;
use crate::codec::log_bytes;
use crate::error::DbError;
use crate::sled_engine::SledKvsEngine;
use crate::store::{lookup, text_of, KvStore, LogWrite};

verus! {

/// A key-value engine: `set`, `get` and `remove` over string keys and values.
pub trait KvsEngine: Sized {
    /// The engine's invariant.
    spec fn valid(&self) -> bool;

    /// The key-value pairs that the engine holds.
    spec fn entries(&self) -> Map<Seq<char>, Seq<char>>;

    /// Sets `key` to `value`.
    fn set(&mut self, key: String, value: String) -> (r: Result<(), DbError>)
        requires
            old(self).valid(),
        ensures
            final(self).valid(),
            r is Ok ==> final(self).entries() == old(self).entries().insert(key@, value@),
    ;

    /// Looks `key` up; an absent key gives `Ok(None)`.
    fn get(&self, key: String) -> (r: Result<Option<String>, DbError>)
        requires
            self.valid(),
        ensures
            r matches Ok(o) ==> text_of(o) == lookup(self.entries(), key@),
    ;

    /// Removes `key`; `KeyNotFound` where the engine does not hold it.
    fn remove(&mut self, key: String) -> (r: Result<(), DbError>)
        requires
            old(self).valid(),
        ensures
            final(self).valid(),
            r is Ok ==> old(self).entries().contains_key(key@) && final(self).entries()
                == old(self).entries().remove(key@),
            r matches Err(e) && e is KeyNotFound ==> !old(self).entries().contains_key(key@)
                && final(self).entries() == old(self).entries(),
    ;
}

impl KvsEngine for KvStore {
    open spec fn valid(&self) -> bool {
        self.wf()
    }

    open spec fn entries(&self) -> Map<Seq<char>, Seq<char>> {
        self@
    }

    fn set(&mut self, key: String, value: String) -> (r: Result<(), DbError>) {
        KvStore::set(self, key, value)
    }

    fn get(&self, key: String) -> (r: Result<Option<String>, DbError>) {
        KvStore::get(self, key)
    }

    fn remove(&mut self, key: String) -> (r: Result<(), DbError>) {
        KvStore::remove(self, key)
    }
}

impl KvsEngine for SledKvsEngine {
    open spec fn valid(&self) -> bool {
        true
    }

    open spec fn entries(&self) -> Map<Seq<char>, Seq<char>> {
        self.entries_spec()
    }

    fn set(&mut self, key: String, value: String) -> (r: Result<(), DbError>) {
        SledKvsEngine::set(self, key, value)
    }

    fn get(&self, key: String) -> (r: Result<Option<String>, DbError>) {
        SledKvsEngine::get(self, key)
    }

    fn remove(&mut self, key: String) -> (r: Result<(), DbError>) {
        SledKvsEngine::remove(self, key)
    }
}

/// One of the two engines, chosen when the server starts.
pub enum Backend {
    /// The log-structured engine.
    Kvs(KvStore),
    /// The sled engine.
    Sled(SledKvsEngine),
}

impl Backend {
    /// The backend's invariant: that of the engine it holds.
    pub open spec fn valid_spec(&self) -> bool {
        match self {
            Backend::Kvs(s) => s.wf(),
            Backend::Sled(_) => true,
        }
    }

    /// The key-value pairs that the engine holds.
    pub open spec fn entries_spec(&self) -> Map<Seq<char>, Seq<char>> {
        match self {
            Backend::Kvs(s) => s@,
            Backend::Sled(e) => e.entries_spec(),
        }
    }

    /// The name of the engine held, for messages.
    pub fn engine_name(&self) -> (s: String)
        ensures
            s@ == (if self is Kvs {
                "Kvs"@
            } else {
                "Sled"@
            }),
    {
        match self {
            Backend::Kvs(_) => String::from_str("Kvs"),
            Backend::Sled(_) => String::from_str("Sled"),
        }
    }

    /// Sets `key` to `value` in the engine held.
    pub fn set(&mut self, key: String, value: String) -> (r: Result<(), DbError>)
        requires
            old(self).valid_spec(),
        ensures
            final(self).valid_spec(),
            (*final(self)) is Kvs <==> (*old(self)) is Kvs,
            r is Ok ==> final(self).entries_spec() == old(self).entries_spec().insert(key@, value@),
            (*old(self)) is Kvs ==> r is Ok,
    {
        match self {
            Backend::Kvs(s) => s.set(key, value),
            Backend::Sled(e) => e.set(key, value),
        }
    }

    /// Looks `key` up in the engine held.
    pub fn get(&self, key: String) -> (r: Result<Option<String>, DbError>)
        requires
            self.valid_spec(),
        ensures
            r matches Ok(o) ==> text_of(o) == lookup(self.entries_spec(), key@),
            self is Kvs ==> r is Ok,
    {
        match self {
            Backend::Kvs(s) => s.get(key),
            Backend::Sled(e) => e.get(key),
        }
    }

    /// Removes `key` from the engine held.
    pub fn remove(&mut self, key: String) -> (r: Result<(), DbError>)
        requires
            old(self).valid_spec(),
        ensures
            final(self).valid_spec(),
            (*final(self)) is Kvs <==> (*old(self)) is Kvs,
            r is Ok ==> old(self).entries_spec().contains_key(key@) && final(self).entries_spec()
                == old(self).entries_spec().remove(key@),
            r matches Err(e) && e is KeyNotFound ==> !old(self).entries_spec().contains_key(key@)
                && final(self).entries_spec() == old(self).entries_spec(),
            (*old(self)) is Kvs ==> (r is Ok <==> old(self).entries_spec().contains_key(key@)),
            (*old(self)) is Kvs ==> (r matches Err(e) ==> e is KeyNotFound),
    {
        match self {
            Backend::Kvs(s) => s.remove(key),
            Backend::Sled(e) => e.remove(key),
        }
    }

    /// What the log file of the log-structured engine must receive; sled
    /// keeps its own files, and nothing is handed out for it.
    pub fn take_write(&mut self) -> (w: Option<LogWrite>)
        requires
            old(self).valid_spec(),
        ensures
            final(self).valid_spec(),
            (*final(self)) is Kvs <==> (*old(self)) is Kvs,
            final(self).entries_spec() == old(self).entries_spec(),
            w is Some <==> (*old(self)) is Kvs,
            (*old(self)) matches Backend::Kvs(s) ==> ((*final(self)) matches Backend::Kvs(t) && {
                &&& t.records() == s.records()
                &&& t.synced_len() == t.records().len()
                &&& !t.needs_rewrite()
                &&& match w {
                    Some(LogWrite::Rewrite(b)) => s.needs_rewrite() && b@ == log_bytes(s.records()),
                    Some(LogWrite::Append(b)) => !s.needs_rewrite() && b@ == log_bytes(
                        s.pending_records(),
                    ),
                    None => false,
                }
            }),
    {
        match self {
            Backend::Kvs(s) => Some(s.take_write()),
            Backend::Sled(_) => None,
        }
    }
}

impl KvsEngine for Backend {
    open spec fn valid(&self) -> bool {
        self.valid_spec()
    }

    open spec fn entries(&self) -> Map<Seq<char>, Seq<char>> {
        self.entries_spec()
    }

    fn set(&mut self, key: String, value: String) -> (r: Result<(), DbError>) {
        Backend::set(self, key, value)
    }

    fn get(&self, key: String) -> (r: Result<Option<String>, DbError>) {
        Backend::get(self, key)
    }

    fn remove(&mut self, key: String) -> (r: Result<(), DbError>) {
        Backend::remove(self, key)
    }
}

} // verus!
