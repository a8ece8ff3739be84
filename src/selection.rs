//! Which engine the server may open over a directory.

use vstd::prelude::*;

verus! {

/// One entry of the database directory.
#[derive(Debug)]
pub struct DirEntry {
    /// The entry's file name.
    pub name: String,
    /// The entry is a regular file.
    pub is_file: bool,
}

/// The database that a directory already holds.
#[derive(Debug, Clone, Copy, PartialEq, Eq, Structural)]
pub enum ExistingDb {
    /// A sled database: an entry named `db`.
    Sled,
    /// A log-structured database: a regular file named `kv_*.log`.
    Kvs,
    /// Neither.
    Fresh,
}

/// The engine that the server opens.
#[derive(Debug, Clone, Copy, PartialEq, Eq, Structural)]
pub enum EngineKind {
    /// The log-structured engine.
    Kvs,
    /// The sled engine.
    Sled,
}

/// Why the server refuses to start.
#[derive(Debug, Clone, Copy, PartialEq, Eq, Structural)]
pub enum StartupError {
    /// The directory holds both kinds of database.
    BothEngines,
    /// The engine asked for is neither `kvs` nor `sled`.
    UnsupportedEngine,
    /// `kvs` was asked for over a sled database.
    KvsOverSled,
    /// `sled` was asked for over a log-structured database.
    SledOverKvs,
}

/// The process exit code for each refusal.
pub open spec fn exit_code_spec(e: StartupError) -> i32 {
    match e {
        StartupError::BothEngines => 4,
        StartupError::UnsupportedEngine => 2,
        StartupError::KvsOverSled => 10,
        StartupError::SledOverKvs => 11,
    }
}

impl StartupError {
    /// The code that the server exits with.
    pub fn exit_code(&self) -> (c: i32)
        ensures
            c == exit_code_spec(*self),
    {
        match self {
            StartupError::BothEngines => 4,
            StartupError::UnsupportedEngine => 2,
            StartupError::KvsOverSled => 10,
            StartupError::SledOverKvs => 11,
        }
    }
}

/// The name of sled's entry.
pub open spec fn sled_marker() -> Seq<char> {
    seq!['d', 'b']
}

/// A name of the shape `kv_*.log`.
pub open spec fn is_kvs_log_name(name: Seq<char>) -> bool {
    &&& name.len() >= 7
    &&& name.subrange(0, 3) == seq!['k', 'v', '_']
    &&& name.subrange(name.len() - 4, name.len() as int) == seq!['.', 'l', 'o', 'g']
}

/// Some entry is sled's.
pub open spec fn has_sled(entries: Seq<DirEntry>) -> bool {
    exists|i: int| 0 <= i < entries.len() && #[trigger] entries[i].name@ == sled_marker()
}

/// Some entry is a log of the log-structured engine.
pub open spec fn has_kvs(entries: Seq<DirEntry>) -> bool {
    exists|i: int|
        0 <= i < entries.len() && #[trigger] entries[i].is_file && is_kvs_log_name(entries[i].name@)
}

/// `name` is sled's entry.
fn is_sled_marker(name: &str) -> (r: bool)
    ensures
        r == (name@ == sled_marker()),
{
    let n = name.unicode_len();
    if n != 2 {
        return false;
    }
    let r = name.get_char(0) == 'd' && name.get_char(1) == 'b';
    assert(r ==> name@ =~= sled_marker());
    r
}

/// `name` has the shape `kv_*.log`.
fn is_kvs_log_file_name(name: &str) -> (r: bool)
    ensures
        r == is_kvs_log_name(name@),
{
    let n = name.unicode_len();
    if n < 7 {
        return false;
    }
    let head = name.get_char(0) == 'k' && name.get_char(1) == 'v' && name.get_char(2) == '_';
    let tail = name.get_char(n - 4) == '.' && name.get_char(n - 3) == 'l' && name.get_char(n - 2)
        == 'o' && name.get_char(n - 1) == 'g';
    proof {
        let s = name@;
        if head {
            assert(s.subrange(0, 3) =~= seq!['k', 'v', '_']);
        } else {
            assert(s.subrange(0, 3) != seq!['k', 'v', '_']) by {
                if s.subrange(0, 3) == seq!['k', 'v', '_'] {
                    assert(s.subrange(0, 3)[0] == s[0]);
                    assert(s.subrange(0, 3)[1] == s[1]);
                    assert(s.subrange(0, 3)[2] == s[2]);
                }
            }
        }
        let t = s.subrange(n - 4, n as int);
        if tail {
            assert(t =~= seq!['.', 'l', 'o', 'g']);
        } else {
            assert(t != seq!['.', 'l', 'o', 'g']) by {
                if t == seq!['.', 'l', 'o', 'g'] {
                    assert(t[0] == s[n - 4]);
                    assert(t[1] == s[n - 3]);
                    assert(t[2] == s[n - 2]);
                    assert(t[3] == s[n - 1]);
                }
            }
        }
    }
    head && tail
}

/// Scans the directory's entries for the two kinds of database; refuses a
/// directory that holds both.
pub fn check_db(entries: &Vec<DirEntry>) -> (r: Result<ExistingDb, StartupError>)
    ensures
        has_sled(entries@) && has_kvs(entries@) ==> r == Err::<ExistingDb, StartupError>(
            StartupError::BothEngines,
        ),
        has_sled(entries@) && !has_kvs(entries@) ==> r == Ok::<ExistingDb, StartupError>(
            ExistingDb::Sled,
        ),
        !has_sled(entries@) && has_kvs(entries@) ==> r == Ok::<ExistingDb, StartupError>(
            ExistingDb::Kvs,
        ),
        !has_sled(entries@) && !has_kvs(entries@) ==> r == Ok::<ExistingDb, StartupError>(
            ExistingDb::Fresh,
        ),
{
    let mut sled_found = false;
    let mut kvs_found = false;
    let mut i: usize = 0;
    while i < entries.len()
        invariant
            0 <= i <= entries@.len(),
            sled_found == exists|j: int| 0 <= j < i && #[trigger] entries@[j].name@ == sled_marker(),
            kvs_found == exists|j: int|
                0 <= j < i && #[trigger] entries@[j].is_file && is_kvs_log_name(entries@[j].name@),
        decreases entries@.len() - i,
    {
        let e = &entries[i];
        if is_sled_marker(e.name.as_str()) {
            sled_found = true;
        }
        if e.is_file && is_kvs_log_file_name(e.name.as_str()) {
            kvs_found = true;
        }
        proof {
            assert(entries@[i as int] == *e);
        }
        i = i + 1;
    }
    if sled_found && kvs_found {
        Err(StartupError::BothEngines)
    } else if sled_found {
        Ok(ExistingDb::Sled)
    } else if kvs_found {
        Ok(ExistingDb::Kvs)
    } else {
        Ok(ExistingDb::Fresh)
    }
}

/// The engine that a lower-cased engine name selects over a directory that
/// holds `existing`.
pub open spec fn selection(requested: Seq<char>, existing: ExistingDb) -> Result<
    EngineKind,
    StartupError,
> {
    if requested == "kvs"@ {
        if existing is Sled {
            Err(StartupError::KvsOverSled)
        } else {
            Ok(EngineKind::Kvs)
        }
    } else if requested == "sled"@ {
        if existing is Kvs {
            Err(StartupError::SledOverKvs)
        } else {
            Ok(EngineKind::Sled)
        }
    } else {
        Err(StartupError::UnsupportedEngine)
    }
}

/// Picks the engine for an engine name already in lower case: `kvs` over a
/// sled database and `sled` over a log-structured one are refused.
pub fn select_engine(requested: &str, existing: ExistingDb) -> (r: Result<EngineKind, StartupError>)
    ensures
        r == selection(requested@, existing),
{
    let name = String::from_str(requested);
    if name == String::from_str("kvs") {
        match existing {
            ExistingDb::Sled => Err(StartupError::KvsOverSled),
            _ => Ok(EngineKind::Kvs),
        }
    } else if name == String::from_str("sled") {
        match existing {
            ExistingDb::Kvs => Err(StartupError::SledOverKvs),
            _ => Ok(EngineKind::Sled),
        }
    } else {
        Err(StartupError::UnsupportedEngine)
    }
}

/// What `str::to_lowercase` gives for a string.
pub uninterp spec fn lower_of(s: Seq<char>) -> Seq<char>;

/// Relies on `str::to_lowercase`: the result depends on the characters alone.
#[verifier::external_body]
fn lowercase(s: &str) -> (r: String)
    ensures
        r@ == lower_of(s@),
{
    s.to_lowercase()
}

/// Picks the engine for an engine name in any case.
pub fn choose_engine(requested: &str, existing: ExistingDb) -> (r: Result<EngineKind, StartupError>)
    ensures
        r == selection(lower_of(requested@), existing),
{
    let lowered = lowercase(requested);
    select_engine(lowered.as_str(), existing)
}

} // verus!
