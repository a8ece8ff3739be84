//! Datafile names of the form `kv_<sequence>.data`, and the count of them in
//! a database directory.

use vstd::prelude::*;
use crate::error::DbError;
use crate::text::{decimal, decimal_string, decimal_u64, lemma_parse_decimal, parse_u64, push_char};

verus! {

/// Where a record lies: which datafile, at which byte, and how long it is.
#[derive(Debug, Clone, Copy)]
pub struct Offset {
    /// Sequence number of the datafile.
    pub sequence: usize,
    /// Byte offset of the record in the datafile.
    pub byte_offset: usize,
    /// Length of the record in bytes.
    pub record_length: usize,
}

impl Default for Offset {
    fn default() -> (r: Offset)
        ensures
            r.sequence == 0,
            r.byte_offset == 0,
            r.record_length == 0,
    {
        Offset { sequence: 0, byte_offset: 0, record_length: 0 }
    }
}

/// The characters `kv_`.
pub open spec fn datafile_prefix() -> Seq<char> {
    seq!['k', 'v', '_']
}

/// The characters `.data`.
pub open spec fn datafile_suffix() -> Seq<char> {
    seq!['.', 'd', 'a', 't', 'a']
}

/// The name of the datafile with this sequence number.
pub open spec fn datafile_name(sequence: u64) -> Seq<char> {
    datafile_prefix() + decimal(sequence as nat) + datafile_suffix()
}

/// The sequence number that a datafile name carries, if it is one.
pub open spec fn datafile_sequence(name: Seq<char>) -> Option<u64> {
    if name.len() >= 8 && name.subrange(0, 3) == datafile_prefix() && name.subrange(
        name.len() - 5,
        name.len() as int,
    ) == datafile_suffix() {
        decimal_u64(name.subrange(3, name.len() - 5))
    } else {
        None
    }
}

/// A datafile, named by its sequence number.
#[derive(Debug)]
pub struct KvsDatafile(pub u64);

impl KvsDatafile {
    /// The file name of the datafile with this sequence number.
    pub fn file_name(sequence: u64) -> (s: String)
        ensures
            s@ == datafile_name(sequence),
    {
        let mut s = String::new();
        push_char(&mut s, 'k');
        push_char(&mut s, 'v');
        push_char(&mut s, '_');
        let digits = decimal_string(sequence);
        s.append(digits.as_str());
        push_char(&mut s, '.');
        push_char(&mut s, 'd');
        push_char(&mut s, 'a');
        push_char(&mut s, 't');
        push_char(&mut s, 'a');
        assert(s@ =~= datafile_name(sequence));
        s
    }

    /// The datafile that follows this one; the sequence number stops at its maximum.
    pub fn next(&self) -> (r: Result<KvsDatafile, DbError>)
        ensures
            r matches Ok(d) && d.0 == (if self.0 == u64::MAX {
                u64::MAX
            } else {
                (self.0 + 1) as u64
            }),
    {
        Ok(KvsDatafile(self.0.saturating_add(1)))
    }

    /// The sequence number in a datafile name; `InvalidDatafileName` with the
    /// name where it is not one.
    pub fn validate(file_name: &str) -> (r: Result<u64, DbError>)
        ensures
            match r {
                Ok(v) => datafile_sequence(file_name@) == Some(v),
                Err(e) => datafile_sequence(file_name@) is None
                    && (e matches DbError::InvalidDatafileName(s) && s@ == file_name@),
            },
    {
        let n = file_name.unicode_len();
        let ghost name = file_name@;
        if n >= 8 && file_name.get_char(0) == 'k' && file_name.get_char(1) == 'v'
            && file_name.get_char(2) == '_' && file_name.get_char(n - 5) == '.'
            && file_name.get_char(n - 4) == 'd' && file_name.get_char(n - 3) == 'a'
            && file_name.get_char(n - 2) == 't' && file_name.get_char(n - 1) == 'a' {
            assert(name.subrange(0, 3) =~= datafile_prefix());
            assert(name.subrange(n - 5, n as int) =~= datafile_suffix());
            let middle = file_name.substring_char(3, n - 5);
            match parse_u64(middle) {
                Some(v) => Ok(v),
                None => Err(DbError::InvalidDatafileName(String::from_str(file_name))),
            }
        } else {
            assert(datafile_sequence(name) is None) by {
                if n >= 8 && name.subrange(0, 3) == datafile_prefix() && name.subrange(
                    n - 5,
                    n as int,
                ) == datafile_suffix() {
                    assert(name.subrange(0, 3)[0] == name[0]);
                    assert(name.subrange(0, 3)[1] == name[1]);
                    assert(name.subrange(0, 3)[2] == name[2]);
                    assert(name.subrange(n - 5, n as int)[0] == name[n - 5]);
                    assert(name.subrange(n - 5, n as int)[1] == name[n - 4]);
                    assert(name.subrange(n - 5, n as int)[2] == name[n - 3]);
                    assert(name.subrange(n - 5, n as int)[3] == name[n - 2]);
                    assert(name.subrange(n - 5, n as int)[4] == name[n - 1]);
                }
            }
            Err(DbError::InvalidDatafileName(String::from_str(file_name)))
        }
    }
}

/// A datafile name reads back as the sequence number it was made from.
pub proof fn lemma_validate_file_name(sequence: u64)
    ensures
        datafile_sequence(datafile_name(sequence)) == Some(sequence),
{
    let d = decimal(sequence as nat);
    let name = datafile_name(sequence);
    lemma_parse_decimal(sequence);
    assert(name.subrange(0, 3) =~= datafile_prefix());
    assert(name.subrange(name.len() - 5, name.len() as int) =~= datafile_suffix());
    assert(name.subrange(3, name.len() - 5) =~= d);
}

/// How many of the names are datafile names.
pub open spec fn count_datafiles(names: Seq<String>) -> nat
    decreases names.len(),
{
    if names.len() == 0 {
        0
    } else {
        count_datafiles(names.drop_last()) + if datafile_sequence(names.last()@) is Some {
            1nat
        } else {
            0nat
        }
    }
}

/// A database directory and the number of datafiles found in it.
pub struct KvsDatabase {
    /// The directory that holds the database.
    pub path: String,
    datafiles: usize,
}

impl KvsDatabase {
    /// The directory, as text.
    pub closed spec fn path_text(&self) -> Seq<char> {
        self.path@
    }

    /// The number of datafiles found.
    pub closed spec fn datafile_count(&self) -> nat {
        self.datafiles as nat
    }

    /// The database in the directory `path`, whose entries have the names
    /// `entry_names`: the entries whose names are datafile names are counted,
    /// the others are passed over.
    pub fn open(path: &str, entry_names: &Vec<String>) -> (db: KvsDatabase)
        ensures
            db.path_text() == path@,
            db.datafile_count() == count_datafiles(entry_names@),
    {
        let mut count: usize = 0;
        let mut i: usize = 0;
        assert(entry_names@.subrange(0, 0) =~= Seq::<String>::empty());
        while i < entry_names.len()
            invariant
                0 <= i <= entry_names@.len(),
                count <= i,
                count == count_datafiles(entry_names@.subrange(0, i as int)),
            decreases entry_names@.len() - i,
        {
            let ghost p = entry_names@.subrange(0, i + 1);
            assert(p.drop_last() =~= entry_names@.subrange(0, i as int));
            assert(p.last() == entry_names@[i as int]);
            if let Ok(_) = KvsDatafile::validate(entry_names[i].as_str()) {
                count = count + 1;
            }
            i = i + 1;
        }
        assert(entry_names@.subrange(0, entry_names@.len() as int) =~= entry_names@);
        KvsDatabase { path: String::from_str(path), datafiles: count }
    }

    /// The number of datafiles found.
    pub fn datafiles(&self) -> (n: usize)
        ensures
            n == self.datafile_count(),
    {
        self.datafiles
    }
}

} // verus!
