//! The commands of the store, as the command line and the log name them.

use vstd::prelude::*;
use crate::server::{get_answer, key_not_found};
use crate::store::{lookup, text_of, KvStore};

verus! {

/// Set `key` to `value`.
#[derive(Debug)]
pub struct SetCmd {
    /// The key to set.
    pub key: String,
    /// The value to store under the key.
    pub value: String,
}

/// Look up the value of `key`.
#[derive(Debug)]
pub struct GetCmd {
    /// The key to look up.
    pub key: String,
}

/// Remove `key`.
#[derive(Debug)]
pub struct RmCmd {
    /// The key to remove.
    pub key: String,
}

/// One command of the store.
#[derive(Debug)]
pub enum Action {
    /// Set a key to a value.
    SetKey(SetCmd),
    /// Look a key up.
    Get(GetCmd),
    /// Remove a key.
    Remove(RmCmd),
}

/// A command with its strings taken as character sequences.
pub enum Command {
    SetKey { key: Seq<char>, value: Seq<char> },
    Get { key: Seq<char> },
    Remove { key: Seq<char> },
}

impl View for Action {
    type V = Command;

    open spec fn view(&self) -> Command {
        match self {
            Action::SetKey(c) => Command::SetKey { key: c.key@, value: c.value@ },
            Action::Get(c) => Command::Get { key: c.key@ },
            Action::Remove(c) => Command::Remove { key: c.key@ },
        }
    }
}

/// The parsed command line of the `kvs` tool.
#[derive(Debug)]
pub struct KvsCLI {
    /// The command to run.
    pub action: Option<Action>,
    /// How much debugging output was asked for.
    pub debug: u8,
}

/// What the `kvs` tool prints on standard output, and the code it exits with.
#[derive(Debug)]
pub struct CliOutcome {
    /// The line to print, if any.
    pub output: Option<String>,
    /// The exit code.
    pub exit_code: i32,
}

/// Runs one command of the `kvs` tool against the store. A missing key is
/// reported as `Key not found`: `get` then still succeeds, `rm` fails.
pub fn run_action(store: &mut KvStore, action: Action) -> (r: CliOutcome)
    requires
        old(store).wf(),
    ensures
        final(store).wf(),
        match action {
            Action::SetKey(c) => {
                &&& final(store)@ == old(store)@.insert(c.key@, c.value@)
                &&& r.exit_code == 0
                &&& r.output is None
            },
            Action::Get(c) => {
                &&& *final(store) == *old(store)
                &&& r.exit_code == 0
                &&& text_of(r.output) == Some(get_answer(lookup(old(store)@, c.key@)))
            },
            Action::Remove(c) => {
                &&& old(store)@.contains_key(c.key@) ==> final(store)@ == old(store)@.remove(c.key@)
                    && r.exit_code == 0 && r.output is None
                &&& !old(store)@.contains_key(c.key@) ==> *final(store) == *old(store)
                    && r.exit_code == 1 && text_of(r.output) == Some("Key not found"@)
            },
        },
{
    match action {
        Action::SetKey(c) => {
            let _ = store.set(c.key, c.value);
            CliOutcome { output: None, exit_code: 0 }
        },
        Action::Get(c) => match store.get(c.key) {
            Ok(Some(v)) => CliOutcome { output: Some(v), exit_code: 0 },
            _ => CliOutcome { output: Some(key_not_found()), exit_code: 0 },
        },
        Action::Remove(c) => match store.remove(c.key) {
            Ok(()) => CliOutcome { output: None, exit_code: 0 },
            Err(_) => CliOutcome { output: Some(key_not_found()), exit_code: 1 },
        },
    }
}

} // verus!
