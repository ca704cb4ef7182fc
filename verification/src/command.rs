//! The two record variants that the log and the wire carry.

use vstd::prelude::*;

verus! {

/// Mathematical form of a [`Command`]: keys and values as character
/// sequences.
pub enum CommandView {
    Put { key: Seq<char>, value: Seq<char> },
    Remove { key: Seq<char> },
}

/// A command in the key-value store.
///
/// `Put` assigns a value to a key (it is written to the log under the tag
/// `Set`); `Remove` deletes a key. Exactly these
/// records are persisted to the log, one after the other, and replayed on
/// recovery.
#[derive(Debug)]
pub enum Command {
    /// Assign `value` to `key`.
    Put { key: String, value: String },
    /// Delete `key`.
    Remove { key: String },
}

impl View for Command {
    type V = CommandView;

    open spec fn view(&self) -> CommandView {
        match self {
            Command::Put { key, value } => (CommandView::Put { key: key@, value: value@ }),
            Command::Remove { key } => (CommandView::Remove { key: key@ }),
        }
    }
}

impl Command {
    /// Build a `Put` record.
    pub fn set(key: String, value: String) -> (c: Command)
        ensures
            c@ == (CommandView::Put { key: key@, value: value@ }),
    {
        Command::Put { key, value }
    }

    /// Build a `Remove` record.
    pub fn remove(key: String) -> (c: Command)
        ensures
            c@ == (CommandView::Remove { key: key@ }),
    {
        Command::Remove { key }
    }
}

} // verus!
