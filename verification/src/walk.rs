//! What the walk over the file tree does with a path.

use crate::config::{covered, lies_under, Config};
use vstd::prelude::*;

verus! {

/// What a path turned out to be.
#[derive(Clone, Copy, Debug, PartialEq, Eq, Structural)]
pub enum EntryKind {
    Directory,
    File,
    SymbolicLink,
    /// Anything else: a device, a pipe, a socket.
    Other,
}

/// Whether the walk looks at a path at all.
#[derive(Clone, Copy, Debug, PartialEq, Eq, Structural)]
pub enum Visit {
    /// The session was interrupted: the path is left alone.
    Interrupted,
    /// The exclude at this position of the configured list covers the path: it is
    /// skipped, with all that lies below it.
    Excluded(usize),
    /// The path is looked at.
    Look,
}

/// What the walk does with a path that it has looked at.
#[derive(Clone, Copy, Debug, PartialEq, Eq, Structural)]
pub enum Action {
    /// The path has vanished since it was listed: nothing is done, and nothing is
    /// wrong.
    Nothing,
    /// The directory is noted, and the walk goes on with what it holds.
    EnterDirectory,
    /// The file is split into blocks and stored.
    StoreFile,
    /// The symbolic link is noted with its target.
    NoteSymbolicLink,
    /// The path is neither of these: it is skipped with a warning.
    SkipUnsupported,
}

/// Whether the walk looks at `path`: not once the session was interrupted, and not if
/// an exclude covers the path.
pub fn visit(config: &Config, was_interrupted: bool, path: &[u8]) -> (r: Visit)
    ensures
        r == Visit::Interrupted <==> was_interrupted,
        r == Visit::Look <==> !was_interrupted && !covered(config.excludes@, path@),
        r matches Visit::Excluded(i) ==> i < config.excludes@.len() && lies_under(
            path@,
            config.excludes@[i as int]@,
        ) && forall|j: int| 0 <= j < i ==> !lies_under(path@, #[trigger] config.excludes@[j]@),
{
    if was_interrupted {
        return Visit::Interrupted;
    }
    match config.exclude_of(path) {
        Some(i) => Visit::Excluded(i),
        None => Visit::Look,
    }
}

/// What the walk does with a path that turned out to be of the given kind, or to be
/// there no more.
pub fn action(found: Option<EntryKind>) -> (r: Action)
    ensures
        r == match found {
            None => Action::Nothing,
            Some(EntryKind::Directory) => Action::EnterDirectory,
            Some(EntryKind::File) => Action::StoreFile,
            Some(EntryKind::SymbolicLink) => Action::NoteSymbolicLink,
            Some(EntryKind::Other) => Action::SkipUnsupported,
        },
{
    match found {
        None => Action::Nothing,
        Some(EntryKind::Directory) => Action::EnterDirectory,
        Some(EntryKind::File) => Action::StoreFile,
        Some(EntryKind::SymbolicLink) => Action::NoteSymbolicLink,
        Some(EntryKind::Other) => Action::SkipUnsupported,
    }
}

} // verus!
