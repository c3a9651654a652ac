//! The program's on-disk state, modelled: the backing file's discovery, the
//! text that a save writes, and what backup and restore do to the two files.

use vstd::prelude::*;
use crate::codec::render_entries;
use crate::entries::entries_of;
use crate::error::TodoError;
use crate::list::{valid_list, List};
use crate::text::{contains_ci, str_contains_ci};

verus! {

/// A task list bound to the path of its backing file.
pub struct Todo {
    pub list: List,
    pub path: String,
}

impl Todo {
    /// Whether a file name picks the backing file during discovery: it
    /// contains `todo`, in any letter case.
    pub fn is_todo_file_name(name: &str) -> (r: bool)
        ensures
            r == contains_ci(name@, "todo"@),
    {
        str_contains_ci(name, "todo")
    }

    /// The text that `save` overwrites the backing file with. Succeeds if and
    /// only if every task is valid for the encoding; an invalid one fails
    /// with `SerializeError`.
    pub fn save_string(&self) -> (r: Result<String, TodoError>)
        ensures
            r is Ok <==> valid_list(self.list@),
            r is Ok ==> r->Ok_0@ == render_entries(entries_of(self.list@)),
            r is Err ==> r->Err_0 == TodoError::SerializeError,
    {
        self.list.save_string()
    }
}

/// The on-disk state the program touches, as text: the backing file and the
/// backup file.
#[verifier::ext_equal]
pub struct StoreView {
    pub file: Seq<char>,
    pub backup: Seq<char>,
}

/// What a save does on disk: it overwrites the backing file's whole contents.
pub open spec fn save_to_store(s: StoreView, contents: Seq<char>) -> StoreView {
    StoreView { file: contents, backup: s.backup }
}

/// What a backup does on disk: it copies the backing file over the backup
/// file; with the no-backup flag set it is a no-op.
pub open spec fn backup_store(s: StoreView, enabled: bool) -> StoreView {
    if enabled {
        StoreView { file: s.file, backup: s.file }
    } else {
        s
    }
}

/// What a restore does on disk: it copies the backup file back over the
/// backing file.
pub open spec fn restore_store(s: StoreView) -> StoreView {
    StoreView { file: s.backup, backup: s.backup }
}

/// Law: restoring after a backup reproduces the backing file's contents as of
/// the backup point, whether restore runs right away or after a later save.
pub proof fn lemma_backup_restore_inverse(s: StoreView, contents: Seq<char>, later: Seq<char>)
    ensures
        restore_store(backup_store(save_to_store(s, contents), true)).file == contents,
        restore_store(
            save_to_store(backup_store(save_to_store(s, contents), true), later),
        ).file == contents,
{
}

} // verus!
