//! The command names and their recognition by unambiguous-prefix matching.

use vstd::prelude::*;
use crate::error::TodoError;
use crate::text::{is_prefix_ci, prefix_ci};

verus! {

/// The commands of the program: each maps to one operation of the task list
/// or of the backing file.
#[derive(Debug, Clone, PartialEq, Eq, Structural)]
pub enum Command {
    /// Append new pending tasks.
    Add,
    /// Mark tasks as finished.
    Finish,
    /// Print the whole list.
    List,
    /// Empty the finished sequence.
    Clear,
    /// Delete tasks.
    Remove,
    /// Copy the backup file back over the backing file.
    Restore,
    /// Stable-partition the backing file: pending lines first.
    Sort,
    /// Print one group as plain text.
    Raw,
    /// Print the usage text.
    Help,
}

/// Which command a token names. Tokens are matched case-insensitively as
/// non-empty prefixes of the command names, tried in a fixed order; the first
/// name the token is a prefix of wins. A token that is a prefix of no name
/// fails with `NoMatchingCommand`.
pub open spec fn command_of(text: Seq<char>) -> Result<Command, TodoError> {
    if prefix_ci(text, "add"@) {
        Ok(Command::Add)
    } else if prefix_ci(text, "done"@) {
        Ok(Command::Finish)
    } else if prefix_ci(text, "finish"@) {
        Ok(Command::Finish)
    } else if prefix_ci(text, "list"@) {
        Ok(Command::List)
    } else if prefix_ci(text, "clear"@) {
        Ok(Command::Clear)
    } else if prefix_ci(text, "reset"@) {
        Ok(Command::Clear)
    } else if prefix_ci(text, "remove"@) {
        Ok(Command::Remove)
    } else if prefix_ci(text, "restore"@) {
        Ok(Command::Restore)
    } else if prefix_ci(text, "sort"@) {
        Ok(Command::Sort)
    } else if prefix_ci(text, "raw"@) {
        Ok(Command::Raw)
    } else if prefix_ci(text, "help"@) {
        Ok(Command::Help)
    } else {
        Err(TodoError::NoMatchingCommand)
    }
}

/// The command names, in the order the recognizer tries them.
pub open spec fn command_names() -> Seq<Seq<char>> {
    seq![
        "add"@,
        "done"@,
        "finish"@,
        "list"@,
        "clear"@,
        "reset"@,
        "remove"@,
        "restore"@,
        "sort"@,
        "raw"@,
        "help"@,
    ]
}

/// The command each name maps to.
pub open spec fn named_command(name: Seq<char>) -> Command {
    if name == "add"@ {
        Command::Add
    } else if name == "done"@ || name == "finish"@ {
        Command::Finish
    } else if name == "list"@ {
        Command::List
    } else if name == "clear"@ || name == "reset"@ {
        Command::Clear
    } else if name == "remove"@ {
        Command::Remove
    } else if name == "restore"@ {
        Command::Restore
    } else if name == "sort"@ {
        Command::Sort
    } else if name == "raw"@ {
        Command::Raw
    } else {
        Command::Help
    }
}

/// Law: recognition is exhaustive over the command names. A token succeeds
/// exactly when it is a case-insensitive non-empty prefix of some command
/// name; when it is a prefix of none the failure is `NoMatchingCommand`; and
/// a token that is a prefix of exactly one name yields that name's command.
pub proof fn lemma_command_exhaustive(text: Seq<char>)
    ensures
        (command_of(text) is Ok) <==> (exists|j: int|
            0 <= j < command_names().len() && prefix_ci(text, #[trigger] command_names()[j])),
        command_of(text) is Err ==> command_of(text)->Err_0 == TodoError::NoMatchingCommand,
        forall|j: int|
            (0 <= j < command_names().len() && prefix_ci(text, #[trigger] command_names()[j])
                && (forall|m: int|
                0 <= m < command_names().len() && m != j ==> !prefix_ci(
                    text,
                    #[trigger] command_names()[m],
                ))) ==> command_of(text) == Ok::<Command, TodoError>(
                named_command(command_names()[j]),
            ),
{
    reveal_strlit("add");
    reveal_strlit("done");
    reveal_strlit("finish");
    reveal_strlit("list");
    reveal_strlit("clear");
    reveal_strlit("reset");
    reveal_strlit("remove");
    reveal_strlit("restore");
    reveal_strlit("sort");
    reveal_strlit("raw");
    reveal_strlit("help");
    let ns = command_names();
    if command_of(text) is Ok {
        if prefix_ci(text, "add"@) {
            assert(prefix_ci(text, ns[0]));
        } else if prefix_ci(text, "done"@) {
            assert(prefix_ci(text, ns[1]));
        } else if prefix_ci(text, "finish"@) {
            assert(prefix_ci(text, ns[2]));
        } else if prefix_ci(text, "list"@) {
            assert(prefix_ci(text, ns[3]));
        } else if prefix_ci(text, "clear"@) {
            assert(prefix_ci(text, ns[4]));
        } else if prefix_ci(text, "reset"@) {
            assert(prefix_ci(text, ns[5]));
        } else if prefix_ci(text, "remove"@) {
            assert(prefix_ci(text, ns[6]));
        } else if prefix_ci(text, "restore"@) {
            assert(prefix_ci(text, ns[7]));
        } else if prefix_ci(text, "sort"@) {
            assert(prefix_ci(text, ns[8]));
        } else if prefix_ci(text, "raw"@) {
            assert(prefix_ci(text, ns[9]));
        } else {
            assert(prefix_ci(text, ns[10]));
        }
    }
    if exists|j: int| 0 <= j < ns.len() && prefix_ci(text, #[trigger] ns[j]) {
        let j = choose|j: int| 0 <= j < ns.len() && prefix_ci(text, #[trigger] ns[j]);
        assert(command_of(text) is Ok);
    }
    assert forall|j: int|
        (0 <= j < ns.len() && prefix_ci(text, #[trigger] ns[j]) && (forall|m: int|
            0 <= m < ns.len() && m != j ==> !prefix_ci(
                text,
                #[trigger] ns[m],
            ))) implies command_of(text) == Ok::<Command, TodoError>(named_command(ns[j])) by {
        if j != 0 {
            assert(!prefix_ci(text, ns[0]));
        }
        if j != 1 {
            assert(!prefix_ci(text, ns[1]));
        }
        if j != 2 {
            assert(!prefix_ci(text, ns[2]));
        }
        if j != 3 {
            assert(!prefix_ci(text, ns[3]));
        }
        if j != 4 {
            assert(!prefix_ci(text, ns[4]));
        }
        if j != 5 {
            assert(!prefix_ci(text, ns[5]));
        }
        if j != 6 {
            assert(!prefix_ci(text, ns[6]));
        }
        if j != 7 {
            assert(!prefix_ci(text, ns[7]));
        }
        if j != 8 {
            assert(!prefix_ci(text, ns[8]));
        }
        if j != 9 {
            assert(!prefix_ci(text, ns[9]));
        }
        if j != 10 {
            assert(!prefix_ci(text, ns[10]));
        }
    }
}

impl Command {
    /// Recognizes a command token: a case-insensitive, non-empty prefix of a
    /// command name, the names tried in a fixed order with the first match
    /// winning. Fails with `NoMatchingCommand` when no name matches.
    pub fn from_str(text: &str) -> (r: Result<Command, TodoError>)
        ensures
            r == command_of(text@),
    {
        if is_prefix_ci(text, "add") {
            Ok(Command::Add)
        } else if is_prefix_ci(text, "done") {
            Ok(Command::Finish)
        } else if is_prefix_ci(text, "finish") {
            Ok(Command::Finish)
        } else if is_prefix_ci(text, "list") {
            Ok(Command::List)
        } else if is_prefix_ci(text, "clear") {
            Ok(Command::Clear)
        } else if is_prefix_ci(text, "reset") {
            Ok(Command::Clear)
        } else if is_prefix_ci(text, "remove") {
            Ok(Command::Remove)
        } else if is_prefix_ci(text, "restore") {
            Ok(Command::Restore)
        } else if is_prefix_ci(text, "sort") {
            Ok(Command::Sort)
        } else if is_prefix_ci(text, "raw") {
            Ok(Command::Raw)
        } else if is_prefix_ci(text, "help") {
            Ok(Command::Help)
        } else {
            Err(TodoError::NoMatchingCommand)
        }
    }
}

impl Default for Command {
    /// With no command given, the program shows its usage text.
    fn default() -> (r: Command)
        ensures
            r == Command::Help,
    {
        Command::Help
    }
}

} // verus!
