//! A single task: a required name and an optional description.

use vstd::prelude::*;
use crate::text::find_char_from;

verus! {

/// The mathematical model of a task: its name and optional description as
/// character sequences.
#[verifier::ext_equal]
pub struct TaskView {
    pub name: Seq<char>,
    pub description: Option<Seq<char>>,
}

/// A task: a name (required, semantically non-empty) and an optional
/// description.
#[derive(Debug, Clone)]
pub struct Task {
    name: String,
    description: Option<String>,
}

impl View for Task {
    type V = TaskView;

    closed spec fn view(&self) -> TaskView {
        TaskView {
            name: self.name@,
            description: match self.description {
                Some(d) => Some(d@),
                None => None,
            },
        }
    }
}

impl DeepView for Task {
    type V = TaskView;

    open spec fn deep_view(&self) -> TaskView {
        self.view()
    }
}

/// A name that the line-oriented encoding can carry: non-empty, with no line
/// break and no tab.
pub open spec fn valid_name(s: Seq<char>) -> bool {
    s.len() > 0 && !s.contains('\n') && !s.contains('\t')
}

/// A task that the line-oriented encoding can carry: a valid name, and a
/// description free of line breaks.
pub open spec fn valid_task(t: TaskView) -> bool {
    &&& valid_name(t.name)
    &&& match t.description {
        Some(d) => !d.contains('\n'),
        None => true,
    }
}

impl Task {
    /// The task's name.
    pub fn name(&self) -> (r: &String)
        ensures
            r@ == self@.name,
    {
        &self.name
    }

    /// The task's description, when it has one.
    pub fn description(&self) -> (r: Option<&String>)
        ensures
            match r {
                Some(d) => self@.description == Some(d@),
                None => self@.description is None,
            },
    {
        self.description.as_ref()
    }

    /// The task with its description replaced by `description`.
    pub fn with_description(self, description: String) -> (r: Task)
        ensures
            r@.name == self@.name,
            r@.description == Some(description@),
    {
        Task { name: self.name, description: Some(description) }
    }

    /// Replaces the description by `new`, but only when the task already has
    /// one; a task without a description is left untouched.
    pub fn set_description(&mut self, new: String)
        ensures
            final(self)@.name == old(self)@.name,
            final(self)@.description == if old(self)@.description is Some {
                Some(new@)
            } else {
                None::<Seq<char>>
            },
    {
        if self.description.is_some() {
            self.description = Some(new);
        }
    }

    /// Replaces the task's name by `new`.
    pub fn set_name(&mut self, new: String)
        ensures
            final(self)@.name == new@,
            final(self)@.description == old(self)@.description,
    {
        self.name = new;
    }

    /// Decides whether the line-oriented encoding can carry the task.
    pub fn is_valid(&self) -> (r: bool)
        ensures
            r == valid_task(self@),
    {
        let nlen = self.name.as_str().unicode_len();
        if nlen == 0 {
            return false;
        }
        let j = find_char_from(self.name.as_str(), 0, '\n');
        if j < nlen {
            return false;
        }
        let k = find_char_from(self.name.as_str(), 0, '\t');
        if k < nlen {
            assert(self@.name.contains('\t'));
            return false;
        }
        match &self.description {
            None => {
                assert(!self@.name.contains('\n')) by {
                    assert(forall|i: int| 0 <= i < self@.name.len() ==> self@.name[i] != '\n');
                }
                true
            },
            Some(d) => {
                let dlen = d.as_str().unicode_len();
                let m = find_char_from(d.as_str(), 0, '\n');
                if m < dlen {
                    assert(self@.description->Some_0.contains('\n'));
                    false
                } else {
                    assert(!self@.name.contains('\n')) by {
                        assert(forall|i: int|
                            0 <= i < self@.name.len() ==> self@.name[i] != '\n');
                    }
                    assert(!self@.name.contains('\t')) by {
                        assert(forall|i: int|
                            0 <= i < self@.name.len() ==> self@.name[i] != '\t');
                    }
                    assert(!self@.description->Some_0.contains('\n')) by {
                        assert(forall|i: int| 0 <= i < d@.len() ==> d@[i] != '\n');
                    }
                    true
                }
            },
        }
    }

    /// The display line that `display_line` renders: `* name` alone for a
    /// task without a description, and `* name: description.` for one with.
    pub open spec fn display_spec(t: TaskView) -> Seq<char> {
        seq!['*', ' '] + t.name + (match t.description {
            Some(d) => seq![':', ' '] + d + seq!['.'],
            None => Seq::<char>::empty(),
        })
    }

    /// Renders the task for the terminal: `* name`, and `: description` with
    /// a closing full stop when a description is present.
    pub fn display_line(&self) -> (r: String)
        ensures
            r@ == Task::display_spec(self@),
    {
        proof {
            reveal_strlit("* ");
            reveal_strlit(": ");
            reveal_strlit(".");
        }
        let mut s = String::new();
        s.append("* ");
        s.append(self.name.as_str());
        match &self.description {
            Some(d) => {
                s.append(": ");
                s.append(d.as_str());
                s.append(".");
            },
            None => {},
        }
        proof {
            assert(s@ =~= Task::display_spec(self@));
        }
        s
    }
}

impl Task {
    /// A task with `name` and no description.
    pub fn new(name: String) -> (r: Task)
        ensures
            r@.name == name@,
            r@.description is None,
    {
        Task { name, description: None }
    }
}

impl From<String> for Task {
    /// A task with `name` and no description.
    fn from(name: String) -> (r: Task) {
        Task { name, description: None }
    }
}

impl vstd::std_specs::convert::FromSpecImpl<String> for Task {
    open spec fn obeys_from_spec() -> bool {
        true
    }

    closed spec fn from_spec(name: String) -> Task {
        Task { name, description: None }
    }
}

/// What `Task::from` builds: the name is moved in unchanged and there is no
/// description.
pub proof fn lemma_task_from_spec(name: String)
    ensures
        <Task as vstd::std_specs::convert::FromSpec<String>>::from_spec(name)@ == (TaskView {
            name: name@,
            description: None,
        }),
{
    let t = <Task as vstd::std_specs::convert::FromSpec<String>>::from_spec(name);
    assert(t@ =~= (TaskView { name: name@, description: None }));
}

} // verus!
