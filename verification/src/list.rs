//! The task list: two ordered sequences of tasks, pending and finished, and
//! the command operations that mutate them.

use vstd::prelude::*;
use crate::error::TodoError;
use crate::task::{Task, TaskView};
use crate::text::{all_digits, digits_val, is_blank, str_all_digits, str_eq, str_is_blank,
    parse_pos};

verus! {

/// The mathematical model of a task list: the pending and the finished
/// sequence.
#[verifier::ext_equal]
pub struct ListView {
    pub tasks: Seq<TaskView>,
    pub finished: Seq<TaskView>,
}

/// A task list: the pending tasks in insertion order, and the finished tasks
/// in the order they were completed.
#[derive(Debug, Clone)]
pub struct List {
    pub tasks: Vec<Task>,
    pub finished: Vec<Task>,
}

impl View for List {
    type V = ListView;

    open spec fn view(&self) -> ListView {
        ListView { tasks: self.tasks.deep_view(), finished: self.finished.deep_view() }
    }
}

/// Every task of the list can be carried by the line-oriented encoding.
pub open spec fn valid_list(l: ListView) -> bool {
    &&& forall|i: int| 0 <= i < l.tasks.len() ==> crate::task::valid_task(#[trigger] l.tasks[i])
    &&& forall|i: int|
        0 <= i < l.finished.len() ==> crate::task::valid_task(#[trigger] l.finished[i])
}

/// The names of the tasks, in sequence order.
pub open spec fn names_of(ts: Seq<TaskView>) -> Seq<Seq<char>>
    decreases ts.len(),
{
    if ts.len() == 0 {
        Seq::empty()
    } else {
        names_of(ts.drop_last()).push(ts.last().name)
    }
}

/// The index of the first task in `ts` named `name`, or `-1` when none is.
pub open spec fn first_match(ts: Seq<TaskView>, name: Seq<char>) -> int
    decreases ts.len(),
{
    if ts.len() == 0 {
        -1
    } else if ts[0].name == name {
        0
    } else {
        let r = first_match(ts.skip(1), name);
        if r < 0 {
            -1
        } else {
            1 + r
        }
    }
}

/// `first_match` finds `j` when `ts[j]` is named `name` and no earlier task is.
proof fn lemma_first_match_found(ts: Seq<TaskView>, name: Seq<char>, j: int)
    requires
        0 <= j < ts.len(),
        ts[j].name == name,
        forall|i: int| 0 <= i < j ==> ts[i].name != name,
    ensures
        first_match(ts, name) == j,
    decreases ts.len(),
{
    if j == 0 {
    } else {
        let t = ts.skip(1);
        assert forall|i: int| 0 <= i < j - 1 implies t[i].name != name by {
            assert(t[i] == ts[i + 1]);
        }
        assert(t[j - 1] == ts[j]);
        lemma_first_match_found(t, name, j - 1);
    }
}

/// `first_match` reports `-1` when no task in `ts` is named `name`.
proof fn lemma_first_match_none(ts: Seq<TaskView>, name: Seq<char>)
    requires
        forall|i: int| 0 <= i < ts.len() ==> (#[trigger] ts[i]).name != name,
    ensures
        first_match(ts, name) == -1,
    decreases ts.len(),
{
    if ts.len() > 0 {
        let t = ts.skip(1);
        assert forall|i: int| 0 <= i < t.len() implies (#[trigger] t[i]).name != name by {
            assert(t[i] == ts[i + 1]);
        }
        lemma_first_match_none(t, name);
    }
}

/// The list with the pending task at `i` moved to the end of the finished
/// sequence.
pub open spec fn move_pending(l: ListView, i: int) -> ListView {
    ListView { tasks: l.tasks.remove(i), finished: l.finished.push(l.tasks[i]) }
}

/// The name branch of a `finish` selector: the first pending task named `id`
/// moves to the finished sequence; when none is named so, nothing changes.
pub open spec fn finish_by_name_spec(l: ListView, id: Seq<char>) -> ListView {
    let j = first_match(l.tasks, id);
    if j >= 0 {
        move_pending(l, j)
    } else {
        l
    }
}

/// What `finish_task`, one `finish` selector, does. A digit run is a 1-based
/// position in the pending sequence (out of range: ignored); the token `all`
/// finishes every pending task, in order; any other token is an exact name.
pub open spec fn finish_one_spec(l: ListView, id: Seq<char>) -> ListView {
    if all_digits(id) {
        let p = digits_val(id);
        if 1 <= p <= l.tasks.len() {
            move_pending(l, p - 1)
        } else {
            l
        }
    } else if id == seq!['a', 'l', 'l'] {
        ListView { tasks: Seq::empty(), finished: l.finished + l.tasks }
    } else {
        finish_by_name_spec(l, id)
    }
}

/// What `finish` does: the selectors applied left to right, each against the
/// list the previous one left.
pub open spec fn finish_spec(l: ListView, ids: Seq<Seq<char>>) -> ListView
    decreases ids.len(),
{
    if ids.len() == 0 {
        l
    } else {
        finish_one_spec(finish_spec(l, ids.drop_last()), ids.last())
    }
}

/// What one `remove` selector does. The token `done` deletes every finished
/// task; a digit run is a 1-based position in the combined
/// pending-then-finished sequence (out of range: ignored); any other token is
/// ignored.
pub open spec fn remove_one_spec(l: ListView, id: Seq<char>) -> ListView {
    if id == seq!['d', 'o', 'n', 'e'] {
        ListView { tasks: l.tasks, finished: Seq::empty() }
    } else if all_digits(id) {
        let p = digits_val(id);
        if 1 <= p <= l.tasks.len() {
            ListView { tasks: l.tasks.remove(p - 1), finished: l.finished }
        } else if l.tasks.len() < p <= l.tasks.len() + l.finished.len() {
            ListView { tasks: l.tasks, finished: l.finished.remove(p - 1 - l.tasks.len()) }
        } else {
            l
        }
    } else {
        l
    }
}

/// What `remove` does: the selectors applied left to right, each against the
/// list the previous one left.
pub open spec fn remove_spec(l: ListView, ids: Seq<Seq<char>>) -> ListView
    decreases ids.len(),
{
    if ids.len() == 0 {
        l
    } else {
        remove_one_spec(remove_spec(l, ids.drop_last()), ids.last())
    }
}

/// What one `add` name does: a blank name is skipped; any other becomes a new
/// pending task without a description.
pub open spec fn add_one_spec(l: ListView, name: Seq<char>) -> ListView {
    if is_blank(name) {
        l
    } else {
        ListView {
            tasks: l.tasks.push(TaskView { name, description: None }),
            finished: l.finished,
        }
    }
}

/// What `add` does: the names appended left to right.
pub open spec fn add_spec(l: ListView, names: Seq<Seq<char>>) -> ListView
    decreases names.len(),
{
    if names.len() == 0 {
        l
    } else {
        add_one_spec(add_spec(l, names.drop_last()), names.last())
    }
}

/// What `raw` returns for each selector: the pending or the finished names,
/// or `InvalidArgument` when the selector is absent or unrecognized.
pub open spec fn raw_spec(l: ListView, selector: Option<Seq<char>>) -> Result<
    Seq<Seq<char>>,
    TodoError,
> {
    match selector {
        None => Err(TodoError::InvalidArgument),
        Some(s) => if s == "pending"@ {
            Ok(names_of(l.tasks))
        } else if s == "finished"@ {
            Ok(names_of(l.finished))
        } else {
            Err(TodoError::InvalidArgument)
        },
    }
}

impl Default for List {
    /// The empty list: no pending and no finished tasks.
    fn default() -> (r: List)
        ensures
            r@.tasks.len() == 0,
            r@.finished.len() == 0,
    {
        List { tasks: Vec::new(), finished: Vec::new() }
    }
}

impl List {
    /// Appends `task` to the pending sequence.
    pub fn add_task(&mut self, task: Task)
        ensures
            final(self)@.tasks == old(self)@.tasks.push(task@),
            final(self)@.finished == old(self)@.finished,
    {
        self.tasks.push(task);
        proof {
            assert(self@.tasks =~= old(self)@.tasks.push(task@));
        }
    }

    /// Moves the first pending task named `identifier` to the finished
    /// sequence; when none is named so, the list is unchanged.
    #[verifier::loop_isolation(false)]
    fn finish_by_name(&mut self, identifier: &str)
        ensures
            final(self)@ == finish_by_name_spec(old(self)@, identifier@),
    {
        let ghost l = self@;
        let mut j: usize = 0;
        let n = self.tasks.len();
        while j < n
            invariant
                0 <= j <= n,
                n == self.tasks@.len(),
                self@ == l,
                forall|i: int| 0 <= i < j ==> (#[trigger] l.tasks[i]).name != identifier@,
            decreases n - j,
        {
            if str_eq(self.tasks[j].name().as_str(), identifier) {
                proof {
                    lemma_first_match_found(l.tasks, identifier@, j as int);
                }
                let t = self.tasks.remove(j);
                self.finished.push(t);
                proof {
                    assert(self@.tasks =~= l.tasks.remove(j as int));
                    assert(self@.finished =~= l.finished.push(l.tasks[j as int]));
                    assert(self@ =~= move_pending(l, j as int));
                }
                return ;
            }
            j = j + 1;
        }
        proof {
            lemma_first_match_none(l.tasks, identifier@);
        }
    }

    /// Empties the finished sequence; pending tasks are untouched.
    pub fn clear_finished(&mut self)
        ensures
            final(self)@.tasks == old(self)@.tasks,
            final(self)@.finished.len() == 0,
    {
        self.finished.clear();
        proof {
            assert(self@.finished =~= Seq::<TaskView>::empty());
        }
    }

    /// Appends one new pending task per non-blank name, in input order; blank
    /// names are silently skipped.
    pub fn add(&mut self, names: &Vec<String>)
        ensures
            final(self)@ == add_spec(old(self)@, names.deep_view()),
    {
        let ghost l = old(self)@;
        let ghost ns = names.deep_view();
        let n = names.len();
        let mut i: usize = 0;
        while i < n
            invariant
                0 <= i <= n,
                n == names@.len(),
                ns == names.deep_view(),
                self@ == add_spec(l, ns.take(i as int)),
            decreases n - i,
        {
            proof {
                assert(ns.take(i + 1).drop_last() =~= ns.take(i as int));
                assert(ns.take(i + 1).last() == ns[i as int]);
            }
            let name = &names[i];
            if !str_is_blank(name.as_str()) {
                let ghost before = self@;
                let t = Task::new(name.clone());
                proof {
                    assert(t@ =~= (TaskView { name: ns[i as int], description: None }));
                }
                self.tasks.push(t);
                proof {
                    assert(self@.tasks =~= before.tasks.push(
                        TaskView { name: ns[i as int], description: None },
                    ));
                    assert(self@ =~= add_one_spec(before, ns[i as int]));
                }
            }
            i = i + 1;
        }
        proof {
            assert(ns.take(n as int) =~= ns);
        }
    }

    /// Applies one `finish` selector: a digit run is a 1-based position in
    /// the pending sequence, the token `all` finishes every pending task, and
    /// any other token is an exact name; a selector that matches nothing
    /// leaves the list unchanged.
    #[verifier::loop_isolation(false)]
    pub fn finish_task(&mut self, identifier: &str)
        ensures
            final(self)@ == finish_one_spec(old(self)@, identifier@),
    {
        let ghost l = self@;
        proof {
            reveal_strlit("all");
        }
        let n = self.tasks.len();
        if str_all_digits(identifier) {
            match parse_pos(identifier) {
                Some(p) => {
                    if 1 <= p && p <= n {
                        let t = self.tasks.remove(p - 1);
                        self.finished.push(t);
                        proof {
                            assert(self@.tasks =~= l.tasks.remove(p - 1));
                            assert(self@.finished =~= l.finished.push(l.tasks[p - 1]));
                            assert(self@ =~= move_pending(l, p - 1));
                        }
                    }
                },
                None => {
                    // The digit run denotes a number beyond `usize`, so it can
                    // name no position in the pending sequence.
                },
            }
        } else if str_eq(identifier, "all") {
            proof {
                assert(identifier@ =~= seq!['a', 'l', 'l']);
            }
            let ghost fin = self@.finished;
            let ghost pen = self@.tasks;
            while self.tasks.len() > 0
                invariant
                    self@.tasks.len() <= pen.len(),
                    self@.finished =~= fin + pen.take(pen.len() - self@.tasks.len()),
                    self@.tasks =~= pen.skip(pen.len() - self@.tasks.len()),
                decreases self.tasks.len(),
            {
                let ghost k: int = pen.len() - self@.tasks.len();
                let ghost prev = self@;
                let t = self.tasks.remove(0);
                self.finished.push(t);
                proof {
                    assert(t@ == pen[k]) by {
                        assert(t@ == prev.tasks[0]);
                        assert(prev.tasks[0] == pen.skip(k)[0]);
                    }
                    assert(self@.tasks =~= pen.skip(k + 1)) by {
                        assert(self@.tasks.len() == pen.skip(k + 1).len());
                        assert forall|i: int| 0 <= i < self@.tasks.len() implies self@.tasks[i]
                            == pen.skip(k + 1)[i] by {
                            assert(self@.tasks[i] == prev.tasks.remove(0)[i]);
                            assert(prev.tasks.remove(0)[i] == prev.tasks[i + 1]);
                            assert(prev.tasks[i + 1] == pen.skip(k)[i + 1]);
                        }
                    }
                    assert(self@.finished =~= fin + pen.take(k + 1)) by {
                        assert(self@.finished.len() == (fin + pen.take(k + 1)).len());
                        assert forall|i: int| 0 <= i < self@.finished.len() implies self@.finished[i]
                            == (fin + pen.take(k + 1))[i] by {
                            assert(self@.finished[i] == prev.finished.push(t@)[i]);
                            assert(prev.finished[i as int] == (fin + pen.take(k))[i]
                                || i == prev.finished.len());
                        }
                    }
                }
            }
            proof {
                assert(self@.tasks =~= Seq::<TaskView>::empty());
                assert(self@.finished =~= fin + pen);
                assert(self@ =~= (ListView { tasks: Seq::empty(), finished: l.finished + l.tasks }));
            }
        } else {
            proof {
                assert(identifier@ != seq!['a', 'l', 'l']) by {
                    assert("all"@ =~= seq!['a', 'l', 'l']);
                }
            }
            self.finish_by_name(identifier);
        }
    }

    /// Applies the `finish` selectors left to right: each is a 1-based pending
    /// position, the token `all`, or an exact name; selectors that match
    /// nothing are ignored.
    pub fn finish(&mut self, identifiers: &Vec<String>)
        ensures
            final(self)@ == finish_spec(old(self)@, identifiers.deep_view()),
    {
        let ghost l = old(self)@;
        let ghost ids = identifiers.deep_view();
        let n = identifiers.len();
        let mut i: usize = 0;
        while i < n
            invariant
                0 <= i <= n,
                n == identifiers@.len(),
                ids == identifiers.deep_view(),
                self@ == finish_spec(l, ids.take(i as int)),
            decreases n - i,
        {
            proof {
                assert(ids.take(i + 1).drop_last() =~= ids.take(i as int));
                assert(ids.take(i + 1).last() == ids[i as int]);
            }
            self.finish_task(identifiers[i].as_str());
            i = i + 1;
        }
        proof {
            assert(ids.take(n as int) =~= ids);
        }
    }

    /// Applies one `remove` selector: the token `done`, or a 1-based position
    /// in the combined pending-then-finished sequence.
    fn remove_one(&mut self, identifier: &str)
        requires
            old(self)@.tasks.len() + old(self)@.finished.len() <= usize::MAX,
        ensures
            final(self)@ == remove_one_spec(old(self)@, identifier@),
    {
        let ghost l = self@;
        proof {
            reveal_strlit("done");
            assert("done"@ =~= seq!['d', 'o', 'n', 'e']);
        }
        let np = self.tasks.len();
        let nf = self.finished.len();
        if str_eq(identifier, "done") {
            self.finished.clear();
            proof {
                assert(self@.finished =~= Seq::<TaskView>::empty());
                assert(self@ =~= (ListView { tasks: l.tasks, finished: Seq::empty() }));
            }
        } else if str_all_digits(identifier) {
            match parse_pos(identifier) {
                Some(p) => {
                    if 1 <= p && p <= np {
                        self.tasks.remove(p - 1);
                        proof {
                            assert(self@.tasks =~= l.tasks.remove(p - 1));
                            assert(self@ =~= (ListView {
                                tasks: l.tasks.remove(p - 1),
                                finished: l.finished,
                            }));
                        }
                    } else if np < p && p - np <= nf {
                        self.finished.remove(p - 1 - np);
                        proof {
                            assert(self@.finished =~= l.finished.remove(p - 1 - np));
                            assert(self@ =~= (ListView {
                                tasks: l.tasks,
                                finished: l.finished.remove(p - 1 - l.tasks.len()),
                            }));
                        }
                    }
                },
                None => {
                    // The digit run denotes a number beyond `usize`, so it can
                    // name no position in the combined sequence.
                },
            }
        }
    }

    /// Applies the `remove` selectors left to right: the token `done` deletes
    /// every finished task, a 1-based position in the combined
    /// pending-then-finished sequence deletes that task; selectors that match
    /// nothing are ignored.
    pub fn remove(&mut self, identifiers: &Vec<String>)
        requires
            old(self)@.tasks.len() + old(self)@.finished.len() <= usize::MAX,
        ensures
            final(self)@ == remove_spec(old(self)@, identifiers.deep_view()),
    {
        let ghost l = old(self)@;
        let ghost ids = identifiers.deep_view();
        let n = identifiers.len();
        let mut i: usize = 0;
        while i < n
            invariant
                0 <= i <= n,
                n == identifiers@.len(),
                ids == identifiers.deep_view(),
                self@ == remove_spec(l, ids.take(i as int)),
                self@.tasks.len() + self@.finished.len() <= usize::MAX,
            decreases n - i,
        {
            proof {
                assert(ids.take(i + 1).drop_last() =~= ids.take(i as int));
                assert(ids.take(i + 1).last() == ids[i as int]);
            }
            self.remove_one(identifiers[i].as_str());
            i = i + 1;
        }
        proof {
            assert(ids.take(n as int) =~= ids);
        }
    }

    /// The plain names of one group, in sequence order: `pending` or
    /// `finished`. An absent or unrecognized selector fails with
    /// `InvalidArgument`; the two valid selectors never fail.
    pub fn raw(&self, selector: Option<&str>) -> (r: Result<Vec<String>, TodoError>)
        ensures
            ({
                let spec_r = raw_spec(
                    self@,
                    match selector {
                        Some(s) => Some(s@),
                        None => None,
                    },
                );
                &&& r is Ok <==> spec_r is Ok
                &&& r is Ok ==> r->Ok_0.deep_view() == spec_r->Ok_0
                &&& r is Err ==> r->Err_0 == spec_r->Err_0
            }),
    {
        match selector {
            None => Err(TodoError::InvalidArgument),
            Some(s) => {
                if str_eq(s, "pending") {
                    Ok(Self::collect_names(&self.tasks))
                } else if str_eq(s, "finished") {
                    Ok(Self::collect_names(&self.finished))
                } else {
                    Err(TodoError::InvalidArgument)
                }
            },
        }
    }

    /// Copies the names of `ts`, in order.
    fn collect_names(ts: &Vec<Task>) -> (r: Vec<String>)
        ensures
            r.deep_view() == names_of(ts.deep_view()),
    {
        let ghost tv = ts.deep_view();
        let n = ts.len();
        let mut out: Vec<String> = Vec::new();
        let mut i: usize = 0;
        while i < n
            invariant
                0 <= i <= n,
                n == ts@.len(),
                tv == ts.deep_view(),
                out.deep_view() == names_of(tv.take(i as int)),
            decreases n - i,
        {
            proof {
                assert(tv.take(i + 1).drop_last() =~= tv.take(i as int));
                assert(tv.take(i + 1).last() == tv[i as int]);
            }
            let ghost before = out.deep_view();
            out.push(ts[i].name().clone());
            proof {
                assert(out.deep_view() =~= before.push(tv[i as int].name));
            }
            i = i + 1;
        }
        proof {
            assert(tv.take(n as int) =~= tv);
        }
        out
    }
}

} // verus!
