//! The combined, file-ordered form of a task list: a sequence of entries,
//! each a task with a status flag, and the stable partition that the `sort`
//! command performs on it.

use vstd::prelude::*;
use crate::list::{List, ListView};
use crate::task::{Task, TaskView};

verus! {

/// The mathematical model of an entry: a status flag and a task.
#[verifier::ext_equal]
pub struct EntryView {
    pub finished: bool,
    pub task: TaskView,
}

/// One entry of the combined task sequence: a task together with its status.
#[derive(Debug, Clone)]
pub struct Entry {
    pub finished: bool,
    pub task: Task,
}

impl View for Entry {
    type V = EntryView;

    open spec fn view(&self) -> EntryView {
        EntryView { finished: self.finished, task: self.task@ }
    }
}

impl DeepView for Entry {
    type V = EntryView;

    open spec fn deep_view(&self) -> EntryView {
        self.view()
    }
}

/// Every task of the entry sequence can be carried by the line-oriented
/// encoding.
pub open spec fn valid_entries(es: Seq<EntryView>) -> bool {
    forall|i: int| 0 <= i < es.len() ==> crate::task::valid_task((#[trigger] es[i]).task)
}

/// The tasks of `ts` as entries, each flagged with status `fin`, in order.
pub open spec fn with_status(ts: Seq<TaskView>, fin: bool) -> Seq<EntryView>
    decreases ts.len(),
{
    if ts.len() == 0 {
        Seq::empty()
    } else {
        with_status(ts.drop_last(), fin).push(EntryView { finished: fin, task: ts.last() })
    }
}

/// The tasks of the entries flagged with status `fin`, in order.
pub open spec fn tasks_of(es: Seq<EntryView>, fin: bool) -> Seq<TaskView>
    decreases es.len(),
{
    if es.len() == 0 {
        Seq::empty()
    } else {
        let rest = tasks_of(es.drop_last(), fin);
        if es.last().finished == fin {
            rest.push(es.last().task)
        } else {
            rest
        }
    }
}

/// The combined sequence of a list: its pending entries, then its finished
/// entries.
pub open spec fn entries_of(l: ListView) -> Seq<EntryView> {
    with_status(l.tasks, false) + with_status(l.finished, true)
}

/// The list that a combined sequence denotes: the pending tasks in order, and
/// the finished tasks in order.
pub open spec fn list_of_entries(es: Seq<EntryView>) -> ListView {
    ListView { tasks: tasks_of(es, false), finished: tasks_of(es, true) }
}

/// What `sort_entries` does: the stable partition of the combined sequence,
/// every pending entry before every finished one, each group in its input
/// order.
pub open spec fn sort_spec(es: Seq<EntryView>) -> Seq<EntryView> {
    entries_of(list_of_entries(es))
}

/// No finished entry stands before a pending one.
pub open spec fn partitioned(es: Seq<EntryView>) -> bool {
    forall|i: int, j: int|
        0 <= i < j < es.len() ==> ((#[trigger] es[i]).finished ==> (#[trigger] es[j]).finished)
}

/// `with_status` keeps the tasks and their order and flags each with `fin`.
pub proof fn lemma_with_status_props(ts: Seq<TaskView>, fin: bool)
    ensures
        with_status(ts, fin).len() == ts.len(),
        forall|i: int|
            0 <= i < ts.len() ==> #[trigger] with_status(ts, fin)[i] == (EntryView {
                finished: fin,
                task: ts[i],
            }),
    decreases ts.len(),
{
    if ts.len() > 0 {
        lemma_with_status_props(ts.drop_last(), fin);
        assert forall|i: int| 0 <= i < ts.len() implies #[trigger] with_status(ts, fin)[i]
            == (EntryView { finished: fin, task: ts[i] }) by {
            if i < ts.len() - 1 {
                assert(with_status(ts, fin)[i] == with_status(ts.drop_last(), fin)[i]);
                assert(ts.drop_last()[i] == ts[i]);
            }
        }
    }
}

/// `tasks_of` distributes over concatenation.
pub proof fn lemma_tasks_of_add(a: Seq<EntryView>, b: Seq<EntryView>, fin: bool)
    ensures
        tasks_of(a + b, fin) == tasks_of(a, fin) + tasks_of(b, fin),
    decreases b.len(),
{
    if b.len() == 0 {
        assert(a + b =~= a);
        assert(tasks_of(a, fin) + tasks_of(b, fin) =~= tasks_of(a, fin));
    } else {
        lemma_tasks_of_add(a, b.drop_last(), fin);
        assert((a + b).drop_last() =~= a + b.drop_last());
        assert((a + b).last() == b.last());
        if b.last().finished == fin {
            assert(tasks_of(a, fin) + tasks_of(b, fin) =~= (tasks_of(a, fin) + tasks_of(
                b.drop_last(),
                fin,
            )).push(b.last().task));
        }
    }
}

/// Projecting the status that `with_status` stamped recovers the tasks;
/// projecting the other status yields nothing.
pub proof fn lemma_tasks_of_with_status(ts: Seq<TaskView>, fin: bool)
    ensures
        tasks_of(with_status(ts, fin), fin) == ts,
        tasks_of(with_status(ts, fin), !fin) == Seq::<TaskView>::empty(),
    decreases ts.len(),
{
    if ts.len() == 0 {
        assert(tasks_of(with_status(ts, fin), fin) =~= ts);
    } else {
        lemma_tasks_of_with_status(ts.drop_last(), fin);
        let w = with_status(ts, fin);
        assert(w.drop_last() =~= with_status(ts.drop_last(), fin));
        assert(w.last() == (EntryView { finished: fin, task: ts.last() }));
        assert(tasks_of(w, fin) =~= ts);
    }
}

/// Splitting a list into its combined sequence and reading it back is the
/// identity: the pending and the finished sequences are both reproduced.
pub proof fn lemma_list_entries_roundtrip(l: ListView)
    ensures
        list_of_entries(entries_of(l)) == l,
{
    let a = with_status(l.tasks, false);
    let b = with_status(l.finished, true);
    lemma_tasks_of_add(a, b, false);
    lemma_tasks_of_add(a, b, true);
    lemma_tasks_of_with_status(l.tasks, false);
    lemma_tasks_of_with_status(l.finished, true);
    assert(tasks_of(a + b, false) =~= l.tasks);
    assert(tasks_of(a + b, true) =~= l.finished);
    assert(list_of_entries(entries_of(l)) =~= l);
}

/// Law: sorting is idempotent; sorting a sequence that is already the stable
/// partition of some input changes nothing.
pub proof fn lemma_sort_idempotent(es: Seq<EntryView>)
    ensures
        sort_spec(sort_spec(es)) == sort_spec(es),
{
    lemma_list_entries_roundtrip(list_of_entries(es));
}

/// Law: after one application of the stable partition, every pending entry
/// stands before every finished one, whatever the input interleaving was.
pub proof fn lemma_sort_partitioned(es: Seq<EntryView>)
    ensures
        partitioned(sort_spec(es)),
{
    let l = list_of_entries(es);
    let a = with_status(l.tasks, false);
    let b = with_status(l.finished, true);
    lemma_with_status_props(l.tasks, false);
    lemma_with_status_props(l.finished, true);
    assert forall|i: int, j: int| 0 <= i < j < sort_spec(es).len() implies ((#[trigger] sort_spec(
        es,
    )[i]).finished ==> (#[trigger] sort_spec(es)[j]).finished) by {
        if sort_spec(es)[i].finished {
            assert(i >= a.len());
            assert(j >= a.len());
        }
    }
}

impl List {
    /// Reads a combined sequence back into a list: entries keep their order,
    /// each going to the group its status names.
    #[verifier::loop_isolation(false)]
    pub fn from_entries(entries: Vec<Entry>) -> (r: List)
        ensures
            r@ == list_of_entries(entries.deep_view()),
    {
        let ghost es = entries.deep_view();
        let mut entries = entries;
        let mut tasks: Vec<Task> = Vec::new();
        let mut finished: Vec<Task> = Vec::new();
        while entries.len() > 0
            invariant
                entries.deep_view().len() <= es.len(),
                entries.deep_view() =~= es.skip(es.len() - entries.deep_view().len()),
                tasks.deep_view() =~= tasks_of(es.take(es.len() - entries.deep_view().len()), false),
                finished.deep_view() =~= tasks_of(
                    es.take(es.len() - entries.deep_view().len()),
                    true,
                ),
            decreases entries.len(),
        {
            let ghost k: int = es.len() - entries.deep_view().len();
            let ghost prev = entries.deep_view();
            let ghost ptasks = tasks.deep_view();
            let ghost pfin = finished.deep_view();
            let e = entries.remove(0);
            proof {
                assert(e@ == es[k]) by {
                    assert(prev[0] == es.skip(k)[0]);
                }
                assert(entries.deep_view() =~= es.skip(k + 1)) by {
                    assert forall|i: int| 0 <= i < entries.deep_view().len() implies
                        entries.deep_view()[i] == es.skip(k + 1)[i] by {
                        assert(entries.deep_view()[i] == prev.remove(0)[i]);
                        assert(prev.remove(0)[i] == prev[i + 1]);
                        assert(prev[i + 1] == es.skip(k)[i + 1]);
                    }
                }
                assert(es.take(k + 1).drop_last() =~= es.take(k));
                assert(es.take(k + 1).last() == es[k]);
            }
            let Entry { finished: is_done, task } = e;
            if is_done {
                finished.push(task);
                proof {
                    assert(finished.deep_view() =~= pfin.push(es[k].task));
                    assert(finished.deep_view() =~= tasks_of(es.take(k + 1), true));
                    assert(tasks.deep_view() =~= tasks_of(es.take(k + 1), false));
                }
            } else {
                tasks.push(task);
                proof {
                    assert(tasks.deep_view() =~= ptasks.push(es[k].task));
                    assert(tasks.deep_view() =~= tasks_of(es.take(k + 1), false));
                    assert(finished.deep_view() =~= tasks_of(es.take(k + 1), true));
                }
            }
        }
        proof {
            assert(es.take(es.len() as int) =~= es);
        }
        List { tasks, finished }
    }

    /// Writes the list out as its combined sequence: the pending entries in
    /// order, then the finished entries in order.
    #[verifier::loop_isolation(false)]
    pub fn into_entries(self) -> (r: Vec<Entry>)
        ensures
            r.deep_view() == entries_of(self@),
    {
        let ghost lt = self@.tasks;
        let ghost lf = self@.finished;
        let List { mut tasks, mut finished } = self;
        let mut out: Vec<Entry> = Vec::new();
        while tasks.len() > 0
            invariant
                tasks.deep_view().len() <= lt.len(),
                tasks.deep_view() =~= lt.skip(lt.len() - tasks.deep_view().len()),
                out.deep_view() =~= with_status(lt.take(lt.len() - tasks.deep_view().len()), false),
            decreases tasks.len(),
        {
            let ghost k: int = lt.len() - tasks.deep_view().len();
            let ghost prev = tasks.deep_view();
            let ghost pout = out.deep_view();
            let task = tasks.remove(0);
            out.push(Entry { finished: false, task });
            proof {
                assert(task@ == lt[k]) by {
                    assert(prev[0] == lt.skip(k)[0]);
                }
                assert(tasks.deep_view() =~= lt.skip(k + 1)) by {
                    assert forall|i: int| 0 <= i < tasks.deep_view().len() implies
                        tasks.deep_view()[i] == lt.skip(k + 1)[i] by {
                        assert(tasks.deep_view()[i] == prev.remove(0)[i]);
                        assert(prev.remove(0)[i] == prev[i + 1]);
                        assert(prev[i + 1] == lt.skip(k)[i + 1]);
                    }
                }
                assert(lt.take(k + 1).drop_last() =~= lt.take(k));
                assert(lt.take(k + 1).last() == lt[k]);
                assert(out.deep_view() =~= pout.push(EntryView { finished: false, task: lt[k] }));
                assert(out.deep_view() =~= with_status(lt.take(k + 1), false));
            }
        }
        proof {
            assert(lt.take(lt.len() as int) =~= lt);
        }
        while finished.len() > 0
            invariant
                finished.deep_view().len() <= lf.len(),
                finished.deep_view() =~= lf.skip(lf.len() - finished.deep_view().len()),
                out.deep_view() =~= with_status(lt, false) + with_status(
                    lf.take(lf.len() - finished.deep_view().len()),
                    true,
                ),
            decreases finished.len(),
        {
            let ghost k: int = lf.len() - finished.deep_view().len();
            let ghost prev = finished.deep_view();
            let ghost pout = out.deep_view();
            let task = finished.remove(0);
            out.push(Entry { finished: true, task });
            proof {
                assert(task@ == lf[k]) by {
                    assert(prev[0] == lf.skip(k)[0]);
                }
                assert(finished.deep_view() =~= lf.skip(k + 1)) by {
                    assert forall|i: int| 0 <= i < finished.deep_view().len() implies
                        finished.deep_view()[i] == lf.skip(k + 1)[i] by {
                        assert(finished.deep_view()[i] == prev.remove(0)[i]);
                        assert(prev.remove(0)[i] == prev[i + 1]);
                        assert(prev[i + 1] == lf.skip(k)[i + 1]);
                    }
                }
                assert(lf.take(k + 1).drop_last() =~= lf.take(k));
                assert(lf.take(k + 1).last() == lf[k]);
                assert(out.deep_view() =~= pout.push(EntryView { finished: true, task: lf[k] }));
                assert(out.deep_view() =~= with_status(lt, false) + with_status(
                    lf.take(k + 1),
                    true,
                ));
            }
        }
        proof {
            assert(lf.take(lf.len() as int) =~= lf);
        }
        out
    }
}

/// Stable-partitions the combined sequence: every pending entry before every
/// finished one, each group keeping its relative order.
pub fn sort_entries(entries: Vec<Entry>) -> (r: Vec<Entry>)
    ensures
        r.deep_view() == sort_spec(entries.deep_view()),
{
    List::from_entries(entries).into_entries()
}

} // verus!
