//! The line-oriented backing format: one task per line, a one-character
//! status marker (`0` pending, `1` finished), the task's name, and, after an
//! optional tab, its description. Rendering and parsing are exact inverses on
//! valid lists.

use vstd::prelude::*;
use crate::entries::{entries_of, list_of_entries, valid_entries, with_status, Entry, EntryView,
    lemma_with_status_props, lemma_list_entries_roundtrip};
use crate::error::TodoError;
use crate::list::{valid_list, List};
use crate::task::{valid_task, Task, TaskView};
use crate::text::{find_char_from, find_first, lemma_find_first};

verus! {

/// The status marker of a line: `1` for a finished task, `0` for a pending
/// one.
pub open spec fn status_char(fin: bool) -> char {
    if fin {
        '1'
    } else {
        '0'
    }
}

/// The optional description field: a tab followed by the description.
pub open spec fn desc_part(d: Option<Seq<char>>) -> Seq<char> {
    match d {
        Some(d) => seq!['\t'] + d,
        None => Seq::empty(),
    }
}

/// One line of the backing file, without its terminating line break.
pub open spec fn line_body(e: EntryView) -> Seq<char> {
    seq![status_char(e.finished)] + e.task.name + desc_part(e.task.description)
}

/// One line of the backing file, with its terminating line break.
pub open spec fn render_line_spec(e: EntryView) -> Seq<char> {
    line_body(e) + seq!['\n']
}

/// The whole backing file for a combined sequence: one line per entry, in
/// order.
pub open spec fn render_entries(es: Seq<EntryView>) -> Seq<char>
    decreases es.len(),
{
    if es.len() == 0 {
        Seq::empty()
    } else {
        render_entries(es.drop_last()) + render_line_spec(es.last())
    }
}

/// The line bodies of a combined sequence, in order.
pub open spec fn bodies(es: Seq<EntryView>) -> Seq<Seq<char>>
    decreases es.len(),
{
    if es.len() == 0 {
        Seq::empty()
    } else {
        bodies(es.drop_last()).push(line_body(es.last()))
    }
}

/// The lines of `s`: the runs between line breaks. A terminating line break
/// closes the last line; without one, the trailing run is a line of its own.
pub open spec fn split_lines(s: Seq<char>) -> Seq<Seq<char>>
    decreases s.len(),
{
    if s.len() == 0 {
        Seq::empty()
    } else {
        let k = find_first(s, '\n');
        if 0 <= k && k < s.len() {
            seq![s.take(k)] + split_lines(s.skip(k + 1))
        } else {
            seq![s]
        }
    }
}

/// What one line denotes: nothing (empty), a malformed line, or an entry.
pub enum LineParse {
    /// An empty line; it is skipped.
    Blank,
    /// A malformed line: no status marker, or an empty name.
    Bad,
    /// A well-formed line and the entry it denotes.
    Item(EntryView),
}

/// Reads one line: the first character is the status marker, the rest up to
/// the first tab is the name, and what follows the tab is the description.
pub open spec fn parse_line(line: Seq<char>) -> LineParse {
    if line.len() == 0 {
        LineParse::Blank
    } else if line[0] != '0' && line[0] != '1' {
        LineParse::Bad
    } else {
        let text = line.skip(1);
        let k = find_first(text, '\t');
        let name = text.take(k);
        if name.len() == 0 {
            LineParse::Bad
        } else {
            let description = if k < text.len() {
                Some(text.skip(k + 1))
            } else {
                None
            };
            LineParse::Item(
                EntryView { finished: line[0] == '1', task: TaskView { name, description } },
            )
        }
    }
}

/// Reads a sequence of lines left to right: blank lines are skipped, and a
/// malformed line is skipped when `strict` is unset and fails the whole parse
/// when it is set.
pub open spec fn parse_lines(lines: Seq<Seq<char>>, strict: bool) -> Option<Seq<EntryView>>
    decreases lines.len(),
{
    if lines.len() == 0 {
        Some(Seq::empty())
    } else {
        match parse_lines(lines.drop_last(), strict) {
            None => None,
            Some(es) => match parse_line(lines.last()) {
                LineParse::Blank => Some(es),
                LineParse::Bad => if strict {
                    None
                } else {
                    Some(es)
                },
                LineParse::Item(e) => Some(es.push(e)),
            },
        }
    }
}

/// What the whole backing file denotes: its lines, read in order.
pub open spec fn parse_text(s: Seq<char>, strict: bool) -> Option<Seq<EntryView>> {
    parse_lines(split_lines(s), strict)
}

/// A rendered sequence unfolds from the front as well: the first line, then
/// the rest.
proof fn lemma_render_entries_first(es: Seq<EntryView>)
    requires
        es.len() > 0,
    ensures
        render_entries(es) == render_line_spec(es[0]) + render_entries(es.skip(1)),
    decreases es.len(),
{
    if es.len() == 1 {
        assert(render_entries(es.drop_last()) =~= Seq::<char>::empty());
        assert(render_entries(es.skip(1)) =~= Seq::<char>::empty());
        assert(es.last() == es[0]);
        assert(render_entries(es) =~= render_line_spec(es[0]) + render_entries(es.skip(1)));
    } else {
        let d = es.drop_last();
        lemma_render_entries_first(d);
        assert(es.skip(1).drop_last() =~= d.skip(1));
        assert(es.skip(1).last() == es.last());
        assert(d[0] == es[0]);
        assert(render_entries(es) =~= render_line_spec(es[0]) + render_entries(es.skip(1)));
    }
}

/// The line bodies unfold from the front as well.
proof fn lemma_bodies_first(es: Seq<EntryView>)
    requires
        es.len() > 0,
    ensures
        bodies(es) == seq![line_body(es[0])] + bodies(es.skip(1)),
    decreases es.len(),
{
    if es.len() == 1 {
        assert(bodies(es.skip(1)) =~= Seq::<Seq<char>>::empty());
        assert(bodies(es.drop_last()) =~= Seq::<Seq<char>>::empty());
        assert(es.last() == es[0]);
        assert(bodies(es) =~= seq![line_body(es[0])] + bodies(es.skip(1)));
    } else {
        let d = es.drop_last();
        lemma_bodies_first(d);
        assert(es.skip(1).drop_last() =~= d.skip(1));
        assert(es.skip(1).last() == es.last());
        assert(d[0] == es[0]);
        assert(bodies(es) =~= seq![line_body(es[0])] + bodies(es.skip(1)));
    }
}

/// A valid entry's line body holds no line break, and starts with its status
/// marker.
proof fn lemma_line_body_props(e: EntryView)
    requires
        valid_task(e.task),
    ensures
        line_body(e).len() >= 2,
        forall|i: int| 0 <= i < line_body(e).len() ==> line_body(e)[i] != '\n',
        line_body(e)[0] == status_char(e.finished),
{
    let body = line_body(e);
    assert forall|i: int| 0 <= i < body.len() implies body[i] != '\n' by {
        if i == 0 {
        } else if i < 1 + e.task.name.len() {
            assert(body[i] == e.task.name[i - 1]);
            if e.task.name[i - 1] == '\n' {
                assert(e.task.name.contains('\n'));
            }
        } else {
            match e.task.description {
                Some(d) => {
                    if i == 1 + e.task.name.len() {
                        assert(body[i] == '\t');
                    } else {
                        assert(body[i] == d[i - 2 - e.task.name.len()]);
                        if d[i - 2 - e.task.name.len()] == '\n' {
                            assert(d.contains('\n'));
                        }
                    }
                },
                None => {},
            }
        }
    }
}

/// Reading back a valid entry's line body yields exactly that entry.
proof fn lemma_parse_line_body(e: EntryView)
    requires
        valid_task(e.task),
    ensures
        parse_line(line_body(e)) == LineParse::Item(e),
{
    let body = line_body(e);
    let name = e.task.name;
    assert(body[0] == status_char(e.finished));
    assert(body[0] == '0' || body[0] == '1');
    assert((body[0] == '1') == e.finished);
    let text = body.skip(1);
    assert forall|i: int| 0 <= i < name.len() implies name[i] != '\t' by {
        if name[i] == '\t' {
            assert(name.contains('\t'));
        }
    }
    match e.task.description {
        None => {
            assert(text =~= name);
            lemma_find_first(text, '\t', text.len() as int);
            assert(text.take(text.len() as int) =~= name);
            assert(parse_line(body) == LineParse::Item(e)) by {
                let t = TaskView { name: text.take(find_first(text, '\t')), description: None };
                assert(t =~= e.task);
                assert((EntryView { finished: body[0] == '1', task: t }) =~= e);
            }
        },
        Some(d) => {
            assert(text =~= name + seq!['\t'] + d);
            assert forall|i: int| 0 <= i < name.len() implies text[i] != '\t' by {
                assert(text[i] == name[i]);
            }
            assert(text[name.len() as int] == '\t');
            lemma_find_first(text, '\t', name.len() as int);
            let k = find_first(text, '\t');
            assert(text.take(k) =~= name);
            assert(k < text.len());
            assert(text.skip(k + 1) =~= d);
            assert(parse_line(body) == LineParse::Item(e)) by {
                let t = TaskView { name: text.take(k), description: Some(text.skip(k + 1)) };
                assert(t =~= e.task);
                assert((EntryView { finished: body[0] == '1', task: t }) =~= e);
            }
        },
    }
}

/// Splitting a rendered sequence followed by anything yields the rendered
/// line bodies followed by the split of the rest.
proof fn lemma_split_render(es: Seq<EntryView>, rest: Seq<char>)
    requires
        valid_entries(es),
    ensures
        split_lines(render_entries(es) + rest) == bodies(es) + split_lines(rest),
    decreases es.len(),
{
    if es.len() == 0 {
        assert(render_entries(es) + rest =~= rest);
        assert(bodies(es) + split_lines(rest) =~= split_lines(rest));
    } else {
        lemma_render_entries_first(es);
        lemma_bodies_first(es);
        let e0 = es[0];
        assert(valid_task(e0.task));
        lemma_line_body_props(e0);
        let body = line_body(e0);
        let tail = render_entries(es.skip(1)) + rest;
        let s = render_entries(es) + rest;
        assert(s =~= body + seq!['\n'] + tail);
        assert forall|i: int| 0 <= i < body.len() implies s[i] != '\n' by {
            assert(s[i] == body[i]);
        }
        assert(s[body.len() as int] == '\n');
        lemma_find_first(s, '\n', body.len() as int);
        assert(s.take(body.len() as int) =~= body);
        assert(s.skip(body.len() as int + 1) =~= tail);
        assert forall|i: int| 0 <= i < es.skip(1).len() implies valid_task(
            (#[trigger] es.skip(1)[i]).task,
        ) by {
            assert(es.skip(1)[i] == es[i + 1]);
        }
        lemma_split_render(es.skip(1), rest);
        assert(split_lines(s) =~= bodies(es) + split_lines(rest));
    }
}

/// Reading the rendered line bodies back yields exactly the entries, in either
/// strictness mode.
proof fn lemma_parse_lines_bodies(es: Seq<EntryView>, strict: bool)
    requires
        valid_entries(es),
    ensures
        parse_lines(bodies(es), strict) == Some(es),
    decreases es.len(),
{
    if es.len() > 0 {
        let d = es.drop_last();
        assert forall|i: int| 0 <= i < d.len() implies valid_task((#[trigger] d[i]).task) by {
            assert(d[i] == es[i]);
        }
        lemma_parse_lines_bodies(d, strict);
        assert(bodies(es).drop_last() =~= bodies(d));
        assert(bodies(es).last() == line_body(es.last()));
        lemma_parse_line_body(es.last());
        assert(d.push(es.last()) =~= es);
    }
}

/// A parse that has already failed stays failed however the line sequence
/// goes on.
proof fn lemma_parse_lines_extend_none(a: Seq<Seq<char>>, b: Seq<Seq<char>>, strict: bool)
    requires
        parse_lines(a, strict) is None,
    ensures
        parse_lines(a + b, strict) is None,
    decreases b.len(),
{
    if b.len() == 0 {
        assert(a + b =~= a);
    } else {
        lemma_parse_lines_extend_none(a, b.drop_last(), strict);
        assert((a + b).drop_last() =~= a + b.drop_last());
    }
}

/// Rendering a valid combined sequence and parsing the result yields exactly
/// that sequence, in either strictness mode.
pub proof fn lemma_render_parse_roundtrip(es: Seq<EntryView>, strict: bool)
    requires
        valid_entries(es),
    ensures
        parse_text(render_entries(es), strict) == Some(es),
{
    lemma_split_render(es, Seq::empty());
    assert(render_entries(es) + Seq::<char>::empty() =~= render_entries(es));
    assert(split_lines(Seq::<char>::empty()) =~= Seq::<Seq<char>>::empty());
    assert(bodies(es) + Seq::<Seq<char>>::empty() =~= bodies(es));
    lemma_parse_lines_bodies(es, strict);
}

/// Law: saving a valid list and loading the result reproduces the list. The
/// rendered text parses to exactly the list's combined sequence, and reading
/// that sequence back as a list is the identity, in either strictness mode.
pub proof fn lemma_save_load_roundtrip(l: crate::list::ListView, strict: bool)
    requires
        valid_list(l),
    ensures
        parse_text(render_entries(entries_of(l)), strict) == Some(entries_of(l)),
        list_of_entries(entries_of(l)) == l,
{
    lemma_with_status_props(l.tasks, false);
    lemma_with_status_props(l.finished, true);
    let es = entries_of(l);
    assert forall|i: int| 0 <= i < es.len() implies valid_task((#[trigger] es[i]).task) by {
        if i < l.tasks.len() {
            assert(es[i] == with_status(l.tasks, false)[i]);
        } else {
            assert(es[i] == with_status(l.finished, true)[i - l.tasks.len()]);
        }
    }
    lemma_render_parse_roundtrip(es, strict);
    lemma_list_entries_roundtrip(l);
}

/// One parsed line of the backing file.
pub enum ParsedLine {
    /// An empty line.
    Blank,
    /// A malformed line.
    Bad,
    /// A well-formed line's entry.
    Item(Entry),
}

/// Reads one line of the backing file.
fn parse_line_exec(line: &str) -> (r: ParsedLine)
    ensures
        (r is Blank) == (parse_line(line@) is Blank),
        (r is Bad) == (parse_line(line@) is Bad),
        r matches ParsedLine::Item(e) ==> parse_line(line@) == LineParse::Item(e@),
{
    let len = line.unicode_len();
    if len == 0 {
        return ParsedLine::Blank;
    }
    let c0 = line.get_char(0);
    if !(c0 == '0' || c0 == '1') {
        return ParsedLine::Bad;
    }
    let text = line.substring_char(1, len);
    proof {
        assert(text@ =~= line@.skip(1));
    }
    let tlen = text.unicode_len();
    let k = find_char_from(text, 0, '\t');
    proof {
        lemma_find_first(text@, '\t', k as int);
    }
    if k == 0 {
        return ParsedLine::Bad;
    }
    let name = text.substring_char(0, k).to_owned();
    proof {
        assert(name@ =~= text@.take(k as int));
    }
    let finished = c0 == '1';
    if k < tlen {
        let d = text.substring_char(k + 1, tlen).to_owned();
        proof {
            assert(d@ =~= text@.skip(k + 1));
        }
        let task = Task::new(name).with_description(d);
        proof {
            assert(task@ =~= (TaskView {
                name: text@.take(k as int),
                description: Some(text@.skip(k + 1)),
            }));
            assert(parse_line(line@) == LineParse::Item(
                EntryView { finished: line@[0] == '1', task: task@ },
            ));
        }
        ParsedLine::Item(Entry { finished, task })
    } else {
        let task = Task::new(name);
        proof {
            assert(task@ =~= (TaskView { name: text@.take(k as int), description: None }));
            assert(parse_line(line@) == LineParse::Item(
                EntryView { finished: line@[0] == '1', task: task@ },
            ));
        }
        ParsedLine::Item(Entry { finished, task })
    }
}

/// Reads the whole backing file into its combined sequence. In strict mode a
/// malformed line fails with `ParseError`; otherwise malformed lines are
/// skipped. Succeeds if and only if the text denotes a sequence.
#[verifier::loop_isolation(false)]
pub fn parse_entries(text: &str, strict: bool) -> (r: Result<Vec<Entry>, TodoError>)
    ensures
        parse_text(text@, strict) is Some ==> r is Ok && r->Ok_0.deep_view() == parse_text(
            text@,
            strict,
        )->Some_0,
        parse_text(text@, strict) is None ==> r == Err::<Vec<Entry>, TodoError>(
            TodoError::ParseError,
        ),
{
    let len = text.unicode_len();
    let mut out: Vec<Entry> = Vec::new();
    let mut i: usize = 0;
    let ghost mut done: Seq<Seq<char>> = Seq::empty();
    proof {
        assert(text@.skip(0) =~= text@);
        assert(done + split_lines(text@) =~= split_lines(text@));
    }
    while i < len
        invariant
            0 <= i <= len,
            len == text@.len(),
            split_lines(text@) == done + split_lines(text@.skip(i as int)),
            parse_lines(done, strict) == Some(out.deep_view()),
        decreases len - i,
    {
        let j = find_char_from(text, i, '\n');
        let line = text.substring_char(i, j);
        let ghost suffix = text@.skip(i as int);
        proof {
            assert forall|m: int| 0 <= m < j - i implies suffix[m] != '\n' by {
                assert(suffix[m] == text@[m + i]);
            }
            if j < len {
                assert(suffix[j - i] == text@[j as int]);
            }
            lemma_find_first(suffix, '\n', j - i);
            assert(line@ =~= suffix.take(j - i));
            if j < len {
                assert(suffix.skip(j - i + 1) =~= text@.skip(j + 1));
                assert(split_lines(suffix) == seq![line@] + split_lines(text@.skip(j + 1)));
            } else {
                assert(line@ =~= suffix);
                assert(split_lines(suffix) == seq![line@]);
            }
            assert((done + seq![line@]).drop_last() =~= done);
            assert((done + seq![line@]).last() == line@);
        }
        let p = parse_line_exec(line);
        let ghost rest_lines = if j < len {
            split_lines(text@.skip(j + 1))
        } else {
            Seq::<Seq<char>>::empty()
        };
        proof {
            assert(split_lines(text@) =~= (done + seq![line@]) + rest_lines);
        }
        match p {
            ParsedLine::Blank => {},
            ParsedLine::Bad => {
                if strict {
                    proof {
                        assert(parse_lines(done + seq![line@], strict) is None);
                        lemma_parse_lines_extend_none(done + seq![line@], rest_lines, strict);
                    }
                    return Err(TodoError::ParseError);
                }
            },
            ParsedLine::Item(e) => {
                let ghost before = out.deep_view();
                out.push(e);
                proof {
                    assert(out.deep_view() =~= before.push(e@));
                }
            },
        }
        proof {
            done = done + seq![line@];
        }
        if j < len {
            i = j + 1;
        } else {
            i = len;
            proof {
                assert(split_lines(text@.skip(len as int)) =~= Seq::<Seq<char>>::empty());
            }
        }
    }
    proof {
        assert(split_lines(text@.skip(len as int)) =~= Seq::<Seq<char>>::empty());
        assert(split_lines(text@) =~= done);
    }
    Ok(out)
}

/// Renders one line of the backing file: the status marker, the name, a tab
/// and the description when there is one, and a line break.
fn render_line(finished: bool, task: &Task) -> (r: String)
    ensures
        r@ == render_line_spec(EntryView { finished, task: task@ }),
{
    proof {
        reveal_strlit("0");
        reveal_strlit("1");
        reveal_strlit("\t");
        reveal_strlit("\n");
    }
    let mut s = String::new();
    if finished {
        s.append("1");
    } else {
        s.append("0");
    }
    s.append(task.name().as_str());
    match task.description() {
        Some(d) => {
            s.append("\t");
            s.append(d.as_str());
        },
        None => {},
    }
    s.append("\n");
    proof {
        assert(s@ =~= render_line_spec(EntryView { finished, task: task@ }));
    }
    s
}

/// Renders a combined sequence as the backing file's text. Succeeds if and
/// only if every task is valid for the encoding; an invalid one fails with
/// `SerializeError`.
#[verifier::loop_isolation(false)]
pub fn render_entries_string(entries: &Vec<Entry>) -> (r: Result<String, TodoError>)
    ensures
        r is Ok <==> valid_entries(entries.deep_view()),
        r is Ok ==> r->Ok_0@ == render_entries(entries.deep_view()),
        r is Err ==> r->Err_0 == TodoError::SerializeError,
{
    let ghost dv = entries.deep_view();
    let n = entries.len();
    let mut s = String::new();
    let mut i: usize = 0;
    while i < n
        invariant
            0 <= i <= n,
            n == entries@.len(),
            dv == entries.deep_view(),
            forall|m: int| 0 <= m < i ==> valid_task((#[trigger] dv[m]).task),
            s@ == render_entries(dv.take(i as int)),
        decreases n - i,
    {
        let e = &entries[i];
        if !e.task.is_valid() {
            return Err(TodoError::SerializeError);
        }
        let line = render_line(e.finished, &e.task);
        proof {
            assert(dv.take(i + 1).drop_last() =~= dv.take(i as int));
            assert(dv.take(i + 1).last() == dv[i as int]);
            assert((EntryView { finished: e.finished, task: e.task@ }) =~= dv[i as int]);
        }
        s.append(line.as_str());
        i = i + 1;
    }
    proof {
        assert(dv.take(n as int) =~= dv);
    }
    Ok(s)
}

impl List {
    /// Renders the list as the backing file's text: the pending lines in
    /// order, then the finished lines in order. Succeeds if and only if every
    /// task is valid for the encoding; an invalid one fails with
    /// `SerializeError`.
    #[verifier::loop_isolation(false)]
    pub fn save_string(&self) -> (r: Result<String, TodoError>)
        ensures
            r is Ok <==> valid_list(self@),
            r is Ok ==> r->Ok_0@ == render_entries(entries_of(self@)),
            r is Err ==> r->Err_0 == TodoError::SerializeError,
    {
        let ghost lt = self@.tasks;
        let ghost lf = self@.finished;
        let mut s = String::new();
        let np = self.tasks.len();
        let mut i: usize = 0;
        while i < np
            invariant
                0 <= i <= np,
                np == self.tasks@.len(),
                forall|m: int| 0 <= m < i ==> valid_task(#[trigger] lt[m]),
                s@ == render_entries(with_status(lt.take(i as int), false)),
            decreases np - i,
        {
            let t = &self.tasks[i];
            if !t.is_valid() {
                return Err(TodoError::SerializeError);
            }
            let line = render_line(false, t);
            proof {
                assert(lt.take(i + 1).drop_last() =~= lt.take(i as int));
                assert(lt.take(i + 1).last() == lt[i as int]);
                let w = with_status(lt.take(i + 1), false);
                assert(w.drop_last() =~= with_status(lt.take(i as int), false));
                assert(w.last() == (EntryView { finished: false, task: lt[i as int] }));
            }
            s.append(line.as_str());
            i = i + 1;
        }
        proof {
            assert(lt.take(np as int) =~= lt);
        }
        let nf = self.finished.len();
        let mut j: usize = 0;
        while j < nf
            invariant
                0 <= j <= nf,
                nf == self.finished@.len(),
                forall|m: int| 0 <= m < np ==> valid_task(#[trigger] lt[m]),
                forall|m: int| 0 <= m < j ==> valid_task(#[trigger] lf[m]),
                s@ == render_entries(
                    with_status(lt, false) + with_status(lf.take(j as int), true),
                ),
            decreases nf - j,
        {
            let t = &self.finished[j];
            if !t.is_valid() {
                return Err(TodoError::SerializeError);
            }
            let line = render_line(true, t);
            proof {
                assert(lf.take(j + 1).drop_last() =~= lf.take(j as int));
                assert(lf.take(j + 1).last() == lf[j as int]);
                let w = with_status(lt, false) + with_status(lf.take(j + 1), true);
                assert(w.drop_last() =~= with_status(lt, false) + with_status(
                    lf.take(j as int),
                    true,
                ));
                assert(w.last() == (EntryView { finished: true, task: lf[j as int] }));
            }
            s.append(line.as_str());
            j = j + 1;
        }
        proof {
            assert(lf.take(nf as int) =~= lf);
        }
        Ok(s)
    }

    /// Reads the backing file's text into a list: entries keep their file
    /// order, each going to the group its status marker names. In strict mode
    /// a malformed line fails with `ParseError`; otherwise malformed lines
    /// are skipped.
    pub fn load_string(text: &str, strict: bool) -> (r: Result<List, TodoError>)
        ensures
            parse_text(text@, strict) is Some ==> r is Ok && r->Ok_0@ == list_of_entries(
                parse_text(text@, strict)->Some_0,
            ),
            parse_text(text@, strict) is None ==> r is Err && r->Err_0 == TodoError::ParseError,
    {
        match parse_entries(text, strict) {
            Ok(entries) => Ok(List::from_entries(entries)),
            Err(e) => Err(e),
        }
    }
}

} // verus!
