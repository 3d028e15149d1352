//! The journal core: todo lines, entry documents, and the roll-over that
//! carries uncompleted todos from the most recent prior entry into a new one.

use crate::dates::{compare_entry_dates, date_key, date_lt, date_token, to_filename_string, Date};
use crate::text::{split_char, split_str};
use core::cmp::Ordering;
use vstd::prelude::*;
use vstd::string::StrSliceExecFns;
use vstd::string::StringExecFns;

verus! {

/// One todo item: a completion flag and the raw description text that
/// follows the checkbox marker, kept verbatim (leading whitespace included).
#[derive(Clone, Debug)]
pub struct Todo {
    pub completed: bool,
    pub description: String,
}

/// The mathematical model of a [`Todo`].
pub struct TodoModel {
    pub completed: bool,
    pub description: Seq<char>,
}

impl View for Todo {
    type V = TodoModel;

    open spec fn view(&self) -> TodoModel {
        TodoModel { completed: self.completed, description: self.description@ }
    }
}

impl DeepView for Todo {
    type V = TodoModel;

    open spec fn deep_view(&self) -> TodoModel {
        self@
    }
}

/// One day's journal entry: the date token that names its file, and its
/// todos in order.
#[derive(Debug)]
pub struct Entry {
    pub date: String,
    pub todos: Vec<Todo>,
}

/// The mathematical model of an [`Entry`].
pub struct EntryModel {
    pub date: Seq<char>,
    pub todos: Seq<TodoModel>,
}

impl View for Entry {
    type V = EntryModel;

    open spec fn view(&self) -> EntryModel {
        EntryModel { date: self.date@, todos: self.todos.deep_view() }
    }
}

/// Which structural fault a parse ran into.
#[derive(Clone, Copy, Debug, PartialEq, Eq, Structural)]
pub enum ParseErrorKind {
    /// A line handed to the todo codec matches neither checkbox form.
    UnrecognizedTodoLine,
    /// A document has no section marker, so no TODO section exists.
    MissingTodoSection,
}

/// The error produced when a todo line or an entry document cannot be
/// parsed.
#[derive(Clone, Copy, Debug, PartialEq, Eq, Structural)]
pub struct EntryParseError {
    pub kind: ParseErrorKind,
}

impl EntryParseError {
    /// A human-readable description of the fault.
    pub fn message(&self) -> (r: String)
        ensures
            self.kind == ParseErrorKind::UnrecognizedTodoLine ==> r@ == "Failed to parse todo line"@,
            self.kind == ParseErrorKind::MissingTodoSection ==> r@
                == "Failed to find todo section"@,
    {
        match self.kind {
            ParseErrorKind::UnrecognizedTodoLine => String::from_str("Failed to parse todo line"),
            ParseErrorKind::MissingTodoSection => String::from_str("Failed to find todo section"),
        }
    }
}

/// The error produced when building a new entry fails.
#[derive(Clone, Copy, Debug, PartialEq, Eq, Structural)]
pub enum BuildError {
    /// The most recent prior entry exists but its document has no
    /// recognizable TODO section.
    PriorEntryUnreadable,
}

/// The marker that opens a completed todo line.
pub open spec fn checked_marker() -> Seq<char> {
    seq!['-', ' ', '[', 'x', ']']
}

/// The canonical marker that opens an uncompleted todo line.
pub open spec fn unchecked_marker() -> Seq<char> {
    seq!['-', ' ', '[', ' ', ']']
}

/// The historical short spelling of the uncompleted marker, accepted on
/// read, never written.
pub open spec fn short_unchecked_marker() -> Seq<char> {
    seq!['-', ' ', '[', ']']
}

/// What parsing one todo line yields: the completed marker is tried first,
/// then the two uncompleted spellings; everything after the marker, verbatim,
/// is the description. `None` when no marker opens the line.
pub open spec fn parse_todo_spec(line: Seq<char>) -> Option<TodoModel> {
    if line.len() >= 5 && line.take(5) == checked_marker() {
        Some(TodoModel { completed: true, description: line.skip(5) })
    } else if line.len() >= 5 && line.take(5) == unchecked_marker() {
        Some(TodoModel { completed: false, description: line.skip(5) })
    } else if line.len() >= 4 && line.take(4) == short_unchecked_marker() {
        Some(TodoModel { completed: false, description: line.skip(4) })
    } else {
        None
    }
}

/// The canonical line form of a todo: the canonical marker for its flag,
/// then the description verbatim.
pub open spec fn todo_line(m: TodoModel) -> Seq<char> {
    (if m.completed {
        checked_marker()
    } else {
        unchecked_marker()
    }) + m.description
}

/// Whether `s@` begins with `p@`.
fn has_prefix(s: &str, p: &str) -> (b: bool)
    ensures
        b <==> s@.len() >= p@.len() && s@.take(p@.len() as int) == p@,
{
    let n = p.unicode_len();
    let sn = s.unicode_len();
    if sn < n {
        return false;
    }
    let mut i: usize = 0;
    while i < n
        invariant
            i <= n,
            n == p@.len(),
            sn == s@.len(),
            sn >= n,
            forall|j: int| 0 <= j < i ==> s@[j] == p@[j],
        decreases n - i,
    {
        if s.get_char(i) != p.get_char(i) {
            proof {
                assert(s@.take(p@.len() as int)[i as int] != p@[i as int]);
            }
            return false;
        }
        i += 1;
    }
    proof {
        assert(s@.take(p@.len() as int) =~= p@);
    }
    true
}

impl Todo {
    /// Parses one line of text as a todo. The completed form is tried first,
    /// then both accepted spellings of the uncompleted form; matching is
    /// anchored at the start of the line and the description is everything
    /// after the marker, verbatim. Exactly the lines no marker opens are
    /// rejected.
    pub fn parse(data: String) -> (r: Result<Todo, EntryParseError>)
        ensures
            r is Ok <==> parse_todo_spec(data@) is Some,
            r is Ok ==> r->Ok_0@ == parse_todo_spec(data@)->Some_0,
            r is Err ==> r->Err_0.kind == ParseErrorKind::UnrecognizedTodoLine,
    {
        let s = data.as_str();
        proof {
            reveal_strlit("- [x]");
            reveal_strlit("- [ ]");
            reveal_strlit("- []");
            assert("- [x]"@ =~= checked_marker());
            assert("- [ ]"@ =~= unchecked_marker());
            assert("- []"@ =~= short_unchecked_marker());
        }
        if has_prefix(s, "- [x]") {
            let description = s.substring_char(5, s.unicode_len()).to_owned();
            proof {
                assert(description@ =~= data@.skip(5));
            }
            Ok(Todo { completed: true, description })
        } else if has_prefix(s, "- [ ]") {
            let description = s.substring_char(5, s.unicode_len()).to_owned();
            proof {
                assert(description@ =~= data@.skip(5));
            }
            Ok(Todo { completed: false, description })
        } else if has_prefix(s, "- []") {
            let description = s.substring_char(4, s.unicode_len()).to_owned();
            proof {
                assert(description@ =~= data@.skip(4));
            }
            Ok(Todo { completed: false, description })
        } else {
            Err(EntryParseError { kind: ParseErrorKind::UnrecognizedTodoLine })
        }
    }

    /// Serializes the todo back to its canonical line form.
    pub fn to_markdown(&self) -> (r: String)
        ensures
            r@ == todo_line(self@),
    {
        proof {
            reveal_strlit("- [x]");
            reveal_strlit("- [ ]");
            assert("- [x]"@ =~= checked_marker());
            assert("- [ ]"@ =~= unchecked_marker());
        }
        let mut r = if self.completed {
            String::from_str("- [x]")
        } else {
            String::from_str("- [ ]")
        };
        r.append(self.description.as_str());
        r
    }
}

/// The fixed first line of an entry document.
pub open spec fn todo_header() -> Seq<char> {
    seq!['#', ' ', 'T', 'O', 'D', 'O', '\n']
}

/// The fixed text that closes the todo section and opens the Notes section.
pub open spec fn notes_footer() -> Seq<char> {
    seq!['\n', '#', ' ', 'N', 'o', 't', 'e', 's', '\n']
}

/// The todo lines joined with single newlines; empty for no todos.
pub open spec fn joined_todo_lines(ts: Seq<TodoModel>) -> Seq<char>
    decreases ts.len(),
{
    if ts.len() == 0 {
        Seq::empty()
    } else if ts.len() == 1 {
        todo_line(ts[0])
    } else {
        joined_todo_lines(ts.drop_last()) + seq!['\n'] + todo_line(ts.last())
    }
}

/// The full document text of an entry holding the given todos.
pub open spec fn entry_document(ts: Seq<TodoModel>) -> Seq<char> {
    todo_header() + joined_todo_lines(ts) + notes_footer()
}

/// The body of a document's TODO section: the text between the first and
/// second section markers (or everything after a sole marker); `None` when
/// the document has no marker at all.
pub open spec fn document_todo_body(doc: Seq<char>) -> Option<Seq<char>> {
    let sections = split_char(doc, '#');
    if sections.len() >= 2 {
        Some(sections[1])
    } else {
        None
    }
}

/// The todos parsed from a sequence of lines, in order; lines that match no
/// checkbox form are silently dropped.
pub open spec fn todos_of_lines(lines: Seq<Seq<char>>) -> Seq<TodoModel>
    decreases lines.len(),
{
    if lines.len() == 0 {
        Seq::empty()
    } else {
        let rest = todos_of_lines(lines.drop_last());
        match parse_todo_spec(lines.last()) {
            Some(m) => rest.push(m),
            None => rest,
        }
    }
}

/// The todos of a document: the lines of its TODO section body, the first
/// (the section title remainder) discarded, each remaining line parsed
/// best-effort.
pub open spec fn document_todos(doc: Seq<char>) -> Seq<TodoModel>
    recommends
        document_todo_body(doc) is Some,
{
    todos_of_lines(split_char(document_todo_body(doc)->Some_0, '\n').drop_first())
}

/// The todos that roll over into a new entry: the uncompleted ones, in
/// their original order.
pub open spec fn carry_over(ts: Seq<TodoModel>) -> Seq<TodoModel>
    decreases ts.len(),
{
    if ts.len() == 0 {
        Seq::empty()
    } else if ts.last().completed {
        carry_over(ts.drop_last())
    } else {
        carry_over(ts.drop_last()).push(ts.last())
    }
}

/// The index of the entry filename carrying the latest date, earliest such
/// name on ties.
pub open spec fn latest_index(names: Seq<Seq<char>>) -> int
    decreases names.len(),
{
    if names.len() <= 1 {
        0
    } else {
        let r = latest_index(names.drop_last());
        if date_lt(date_key(names[r]), date_key(names.last())) {
            names.len() - 1
        } else {
            r
        }
    }
}

impl Entry {
    /// Parses an entry document. The text between the first and second `#`
    /// markers is the TODO section; its first line is discarded and each
    /// remaining line is parsed as a todo, dropping the lines that match no
    /// checkbox form. Exactly the documents without a `#` marker are
    /// rejected. The parsed entry carries an empty date token.
    pub fn parse(data: String) -> (r: Result<Entry, EntryParseError>)
        ensures
            r is Ok <==> document_todo_body(data@) is Some,
            r is Ok ==> r->Ok_0@.date == Seq::<char>::empty() && r->Ok_0@.todos == document_todos(
                data@,
            ),
            r is Err ==> r->Err_0.kind == ParseErrorKind::MissingTodoSection,
    {
        let sections = split_str(data.as_str(), '#');
        if sections.len() < 2 {
            return Err(EntryParseError { kind: ParseErrorKind::MissingTodoSection });
        }
        let lines = split_str(sections[1].as_str(), '\n');
        let ghost lv = lines.deep_view();
        proof {
            assert(lv == split_char(document_todo_body(data@)->Some_0, '\n'));
        }
        let mut todos: Vec<Todo> = Vec::new();
        let mut i: usize = 1;
        proof {
            assert(todos.deep_view() =~= Seq::<TodoModel>::empty());
            assert(lv.subrange(1, 1) =~= Seq::<Seq<char>>::empty());
        }
        while i < lines.len()
            invariant
                1 <= i <= lines.len(),
                lines.deep_view() == lv,
                todos.deep_view() == todos_of_lines(lv.subrange(1, i as int)),
            decreases lines.len() - i,
        {
            let ghost old_todos = todos.deep_view();
            let line = lines[i].clone();
            match Todo::parse(line) {
                Ok(t) => {
                    todos.push(t);
                    proof {
                        assert(todos.deep_view() =~~= old_todos.push(
                            parse_todo_spec(lv[i as int])->Some_0,
                        ));
                    }
                },
                Err(_) => {},
            }
            proof {
                assert(lv.subrange(1, i + 1).drop_last() =~= lv.subrange(1, i as int));
                assert(lv.subrange(1, i + 1).last() == lv[i as int]);
            }
            i += 1;
        }
        proof {
            assert(lv.subrange(1, lv.len() as int) =~= lv.drop_first());
        }
        Ok(Entry { date: String::new(), todos })
    }

    /// Serializes the entry to its document text: the `# TODO` header, the
    /// todo lines joined by newlines, and the `# Notes` footer. Order is
    /// preserved; no todo yields an empty section body.
    pub fn serialize(&self) -> (r: String)
        ensures
            r@ == entry_document(self@.todos),
    {
        proof {
            reveal_strlit("# TODO\n");
            reveal_strlit("\n# Notes\n");
            reveal_strlit("\n");
            assert("# TODO\n"@ =~= todo_header());
            assert("\n# Notes\n"@ =~= notes_footer());
            assert("\n"@ =~= seq!['\n']);
        }
        let mut content = String::from_str("# TODO\n");
        let ghost ts = self@.todos;
        proof {
            assert(ts.take(0) =~= Seq::<TodoModel>::empty());
            assert(content@ =~= todo_header() + joined_todo_lines(ts.take(0)));
        }
        let mut i: usize = 0;
        while i < self.todos.len()
            invariant
                i <= self.todos.len(),
                ts == self@.todos,
                ts.len() == self.todos.len(),
                content@ == todo_header() + joined_todo_lines(ts.take(i as int)),
            decreases self.todos.len() - i,
        {
            proof {
                reveal_strlit("\n");
                assert("\n"@ =~= seq!['\n']);
            }
            if i > 0 {
                content.append("\n");
            }
            let t = &self.todos[i];
            let line = t.to_markdown();
            content.append(line.as_str());
            proof {
                assert(ts.take(i + 1).drop_last() =~= ts.take(i as int));
                assert(ts.take(i + 1).last() == ts[i as int]);
                assert(ts[i as int] == self.todos[i as int]@);
                assert(line@ == todo_line(ts[i as int]));
                if i == 0 {
                    assert(content@ =~= todo_header() + joined_todo_lines(ts.take(1)));
                } else {
                    assert(ts.take(i + 1).len() >= 2);
                    assert(joined_todo_lines(ts.take(i + 1)) == joined_todo_lines(ts.take(i as int))
                        + seq!['\n'] + todo_line(ts[i as int]));
                    assert(content@ =~= todo_header() + joined_todo_lines(ts.take(i + 1)));
                }
            }
            i += 1;
        }
        proof {
            assert(ts.take(ts.len() as int) =~= ts);
        }
        content.append("\n# Notes\n");
        proof {
            assert(content@ =~= entry_document(self@.todos));
        }
        content
    }

    /// The filename of the entry: its date token plus the `.md` extension.
    pub fn file_name(&self) -> (r: String)
        ensures
            r@ == self.date@ + seq!['.', 'm', 'd'],
    {
        let mut r = self.date.clone();
        r.append(".md");
        proof {
            reveal_strlit(".md");
            assert(r@ =~= self.date@ + seq!['.', 'm', 'd']);
        }
        r
    }

    /// Picks the entry filename with the latest encoded date, the
    /// first-listed name on ties; `None` exactly when no name is given.
    /// Malformed names count as the epoch date and so never beat a valid
    /// one.
    pub fn last_entry(names: &Vec<String>) -> (r: Option<String>)
        ensures
            r is Some <==> names@.len() > 0,
            r is Some ==> ({
                let nv = names.deep_view();
                let idx = latest_index(nv);
                &&& 0 <= idx < nv.len()
                &&& r->Some_0@ == nv[idx]
                &&& forall|j: int| 0 <= j < nv.len() ==> !date_lt(date_key(nv[idx]), date_key(nv[j]))
                &&& forall|j: int| 0 <= j < idx ==> date_lt(date_key(nv[j]), date_key(nv[idx]))
            }),
    {
        if names.len() == 0 {
            return None;
        }
        let ghost nv = names.deep_view();
        let mut best: usize = 0;
        let mut i: usize = 1;
        proof {
            assert(nv.take(1).drop_last() =~= Seq::<Seq<char>>::empty());
            assert(latest_index(nv.take(1)) == 0);
        }
        while i < names.len()
            invariant
                1 <= i <= names@.len(),
                names.deep_view() == nv,
                nv.len() == names@.len(),
                best < i,
                best == latest_index(nv.take(i as int)),
                forall|j: int| 0 <= j < i ==> !date_lt(date_key(nv[best as int]), date_key(nv[j])),
                forall|j: int| 0 <= j < best ==> date_lt(date_key(nv[j]), date_key(nv[best as int])),
            decreases names@.len() - i,
        {
            let ghost old_best = best as int;
            match compare_entry_dates(names[best].clone(), names[i].clone()) {
                Ordering::Less => {
                    best = i;
                },
                _ => {},
            }
            proof {
                assert(nv.take(i + 1).drop_last() =~= nv.take(i as int));
                assert(nv.take(i + 1).last() == nv[i as int]);
                assert forall|j: int| 0 <= j < i + 1 implies nv.take(i + 1)[j] == nv[j] by {}
            }
            i += 1;
        }
        proof {
            assert(nv.take(nv.len() as int) =~= nv);
        }
        Some(names[best].clone())
    }

    /// Builds the entry for `date` from the most recent prior entry's
    /// document, if one was found: the prior document is parsed and exactly
    /// its uncompleted todos are carried over, in order; with no prior
    /// document the todo list is empty. A prior document without a TODO
    /// section is a hard failure.
    pub fn new(date: Date, prior: Option<String>) -> (r: Result<Entry, BuildError>)
        ensures
            prior is None ==> r is Ok,
            prior is Some ==> (r is Ok <==> document_todo_body(prior->Some_0@) is Some),
            r is Ok ==> r->Ok_0@.date == date_token(date),
            prior is None && r is Ok ==> r->Ok_0@.todos == Seq::<TodoModel>::empty(),
            prior is Some && r is Ok ==> r->Ok_0@.todos == carry_over(
                document_todos(prior->Some_0@),
            ),
            r is Err ==> r->Err_0 == BuildError::PriorEntryUnreadable,
    {
        let token = to_filename_string(&date);
        match prior {
            None => {
                let todos: Vec<Todo> = Vec::new();
                proof {
                    assert(todos.deep_view() =~= Seq::<TodoModel>::empty());
                }
                Ok(Entry { date: token, todos })
            },
            Some(doc) => {
                match Self::parse(doc) {
                    Err(_) => Err(BuildError::PriorEntryUnreadable),
                    Ok(prior_entry) => {
                        let ghost pts = prior_entry@.todos;
                        let mut todos: Vec<Todo> = Vec::new();
                        proof {
                            assert(todos.deep_view() =~= Seq::<TodoModel>::empty());
                            assert(pts.take(0) =~= Seq::<TodoModel>::empty());
                        }
                        let mut i: usize = 0;
                        while i < prior_entry.todos.len()
                            invariant
                                i <= prior_entry.todos.len(),
                                pts == prior_entry@.todos,
                                pts.len() == prior_entry.todos.len(),
                                todos.deep_view() == carry_over(pts.take(i as int)),
                            decreases prior_entry.todos.len() - i,
                        {
                            let ghost old_todos = todos.deep_view();
                            let t = &prior_entry.todos[i];
                            if !t.completed {
                                todos.push(
                                    Todo { completed: false, description: t.description.clone() },
                                );
                                proof {
                                    assert(todos.deep_view() =~~= old_todos.push(pts[i as int]));
                                }
                            }
                            proof {
                                assert(pts.take(i + 1).drop_last() =~= pts.take(i as int));
                                assert(pts.take(i + 1).last() == pts[i as int]);
                                assert(pts[i as int] == prior_entry.todos[i as int]@);
                            }
                            i += 1;
                        }
                        proof {
                            assert(pts.take(pts.len() as int) =~= pts);
                        }
                        Ok(Entry { date: token, todos })
                    },
                }
            },
        }
    }
}

} // verus!
