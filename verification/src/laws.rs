//! The laws of the codecs, stated and proved once and for all: a todo line
//! survives parse-then-serialize up to canonicalization, and an entry
//! document's todo list survives parse-then-serialize exactly.

use crate::dates::{
    date_token, date_valid, dec_digits, decode_spec, lemma_dec_digits_numeric, Date,
};
use crate::journal::{
    checked_marker, document_todo_body, document_todos, entry_document, joined_todo_lines,
    parse_todo_spec, todo_line, todos_of_lines, unchecked_marker, TodoModel,
};
use crate::text::{
    has_char, is_digit_char, lemma_split_char_concat, lemma_split_char_no_sep,
    lemma_split_char_nonempty, lemma_split_char_pieces, split_char,
};
use vstd::prelude::*;

verus! {

/// Serializing any todo and parsing the line back gives the todo unchanged.
pub proof fn lemma_todo_round_trip(m: TodoModel)
    ensures
        parse_todo_spec(todo_line(m)) == Some(m),
{
    let line = todo_line(m);
    if m.completed {
        assert(line.take(5) =~= checked_marker());
        assert(line.skip(5) =~= m.description);
    } else {
        assert(line.take(5) =~= unchecked_marker());
        assert(checked_marker()[3] == 'x' && unchecked_marker()[3] == ' ');
        assert(line.take(5) != checked_marker());
        assert(line.skip(5) =~= m.description);
    }
}

/// Law: parsing a line the grammar accepts and serializing the result gives
/// the canonical line for that todo, and re-parsing the canonical line gives
/// the same completion flag and description back (one normalization pass is
/// idempotent).
pub proof fn lemma_todo_parse_normalizes(line: Seq<char>)
    requires
        parse_todo_spec(line) is Some,
    ensures
        ({
            let m = parse_todo_spec(line)->Some_0;
            &&& todo_line(m) == (if m.completed {
                checked_marker()
            } else {
                unchecked_marker()
            }) + m.description
            &&& parse_todo_spec(todo_line(m)) == Some(m)
        }),
{
    lemma_todo_round_trip(parse_todo_spec(line)->Some_0);
}

/// A description that keeps its line's document structure intact: free of
/// line breaks and of section markers.
pub open spec fn clean_description(d: Seq<char>) -> bool {
    forall|i: int| 0 <= i < d.len() ==> d[i] != '\n' && d[i] != '#'
}

/// Whether every description in the sequence is clean.
pub open spec fn all_clean(ms: Seq<TodoModel>) -> bool {
    forall|k: int| 0 <= k < ms.len() ==> clean_description(ms[k].description)
}

proof fn lemma_todo_line_clean(m: TodoModel)
    requires
        clean_description(m.description),
    ensures
        !has_char(todo_line(m), '\n'),
        !has_char(todo_line(m), '#'),
{
    let line = todo_line(m);
    let marker = if m.completed {
        checked_marker()
    } else {
        unchecked_marker()
    };
    assert forall|i: int| 0 <= i < line.len() implies line[i] != '\n' && line[i] != '#' by {
        if i < 5 {
            assert(line[i] == marker[i]);
        } else {
            assert(line[i] == m.description[i - 5]);
        }
    }
}

proof fn lemma_joined_clean(ms: Seq<TodoModel>)
    requires
        all_clean(ms),
    ensures
        !has_char(joined_todo_lines(ms), '#'),
    decreases ms.len(),
{
    if ms.len() == 0 {
    } else if ms.len() == 1 {
        lemma_todo_line_clean(ms[0]);
    } else {
        let dl = ms.drop_last();
        assert(all_clean(dl)) by {
            assert(forall|k: int| 0 <= k < dl.len() ==> dl[k] == ms[k]);
        }
        lemma_joined_clean(dl);
        lemma_todo_line_clean(ms.last());
        let a = joined_todo_lines(dl);
        let b = todo_line(ms.last());
        let joined = joined_todo_lines(ms);
        assert forall|i: int| 0 <= i < joined.len() implies joined[i] != '#' by {
            if i < a.len() {
                assert(joined[i] == a[i]);
            } else if i == a.len() {
                assert(joined[i] == '\n');
            } else {
                assert(joined[i] == b[i - a.len() - 1]);
            }
        }
    }
}

/// The newline-joined todo lines split back into exactly those lines.
proof fn lemma_split_joined(ms: Seq<TodoModel>)
    requires
        ms.len() >= 1,
        all_clean(ms),
    ensures
        split_char(joined_todo_lines(ms), '\n') == ms.map_values(|m: TodoModel| todo_line(m)),
    decreases ms.len(),
{
    let f = |m: TodoModel| todo_line(m);
    if ms.len() == 1 {
        lemma_todo_line_clean(ms[0]);
        lemma_split_char_no_sep(todo_line(ms[0]), '\n');
        assert(split_char(joined_todo_lines(ms), '\n') =~~= ms.map_values(f));
    } else {
        let dl = ms.drop_last();
        assert(all_clean(dl)) by {
            assert(forall|k: int| 0 <= k < dl.len() ==> dl[k] == ms[k]);
        }
        lemma_split_joined(dl);
        lemma_todo_line_clean(ms.last());
        lemma_split_char_no_sep(todo_line(ms.last()), '\n');
        lemma_split_char_concat(joined_todo_lines(dl), todo_line(ms.last()), '\n');
        assert(joined_todo_lines(ms) == joined_todo_lines(dl) + seq!['\n'] + todo_line(ms.last()));
        assert(split_char(joined_todo_lines(ms), '\n') =~~= ms.map_values(f));
    }
}

/// Parsing the serialized lines of a todo sequence gives the sequence back.
proof fn lemma_todos_of_mapped(ms: Seq<TodoModel>)
    ensures
        todos_of_lines(ms.map_values(|m: TodoModel| todo_line(m))) == ms,
    decreases ms.len(),
{
    let f = |m: TodoModel| todo_line(m);
    let lines = ms.map_values(f);
    if ms.len() == 0 {
        assert(todos_of_lines(lines) =~= ms);
    } else {
        lemma_todos_of_mapped(ms.drop_last());
        lemma_todo_round_trip(ms.last());
        assert(lines.drop_last() =~~= ms.drop_last().map_values(f));
        assert(lines.last() == todo_line(ms.last()));
        assert(todos_of_lines(lines) =~= ms);
    }
}

/// Law: serializing an entry whose descriptions are clean and parsing the
/// document back yields exactly the same todos, in the same order.
pub proof fn lemma_entry_document_round_trip(ms: Seq<TodoModel>)
    requires
        all_clean(ms),
    ensures
        document_todo_body(entry_document(ms)) is Some,
        document_todos(entry_document(ms)) == ms,
{
    let doc = entry_document(ms);
    let joined = joined_todo_lines(ms);
    let title = seq![' ', 'T', 'O', 'D', 'O'];
    let inner = title + seq!['\n'] + joined + seq!['\n'];
    let notes_rest = seq![' ', 'N', 'o', 't', 'e', 's', '\n'];

    // The sections: the document is '#', then the TODO body, then '#', then
    // the rest of the Notes marker.
    assert(doc[0] == '#');
    assert(doc.drop_first() =~= inner + seq!['#'] + notes_rest);
    lemma_joined_clean(ms);
    assert(!has_char(inner, '#')) by {
        assert forall|i: int| 0 <= i < inner.len() implies inner[i] != '#' by {
            if i < 5 {
                assert(inner[i] == title[i]);
            } else if i == 5 {
                assert(inner[i] == '\n');
            } else if i < 6 + joined.len() {
                assert(inner[i] == joined[i - 6]);
            } else {
                assert(inner[i] == '\n');
            }
        }
    }
    lemma_split_char_no_sep(inner, '#');
    lemma_split_char_concat(inner, notes_rest, '#');
    let sections = split_char(doc, '#');
    assert(sections == seq![Seq::<char>::empty()] + (seq![inner] + split_char(notes_rest, '#')));
    lemma_split_char_nonempty(notes_rest, '#');
    assert(sections.len() >= 2);
    assert(sections[1] == inner);
    assert(document_todo_body(doc) == Some(inner));

    // The lines of the TODO body: the title line, the todo lines, and one
    // empty line left by the newline before the Notes marker.
    assert(!has_char(title, '\n')) by {
        assert forall|i: int| 0 <= i < title.len() implies title[i] != '\n' by {}
    }
    lemma_split_char_no_sep(title, '\n');
    assert(inner =~= title + seq!['\n'] + (joined + seq!['\n'] + Seq::<char>::empty()));
    lemma_split_char_concat(title, joined + seq!['\n'] + Seq::<char>::empty(), '\n');
    lemma_split_char_concat(joined, Seq::<char>::empty(), '\n');
    let lines = split_char(inner, '\n');
    assert(lines == seq![title] + (split_char(joined, '\n') + split_char(
        Seq::<char>::empty(),
        '\n',
    )));
    let empty_line = Seq::<char>::empty();
    assert(parse_todo_spec(empty_line) is None);
    if ms.len() == 0 {
        assert(split_char(joined, '\n') == seq![empty_line]);
        assert(lines =~~= seq![title, empty_line, empty_line]);
        assert(lines.drop_first() =~~= seq![empty_line, empty_line]);
        assert(seq![empty_line, empty_line].drop_last() =~~= seq![empty_line]);
        assert(seq![empty_line].drop_last() =~~= Seq::<Seq<char>>::empty());
        assert(todos_of_lines(Seq::<Seq<char>>::empty()) =~= Seq::<TodoModel>::empty());
        assert(todos_of_lines(seq![empty_line]) =~= Seq::<TodoModel>::empty());
        assert(todos_of_lines(seq![empty_line, empty_line]) =~= Seq::<TodoModel>::empty());
        assert(todos_of_lines(lines.drop_first()) =~= ms);
    } else {
        lemma_split_joined(ms);
        let mapped = ms.map_values(|m: TodoModel| todo_line(m));
        assert(lines =~~= seq![title] + mapped + seq![empty_line]);
        assert(lines.drop_first() =~~= mapped + seq![empty_line]);
        assert((mapped + seq![empty_line]).drop_last() =~~= mapped);
        assert((mapped + seq![empty_line]).last() == empty_line);
        lemma_todos_of_mapped(ms);
        assert(todos_of_lines(lines.drop_first()) == ms);
    }
    assert(document_todos(doc) == ms);
}

proof fn lemma_todos_of_lines_clean(lines: Seq<Seq<char>>)
    requires
        forall|k: int| 0 <= k < lines.len() ==> !has_char(#[trigger] lines[k], '\n') && !has_char(
            lines[k],
            '#',
        ),
    ensures
        all_clean(todos_of_lines(lines)),
    decreases lines.len(),
{
    if lines.len() == 0 {
    } else {
        let dl = lines.drop_last();
        assert(forall|k: int| 0 <= k < dl.len() ==> dl[k] == lines[k]);
        lemma_todos_of_lines_clean(dl);
        let rest = todos_of_lines(dl);
        match parse_todo_spec(lines.last()) {
            Some(m) => {
                let line = lines.last();
                let skip: int = if line.len() >= 5 && (line.take(5) == checked_marker()
                    || line.take(5) == unchecked_marker()) {
                    5
                } else {
                    4
                };
                assert(m.description == line.skip(skip));
                assert(clean_description(m.description)) by {
                    assert(!has_char(line, '\n') && !has_char(line, '#'));
                    assert(forall|i: int|
                        0 <= i < m.description.len() ==> m.description[i] == line[i + skip]);
                }
                assert(all_clean(rest.push(m))) by {
                    assert(forall|k: int| 0 <= k < rest.len() ==> rest.push(m)[k] == rest[k]);
                    assert(rest.push(m)[rest.len() as int] == m);
                }
            },
            None => {},
        }
    }
}

/// Every todo parsed out of a document has a clean description: its text
/// came from between a line break and contains no section marker.
proof fn lemma_document_todos_clean(doc: Seq<char>)
    requires
        document_todo_body(doc) is Some,
    ensures
        all_clean(document_todos(doc)),
{
    let sections = split_char(doc, '#');
    let body = sections[1];
    lemma_split_char_pieces(doc, '#', '#');
    assert(!has_char(body, '#'));
    let lines = split_char(body, '\n');
    lemma_split_char_pieces(body, '\n', '\n');
    lemma_split_char_pieces(body, '\n', '#');
    let tail = lines.drop_first();
    assert(forall|k: int| 0 <= k < tail.len() ==> tail[k] == lines[k + 1]);
    lemma_todos_of_lines_clean(tail);
}

/// Law: for any document with a TODO section, serializing the parsed entry
/// and parsing the serialized document again reproduces exactly the same
/// todos, in the same order — the todo lines of the two documents agree up
/// to canonicalization, whatever the Notes section held.
pub proof fn lemma_parse_serialize_round_trip(doc: Seq<char>)
    requires
        document_todo_body(doc) is Some,
    ensures
        document_todo_body(entry_document(document_todos(doc))) is Some,
        document_todos(entry_document(document_todos(doc))) == document_todos(doc),
{
    lemma_document_todos_clean(doc);
    lemma_entry_document_round_trip(document_todos(doc));
}

proof fn lemma_digits_avoid(n: nat, c: char)
    requires
        !is_digit_char(c),
    ensures
        !has_char(dec_digits(n), c),
{
    lemma_dec_digits_numeric(n);
    let s = dec_digits(n);
    assert forall|i: int| 0 <= i < s.len() implies s[i] != c by {
        assert(is_digit_char(s[i]));
    }
}

/// Law: the date token is invertible — encoding a valid date and decoding
/// the token back, with or without the `.md` extension a filename adds,
/// yields the same date. Ordering entry filenames by their decoded dates is
/// therefore faithful to the dates the entries were written for.
pub proof fn lemma_date_token_round_trip(d: Date)
    requires
        date_valid(d),
    ensures
        decode_spec(date_token(d)) == Some(d),
        decode_spec(date_token(d) + seq!['.', 'm', 'd']) == Some(d),
{
    let dm = dec_digits(d.month as nat);
    let dd = dec_digits(d.day as nat);
    let dy = dec_digits(d.year as nat);
    lemma_dec_digits_numeric(d.month as nat);
    lemma_dec_digits_numeric(d.day as nat);
    lemma_dec_digits_numeric(d.year as nat);
    assert(!is_digit_char('-') && !is_digit_char('.'));
    lemma_digits_avoid(d.month as nat, '-');
    lemma_digits_avoid(d.day as nat, '-');
    lemma_digits_avoid(d.year as nat, '-');
    lemma_digits_avoid(d.year as nat, '.');
    let ext = seq!['.', 'm', 'd'];

    // Without the extension: the token splits into exactly the three digit
    // fields, and the year field has no extension to strip.
    let token = date_token(d);
    lemma_split_char_no_sep(dm, '-');
    lemma_split_char_no_sep(dd, '-');
    lemma_split_char_no_sep(dy, '-');
    lemma_split_char_concat(dd, dy, '-');
    lemma_split_char_concat(dm, dd + seq!['-'] + dy, '-');
    assert(token =~= dm + seq!['-'] + (dd + seq!['-'] + dy));
    assert(split_char(token, '-') =~~= seq![dm, dd, dy]);
    lemma_split_char_no_sep(dy, '.');
    assert(decode_spec(token) == Some(d));

    // With the extension: the year field becomes the year digits plus the
    // extension, and splitting on `.` strips the extension again.
    let token2 = token + ext;
    let year_full = dy + ext;
    assert(!has_char(year_full, '-')) by {
        assert forall|i: int| 0 <= i < year_full.len() implies year_full[i] != '-' by {
            if i < dy.len() {
                assert(year_full[i] == dy[i]);
            } else {
                assert(year_full[i] == ext[i - dy.len()]);
            }
        }
    }
    lemma_split_char_no_sep(year_full, '-');
    lemma_split_char_concat(dd, year_full, '-');
    lemma_split_char_concat(dm, dd + seq!['-'] + year_full, '-');
    assert(token2 =~= dm + seq!['-'] + (dd + seq!['-'] + year_full));
    assert(split_char(token2, '-') =~~= seq![dm, dd, year_full]);
    assert(year_full =~= dy + seq!['.'] + seq!['m', 'd']);
    lemma_split_char_concat(dy, seq!['m', 'd'], '.');
    lemma_split_char_nonempty(seq!['m', 'd'], '.');
    assert(split_char(year_full, '.').first() == dy);
    assert(decode_spec(token2) == Some(d));
}

} // verus!
