//! How a text is made up of lines and fields: what the laws of both
//! dialects rest on.

use vstd::prelude::*;
use crate::csv::{is_break, next_break, next_char, row_text, rows_text, table_text};
use crate::text::lemma_join_push;

verus! {

/// The text before a field when the lines before it are `table` and the
/// fields before it on its own line are `row`: each line with its line break,
/// each field of the open line with its comma.
pub open spec fn open_text(table: Seq<Seq<Seq<char>>>, row: Seq<Seq<char>>) -> Seq<char> {
    (if table.len() > 0 {
        table_text(table) + seq!['\n']
    } else {
        Seq::empty()
    }) + (if row.len() > 0 {
        row_text(row) + seq![',']
    } else {
        Seq::empty()
    })
}

/// The text from field `j` of line `i` to the end of the table.
pub open spec fn rest_text(t: Seq<Seq<Seq<char>>>, i: int, j: int) -> Seq<char> {
    row_text(t[i].skip(j)) + (if i + 1 < t.len() {
        seq!['\n'] + table_text(t.skip(i + 1))
    } else {
        Seq::empty()
    })
}

/// The text of a table with one more line.
pub proof fn lemma_table_text_push(table: Seq<Seq<Seq<char>>>, row: Seq<Seq<char>>)
    ensures
        table_text(table.push(row)) == if table.len() == 0 {
            row_text(row)
        } else {
            table_text(table) + seq!['\n'] + row_text(row)
        },
{
    assert(rows_text(table.push(row)) =~= rows_text(table).push(row_text(row)));
    lemma_join_push(rows_text(table), row_text(row), seq!['\n']);
}

/// The text of a table is its first line, then the rest after a line break.
pub proof fn lemma_table_text_unfold(t: Seq<Seq<Seq<char>>>)
    requires
        t.len() > 0,
    ensures
        table_text(t) == rest_text(t, 0, 0),
{
    assert(t[0].skip(0) =~= t[0]);
    assert(rows_text(t).skip(1) =~= rows_text(t.skip(1)));
    assert(table_text(t) =~= rest_text(t, 0, 0));
}

/// One field further in a text that is read from the front: where the text
/// up to `start` is that of `table` and `row`, the text up to the end of the
/// field `s[start..end]` is that of the table with the field added, and the
/// character after the field opens the next field or the next line.
pub proof fn lemma_open_text_field(
    s: Seq<char>,
    start: int,
    end: int,
    table: Seq<Seq<Seq<char>>>,
    row: Seq<Seq<char>>,
)
    requires
        0 <= start <= end <= s.len(),
        s.take(start) == open_text(table, row),
    ensures
        table_text(table.push(row.push(s.subrange(start, end)))) == s.take(end),
        end < s.len() && s[end] == ',' ==> s.take(end + 1) == open_text(
            table,
            row.push(s.subrange(start, end)),
        ),
        end < s.len() && s[end] == '\n' ==> s.take(end + 1) == open_text(
            table.push(row.push(s.subrange(start, end))),
            Seq::empty(),
        ),
{
    let f = s.subrange(start, end);
    let row2 = row.push(f);
    let table2 = table.push(row2);
    lemma_join_push(row, f, seq![',']);
    lemma_table_text_push(table, row2);
    assert(s.take(end) =~= s.take(start) + f);
    assert(table_text(table2) =~= s.take(end));
    if end < s.len() {
        assert(s.take(end + 1) =~= s.take(end) + seq![s[end]]);
        if s[end] == ',' {
            assert(open_text(table, row2) =~= s.take(end + 1));
        }
        if s[end] == '\n' {
            assert(open_text(table2, Seq::empty()) =~= s.take(end + 1));
        }
    }
}

/// One field further in the text of a table: where the text from `start` on
/// is that of `t` from field `j` of line `i` on, that field stands at `start`,
/// and after it a comma and the next field of the line, or a line break and
/// the next line, or nothing.
pub proof fn lemma_rest_text_field(s: Seq<char>, start: int, t: Seq<Seq<Seq<char>>>, i: int, j: int)
    requires
        0 <= i < t.len(),
        0 <= j < t[i].len(),
        0 <= start <= s.len(),
        s.skip(start) == rest_text(t, i, j),
    ensures
        start + t[i][j].len() <= s.len(),
        s.subrange(start, start + t[i][j].len()) == t[i][j],
        j + 1 < t[i].len() ==> {
            &&& start + t[i][j].len() < s.len()
            &&& s[start + t[i][j].len()] == ','
            &&& s.skip(start + t[i][j].len() + 1) == rest_text(t, i, j + 1)
        },
        j + 1 == t[i].len() && i + 1 < t.len() ==> {
            &&& start + t[i][j].len() < s.len()
            &&& s[start + t[i][j].len()] == '\n'
            &&& s.skip(start + t[i][j].len() + 1) == rest_text(t, i + 1, 0)
        },
        j + 1 == t[i].len() && i + 1 == t.len() ==> start + t[i][j].len() == s.len(),
{
    let row = t[i];
    let f = row[j];
    let here = row.skip(j);
    let after_row = if i + 1 < t.len() {
        seq!['\n'] + table_text(t.skip(i + 1))
    } else {
        Seq::empty()
    };
    assert(here[0] == f);
    assert(here.skip(1) =~= row.skip(j + 1));
    let tail = if j + 1 < row.len() {
        seq![','] + row_text(row.skip(j + 1)) + after_row
    } else {
        after_row
    };
    assert(rest_text(t, i, j) =~= f + tail);
    let end = start + f.len();
    assert(s.skip(start).len() == f.len() + tail.len());
    assert forall|k: int| 0 <= k < f.len() + tail.len() implies s[start + k] == (f + tail)[k] by {
        assert(s.skip(start)[k] == s[start + k]);
    }
    assert(s.subrange(start, end) =~= f);
    assert(s.skip(end) =~= tail) by {
        assert forall|k: int| 0 <= k < tail.len() implies s.skip(end)[k] == tail[k] by {
            assert(s[start + (f.len() + k)] == (f + tail)[f.len() + k]);
        }
    }
    if end < s.len() {
        assert(s[end] == tail[0]);
        assert(s.skip(end + 1) =~= s.skip(end).skip(1));
    }
    if j + 1 < row.len() {
        assert(tail.skip(1) =~= row_text(row.skip(j + 1)) + after_row);
        assert(s.skip(end + 1) =~= rest_text(t, i, j + 1));
    } else if i + 1 < t.len() {
        assert(tail.skip(1) =~= table_text(t.skip(i + 1)));
        let rest = t.skip(i + 1);
        lemma_table_text_unfold(rest);
        assert(rest[0] == t[i + 1]);
        assert(rest.skip(1) =~= t.skip(i + 2));
        assert(rest_text(rest, 0, 0) =~= rest_text(t, i + 1, 0));
    }
}

/// The first comma or line break at or after `from` is at `end`, where none
/// stands before `end` and one stands there, or the text ends there.
pub proof fn lemma_next_break_is(s: Seq<char>, from: int, end: int)
    requires
        0 <= from <= end <= s.len(),
        forall|i: int| from <= i < end ==> !is_break(#[trigger] s[i]),
        end < s.len() ==> is_break(s[end]),
    ensures
        next_break(s, from) == end,
    decreases end - from,
{
    if from < end {
        lemma_next_break_is(s, from + 1, end);
    }
}

/// The first `c` at or after `from` is at `end`, where none stands before
/// `end` and one stands there, or the text ends there.
pub proof fn lemma_next_char_is(s: Seq<char>, from: int, c: char, end: int)
    requires
        0 <= from <= end <= s.len(),
        forall|i: int| from <= i < end ==> #[trigger] s[i] != c,
        end < s.len() ==> s[end] == c,
    ensures
        next_char(s, from, c) == end,
    decreases end - from,
{
    if from < end {
        lemma_next_char_is(s, from + 1, c, end);
    }
}

} // verus!
