//! The raw dialect's reader and writer undo each other.
//!
//! A text is read as a table exactly when it is the written form of a
//! well-formed table, and that table is the only one.

use vstd::prelude::*;
use crate::csv::{
    field_end, is_break, is_field, is_plain, is_quoted, is_row, is_table, lemma_field_end_bounds,
    lemma_next_break, lemma_next_char, parsed, scan, table_text, QUOTE,
};
use crate::error::{ParseError, ParseErrorKind};
use crate::lines::{
    lemma_next_break_is, lemma_next_char_is, lemma_open_text_field, lemma_rest_text_field,
    lemma_table_text_unfold, open_text, rest_text,
};

verus! {

/// The field that `field_end` finds is well formed.
pub proof fn lemma_field_end_gives_field(s: Seq<char>, start: int)
    requires
        0 <= start <= s.len(),
        field_end(s, start) is Ok,
    ensures
        is_field(s.subrange(start, field_end(s, start)->Ok_0)),
{
    lemma_field_end_bounds(s, start);
    lemma_next_break(s, start);
    let end = field_end(s, start)->Ok_0;
    let f = s.subrange(start, end);
    if start < s.len() && s[start] == QUOTE {
        lemma_next_char(s, start + 1, QUOTE);
        assert forall|i: int| 0 < i < f.len() - 1 implies #[trigger] f[i] != QUOTE by {
            assert(f[i] == s[start + i]);
        }
        assert(is_quoted(f));
    } else {
        assert forall|i: int| 0 <= i < f.len() implies !is_break(#[trigger] f[i]) by {
            assert(f[i] == s[start + i]);
        }
        assert(is_plain(f));
    }
}

/// Where a well-formed field stands at `start` and a comma, a line break or
/// the end of the text follows it, `field_end` finds exactly that field.
pub proof fn lemma_field_end_of(s: Seq<char>, start: int, f: Seq<char>)
    requires
        is_field(f),
        0 <= start,
        start + f.len() <= s.len(),
        s.subrange(start, start + f.len()) == f,
        start + f.len() < s.len() ==> is_break(s[start + f.len()]),
    ensures
        field_end(s, start) == Ok::<int, (ParseErrorKind, int)>(start + f.len()),
{
    let end = start + f.len();
    assert(forall|i: int| 0 <= i < f.len() ==> f[i] == s[start + i]);
    if is_quoted(f) {
        assert(s[start] == f[0]);
        assert(s[end - 1] == f[f.len() - 1]);
        assert forall|i: int| start + 1 <= i < end - 1 implies #[trigger] s[i] != QUOTE by {
            assert(s[i] == f[i - start]);
        }
        lemma_next_char_is(s, start + 1, QUOTE, end - 1);
    } else {
        assert forall|i: int| start <= i < end implies !is_break(#[trigger] s[i]) by {
            assert(s[i] == f[i - start]);
        }
        if f.len() > 0 {
            assert(s[start] == f[0]);
        }
        lemma_next_break_is(s, start, end);
    }
}

/// Where reading from `start` on gives a table, after well-formed rows and
/// fields that make up the text before `start`, the table is well formed and
/// the whole text is its written form.
proof fn lemma_scan_sound(
    s: Seq<char>,
    start: int,
    table: Seq<Seq<Seq<char>>>,
    row: Seq<Seq<char>>,
)
    requires
        0 <= start <= s.len(),
        forall|i: int| 0 <= i < table.len() ==> is_row(#[trigger] table[i]),
        forall|j: int| 0 <= j < row.len() ==> is_field(#[trigger] row[j]),
        s.take(start) == open_text(table, row),
        scan(s, start, table, row) is Ok,
    ensures
        is_table(scan(s, start, table, row)->Ok_0),
        table_text(scan(s, start, table, row)->Ok_0) == s,
    decreases s.len() - start,
{
    lemma_field_end_bounds(s, start);
    lemma_field_end_gives_field(s, start);
    let end = field_end(s, start)->Ok_0;
    let row2 = row.push(s.subrange(start, end));
    let table2 = table.push(row2);
    lemma_open_text_field(s, start, end, table, row);
    assert(is_row(row2));
    assert(forall|i: int| 0 <= i < table2.len() ==> is_row(#[trigger] table2[i]));
    if end >= s.len() {
        assert(s.take(end) =~= s);
    } else if s[end] == ',' {
        lemma_scan_sound(s, end + 1, table, row2);
    } else {
        lemma_scan_sound(s, end + 1, table2, Seq::empty());
    }
}

/// What was read, written again, is the text that was read; and what was
/// read is a well-formed table.
pub proof fn law_read_then_written(s: Seq<char>)
    requires
        parsed(s) is Ok,
    ensures
        is_table(parsed(s)->Ok_0),
        table_text(parsed(s)->Ok_0) == s,
{
    assert(s.take(0) =~= open_text(Seq::empty(), Seq::empty()));
    lemma_scan_sound(s, 0, Seq::empty(), Seq::empty());
}

/// Reading the written form of `t` from field `j` of row `i` on, with the
/// rows and fields before it, gives `t`.
proof fn lemma_scan_complete(s: Seq<char>, start: int, t: Seq<Seq<Seq<char>>>, i: int, j: int)
    requires
        is_table(t),
        0 <= i < t.len(),
        0 <= j < t[i].len(),
        0 <= start <= s.len(),
        s.skip(start) == rest_text(t, i, j),
    ensures
        scan(s, start, t.take(i), t[i].take(j)) == Ok::<Seq<Seq<Seq<char>>>, ParseError>(t),
    decreases t.len() - i, t[i].len() - j,
{
    let row = t[i];
    assert(is_row(row));
    let f = row[j];
    let end = start + f.len();
    lemma_rest_text_field(s, start, t, i, j);
    lemma_field_end_of(s, start, f);
    assert(row.take(j).push(f) =~= row.take(j + 1));
    if j + 1 < row.len() {
        lemma_scan_complete(s, end + 1, t, i, j + 1);
    } else {
        assert(row.take(j + 1) =~= row);
        assert(t.take(i).push(row) =~= t.take(i + 1));
        if i + 1 < t.len() {
            assert(is_row(t[i + 1]));
            assert(t[i + 1].take(0) =~= Seq::empty());
            lemma_scan_complete(s, end + 1, t, i + 1, 0);
        } else {
            assert(t.take(i + 1) =~= t);
        }
    }
}

/// What was written, read again, is the table that was written: the reader
/// takes the written form of every well-formed table, and gives that table
/// back.
pub proof fn law_written_then_read(t: Seq<Seq<Seq<char>>>)
    requires
        is_table(t),
    ensures
        parsed(table_text(t)) == Ok::<Seq<Seq<Seq<char>>>, ParseError>(t),
{
    let s = table_text(t);
    lemma_table_text_unfold(t);
    assert(s.skip(0) =~= s);
    assert(is_row(t[0]));
    assert(t.take(0) =~= Seq::empty());
    assert(t[0].take(0) =~= Seq::empty());
    lemma_scan_complete(s, 0, t, 0, 0);
}

/// No two well-formed tables are written alike.
pub proof fn law_written_form_is_unique(a: Seq<Seq<Seq<char>>>, b: Seq<Seq<Seq<char>>>)
    requires
        is_table(a),
        is_table(b),
        table_text(a) == table_text(b),
    ensures
        a == b,
{
    law_written_then_read(a);
    law_written_then_read(b);
}

} // verus!
