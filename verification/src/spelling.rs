//! The typed dialect's reader follows its grammar.
//!
//! A text is read as a table exactly when it is made up of lines of blanks
//! and lines of values, and the table holds the values that its lines spell.

use vstd::prelude::*;
use crate::csv::{
    is_break, lemma_next_break, lemma_next_char, next_break, next_char, table_text,
};
use crate::error::ParseError;
use crate::lines::{
    lemma_next_break_is, lemma_next_char_is, lemma_open_text_field, lemma_rest_text_field,
    lemma_table_text_unfold, open_text, rest_text,
};
use crate::typed_csv::{
    core_of, is_bare_core, is_blank, is_blank_line, is_blanks, is_number, is_quote,
    is_quoted_core, is_typed_table, is_typed_text, is_value_line, is_value_text, lemma_skip_blanks,
    lemma_token_bounds, lemma_trim_end, line_values, lines_values, parsed, scan, skip_blanks,
    token, trim_end, value_of, Cell, Token,
};

verus! {

/// The blanks from `from` on end at `end`, where only blanks stand before
/// `end` and none stands there.
proof fn lemma_skip_blanks_is(s: Seq<char>, from: int, end: int)
    requires
        0 <= from <= end <= s.len(),
        forall|i: int| from <= i < end ==> is_blank(#[trigger] s[i]),
        end < s.len() ==> !is_blank(s[end]),
    ensures
        skip_blanks(s, from) == end,
    decreases end - from,
{
    if from < end {
        lemma_skip_blanks_is(s, from + 1, end);
    }
}

/// Without the blanks at its end `s[from..to]` ends at `stop`, where only
/// blanks stand from `stop` on and none stands just before it.
proof fn lemma_trim_end_is(s: Seq<char>, from: int, to: int, stop: int)
    requires
        from <= stop <= to,
        forall|i: int| stop <= i < to ==> is_blank(#[trigger] s[i]),
        from < stop ==> !is_blank(s[stop - 1]),
    ensures
        trim_end(s, from, to) == stop,
    decreases to - stop,
{
    if stop < to {
        assert(is_blank(s[to - 1]));
        lemma_trim_end_is(s, from, to - 1, stop);
    }
}

/// Where the core of a field text lies in it: after blanks, before blanks,
/// and with no blank at either of its own ends.
proof fn lemma_core_bounds(f: Seq<char>)
    ensures
        0 <= skip_blanks(f, 0) <= trim_end(f, skip_blanks(f, 0), f.len() as int) <= f.len(),
        forall|i: int| 0 <= i < skip_blanks(f, 0) ==> is_blank(#[trigger] f[i]),
        forall|i: int|
            trim_end(f, skip_blanks(f, 0), f.len() as int) <= i < f.len() ==> is_blank(
                #[trigger] f[i],
            ),
        core_of(f).len() > 0 ==> !is_blank(core_of(f)[0]) && !is_blank(
            core_of(f)[core_of(f).len() - 1],
        ),
        core_of(f).len() == 0 <==> is_blanks(f),
{
    lemma_skip_blanks(f, 0);
    let a = skip_blanks(f, 0);
    lemma_trim_end(f, a, f.len() as int);
    let b = trim_end(f, a, f.len() as int);
    if a < b {
        assert(core_of(f)[0] == f[a]);
        assert(core_of(f)[b - a - 1] == f[b - 1]);
        assert(!is_blank(f[a]));
    } else {
        assert forall|i: int| 0 <= i < f.len() implies is_blank(#[trigger] f[i]) by {
            if i >= a {
                assert(b <= i);
            }
        }
    }
}

/// Where a field text that spells a value, or one of blanks only, stands
/// at `start`, and a comma, a line break or the end of the text follows it,
/// the reader finds that value there, or the blanks.
proof fn lemma_token_of(s: Seq<char>, start: int, f: Seq<char>)
    requires
        is_value_text(f) || is_blanks(f),
        0 <= start,
        start + f.len() <= s.len(),
        s.subrange(start, start + f.len()) == f,
        start + f.len() < s.len() ==> is_break(s[start + f.len()]),
    ensures
        token(s, start) == if is_blanks(f) {
            Token::Blank(start + f.len())
        } else {
            Token::Value(value_of(f), start + f.len())
        },
{
    let end = start + f.len();
    lemma_core_bounds(f);
    lemma_skip_blanks(f, 0);
    let a = skip_blanks(f, 0);
    let b = trim_end(f, a, f.len() as int);
    let c = core_of(f);
    assert(forall|i: int| 0 <= i < f.len() ==> f[i] == s[start + i]);
    assert forall|i: int| start <= i < start + a implies is_blank(#[trigger] s[i]) by {
        assert(s[i] == f[i - start]);
    }
    if a < f.len() {
        assert(!is_blank(f[a]));
    }
    lemma_skip_blanks_is(s, start, start + a);
    let open = start + a;
    if is_blanks(f) {
        assert(a == f.len());
        lemma_next_break_is(s, open, open);
        assert(trim_end(s, open, open) == open);
    } else {
        assert(a < b);
        assert(c[0] == f[a]);
        assert(s[open] == c[0]);
        assert forall|i: int| start + b <= i < end implies is_blank(#[trigger] s[i]) by {
            assert(s[i] == f[i - start]);
        }
        assert(c[c.len() - 1] == f[b - 1]);
        assert(s[start + b - 1] == c[c.len() - 1]);
        if is_quote(c[0]) {
            assert(is_quoted_core(c));
            let q = c[0];
            assert forall|i: int| open + 1 <= i < start + b - 1 implies #[trigger] s[i] != q by {
                assert(s[i] == f[i - start]);
                assert(f[i - start] == c[i - open]);
            }
            lemma_next_char_is(s, open + 1, q, start + b - 1);
            lemma_skip_blanks_is(s, start + b, end);
            assert(s.subrange(open + 1, start + b - 1) =~= c.subrange(1, c.len() - 1));
        } else {
            assert(is_bare_core(c));
            assert forall|i: int| open <= i < end implies !is_break(#[trigger] s[i]) by {
                if i < start + b {
                    assert(s[i] == f[i - start]);
                    assert(f[i - start] == c[i - open]);
                } else {
                    assert(is_blank(s[i]));
                }
            }
            lemma_next_break_is(s, open, end);
            lemma_trim_end_is(s, open, end, start + b);
            assert(s.subrange(open, start + b) =~= c);
        }
    }
}

/// What the reader finds at `start` is spelled by the text of the field: a
/// value by a field text that spells it, blanks by blanks.
proof fn lemma_token_gives(s: Seq<char>, start: int)
    requires
        0 <= start <= s.len(),
    ensures
        match token(s, start) {
            Token::Value(value, end) => {
                &&& start <= end <= s.len()
                &&& is_value_text(s.subrange(start, end))
                &&& value_of(s.subrange(start, end)) == value
            },
            Token::Blank(end) => start <= end <= s.len() && is_blanks(s.subrange(start, end)),
            Token::Fault(_, _) => true,
        },
{
    lemma_token_bounds(s, start);
    lemma_skip_blanks(s, start);
    let open = skip_blanks(s, start);
    match token(s, start) {
        Token::Fault(_, _) => {},
        Token::Blank(end) => {
            lemma_next_break(s, open);
            lemma_trim_end(s, open, end);
            let f = s.subrange(start, end);
            assert forall|i: int| 0 <= i < f.len() implies is_blank(#[trigger] f[i]) by {
                assert(f[i] == s[start + i]);
            }
        },
        Token::Value(value, end) => {
            let f = s.subrange(start, end);
            assert(forall|i: int| 0 <= i < f.len() ==> f[i] == s[start + i]);
            let stop: int = if is_quote(s[open]) {
                next_char(s, open + 1, s[open]) + 1
            } else {
                trim_end(s, open, next_break(s, open))
            };
            if is_quote(s[open]) {
                lemma_next_char(s, open + 1, s[open]);
                lemma_skip_blanks(s, stop);
            } else {
                lemma_next_break(s, open);
                lemma_trim_end(s, open, end);
            }
            assert(open < stop <= end);
            assert(!is_blank(s[stop - 1]));
            assert forall|i: int| 0 <= i < open - start implies is_blank(#[trigger] f[i]) by {
                assert(f[i] == s[start + i]);
            }
            assert(f[open - start] == s[open]);
            lemma_skip_blanks_is(f, 0, open - start);
            assert forall|i: int| stop - start <= i < f.len() implies is_blank(#[trigger] f[i]) by {
                assert(f[i] == s[start + i]);
            }
            assert(f[stop - start - 1] == s[stop - 1]);
            lemma_trim_end_is(f, open - start, f.len() as int, stop - start);
            let c = core_of(f);
            assert(c =~= s.subrange(open, stop));
            if is_quote(s[open]) {
                assert(c[0] == s[open]);
                assert(c[c.len() - 1] == s[stop - 1]);
                assert forall|i: int| 0 < i < c.len() - 1 implies #[trigger] c[i] != c[0] by {
                    assert(c[i] == s[open + i]);
                }
                assert(is_quoted_core(c));
                assert(c.subrange(1, c.len() - 1) =~= s.subrange(open + 1, stop - 1));
            } else {
                assert(c[0] == s[open]);
                assert forall|i: int| 0 <= i < c.len() implies !is_break(#[trigger] c[i]) by {
                    assert(c[i] == s[open + i]);
                }
                assert(is_bare_core(c));
            }
        },
    }
}

/// The rows of some lines and one more line.
proof fn lemma_lines_values_push(lines: Seq<Seq<Seq<char>>>, line: Seq<Seq<char>>)
    ensures
        lines_values(lines.push(line)) == if is_blank_line(line) {
            lines_values(lines)
        } else {
            lines_values(lines).push(line_values(line))
        },
{
    assert(lines.push(line).drop_last() =~= lines);
}

/// A line of values is no line of blanks.
proof fn lemma_value_line_not_blank(line: Seq<Seq<char>>)
    requires
        is_value_line(line),
    ensures
        !is_blank_line(line),
{
    lemma_core_bounds(line[0]);
    assert(is_value_text(line[0]));
}

/// Reading the text of `lines` from field `j` of line `i` on, with the rows
/// of the lines before it and the values of the fields before it, gives the
/// rows of all the lines.
proof fn lemma_scan_complete(s: Seq<char>, start: int, lines: Seq<Seq<Seq<char>>>, i: int, j: int)
    requires
        is_typed_text(lines),
        0 <= i < lines.len(),
        0 <= j < lines[i].len(),
        0 <= start <= s.len(),
        s.skip(start) == rest_text(lines, i, j),
    ensures
        scan(s, start, lines_values(lines.take(i)), line_values(lines[i].take(j))) == Ok::<
            Seq<Seq<Cell>>,
            ParseError,
        >(lines_values(lines)),
    decreases lines.len() - i, lines[i].len() - j,
{
    let line = lines[i];
    let f = line[j];
    let end = start + f.len();
    let table = lines_values(lines.take(i));
    let row = line_values(line.take(j));
    assert(is_blank_line(line) || is_value_line(line));
    lemma_rest_text_field(s, start, lines, i, j);
    lemma_token_of(s, start, f);
    lemma_token_bounds(s, start);
    lemma_core_bounds(f);
    assert(lines.take(i + 1).drop_last() =~= lines.take(i));
    assert(lines.take(i + 1).last() == line);
    if i + 1 < lines.len() {
        assert(lines[i + 1].take(0) =~= Seq::empty());
        assert(line_values(lines[i + 1].take(0)) =~= Seq::empty());
        assert(is_blank_line(lines[i + 1]) || is_value_line(lines[i + 1]));
    } else {
        assert(lines.take(i + 1) =~= lines);
    }
    if is_blank_line(line) {
        assert(row =~= Seq::empty());
        assert(lines_values(lines.take(i + 1)) == table);
        if i + 1 < lines.len() {
            lemma_scan_complete(s, end + 1, lines, i + 1, 0);
        }
    } else {
        lemma_value_line_not_blank(line);
        assert(is_value_text(f));
        assert(row.push(value_of(f)) =~= line_values(line.take(j + 1)));
        if j + 1 < line.len() {
            lemma_scan_complete(s, end + 1, lines, i, j + 1);
        } else {
            assert(line.take(j + 1) =~= line);
            assert(lines_values(lines.take(i + 1)) == table.push(line_values(line)));
            if i + 1 < lines.len() {
                lemma_scan_complete(s, end + 1, lines, i + 1, 0);
            }
        }
    }
}

/// What is spelled is read: a text made up of lines of blanks and lines of
/// values is read as the table of the values that its lines spell.
pub proof fn law_spelled_is_read(lines: Seq<Seq<Seq<char>>>)
    requires
        is_typed_text(lines),
    ensures
        parsed(table_text(lines)) == Ok::<Seq<Seq<Cell>>, ParseError>(lines_values(lines)),
{
    let s = table_text(lines);
    lemma_table_text_unfold(lines);
    assert(s.skip(0) =~= s);
    assert(is_blank_line(lines[0]) || is_value_line(lines[0]));
    assert(lines.take(0) =~= Seq::empty());
    assert(lines[0].take(0) =~= Seq::empty());
    assert(line_values(lines[0].take(0)) =~= Seq::empty());
    lemma_scan_complete(s, 0, lines, 0, 0);
}

/// Where reading from `start` on gives a table, the text is that of lines
/// that go on from `lines` and `fields`, and the table holds their rows.
proof fn lemma_scan_sound(
    s: Seq<char>,
    start: int,
    lines: Seq<Seq<Seq<char>>>,
    fields: Seq<Seq<char>>,
    table: Seq<Seq<Cell>>,
    row: Seq<Cell>,
) -> (all: Seq<Seq<Seq<char>>>)
    requires
        0 <= start <= s.len(),
        forall|i: int|
            0 <= i < lines.len() ==> is_blank_line(#[trigger] lines[i]) || is_value_line(lines[i]),
        forall|j: int| 0 <= j < fields.len() ==> is_value_text(#[trigger] fields[j]),
        table == lines_values(lines),
        row == line_values(fields),
        s.take(start) == open_text(lines, fields),
        scan(s, start, table, row) is Ok,
    ensures
        is_typed_text(all),
        table_text(all) == s,
        lines_values(all) == scan(s, start, table, row)->Ok_0,
    decreases s.len() - start,
{
    lemma_token_bounds(s, start);
    lemma_token_gives(s, start);
    match token(s, start) {
        Token::Fault(_, _) => lines,
        Token::Blank(end) => {
            assert(fields =~= Seq::empty());
            let f = s.subrange(start, end);
            let line = fields.push(f);
            let lines2 = lines.push(line);
            assert(is_blank_line(line));
            lemma_open_text_field(s, start, end, lines, fields);
            lemma_lines_values_push(lines, line);
            if end >= s.len() {
                assert(s.take(end) =~= s);
                lines2
            } else {
                lemma_scan_sound(s, end + 1, lines2, Seq::empty(), table, row)
            }
        },
        Token::Value(value, end) => {
            let f = s.subrange(start, end);
            let fields2 = fields.push(f);
            let row2 = row.push(value);
            let lines2 = lines.push(fields2);
            assert(row2 =~= line_values(fields2));
            assert(is_value_line(fields2));
            lemma_value_line_not_blank(fields2);
            lemma_open_text_field(s, start, end, lines, fields);
            lemma_lines_values_push(lines, fields2);
            if end >= s.len() {
                assert(s.take(end) =~= s);
                lines2
            } else if s[end] == ',' {
                lemma_scan_sound(s, end + 1, lines, fields2, table, row2)
            } else {
                assert(line_values(Seq::empty()) =~= Seq::<Cell>::empty());
                lemma_scan_sound(s, end + 1, lines2, Seq::empty(), table.push(row2), Seq::empty())
            }
        },
    }
}

/// What is read is spelled: a text that is read as a table is made up of
/// lines of blanks and lines of values, and the table holds the values that
/// those lines spell.
pub proof fn law_read_is_spelled(s: Seq<char>)
    requires
        parsed(s) is Ok,
    ensures
        exists|lines: Seq<Seq<Seq<char>>>|
            is_typed_text(lines) && #[trigger] table_text(lines) == s && lines_values(lines)
                == parsed(s)->Ok_0,
{
    assert(s.take(0) =~= open_text(Seq::empty(), Seq::empty()));
    assert(line_values(Seq::empty()) =~= Seq::<Cell>::empty());
    let lines = lemma_scan_sound(s, 0, Seq::empty(), Seq::empty(), Seq::empty(), Seq::empty());
    assert(is_typed_text(lines) && table_text(lines) == s && lines_values(lines) == parsed(s)->Ok_0);
}

/// Reading on from rows that hold values, and numbers that are literals,
/// gives such rows.
proof fn lemma_scan_gives_typed_table(s: Seq<char>, start: int, table: Seq<Seq<Cell>>, row: Seq<Cell>)
    requires
        0 <= start <= s.len(),
        is_typed_table(table),
        forall|j: int|
            0 <= j < row.len() ==> ((#[trigger] row[j]) matches Cell::Number(literal)
                ==> is_number(literal)),
        scan(s, start, table, row) is Ok,
    ensures
        is_typed_table(scan(s, start, table, row)->Ok_0),
    decreases s.len() - start,
{
    lemma_token_bounds(s, start);
    match token(s, start) {
        Token::Fault(_, _) => {},
        Token::Blank(end) => {
            if row.len() == 0 && end < s.len() && s[end] != ',' {
                lemma_scan_gives_typed_table(s, end + 1, table, row);
            }
        },
        Token::Value(value, end) => {
            let row2 = row.push(value);
            let table2 = table.push(row2);
            assert(is_typed_table(table2)) by {
                assert forall|i: int| 0 <= i < table2.len() implies (#[trigger] table2[i]).len() > 0
                    && forall|j: int|
                    0 <= j < table2[i].len() ==> ((#[trigger] table2[i][j]) matches Cell::Number(
                        literal,
                    ) ==> is_number(literal)) by {
                    if i < table.len() {
                        assert(table2[i] == table[i]);
                    }
                }
            }
            if end < s.len() {
                if s[end] == ',' {
                    lemma_scan_gives_typed_table(s, end + 1, table, row2);
                } else {
                    lemma_scan_gives_typed_table(s, end + 1, table2, Seq::empty());
                }
            }
        },
    }
}

/// What is read holds no empty row, and no number that is not a number
/// literal.
pub proof fn law_read_table_is_typed(s: Seq<char>)
    requires
        parsed(s) is Ok,
    ensures
        is_typed_table(parsed(s)->Ok_0),
{
    lemma_scan_gives_typed_table(s, 0, Seq::empty(), Seq::empty());
}

} // verus!
