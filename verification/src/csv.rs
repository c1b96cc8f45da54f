//! The raw dialect: every field is kept as it is written.
//!
//! A text is one or more lines with a line break (U+000A) between each two.
//! A line is one or more fields with a comma between each two. A field that
//! opens with a double quote runs to the next double quote, which ends it, and
//! holds whatever stands between the two, commas and line breaks too; the
//! quotes stay part of the field. Any other field runs up to the next comma or
//! line break. Every other character, a carriage return too, is content.

use vstd::prelude::*;
use crate::error::{fault, fault_at, ParseError, ParseErrorKind};
use crate::round_trip::{law_read_then_written, law_written_then_read};
use crate::text::{
    chars_of, join, lemma_join_push, lemma_repeat_add, push_joined, push_repeated, repeat,
    string_of,
};
use vstd::utf8::encode_utf8;

verus! {

/// The double quote that opens and closes a quoted field.
pub const QUOTE: char = '"';

/// True of the two characters that end an unquoted field.
pub open spec fn is_break(c: char) -> bool {
    c == ',' || c == '\n'
}

/// The offset of the first comma or line break of `s` at or after `from`;
/// the length of `s` if there is none.
pub open spec fn next_break(s: Seq<char>, from: int) -> int
    decreases s.len() - from,
{
    if from >= s.len() || is_break(s[from]) {
        from
    } else {
        next_break(s, from + 1)
    }
}

/// The offset of the first `c` in `s` at or after `from`; the length of `s`
/// if there is none.
pub open spec fn next_char(s: Seq<char>, from: int, c: char) -> int
    decreases s.len() - from,
{
    if from >= s.len() || s[from] == c {
        from
    } else {
        next_char(s, from + 1, c)
    }
}

/// A field in quotes: it opens and closes with a double quote, and holds no
/// other.
pub open spec fn is_quoted(f: Seq<char>) -> bool {
    &&& f.len() >= 2
    &&& f[0] == QUOTE
    &&& f[f.len() - 1] == QUOTE
    &&& forall|i: int| 0 < i < f.len() - 1 ==> #[trigger] f[i] != QUOTE
}

/// A field without quotes round it: it holds neither comma nor line break,
/// and does not open with a double quote.
pub open spec fn is_plain(f: Seq<char>) -> bool {
    &&& f.len() > 0 ==> f[0] != QUOTE
    &&& forall|i: int| 0 <= i < f.len() ==> !is_break(#[trigger] f[i])
}

/// A field as the grammar has it.
pub open spec fn is_field(f: Seq<char>) -> bool {
    is_quoted(f) || is_plain(f)
}

/// A row as the grammar has it: at least one field, each well formed.
pub open spec fn is_row(row: Seq<Seq<char>>) -> bool {
    &&& row.len() > 0
    &&& forall|j: int| 0 <= j < row.len() ==> is_field(#[trigger] row[j])
}

/// A table as the grammar has it: at least one row, each well formed.
pub open spec fn is_table(t: Seq<Seq<Seq<char>>>) -> bool {
    &&& t.len() > 0
    &&& forall|i: int| 0 <= i < t.len() ==> is_row(#[trigger] t[i])
}

/// Where the field that begins at `start` ends (the offset after its last
/// character), or why there is no such field.
pub open spec fn field_end(s: Seq<char>, start: int) -> Result<int, (ParseErrorKind, int)> {
    if start < s.len() && s[start] == QUOTE {
        let close = next_char(s, start + 1, QUOTE);
        if close >= s.len() {
            Err((ParseErrorKind::UnterminatedQuote, start))
        } else if close + 1 < s.len() && !is_break(s[close + 1]) {
            Err((ParseErrorKind::TextAfterQuote, close + 1))
        } else {
            Ok(close + 1)
        }
    } else {
        Ok(next_break(s, start))
    }
}

/// What reading `s` gives from offset `start` on, where a field begins, when
/// the lines before it gave `table` and the fields before it on its own line
/// gave `row`.
pub open spec fn scan(
    s: Seq<char>,
    start: int,
    table: Seq<Seq<Seq<char>>>,
    row: Seq<Seq<char>>,
) -> Result<Seq<Seq<Seq<char>>>, ParseError>
    decreases s.len() - start,
    when 0 <= start <= s.len()
    via scan_decreases
{
    match field_end(s, start) {
        Err((kind, at)) => Err(fault(s, kind, at)),
        Ok(end) => {
            let row = row.push(s.subrange(start, end));
            if end >= s.len() {
                Ok(table.push(row))
            } else if s[end] == ',' {
                scan(s, end + 1, table, row)
            } else {
                scan(s, end + 1, table.push(row), Seq::empty())
            }
        },
    }
}

#[via_fn]
proof fn scan_decreases(s: Seq<char>, start: int, table: Seq<Seq<Seq<char>>>, row: Seq<Seq<char>>) {
    lemma_field_end_bounds(s, start);
}

/// The table that the text `s` holds, or the first reason why it holds none.
pub open spec fn parsed(s: Seq<char>) -> Result<Seq<Seq<Seq<char>>>, ParseError> {
    scan(s, 0, Seq::empty(), Seq::empty())
}

/// No comma or line break stands between `from` and `next_break`, and one
/// stands at `next_break` unless the text ends there.
pub proof fn lemma_next_break(s: Seq<char>, from: int)
    requires
        0 <= from <= s.len(),
    ensures
        from <= next_break(s, from) <= s.len(),
        forall|i: int| from <= i < next_break(s, from) ==> !is_break(#[trigger] s[i]),
        next_break(s, from) < s.len() ==> is_break(s[next_break(s, from)]),
    decreases s.len() - from,
{
    if from < s.len() && !is_break(s[from]) {
        lemma_next_break(s, from + 1);
    }
}

/// No `c` stands between `from` and `next_char`, and one stands at
/// `next_char` unless the text ends there.
pub proof fn lemma_next_char(s: Seq<char>, from: int, c: char)
    requires
        0 <= from <= s.len(),
    ensures
        from <= next_char(s, from, c) <= s.len(),
        forall|i: int| from <= i < next_char(s, from, c) ==> #[trigger] s[i] != c,
        next_char(s, from, c) < s.len() ==> s[next_char(s, from, c)] == c,
    decreases s.len() - from,
{
    if from < s.len() && s[from] != c {
        lemma_next_char(s, from + 1, c);
    }
}

/// A field ends at or after its start and within the text; an error lies
/// within the text.
pub proof fn lemma_field_end_bounds(s: Seq<char>, start: int)
    requires
        0 <= start <= s.len(),
    ensures
        match field_end(s, start) {
            Ok(end) => start <= end <= s.len() && (end < s.len() ==> is_break(s[end])),
            Err((_, at)) => start <= at < s.len(),
        },
{
    lemma_next_break(s, start);
    if start < s.len() {
        lemma_next_char(s, start + 1, QUOTE);
    }
}

/// The offset of the first comma or line break at or after `from`, or the
/// length of `chars`.
pub(crate) fn find_break(chars: &Vec<char>, from: usize) -> (at: usize)
    requires
        from <= chars.len(),
    ensures
        at == next_break(chars@, from as int),
        from <= at <= chars.len(),
{
    let mut at: usize = from;
    while at < chars.len() && chars[at] != ',' && chars[at] != '\n'
        invariant
            from <= at <= chars.len(),
            next_break(chars@, at as int) == next_break(chars@, from as int),
        decreases chars.len() - at,
    {
        at += 1;
    }
    at
}

/// The offset of the first `c` at or after `from`, or the length of `chars`.
pub(crate) fn find_char(chars: &Vec<char>, from: usize, c: char) -> (at: usize)
    requires
        from <= chars.len(),
    ensures
        at == next_char(chars@, from as int, c),
        from <= at <= chars.len(),
{
    let mut at: usize = from;
    while at < chars.len() && chars[at] != c
        invariant
            from <= at <= chars.len(),
            next_char(chars@, at as int, c) == next_char(chars@, from as int, c),
        decreases chars.len() - at,
    {
        at += 1;
    }
    at
}

/// The reader of the raw dialect.
pub struct OfficialCsvParser;

impl OfficialCsvParser {
    /// Reads `txt` as a table of raw fields, or says where and why it is
    /// none. The result is all or nothing: an error carries no rows.
    ///
    /// The table that comes back is well formed and `txt` is its written
    /// form; an error comes back exactly when `txt` is the written form of no
    /// well-formed table.
    #[verifier::loop_isolation(false)]
    pub fn parse(txt: &str) -> (r: Result<Vec<Vec<String>>, ParseError>)
        ensures
            match r {
                Ok(t) => {
                    &&& parsed(txt@) == Ok::<Seq<Seq<Seq<char>>>, ParseError>(t.deep_view())
                    &&& is_table(t.deep_view())
                    &&& table_text(t.deep_view()) == txt@
                },
                Err(e) => {
                    &&& parsed(txt@) == Err::<Seq<Seq<Seq<char>>>, ParseError>(e)
                    &&& forall|t: Seq<Seq<Seq<char>>>|
                        is_table(t) ==> #[trigger] table_text(t) != txt@
                },
            },
    {
        proof {
            if parsed(txt@) is Ok {
                law_read_then_written(txt@);
            } else {
                assert forall|t: Seq<Seq<Seq<char>>>| is_table(t) implies #[trigger] table_text(t)
                    != txt@ by {
                    law_written_then_read(t);
                }
            }
        }
        let chars = chars_of(txt);
        let n = chars.len();
        let mut table: Vec<Vec<String>> = Vec::new();
        let mut row: Vec<String> = Vec::new();
        let mut start: usize = 0;
        assert(table.deep_view() =~= Seq::empty());
        assert(row.deep_view() =~= Seq::empty());
        loop
            invariant
                n == chars.len(),
                chars@ == txt@,
                start <= n,
                scan(chars@, start as int, table.deep_view(), row.deep_view()) == parsed(txt@),
            decreases n - start,
        {
            proof {
                lemma_field_end_bounds(chars@, start as int);
            }
            let end: usize;
            if start < n && chars[start] == QUOTE {
                let close = find_char(&chars, start + 1, QUOTE);
                if close >= n {
                    return Err(fault_at(&chars, ParseErrorKind::UnterminatedQuote, start));
                }
                if close + 1 < n && chars[close + 1] != ',' && chars[close + 1] != '\n' {
                    return Err(fault_at(&chars, ParseErrorKind::TextAfterQuote, close + 1));
                }
                end = close + 1;
            } else {
                end = find_break(&chars, start);
            }
            let ghost fields = row.deep_view();
            let ghost rows = table.deep_view();
            row.push(string_of(&chars, start, end));
            assert(row.deep_view() =~= fields.push(chars@.subrange(start as int, end as int)));
            if end >= n {
                table.push(row);
                assert(table.deep_view() =~= rows.push(row.deep_view()));
                return Ok(table);
            }
            if chars[end] == '\n' {
                table.push(row);
                assert(table.deep_view() =~= rows.push(row.deep_view()));
                row = Vec::new();
                assert(row.deep_view() =~= Seq::empty());
            }
            start = end + 1;
        }
    }
}

/// Reads `txt` as a table of raw fields. Where `txt` is not in the grammar,
/// the error is the text of [`ParseError::message`].
pub fn parse_csv(txt: &str) -> (r: Result<Vec<Vec<String>>, String>)
    ensures
        match r {
            Ok(t) => {
                &&& parsed(txt@) == Ok::<Seq<Seq<Seq<char>>>, ParseError>(t.deep_view())
                &&& is_table(t.deep_view())
                &&& table_text(t.deep_view()) == txt@
            },
            Err(text) => {
                &&& parsed(txt@) is Err
                &&& text@ == parsed(txt@)->Err_0.message_text()
                &&& forall|t: Seq<Seq<Seq<char>>>| is_table(t) ==> #[trigger] table_text(t) != txt@
            },
        },
{
    match OfficialCsvParser::parse(txt) {
        Ok(t) => Ok(t),
        Err(e) => Err(e.message()),
    }
}

/// The fields of one row with a comma between each two.
pub open spec fn row_text(row: Seq<Seq<char>>) -> Seq<char> {
    join(row, seq![','])
}

/// The text of each row of `t`.
pub open spec fn rows_text(t: Seq<Seq<Seq<char>>>) -> Seq<Seq<char>> {
    Seq::new(t.len(), |i: int| row_text(t[i]))
}

/// The rows of `t` with a line break between each two and none at the end;
/// the fields stand as they are, with nothing quoted or escaped.
pub open spec fn table_text(t: Seq<Seq<Seq<char>>>) -> Seq<char> {
    join(rows_text(t), seq!['\n'])
}

/// Writes a table of raw fields as text.
pub fn convert_csv(t: Vec<Vec<String>>) -> (out: String)
    ensures
        out@ == table_text(t.deep_view()),
{
    let ghost rows = rows_text(t.deep_view());
    let mut out = String::new();
    let mut i: usize = 0;
    proof {
        reveal_strlit(",");
        assert(","@ =~= seq![',']);
    }
    while i < t.len()
        invariant
            i <= t.len(),
            rows == rows_text(t.deep_view()),
            ","@ == seq![','],
            out@ == join(rows.take(i as int), seq!['\n']),
        decreases t.len() - i,
    {
        proof {
            lemma_join_push(rows.take(i as int), rows[i as int], seq!['\n']);
            assert(rows.take(i + 1) =~= rows.take(i as int).push(rows[i as int]));
        }
        if i > 0 {
            out.push('\n');
        }
        push_joined(&mut out, &t[i], ",");
        assert(out@ =~= join(rows.take(i + 1), seq!['\n']));
        i += 1;
    }
    assert(rows.take(t.len() as int) =~= rows);
    out
}

/// The number of fields of the longest row of `t`; 0 where `t` has no row.
pub open spec fn widest_row(t: Seq<Seq<Seq<char>>>) -> nat
    decreases t.len(),
{
    if t.len() == 0 {
        0
    } else if t.last().len() > widest_row(t.drop_last()) {
        t.last().len()
    } else {
        widest_row(t.drop_last())
    }
}

/// `row`, with empty fields after it until it has `width` fields; `row`
/// itself where it has that many or more.
pub open spec fn padded_row(row: Seq<Seq<char>>, width: nat) -> Seq<Seq<char>> {
    if row.len() >= width {
        row
    } else {
        row + Seq::new((width - row.len()) as nat, |k: int| Seq::<char>::empty())
    }
}

/// `t` with every row padded to the length of its longest row.
pub open spec fn padded(t: Seq<Seq<Seq<char>>>) -> Seq<Seq<Seq<char>>> {
    Seq::new(t.len(), |i: int| padded_row(t[i], widest_row(t)))
}

/// No row is longer than the widest, and where there is a row, one is as
/// long.
pub proof fn lemma_widest_row(t: Seq<Seq<Seq<char>>>)
    ensures
        forall|i: int| 0 <= i < t.len() ==> (#[trigger] t[i]).len() <= widest_row(t),
        t.len() > 0 ==> exists|i: int| 0 <= i < t.len() && (#[trigger] t[i]).len() == widest_row(t),
    decreases t.len(),
{
    if t.len() > 0 {
        let front = t.drop_last();
        lemma_widest_row(front);
        assert(forall|i: int| 0 <= i < front.len() ==> front[i] == t[i]);
        if t.last().len() > widest_row(front) || front.len() == 0 {
            assert(t[t.len() - 1].len() == widest_row(t));
        } else {
            let i = choose|i: int| 0 <= i < front.len() && (#[trigger] front[i]).len() == widest_row(
                front,
            );
            assert(t[i].len() == widest_row(t));
        }
    }
}

/// Where every row has `width` fields, so has the widest.
pub proof fn lemma_widest_row_even(t: Seq<Seq<Seq<char>>>, width: nat)
    requires
        t.len() > 0,
        forall|i: int| 0 <= i < t.len() ==> (#[trigger] t[i]).len() == width,
    ensures
        widest_row(t) == width,
{
    lemma_widest_row(t);
}

/// Padding gives every row the length of the longest row, and padding a
/// second time changes nothing.
pub proof fn law_padding_settles(t: Seq<Seq<Seq<char>>>)
    ensures
        padded(t).len() == t.len(),
        forall|i: int| 0 <= i < t.len() ==> (#[trigger] padded(t)[i]).len() == widest_row(t),
        padded(padded(t)) == padded(t),
{
    lemma_widest_row(t);
    let p = padded(t);
    assert forall|i: int| 0 <= i < t.len() implies (#[trigger] p[i]).len() == widest_row(t) by {
        assert(t[i].len() <= widest_row(t));
    }
    if t.len() > 0 {
        lemma_widest_row_even(p, widest_row(t));
    }
    assert(padded(p) =~= p);
}

/// Gives every row as many fields as the longest has, by empty fields at its
/// end. No field is changed or dropped.
pub fn pad_table(t: Vec<Vec<String>>) -> (out: Vec<Vec<String>>)
    ensures
        out.deep_view() == padded(t.deep_view()),
{
    let ghost rows = t.deep_view();
    let mut width: usize = 0;
    let mut i: usize = 0;
    while i < t.len()
        invariant
            i <= t.len(),
            rows == t.deep_view(),
            width == widest_row(rows.take(i as int)),
        decreases t.len() - i,
    {
        assert(rows.take(i + 1).drop_last() =~= rows.take(i as int));
        if t[i].len() > width {
            width = t[i].len();
        }
        i += 1;
    }
    assert(rows.take(t.len() as int) =~= rows);
    let mut out: Vec<Vec<String>> = Vec::new();
    let mut i: usize = 0;
    while i < t.len()
        invariant
            i <= t.len(),
            rows == t.deep_view(),
            width == widest_row(rows),
            out.deep_view() =~= padded(rows).take(i as int),
        decreases t.len() - i,
    {
        let row = &t[i];
        let mut line: Vec<String> = Vec::new();
        let mut j: usize = 0;
        while j < row.len()
            invariant
                j <= row.len(),
                line.deep_view() =~= row.deep_view().take(j as int),
            decreases row.len() - j,
        {
            let ghost before = line.deep_view();
            line.push(row[j].clone());
            assert(line.deep_view() =~= before.push(row.deep_view()[j as int]));
            j += 1;
        }
        while line.len() < width
            invariant
                row.len() <= line.len(),
                line.len() <= width || line.len() == row.len(),
                line.deep_view() =~= row.deep_view() + Seq::new(
                    (line.len() - row.len()) as nat,
                    |k: int| Seq::<char>::empty(),
                ),
            decreases width - line.len(),
        {
            let ghost before = line.deep_view();
            line.push(String::new());
            assert(line.deep_view() =~= before.push(Seq::<char>::empty()));
        }
        assert(row.deep_view() == rows[i as int]);
        assert(line.deep_view() =~= padded_row(rows[i as int], width as nat));
        let ghost before = out.deep_view();
        out.push(line);
        assert(out.deep_view() =~= before.push(line.deep_view()));
        i += 1;
    }
    out
}

/// The length of `f` in bytes, as UTF-8.
pub open spec fn byte_len(f: Seq<char>) -> nat {
    encode_utf8(f).len()
}

/// The greatest length in bytes of a field in column `k` of `t`; 0 where no
/// row reaches that column.
pub open spec fn column_width(t: Seq<Seq<Seq<char>>>, k: int) -> nat
    decreases t.len(),
{
    if t.len() == 0 {
        0
    } else if 0 <= k < t.last().len() && byte_len(t.last()[k]) > column_width(t.drop_last(), k) {
        byte_len(t.last()[k])
    } else {
        column_width(t.drop_last(), k)
    }
}

/// The width of each column of `t`, as many as the longest row has fields.
pub open spec fn column_widths(t: Seq<Seq<Seq<char>>>) -> Seq<nat> {
    Seq::new(widest_row(t), |k: int| column_width(t, k))
}

/// The same numbers as mathematical integers.
pub open spec fn as_nats(v: Seq<usize>) -> Seq<nat> {
    Seq::new(v.len(), |k: int| v[k] as nat)
}

/// A column that no row reaches has width 0.
pub proof fn lemma_column_width_outside(t: Seq<Seq<Seq<char>>>, k: int)
    requires
        k >= widest_row(t),
    ensures
        column_width(t, k) == 0,
    decreases t.len(),
{
    if t.len() > 0 {
        lemma_column_width_outside(t.drop_last(), k);
    }
}

/// A column is as wide as its longest field: no field of column `k` is
/// longer than the column is wide, and where a row reaches the column, one
/// field is as long.
pub proof fn law_column_width_is_greatest(t: Seq<Seq<Seq<char>>>, k: int)
    requires
        0 <= k,
    ensures
        forall|i: int|
            0 <= i < t.len() && k < (#[trigger] t[i]).len() ==> byte_len(t[i][k]) <= column_width(
                t,
                k,
            ),
        k < widest_row(t) ==> exists|i: int|
            0 <= i < t.len() && k < (#[trigger] t[i]).len() && byte_len(t[i][k]) == column_width(
                t,
                k,
            ),
    decreases t.len(),
{
    if t.len() > 0 {
        let front = t.drop_last();
        law_column_width_is_greatest(front, k);
        assert(forall|i: int| 0 <= i < front.len() ==> front[i] == t[i]);
        if k < widest_row(t) {
            if k < t.last().len() && byte_len(t.last()[k]) >= column_width(front, k) {
                assert(k < t[t.len() - 1].len() && byte_len(t[t.len() - 1][k]) == column_width(
                    t,
                    k,
                ));
            } else {
                if k >= widest_row(front) {
                    lemma_column_width_outside(front, k);
                }
                let i = choose|i: int|
                    0 <= i < front.len() && k < (#[trigger] front[i]).len() && byte_len(front[i][k])
                        == column_width(front, k);
                assert(k < t[i].len() && byte_len(t[i][k]) == column_width(t, k));
            }
        }
    }
}

/// The width of every column: the greatest length in bytes among its fields.
pub fn get_table_col_len(t: &Vec<Vec<String>>) -> (out: Vec<usize>)
    ensures
        as_nats(out@) == column_widths(t.deep_view()),
{
    let ghost rows = t.deep_view();
    let mut out: Vec<usize> = Vec::new();
    let mut i: usize = 0;
    while i < t.len()
        invariant
            i <= t.len(),
            rows == t.deep_view(),
            out.len() == widest_row(rows.take(i as int)),
            forall|k: int| 0 <= k < out.len() ==> out[k] as nat == column_width(rows.take(i as int), k),
        decreases t.len() - i,
    {
        let row = &t[i];
        let ghost above = rows.take(i as int);
        let ghost upto = rows.take(i + 1);
        assert(upto.drop_last() =~= above);
        assert(upto.last() == row.deep_view());
        let mut j: usize = 0;
        while j < row.len()
            invariant
                j <= row.len(),
                upto.len() > 0,
                upto.drop_last() == above,
                upto.last() == row.deep_view(),
                out.len() == if widest_row(above) > j {
                    widest_row(above)
                } else {
                    j as nat
                },
                forall|k: int|
                    0 <= k < out.len() ==> out[k] as nat == if k < j {
                        column_width(upto, k)
                    } else {
                        column_width(above, k)
                    },
            decreases row.len() - j,
        {
            let width = row[j].as_str().as_bytes().len();
            assert(width == byte_len(upto.last()[j as int]));
            if j < out.len() {
                if out[j] < width {
                    out[j] = width;
                }
            } else {
                proof {
                    lemma_column_width_outside(above, j as int);
                }
                out.push(width);
            }
            j += 1;
        }
        i += 1;
    }
    assert(rows.take(t.len() as int) =~= rows);
    assert(as_nats(out@) =~= column_widths(rows));
    out
}

/// The glyphs of a ruled text table, and the blanks added to every column.
pub struct TableOptions<'a> {
    /// Stands where a rule meets a column border.
    pub corner: &'a str,
    /// Makes up the rule above the rows.
    pub upper: &'a str,
    /// Makes up the rule below the rows.
    pub bottom: &'a str,
    /// Opens and closes every row.
    pub side: &'a str,
    /// Stands between two columns of a row.
    pub between: &'a str,
    /// How much wider a column is than its widest field.
    pub extra_pad: usize,
}

/// The options as character sequences.
pub struct Glyphs {
    pub corner: Seq<char>,
    pub upper: Seq<char>,
    pub bottom: Seq<char>,
    pub side: Seq<char>,
    pub between: Seq<char>,
    pub extra_pad: nat,
}

impl<'a> View for TableOptions<'a> {
    type V = Glyphs;

    open spec fn view(&self) -> Glyphs {
        Glyphs {
            corner: self.corner@,
            upper: self.upper@,
            bottom: self.bottom@,
            side: self.side@,
            between: self.between@,
            extra_pad: self.extra_pad as nat,
        }
    }
}

/// The glyphs used where none are given: `+` in the corners, rules of `-`,
/// `|` at the sides and between columns, and 12 blanks of extra width.
pub open spec fn default_glyphs() -> Glyphs {
    Glyphs {
        corner: seq!['+'],
        upper: seq!['-'],
        bottom: seq!['-'],
        side: seq!['|'],
        between: seq!['|'],
        extra_pad: 12,
    }
}

impl<'a> Default for TableOptions<'a> {
    fn default() -> (o: TableOptions<'a>)
        ensures
            o@ == default_glyphs(),
    {
        proof {
            reveal_strlit("+");
            reveal_strlit("-");
            reveal_strlit("|");
            assert("+"@ =~= seq!['+']);
            assert("-"@ =~= seq!['-']);
            assert("|"@ =~= seq!['|']);
        }
        TableOptions { corner: "+", upper: "-", bottom: "-", side: "|", between: "|", extra_pad: 12 }
    }
}

impl<'a> TableOptions<'a> {
    /// The options with the given glyphs and extra width.
    pub fn new(
        corner: &'a str,
        upper: &'a str,
        bottom: &'a str,
        side: &'a str,
        between: &'a str,
        extra_pad: usize,
    ) -> (o: TableOptions<'a>)
        ensures
            o@ == (Glyphs {
                corner: corner@,
                upper: upper@,
                bottom: bottom@,
                side: side@,
                between: between@,
                extra_pad: extra_pad as nat,
            }),
    {
        TableOptions { corner, upper, bottom, side, between, extra_pad }
    }
}

/// `f` at the right of a cell `width` characters wide, with blanks before
/// it; `f` itself where it has that many characters or more.
pub open spec fn right_justified(f: Seq<char>, width: nat) -> Seq<char> {
    if f.len() >= width {
        f
    } else {
        repeat(seq![' '], (width - f.len()) as nat) + f
    }
}

/// A rule without its last corner: for each column a corner, then the glyph
/// once for each character of the column's width and of the extra width.
pub open spec fn rule_cells(widths: Seq<nat>, corner: Seq<char>, glyph: Seq<char>, extra: nat) -> Seq<
    char,
>
    decreases widths.len(),
{
    if widths.len() == 0 {
        Seq::empty()
    } else {
        rule_cells(widths.drop_last(), corner, glyph, extra) + corner + repeat(
            glyph,
            widths.last() + extra,
        )
    }
}

/// A horizontal rule over the columns.
pub open spec fn rule(widths: Seq<nat>, corner: Seq<char>, glyph: Seq<char>, extra: nat) -> Seq<
    char,
> {
    rule_cells(widths, corner, glyph, extra) + corner
}

/// The cells of one row: each field that has a column, right-justified in
/// the column's width and the extra width.
pub open spec fn cells(row: Seq<Seq<char>>, widths: Seq<nat>, extra: nat) -> Seq<Seq<char>> {
    Seq::new(
        if row.len() <= widths.len() {
            row.len()
        } else {
            widths.len()
        },
        |k: int| right_justified(row[k], widths[k] + extra),
    )
}

/// One row of the table: its cells between two sides, with the column
/// separator between each two cells.
pub open spec fn body_line(row: Seq<Seq<char>>, widths: Seq<nat>, o: Glyphs) -> Seq<char> {
    o.side + join(cells(row, widths, o.extra_pad), o.between) + o.side
}

/// The rows of the table, each after a line break.
pub open spec fn body(t: Seq<Seq<Seq<char>>>, widths: Seq<nat>, o: Glyphs) -> Seq<char>
    decreases t.len(),
{
    if t.len() == 0 {
        Seq::empty()
    } else {
        body(t.drop_last(), widths, o) + seq!['\n'] + body_line(t.last(), widths, o)
    }
}

/// The ruled text table: a rule, the rows, and after a line break a rule
/// again.
pub open spec fn plain_table(t: Seq<Seq<Seq<char>>>, widths: Seq<nat>, o: Glyphs) -> Seq<char> {
    rule(widths, o.corner, o.upper, o.extra_pad) + body(t, widths, o) + seq!['\n'] + rule(
        widths,
        o.corner,
        o.bottom,
        o.extra_pad,
    )
}

/// Appends a rule over columns of the given widths to `out`.
fn push_rule(out: &mut String, lengths: &Vec<usize>, corner: &str, glyph: &str, extra: usize)
    ensures
        final(out)@ == old(out)@ + rule(as_nats(lengths@), corner@, glyph@, extra as nat),
{
    let ghost widths = as_nats(lengths@);
    let mut k: usize = 0;
    while k < lengths.len()
        invariant
            k <= lengths.len(),
            widths == as_nats(lengths@),
            out@ == old(out)@ + rule_cells(widths.take(k as int), corner@, glyph@, extra as nat),
        decreases lengths.len() - k,
    {
        let ghost before = out@;
        out.append(corner);
        push_repeated(out, glyph, lengths[k]);
        push_repeated(out, glyph, extra);
        proof {
            lemma_repeat_add(glyph@, lengths[k as int] as nat, extra as nat);
            assert(widths.take(k + 1).drop_last() =~= widths.take(k as int));
            assert(widths.take(k + 1).last() == lengths[k as int] as nat);
            assert(out@ =~= before + corner@ + (repeat(glyph@, lengths[k as int] as nat) + repeat(
                glyph@,
                extra as nat,
            )));
        }
        k += 1;
    }
    out.append(corner);
    assert(widths.take(lengths.len() as int) =~= widths);
}

/// Appends `field` to `out`, after as many blanks as bring it to
/// `width + extra` characters.
fn push_justified(out: &mut String, field: &str, width: usize, extra: usize)
    ensures
        final(out)@ == old(out)@ + right_justified(field@, (width + extra) as nat),
{
    let have = field.unicode_len();
    let first: usize;
    let second: usize;
    if have <= width {
        first = width - have;
        second = extra;
    } else if extra > have - width {
        first = extra - (have - width);
        second = 0;
    } else {
        first = 0;
        second = 0;
    }
    proof {
        reveal_strlit(" ");
        assert(" "@ =~= seq![' ']);
        lemma_repeat_add(seq![' '], first as nat, second as nat);
        assert(repeat(seq![' '], 0) =~= Seq::empty());
    }
    let ghost before = out@;
    push_repeated(out, " ", first);
    push_repeated(out, " ", second);
    out.append(field);
    assert(out@ =~= before + (repeat(seq![' '], first as nat) + repeat(seq![' '], second as nat))
        + field@);
    assert(out@ =~= before + right_justified(field@, (width + extra) as nat));
}

/// Appends one row of the table to `out`, between its two sides.
fn push_body_line(out: &mut String, row: &Vec<String>, lengths: &Vec<usize>, o: &TableOptions)
    ensures
        final(out)@ == old(out)@ + body_line(row.deep_view(), as_nats(lengths@), o@),
{
    let ghost all = cells(row.deep_view(), as_nats(lengths@), o@.extra_pad);
    out.append(o.side);
    let mut k: usize = 0;
    while k < row.len() && k < lengths.len()
        invariant
            k <= row.len(),
            k <= lengths.len(),
            all == cells(row.deep_view(), as_nats(lengths@), o@.extra_pad),
            out@ == old(out)@ + o.side@ + join(all.take(k as int), o.between@),
        decreases row.len() - k,
    {
        proof {
            lemma_join_push(all.take(k as int), all[k as int], o.between@);
            assert(all.take(k + 1) =~= all.take(k as int).push(all[k as int]));
        }
        if k > 0 {
            out.append(o.between);
        }
        push_justified(out, row[k].as_str(), lengths[k], o.extra_pad);
        assert(out@ =~= old(out)@ + o.side@ + join(all.take(k + 1), o.between@));
        k += 1;
    }
    assert(all.take(k as int) =~= all);
    out.append(o.side);
    assert(out@ =~= old(out)@ + body_line(row.deep_view(), as_nats(lengths@), o@));
}

/// Lays `t` out as a ruled text table with columns of the given widths; the
/// default glyphs are used where `config` is `None`.
pub fn create_table(t: Vec<Vec<String>>, lengths: Vec<usize>, config: Option<TableOptions>) -> (out:
    String)
    ensures
        out@ == plain_table(
            t.deep_view(),
            as_nats(lengths@),
            match config {
                Some(o) => o@,
                None => default_glyphs(),
            },
        ),
{
    let o = match config {
        Some(o) => o,
        None => TableOptions::default(),
    };
    let ghost rows = t.deep_view();
    let ghost widths = as_nats(lengths@);
    let mut out = String::new();
    push_rule(&mut out, &lengths, o.corner, o.upper, o.extra_pad);
    let ghost top = out@;
    assert(top =~= rule(widths, o@.corner, o@.upper, o@.extra_pad));
    let mut i: usize = 0;
    while i < t.len()
        invariant
            i <= t.len(),
            rows == t.deep_view(),
            widths == as_nats(lengths@),
            out@ == top + body(rows.take(i as int), widths, o@),
        decreases t.len() - i,
    {
        out.push('\n');
        push_body_line(&mut out, &t[i], &lengths, &o);
        proof {
            assert(rows.take(i + 1).drop_last() =~= rows.take(i as int));
            assert(rows.take(i + 1).last() == t[i as int].deep_view());
            assert(out@ =~= top + (body(rows.take(i as int), widths, o@) + seq!['\n'] + body_line(
                rows[i as int],
                widths,
                o@,
            )));
        }
        i += 1;
    }
    assert(rows.take(t.len() as int) =~= rows);
    out.push('\n');
    push_rule(&mut out, &lengths, o.corner, o.bottom, o.extra_pad);
    assert(out@ =~= plain_table(rows, widths, o@));
    out
}

/// The rows as HTML: each row in `<tr>`, each field in `<td>`, the fields
/// as they are, with nothing escaped.
pub open spec fn html_cells(row: Seq<Seq<char>>) -> Seq<char>
    decreases row.len(),
{
    if row.len() == 0 {
        Seq::empty()
    } else {
        html_cells(row.drop_last()) + "<td>"@ + row.last() + "</td>"@
    }
}

/// The rows of `t` as HTML table rows, one after the other.
pub open spec fn html_rows(t: Seq<Seq<Seq<char>>>) -> Seq<char>
    decreases t.len(),
{
    if t.len() == 0 {
        Seq::empty()
    } else {
        html_rows(t.drop_last()) + "<tr>"@ + html_cells(t.last()) + "</tr>"@
    }
}

/// Writes the rows of `t` as HTML table rows.
pub fn create_html_table(t: Vec<Vec<String>>) -> (out: String)
    ensures
        out@ == html_rows(t.deep_view()),
{
    let ghost rows = t.deep_view();
    let mut out = String::new();
    let mut i: usize = 0;
    while i < t.len()
        invariant
            i <= t.len(),
            rows == t.deep_view(),
            out@ == html_rows(rows.take(i as int)),
        decreases t.len() - i,
    {
        let row = &t[i];
        let ghost fields = row.deep_view();
        let ghost before = out@;
        out.append("<tr>");
        let mut j: usize = 0;
        while j < row.len()
            invariant
                j <= row.len(),
                fields == row.deep_view(),
                out@ == before + "<tr>"@ + html_cells(fields.take(j as int)),
            decreases row.len() - j,
        {
            out.append("<td>");
            out.append(row[j].as_str());
            out.append("</td>");
            proof {
                assert(fields.take(j + 1).drop_last() =~= fields.take(j as int));
                assert(fields.take(j + 1).last() == row[j as int]@);
                assert(out@ =~= before + "<tr>"@ + (html_cells(fields.take(j as int)) + "<td>"@
                    + row[j as int]@ + "</td>"@));
            }
            j += 1;
        }
        out.append("</tr>");
        proof {
            assert(fields.take(row.len() as int) =~= fields);
            assert(rows.take(i + 1).drop_last() =~= rows.take(i as int));
            assert(rows.take(i + 1).last() == fields);
            assert(out@ =~= before + "<tr>"@ + html_cells(fields) + "</tr>"@);
        }
        i += 1;
    }
    assert(rows.take(t.len() as int) =~= rows);
    out
}

/// Pads `t`, then lays it out as a ruled text table whose columns are as
/// wide as their widest field and `extra_pad` more.
pub fn print_table(t: Vec<Vec<String>>, config: Option<TableOptions>) -> (out: String)
    ensures
        out@ == plain_table(
            padded(t.deep_view()),
            column_widths(padded(t.deep_view())),
            match config {
                Some(o) => o@,
                None => default_glyphs(),
            },
        ),
{
    let padded_table = pad_table(t);
    let column_lengths = get_table_col_len(&padded_table);
    create_table(padded_table, column_lengths, config)
}

/// Pads `t`, then writes its rows as HTML table rows.
pub fn print_html_table(t: Vec<Vec<String>>) -> (out: String)
    ensures
        out@ == html_rows(padded(t.deep_view())),
{
    let padded_table = pad_table(t);
    create_html_table(padded_table)
}

/// Pads `t`, then writes it as raw text: a table of rows of one length.
pub fn print_padded_table(t: Vec<Vec<String>>) -> (out: String)
    ensures
        out@ == table_text(padded(t.deep_view())),
{
    let padded_table = pad_table(t);
    convert_csv(padded_table)
}

} // verus!
