//! The typed dialect: every field is a number or a string.
//!
//! Lines and fields are parted as in the raw dialect, by line breaks and
//! commas. Blanks (space and tab) round a field are passed over. A field that
//! opens with a double or a single quote runs to the next quote of the same
//! kind and is a string: what stands between the two, without them. A field
//! that is a number literal (an optional sign, digits, and optionally a point
//! and digits) is a number. Any other field is a string as it stands. A line
//! of blanks only gives no row; elsewhere a field must hold a value.

use vstd::prelude::*;
use crate::csv::{
    find_break, find_char, is_break, lemma_next_break, lemma_next_char, next_break, next_char,
    table_text,
};
use crate::error::{fault, fault_at, ParseError, ParseErrorKind};
use crate::spelling::{law_read_table_is_typed, law_spelled_is_read};
use crate::text::{chars_of, string_of};

verus! {

/// One field of the typed dialect.
#[derive(Debug, PartialEq, Eq)]
pub enum Value {
    /// A string: the content of the field, without the quotes round it.
    String(String),
    /// A number: its literal, as it is written.
    Number(String),
}

/// A field of the typed dialect over character sequences.
pub enum Cell {
    String(Seq<char>),
    Number(Seq<char>),
}

impl View for Value {
    type V = Cell;

    open spec fn view(&self) -> Cell {
        match self {
            Value::String(text) => Cell::String(text@),
            Value::Number(text) => Cell::Number(text@),
        }
    }
}

impl DeepView for Value {
    type V = Cell;

    open spec fn deep_view(&self) -> Cell {
        self@
    }
}

/// True of the characters that are passed over round a field.
pub open spec fn is_blank(c: char) -> bool {
    c == ' ' || c == '\t'
}

/// True of the two characters that open a quoted field.
pub open spec fn is_quote(c: char) -> bool {
    c == '"' || c == '\''
}

/// True of the ten decimal digits.
pub open spec fn is_digit(c: char) -> bool {
    '0' <= c <= '9'
}

/// The offset of the first character of `s` at or after `from` that is no
/// blank; the length of `s` if there is none.
pub open spec fn skip_blanks(s: Seq<char>, from: int) -> int
    decreases s.len() - from,
{
    if from >= s.len() || !is_blank(s[from]) {
        from
    } else {
        skip_blanks(s, from + 1)
    }
}

/// The offset of the first character of `s` at or after `from` that is no
/// digit; the length of `s` if there is none.
pub open spec fn skip_digits(s: Seq<char>, from: int) -> int
    decreases s.len() - from,
{
    if from >= s.len() || !is_digit(s[from]) {
        from
    } else {
        skip_digits(s, from + 1)
    }
}

/// Where `s[from..to]` ends once the blanks at its end are taken off.
pub open spec fn trim_end(s: Seq<char>, from: int, to: int) -> int
    decreases to - from,
{
    if to <= from || !is_blank(s[to - 1]) {
        to
    } else {
        trim_end(s, from, to - 1)
    }
}

/// True of a number literal: an optional sign, one digit or more, and
/// optionally a point with one digit or more after it.
pub open spec fn is_number(f: Seq<char>) -> bool {
    let first: int = if f.len() > 0 && (f[0] == '-' || f[0] == '+') {
        1
    } else {
        0
    };
    let point = skip_digits(f, first);
    &&& first < point
    &&& point < f.len() ==> {
        &&& f[point] == '.'
        &&& point + 1 < f.len()
        &&& skip_digits(f, point + 1) == f.len()
    }
}

/// True of a text of blanks only.
pub open spec fn is_blanks(f: Seq<char>) -> bool {
    forall|i: int| 0 <= i < f.len() ==> is_blank(#[trigger] f[i])
}

/// The field text `f` without the blanks before and after it.
pub open spec fn core_of(f: Seq<char>) -> Seq<char> {
    f.subrange(skip_blanks(f, 0), trim_end(f, skip_blanks(f, 0), f.len() as int))
}

/// A string in quotes: it opens with a double or a single quote, closes with
/// the same, and holds no other of that kind.
pub open spec fn is_quoted_core(c: Seq<char>) -> bool {
    &&& c.len() >= 2
    &&& is_quote(c[0])
    &&& c[c.len() - 1] == c[0]
    &&& forall|i: int| 0 < i < c.len() - 1 ==> #[trigger] c[i] != c[0]
}

/// A value without quotes: it is not empty, holds neither comma nor line
/// break, and does not open with a quote.
pub open spec fn is_bare_core(c: Seq<char>) -> bool {
    &&& c.len() > 0
    &&& !is_quote(c[0])
    &&& forall|i: int| 0 <= i < c.len() ==> !is_break(#[trigger] c[i])
}

/// A field text that spells a value: blanks, then a string in quotes or a
/// value without quotes, then blanks.
pub open spec fn is_value_text(f: Seq<char>) -> bool {
    is_quoted_core(core_of(f)) || is_bare_core(core_of(f))
}

/// The value that the field text `f` spells.
pub open spec fn value_of(f: Seq<char>) -> Cell {
    let c = core_of(f);
    if is_quote(c[0]) {
        Cell::String(c.subrange(1, c.len() - 1))
    } else {
        bare(c)
    }
}

/// A line of blanks only: it gives no row.
pub open spec fn is_blank_line(line: Seq<Seq<char>>) -> bool {
    line.len() == 1 && is_blanks(line[0])
}

/// A line of values: at least one field, and each spells a value.
pub open spec fn is_value_line(line: Seq<Seq<char>>) -> bool {
    &&& line.len() > 0
    &&& forall|j: int| 0 <= j < line.len() ==> is_value_text(#[trigger] line[j])
}

/// A text of the typed dialect, by its lines and their field texts: at
/// least one line, and each a line of blanks or a line of values.
pub open spec fn is_typed_text(lines: Seq<Seq<Seq<char>>>) -> bool {
    &&& lines.len() > 0
    &&& forall|i: int|
        0 <= i < lines.len() ==> is_blank_line(#[trigger] lines[i]) || is_value_line(lines[i])
}

/// The values that the fields of a line spell.
pub open spec fn line_values(line: Seq<Seq<char>>) -> Seq<Cell> {
    Seq::new(line.len(), |j: int| value_of(line[j]))
}

/// The rows that the lines spell: one for each line that is not of blanks
/// only, in order.
pub open spec fn lines_values(lines: Seq<Seq<Seq<char>>>) -> Seq<Seq<Cell>>
    decreases lines.len(),
{
    if lines.len() == 0 {
        Seq::empty()
    } else if is_blank_line(lines.last()) {
        lines_values(lines.drop_last())
    } else {
        lines_values(lines.drop_last()).push(line_values(lines.last()))
    }
}

/// What stands at the place of one field.
pub enum Token {
    /// A value, and the offset where the field ends.
    Value(Cell, int),
    /// Nothing but blanks, and the offset where the field ends.
    Blank(int),
    /// No field: the reason, and the offset of the offending character.
    Fault(ParseErrorKind, int),
}

/// The value that an unquoted field holds.
pub open spec fn bare(f: Seq<char>) -> Cell {
    if is_number(f) {
        Cell::Number(f)
    } else {
        Cell::String(f)
    }
}

/// What the field that begins at `start` holds. A field ends before a comma,
/// before a line break or at the end of the text.
pub open spec fn token(s: Seq<char>, start: int) -> Token {
    let open = skip_blanks(s, start);
    if open < s.len() && is_quote(s[open]) {
        let close = next_char(s, open + 1, s[open]);
        let end = skip_blanks(s, close + 1);
        if close >= s.len() {
            Token::Fault(ParseErrorKind::UnterminatedQuote, open)
        } else if end < s.len() && !is_break(s[end]) {
            Token::Fault(ParseErrorKind::TextAfterQuote, end)
        } else {
            Token::Value(Cell::String(s.subrange(open + 1, close)), end)
        }
    } else {
        let end = next_break(s, open);
        let stop = trim_end(s, open, end);
        if stop <= open {
            Token::Blank(end)
        } else {
            Token::Value(bare(s.subrange(open, stop)), end)
        }
    }
}

/// What reading `s` gives from offset `start` on, where a field begins, when
/// the lines before it gave `table` and the fields before it on its own line
/// gave `row`.
///
/// A field of blanks that has its line to itself gives no row. Any other
/// field of blanks is an error, reported at the comma that lacks a value: the
/// one before the field, or else the one after it.
pub open spec fn scan(s: Seq<char>, start: int, table: Seq<Seq<Cell>>, row: Seq<Cell>) -> Result<
    Seq<Seq<Cell>>,
    ParseError,
>
    decreases s.len() - start,
    when 0 <= start <= s.len()
    via scan_decreases
{
    match token(s, start) {
        Token::Fault(kind, at) => Err(fault(s, kind, at)),
        Token::Blank(end) => {
            if row.len() > 0 {
                Err(fault(s, ParseErrorKind::MissingValue, start - 1))
            } else if end >= s.len() {
                Ok(table)
            } else if s[end] == ',' {
                Err(fault(s, ParseErrorKind::MissingValue, end))
            } else {
                scan(s, end + 1, table, row)
            }
        },
        Token::Value(value, end) => {
            let row = row.push(value);
            if end >= s.len() {
                Ok(table.push(row))
            } else if s[end] == ',' {
                scan(s, end + 1, table, row)
            } else {
                scan(s, end + 1, table.push(row), Seq::empty())
            }
        },
    }
}

#[via_fn]
proof fn scan_decreases(s: Seq<char>, start: int, table: Seq<Seq<Cell>>, row: Seq<Cell>) {
    lemma_token_bounds(s, start);
}

/// The table that the text `s` holds, or the first reason why it holds none.
pub open spec fn parsed(s: Seq<char>) -> Result<Seq<Seq<Cell>>, ParseError> {
    scan(s, 0, Seq::empty(), Seq::empty())
}

/// Only blanks stand between `from` and `skip_blanks`, and no blank stands
/// at `skip_blanks`.
pub proof fn lemma_skip_blanks(s: Seq<char>, from: int)
    requires
        0 <= from <= s.len(),
    ensures
        from <= skip_blanks(s, from) <= s.len(),
        forall|i: int| from <= i < skip_blanks(s, from) ==> is_blank(#[trigger] s[i]),
        skip_blanks(s, from) < s.len() ==> !is_blank(s[skip_blanks(s, from)]),
    decreases s.len() - from,
{
    if from < s.len() && is_blank(s[from]) {
        lemma_skip_blanks(s, from + 1);
    }
}

/// Only blanks stand between `trim_end` and `to`, and no blank stands just
/// before `trim_end`.
pub proof fn lemma_trim_end(s: Seq<char>, from: int, to: int)
    requires
        from <= to,
    ensures
        from <= trim_end(s, from, to) <= to,
        forall|i: int| trim_end(s, from, to) <= i < to ==> is_blank(#[trigger] s[i]),
        from < trim_end(s, from, to) ==> !is_blank(s[trim_end(s, from, to) - 1]),
    decreases to - from,
{
    if from < to && is_blank(s[to - 1]) {
        lemma_trim_end(s, from, to - 1);
    }
}

/// A field ends at or after its start and within the text, before a comma
/// or a line break if anything follows; an error lies within the text.
pub proof fn lemma_token_bounds(s: Seq<char>, start: int)
    requires
        0 <= start <= s.len(),
    ensures
        match token(s, start) {
            Token::Value(_, end) => start <= end <= s.len() && (end < s.len() ==> is_break(s[end])),
            Token::Blank(end) => start <= end <= s.len() && (end < s.len() ==> is_break(s[end])),
            Token::Fault(_, at) => start <= at < s.len(),
        },
{
    lemma_skip_blanks(s, start);
    let open = skip_blanks(s, start);
    lemma_next_break(s, open);
    lemma_trim_end(s, open, next_break(s, open));
    if open < s.len() {
        lemma_next_char(s, open + 1, s[open]);
        let close = next_char(s, open + 1, s[open]);
        if close < s.len() {
            lemma_skip_blanks(s, close + 1);
        }
    }
}

/// A table as the typed reader gives it: every row holds a value, and
/// every number is a number literal.
pub open spec fn is_typed_table(t: Seq<Seq<Cell>>) -> bool {
    forall|i: int|
        0 <= i < t.len() ==> (#[trigger] t[i]).len() > 0 && forall|j: int|
            0 <= j < t[i].len() ==> ((#[trigger] t[i][j]) matches Cell::Number(literal)
                ==> is_number(literal))
}

/// The offset of the first character at or after `from` that is no blank.
fn pass_blanks(chars: &Vec<char>, from: usize) -> (at: usize)
    requires
        from <= chars.len(),
    ensures
        at == skip_blanks(chars@, from as int),
        from <= at <= chars.len(),
{
    let mut at: usize = from;
    while at < chars.len() && (chars[at] == ' ' || chars[at] == '\t')
        invariant
            from <= at <= chars.len(),
            skip_blanks(chars@, at as int) == skip_blanks(chars@, from as int),
        decreases chars.len() - at,
    {
        at += 1;
    }
    at
}

/// The offset of the first character at or after `from` that is no digit.
fn pass_digits(chars: &Vec<char>, from: usize) -> (at: usize)
    requires
        from <= chars.len(),
    ensures
        at == skip_digits(chars@, from as int),
        from <= at <= chars.len(),
{
    let mut at: usize = from;
    while at < chars.len() && '0' <= chars[at] && chars[at] <= '9'
        invariant
            from <= at <= chars.len(),
            skip_digits(chars@, at as int) == skip_digits(chars@, from as int),
        decreases chars.len() - at,
    {
        at += 1;
    }
    at
}

/// Where `chars[from..to]` ends without the blanks at its end.
fn trim_back(chars: &Vec<char>, from: usize, to: usize) -> (at: usize)
    requires
        from <= to <= chars.len(),
    ensures
        at == trim_end(chars@, from as int, to as int),
        from <= at <= to,
{
    let mut at: usize = to;
    while at > from && (chars[at - 1] == ' ' || chars[at - 1] == '\t')
        invariant
            from <= at <= to <= chars.len(),
            trim_end(chars@, from as int, at as int) == trim_end(chars@, from as int, to as int),
        decreases at - from,
    {
        at -= 1;
    }
    at
}

/// Tells whether `text` is a number literal.
pub fn is_number_text(text: &str) -> (yes: bool)
    ensures
        yes == is_number(text@),
{
    let chars = chars_of(text);
    let n = chars.len();
    let first: usize = if n > 0 && (chars[0] == '-' || chars[0] == '+') {
        1
    } else {
        0
    };
    let point = pass_digits(&chars, first);
    if point <= first {
        false
    } else if point >= n {
        true
    } else if chars[point] != '.' || point + 1 >= n {
        false
    } else {
        pass_digits(&chars, point + 1) == n
    }
}

/// What the reader found at the place of one field.
enum Step {
    Value(Value, usize),
    Blank(usize),
    Fault(ParseErrorKind, usize),
}

impl Step {
    spec fn as_token(self) -> Token {
        match self {
            Step::Value(value, end) => Token::Value(value@, end as int),
            Step::Blank(end) => Token::Blank(end as int),
            Step::Fault(kind, at) => Token::Fault(kind, at as int),
        }
    }
}

/// Reads the field that begins at `start`.
fn read_token(chars: &Vec<char>, start: usize) -> (step: Step)
    requires
        start <= chars.len(),
    ensures
        step.as_token() == token(chars@, start as int),
{
    let n = chars.len();
    let open = pass_blanks(chars, start);
    if open < n && (chars[open] == '"' || chars[open] == '\'') {
        let close = find_char(chars, open + 1, chars[open]);
        if close >= n {
            return Step::Fault(ParseErrorKind::UnterminatedQuote, open);
        }
        let end = pass_blanks(chars, close + 1);
        if end < n && chars[end] != ',' && chars[end] != '\n' {
            return Step::Fault(ParseErrorKind::TextAfterQuote, end);
        }
        Step::Value(Value::String(string_of(chars, open + 1, close)), end)
    } else {
        let end = find_break(chars, open);
        let stop = trim_back(chars, open, end);
        if stop <= open {
            return Step::Blank(end);
        }
        let core = string_of(chars, open, stop);
        if is_number_text(core.as_str()) {
            Step::Value(Value::Number(core), end)
        } else {
            Step::Value(Value::String(core), end)
        }
    }
}

/// The reader of the typed dialect.
pub struct CsvParser;

impl CsvParser {
    /// Reads `txt` as a table of numbers and strings, or says where and why
    /// it is none. The result is all or nothing: an error carries no rows.
    ///
    /// No row that comes back is empty, and every number is a number
    /// literal; an error comes back exactly when `txt` is not made up of lines
    /// of blanks and lines of values.
    #[verifier::loop_isolation(false)]
    pub fn parse(txt: &str) -> (r: Result<Vec<Vec<Value>>, ParseError>)
        ensures
            match r {
                Ok(t) => {
                    &&& parsed(txt@) == Ok::<Seq<Seq<Cell>>, ParseError>(t.deep_view())
                    &&& is_typed_table(t.deep_view())
                },
                Err(e) => {
                    &&& parsed(txt@) == Err::<Seq<Seq<Cell>>, ParseError>(e)
                    &&& forall|lines: Seq<Seq<Seq<char>>>|
                        is_typed_text(lines) ==> #[trigger] table_text(lines) != txt@
                },
            },
    {
        proof {
            if parsed(txt@) is Ok {
                law_read_table_is_typed(txt@);
            } else {
                assert forall|lines: Seq<Seq<Seq<char>>>| is_typed_text(lines) implies #[trigger] table_text(
                    lines,
                ) != txt@ by {
                    law_spelled_is_read(lines);
                }
            }
        }
        let chars = chars_of(txt);
        let n = chars.len();
        let mut table: Vec<Vec<Value>> = Vec::new();
        let mut row: Vec<Value> = Vec::new();
        let mut start: usize = 0;
        assert(table.deep_view() =~= Seq::empty());
        assert(row.deep_view() =~= Seq::empty());
        loop
            invariant
                n == chars.len(),
                chars@ == txt@,
                start <= n,
                row.len() > 0 ==> start > 0,
                scan(chars@, start as int, table.deep_view(), row.deep_view()) == parsed(txt@),
            decreases n - start,
        {
            proof {
                lemma_token_bounds(chars@, start as int);
            }
            let ghost fields = row.deep_view();
            let ghost rows = table.deep_view();
            let end: usize;
            match read_token(&chars, start) {
                Step::Fault(kind, at) => {
                    return Err(fault_at(&chars, kind, at));
                },
                Step::Blank(at) => {
                    if row.len() > 0 {
                        return Err(fault_at(&chars, ParseErrorKind::MissingValue, start - 1));
                    }
                    if at >= n {
                        return Ok(table);
                    }
                    if chars[at] == ',' {
                        return Err(fault_at(&chars, ParseErrorKind::MissingValue, at));
                    }
                    end = at;
                },
                Step::Value(value, at) => {
                    row.push(value);
                    assert(row.deep_view() =~= fields.push(value@));
                    if at >= n {
                        table.push(row);
                        assert(table.deep_view() =~= rows.push(row.deep_view()));
                        return Ok(table);
                    }
                    if chars[at] == '\n' {
                        table.push(row);
                        assert(table.deep_view() =~= rows.push(row.deep_view()));
                        row = Vec::new();
                        assert(row.deep_view() =~= Seq::empty());
                    }
                    end = at;
                },
            }
            start = end + 1;
        }
    }
}

/// Reads `txt` as a table of numbers and strings. Where `txt` is not in the
/// grammar, the error is the text of [`ParseError::message`].
pub fn parse_csv(txt: &str) -> (r: Result<Vec<Vec<Value>>, String>)
    ensures
        match r {
            Ok(t) => {
                &&& parsed(txt@) == Ok::<Seq<Seq<Cell>>, ParseError>(t.deep_view())
                &&& is_typed_table(t.deep_view())
            },
            Err(text) => {
                &&& parsed(txt@) is Err
                &&& text@ == parsed(txt@)->Err_0.message_text()
                &&& forall|lines: Seq<Seq<Seq<char>>>|
                    is_typed_text(lines) ==> #[trigger] table_text(lines) != txt@
            },
        },
{
    match CsvParser::parse(txt) {
        Ok(t) => Ok(t),
        Err(e) => Err(e.message()),
    }
}

/// The text that the standard library's `Debug` gives for a string: the
/// string in double quotes, with the characters escaped that a string literal
/// of the language would need escaped.
pub uninterp spec fn debug_text(s: Seq<char>) -> Seq<char>;

/// `text` as `Debug` of the standard library formats a `str`. The result
/// depends on the characters of `text` alone.
#[verifier::external_body]
fn debug_string(text: &str) -> (out: String)
    ensures
        out@ == debug_text(text@),
{
    format!("{:?}", text)
}

/// How a value is written: a number as its literal, a string in double
/// quotes and escaped, whichever quotes it was read from.
pub open spec fn cell_text(cell: Cell) -> Seq<char> {
    match cell {
        Cell::Number(literal) => literal,
        Cell::String(content) => debug_text(content),
    }
}

/// The written form of each value of `t`, in its place.
pub open spec fn cell_texts(t: Seq<Seq<Cell>>) -> Seq<Seq<Seq<char>>> {
    Seq::new(t.len(), |i: int| Seq::new(t[i].len(), |j: int| cell_text(t[i][j])))
}

/// Writes each value of `t` as text, and leaves it in its place.
pub fn write_cells(t: &Vec<Vec<Value>>) -> (out: Vec<Vec<String>>)
    ensures
        out.deep_view() == cell_texts(t.deep_view()),
{
    let ghost cells = t.deep_view();
    let mut out: Vec<Vec<String>> = Vec::new();
    let mut i: usize = 0;
    while i < t.len()
        invariant
            i <= t.len(),
            cells == t.deep_view(),
            out.deep_view() =~= cell_texts(cells).take(i as int),
        decreases t.len() - i,
    {
        let row = &t[i];
        let mut line: Vec<String> = Vec::new();
        let mut j: usize = 0;
        while j < row.len()
            invariant
                j <= row.len(),
                i < t.len(),
                cells == t.deep_view(),
                row.deep_view() == cells[i as int],
                line.deep_view() =~= cell_texts(cells)[i as int].take(j as int),
            decreases row.len() - j,
        {
            let ghost before = line.deep_view();
            let text = match &row[j] {
                Value::Number(literal) => literal.clone(),
                Value::String(content) => debug_string(content.as_str()),
            };
            assert(text@ == cell_text(cells[i as int][j as int]));
            line.push(text);
            assert(line.deep_view() =~= before.push(text@));
            j += 1;
        }
        let ghost before = out.deep_view();
        assert(line.deep_view() =~= cell_texts(cells)[i as int]);
        out.push(line);
        assert(out.deep_view() =~= before.push(line.deep_view()));
        i += 1;
    }
    out
}

/// Writes a table of numbers and strings as text: the written forms of
/// the values of a row with a comma between each two, the rows with a line
/// break between each two and none at the end.
pub fn convert_csv(t: Vec<Vec<Value>>) -> (out: String)
    ensures
        out@ == table_text(cell_texts(t.deep_view())),
{
    crate::csv::convert_csv(write_cells(&t))
}

} // verus!
