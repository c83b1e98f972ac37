//! Diagnostics and how they are printed.
//!
//! A diagnostic is printed as a block:
//!
//! ```text
//! error: <category>
//!   --> <file>:<line>:<col>
//!    |
//!  N | <source line>
//!    |     ^^^
//!    |
//!    = note: <human-readable explanation>
//! ```
//!
//! Errors may carry zero or more *related* spans (e.g. for "consumed twice"
//! diagnostics that point at both consume sites). Each related span is rendered
//! as a follow-on block headed by `note: <label>`:
//!
//! ```text
//! error: type error
//!   --> file.lin:3:18
//!    |
//!  3 |     let (c, d) = t in ...
//!    |                  ^
//!    |
//!    = note: linear variable `t` is consumed twice
//! note: `t` previously consumed here
//!   --> file.lin:2:18
//!    |
//!  2 |     let (a, b) = t in ...
//!    |                  ^
//! ```
//!
//! Line and column are computed from byte offsets at display time; columns
//! count bytes.

use crate::ast::Span;
use crate::text::{carets, decimal, decimal_text, is_cut, repeated, slice_text, spaces};
use vstd::prelude::*;
use vstd::string::*;
use vstd::utf8::*;

verus! {

/// What kind of error a diagnostic reports.
#[derive(Debug, Clone, Copy, PartialEq, Eq, Structural)]
pub enum ErrorCategory {
    ParseError,
    TypeError,
}

/// The words by which a category is printed.
pub open spec fn category_text(category: ErrorCategory) -> Seq<char> {
    match category {
        ErrorCategory::ParseError => "parse error"@,
        ErrorCategory::TypeError => "type error"@,
    }
}

impl ErrorCategory {
    /// The words by which this category is printed.
    pub fn as_str(self) -> (r: &'static str)
        ensures
            r@ == category_text(self),
    {
        match self {
            ErrorCategory::ParseError => "parse error",
            ErrorCategory::TypeError => "type error",
        }
    }
}

/// A diagnostic: where it points, what it says, and which other places matter.
#[derive(Debug, Clone, PartialEq, Eq)]
pub struct Error {
    pub category: ErrorCategory,
    pub span: Span,
    pub note: Option<String>,
    pub related: Vec<RelatedSpan>,
}

/// A second place in the source, with a label that says what is there.
#[derive(Debug, Clone, PartialEq, Eq)]
pub struct RelatedSpan {
    pub span: Span,
    pub label: String,
}

/// The view of an [`Error`].
pub struct ErrorView {
    pub category: ErrorCategory,
    pub span: Span,
    pub note: Option<Seq<char>>,
    pub related: Seq<RelatedView>,
}

/// The view of a [`RelatedSpan`].
pub struct RelatedView {
    pub span: Span,
    pub label: Seq<char>,
}

impl View for RelatedSpan {
    type V = RelatedView;

    open spec fn view(&self) -> RelatedView {
        RelatedView { span: self.span, label: self.label@ }
    }
}

/// The view of an optional note.
pub open spec fn note_view(note: Option<String>) -> Option<Seq<char>> {
    match note {
        Some(text) => Some(text@),
        None => None,
    }
}

impl View for Error {
    type V = ErrorView;

    open spec fn view(&self) -> ErrorView {
        ErrorView {
            category: self.category,
            span: self.span,
            note: note_view(self.note),
            related: self.related@.map_values(|r: RelatedSpan| r@),
        }
    }
}

/// A diagnostic that points at one place.
pub open spec fn plain_error(category: ErrorCategory, span: Span, note: Seq<char>) -> ErrorView {
    ErrorView { category, span, note: Some(note), related: Seq::empty() }
}

/// `err` with one more related span.
pub open spec fn and_related(err: ErrorView, span: Span, label: Seq<char>) -> ErrorView {
    ErrorView { related: err.related.push(RelatedView { span, label }), ..err }
}

impl Error {
    /// A diagnostic without related spans.
    pub fn new(category: ErrorCategory, span: Span, note: Option<String>) -> (r: Self)
        ensures
            r.category == category,
            r.span == span,
            r.note == note,
            r.related@.len() == 0,
            r@ == (ErrorView {
                category,
                span,
                note: note_view(note),
                related: Seq::empty(),
            }),
    {
        let r = Self { category, span, note, related: Vec::new() };
        assert(r@.related =~= Seq::<RelatedView>::empty());
        r
    }

    /// Attach a related span with a brief label describing what's at that
    /// location. Used for diagnostics that involve two source positions,
    /// e.g. "linear `t` consumed twice" pointing at both consume sites.
    pub fn with_related(self, span: Span, label: &str) -> (r: Self)
        ensures
            r@ == and_related(self@, span, label@),
    {
        let mut related = self.related;
        let entry = RelatedSpan { span, label: label.to_owned() };
        let ghost new_view = entry@;
        related.push(entry);
        let r = Error { category: self.category, span: self.span, note: self.note, related };
        assert(r@.related =~= self@.related.push(new_view));
        r
    }
}

// -----------------------------------------------------------------------------
// Lines and columns
// -----------------------------------------------------------------------------

/// The byte that ends a line.
pub const NEWLINE: u8 = 10;

/// How many line ends stand before `offset`.
pub open spec fn newlines_before(bytes: Seq<u8>, offset: int) -> nat
    decreases offset,
{
    if offset <= 0 {
        0
    } else {
        newlines_before(bytes, offset - 1) + (if bytes[offset - 1] == NEWLINE {
            1nat
        } else {
            0nat
        })
    }
}

/// Where the line that holds `offset` begins.
pub open spec fn line_start(bytes: Seq<u8>, offset: int) -> int
    decreases offset,
{
    if offset <= 0 {
        0
    } else if bytes[offset - 1] == NEWLINE {
        offset
    } else {
        line_start(bytes, offset - 1)
    }
}

/// Where the line that holds `offset` ends, not counting its line end.
pub open spec fn line_end(bytes: Seq<u8>, offset: int) -> int
    decreases bytes.len() - offset,
{
    if offset >= bytes.len() {
        bytes.len() as int
    } else if bytes[offset] == NEWLINE {
        offset
    } else {
        line_end(bytes, offset + 1)
    }
}

/// An offset past the end is read as the end.
pub open spec fn clamped(bytes: Seq<u8>, offset: int) -> int {
    if offset <= bytes.len() {
        offset
    } else {
        bytes.len() as int
    }
}

/// The number of the line that holds `offset`, counted from one.
pub open spec fn line_number(bytes: Seq<u8>, offset: int) -> nat {
    newlines_before(bytes, clamped(bytes, offset)) + 1
}

/// The column of `offset` in its line, in bytes, counted from one.
pub open spec fn column(bytes: Seq<u8>, offset: int) -> int {
    clamped(bytes, offset) - line_start(bytes, clamped(bytes, offset)) + 1
}

/// The bytes of the line that holds `offset`.
pub open spec fn line_bytes(bytes: Seq<u8>, offset: int) -> Seq<u8> {
    let o = clamped(bytes, offset);
    bytes.subrange(line_start(bytes, o), line_end(bytes, o))
}

/// The line that holds an offset surrounds it, has no line end inside, and is
/// bounded by line ends or the ends of the text.
pub proof fn lemma_line_bounds(bytes: Seq<u8>, offset: int)
    requires
        0 <= offset <= bytes.len(),
    ensures
        0 <= line_start(bytes, offset) <= offset <= line_end(bytes, offset) <= bytes.len(),
        line_start(bytes, offset) > 0 ==> bytes[line_start(bytes, offset) - 1] == NEWLINE,
        line_end(bytes, offset) < bytes.len() ==> bytes[line_end(bytes, offset)] == NEWLINE,
        forall|i: int|
            line_start(bytes, offset) <= i < line_end(bytes, offset) ==> #[trigger] bytes[i]
                != NEWLINE,
        newlines_before(bytes, offset) <= offset,
{
    lemma_line_start(bytes, offset);
    lemma_line_end(bytes, offset);
}

proof fn lemma_line_start(bytes: Seq<u8>, offset: int)
    requires
        0 <= offset <= bytes.len(),
    ensures
        0 <= line_start(bytes, offset) <= offset,
        line_start(bytes, offset) > 0 ==> bytes[line_start(bytes, offset) - 1] == NEWLINE,
        forall|i: int|
            line_start(bytes, offset) <= i < offset ==> #[trigger] bytes[i] != NEWLINE,
        newlines_before(bytes, offset) <= offset,
    decreases offset,
{
    if offset > 0 {
        lemma_line_start(bytes, offset - 1);
    }
}

proof fn lemma_line_end(bytes: Seq<u8>, offset: int)
    requires
        0 <= offset <= bytes.len(),
    ensures
        offset <= line_end(bytes, offset) <= bytes.len(),
        line_end(bytes, offset) < bytes.len() ==> bytes[line_end(bytes, offset)] == NEWLINE,
        forall|i: int| offset <= i < line_end(bytes, offset) ==> #[trigger] bytes[i] != NEWLINE,
    decreases bytes.len() - offset,
{
    if offset < bytes.len() && bytes[offset] != NEWLINE {
        lemma_line_end(bytes, offset + 1);
    }
}

/// Two different offsets have different lines or different columns.
pub proof fn law_locations_tell_offsets_apart(bytes: Seq<u8>, a: int, b: int)
    requires
        0 <= a < b <= bytes.len(),
    ensures
        line_number(bytes, a) != line_number(bytes, b) || column(bytes, a) != column(bytes, b),
        line_number(bytes, a) <= line_number(bytes, b),
{
    lemma_same_line(bytes, a, b);
}

/// A later offset is on a later line, or on the same line with the same start.
proof fn lemma_same_line(bytes: Seq<u8>, a: int, b: int)
    requires
        0 <= a <= b <= bytes.len(),
    ensures
        newlines_before(bytes, a) <= newlines_before(bytes, b),
        newlines_before(bytes, a) == newlines_before(bytes, b) ==> line_start(bytes, a)
            == line_start(bytes, b),
    decreases b - a,
{
    if a < b {
        lemma_same_line(bytes, a, b - 1);
    }
}

/// Map a byte offset into `source` to its line number, its column, the text of
/// its line and the offset where that line starts. An offset past the end of
/// the text is clamped.
fn locate(source: &str, byte_offset: usize) -> (r: (u128, u128, &str, usize))
    ensures
        r.0 == line_number(source.spec_bytes(), byte_offset as int),
        r.1 == column(source.spec_bytes(), byte_offset as int),
        r.2.spec_bytes() == line_bytes(source.spec_bytes(), byte_offset as int),
        r.2@ == decode_utf8(line_bytes(source.spec_bytes(), byte_offset as int)),
        r.3 == line_start(
            source.spec_bytes(),
            clamped(source.spec_bytes(), byte_offset as int),
        ),
        1 <= r.1 <= source.spec_bytes().len() + 1,
        r.3 + r.2.spec_bytes().len() <= source.spec_bytes().len() <= usize::MAX,
{
    let bytes = source.as_bytes();
    let offset = if byte_offset <= bytes.len() {
        byte_offset
    } else {
        bytes.len()
    };

    let mut start: usize = 0;
    let mut line_ends: usize = 0;
    let mut i: usize = 0;
    while i < offset
        invariant
            i <= offset <= bytes@.len(),
            start == line_start(bytes@, i as int),
            line_ends == newlines_before(bytes@, i as int),
            line_ends <= i,
        decreases offset - i,
    {
        if bytes[i] == NEWLINE {
            line_ends += 1;
            start = i + 1;
        }
        i += 1;
    }

    let mut end: usize = offset;
    while end < bytes.len() && bytes[end] != NEWLINE
        invariant
            offset <= end <= bytes@.len(),
            line_end(bytes@, end as int) == line_end(bytes@, offset as int),
        decreases bytes@.len() - end,
    {
        end += 1;
    }

    proof {
        lemma_line_bounds(bytes@, offset as int);
        assert(end == line_end(bytes@, offset as int));
        assert(is_cut(bytes@, start as int));
        assert(is_cut(bytes@, end as int));
        assert(bytes@.len() == source.spec_bytes().len());
    }
    let line_text = slice_text(source, start, end);
    (line_ends as u128 + 1, (offset - start) as u128 + 1, line_text, start)
}

// -----------------------------------------------------------------------------
// Pretty-printing
// -----------------------------------------------------------------------------

/// How many carets mark `span`: as many as it has bytes in its first line, and
/// at least one.
pub open spec fn caret_count(bytes: Seq<u8>, span: Span) -> nat {
    let start = clamped(bytes, span.start as int);
    let end_of_line = line_start(bytes, start) + line_bytes(bytes, span.start as int).len();
    let end = if span.end <= end_of_line {
        span.end as int
    } else {
        end_of_line
    };
    if end - span.start >= 1 {
        (end - span.start) as nat
    } else {
        1
    }
}

/// One block of a printed diagnostic: leader line, location arrow, source
/// excerpt with carets, and an optional note.
pub open spec fn block_text(
    leader: Seq<char>,
    span: Span,
    bytes: Seq<u8>,
    file: Seq<char>,
    note: Option<Seq<char>>,
) -> Seq<char> {
    let line = decimal(line_number(bytes, span.start as int));
    let col = column(bytes, span.start as int);
    let margin = repeated(' ', line.len());
    leader + "\n"@ + margin + " --> "@ + file + ":"@ + line + ":"@ + decimal(col as nat) + "\n"@
        + margin + "  |\n "@ + line + " | "@ + decode_utf8(line_bytes(bytes, span.start as int))
        + "\n"@ + margin + "  | "@ + repeated(' ', (col - 1) as nat) + repeated(
        '^',
        caret_count(bytes, span),
    ) + "\n"@ + (match note {
        Some(text) => margin + "  |\n"@ + margin + "  = note: "@ + text + "\n"@,
        None => Seq::empty(),
    })
}

/// The blocks of the first `n` related spans, one after the other.
pub open spec fn related_text(
    related: Seq<RelatedView>,
    n: nat,
    bytes: Seq<u8>,
    file: Seq<char>,
) -> Seq<char>
    decreases n,
{
    if n == 0 {
        Seq::empty()
    } else {
        let last = related[n - 1];
        related_text(related, (n - 1) as nat, bytes, file) + block_text(
            "note: "@ + last.label,
            last.span,
            bytes,
            file,
            None,
        )
    }
}

/// A whole printed diagnostic: the error's own block, then one for each related
/// span in order.
pub open spec fn error_text(err: ErrorView, bytes: Seq<u8>, file: Seq<char>) -> Seq<char> {
    block_text("error: "@ + category_text(err.category), err.span, bytes, file, err.note)
        + related_text(err.related, err.related.len(), bytes, file)
}

/// Format `err` for display against the `source` text that it is about. `file` is
/// the path string shown in the `-->` location line; the caller is
/// responsible for using the same string the user passed on the CLI.
pub fn format_error(err: &Error, source: &str, file: &str) -> (r: String)
    ensures
        r@ == error_text(err@, source.spec_bytes(), file@),
{
    let mut leader = "error: ".to_owned();
    leader.append(err.category.as_str());
    let mut out = render_block(leader.as_str(), err.span, source, file, &err.note);

    let ghost bytes = source.spec_bytes();
    let ghost head = out@;
    let mut i: usize = 0;
    while i < err.related.len()
        invariant
            i <= err.related@.len(),
            bytes == source.spec_bytes(),
            out@ == head + related_text(err@.related, i as nat, bytes, file@),
        decreases err.related@.len() - i,
    {
        let mut leader = "note: ".to_owned();
        leader.append(err.related[i].label.as_str());
        let block = render_block(leader.as_str(), err.related[i].span, source, file, &None);
        out.append(block.as_str());
        i += 1;
        proof {
            assert(err@.related[i - 1] == err.related@[i - 1]@);
            assert(out@ =~= head + related_text(err@.related, i as nat, bytes, file@));
        }
    }
    out
}

/// Render a single diagnostic block: leader line, location arrow, source
/// excerpt with carets, and optional trailing `= note:`.
fn render_block(
    leader: &str,
    span: Span,
    source: &str,
    file: &str,
    note: &Option<String>,
) -> (r: String)
    ensures
        r@ == block_text(leader@, span, source.spec_bytes(), file@, note_view(*note)),
{
    let ghost bytes = source.spec_bytes();
    let (line_num, col, line_text, line_start_offset) = locate(source, span.start);

    let line_end_offset = line_start_offset + line_text.as_bytes().len();
    let span_end_in_line = if span.end <= line_end_offset {
        span.end
    } else {
        line_end_offset
    };
    let caret_len = if span_end_in_line > span.start {
        span_end_in_line - span.start
    } else {
        1
    };
    assert(caret_len == caret_count(bytes, span));

    let line_num_str = decimal_text(line_num);
    let margin = spaces(line_num_str.as_str().unicode_len());
    let col_str = decimal_text(col);

    let mut out = leader.to_owned();
    out.append("\n");
    out.append(margin.as_str());
    out.append(" --> ");
    out.append(file);
    out.append(":");
    out.append(line_num_str.as_str());
    out.append(":");
    out.append(col_str.as_str());
    out.append("\n");
    out.append(margin.as_str());
    out.append("  |\n ");
    out.append(line_num_str.as_str());
    out.append(" | ");
    out.append(line_text);
    out.append("\n");
    out.append(margin.as_str());
    out.append("  | ");
    out.append(spaces((col - 1) as usize).as_str());
    out.append(carets(caret_len).as_str());
    out.append("\n");
    match note {
        Some(text) => {
            out.append(margin.as_str());
            out.append("  |\n");
            out.append(margin.as_str());
            out.append("  = note: ");
            out.append(text.as_str());
            out.append("\n");
        },
        None => {},
    }
    assert(out@ =~= block_text(leader@, span, bytes, file@, note_view(*note)));
    out
}

} // verus!
