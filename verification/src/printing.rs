//! What is shown: lines, columns, diagnostics, types and numbers.
//!
//! The laws here tie what is printed to the source and to the values that it is
//! about: which line and column an offset has, what the printed block of a diagnostic
//! holds line by line, how types and numbers are written, and in which order names
//! come.

use crate::ast::{
    fields_text, joined, type_text, usage_text, ExprView, FieldView, Span, TypeView, Usage,
};
use crate::error::{
    block_text, caret_count, category_text, clamped, column, error_text, lemma_line_bounds,
    line_bytes, line_end, line_number, line_start, newlines_before, related_text, ErrorCategory,
    ErrorView, RelatedView,
};
use crate::reading::read_source;
use crate::report::verdict;
use crate::text::{decimal, name_before, repeated, splits_at};
use crate::typeck::ConsumeMode;
use crate::typing::check;
use vstd::prelude::*;
use vstd::utf8::*;

verus! {

// -----------------------------------------------------------------------------
// Lines and columns
// -----------------------------------------------------------------------------

/// The number of line feeds among the first `n` bytes.
pub open spec fn feeds(bytes: Seq<u8>, n: int) -> nat {
    bytes.take(n).filter(|b: u8| b == 10).len()
}

/// An offset, or the end where the offset lies beyond it.
pub open spec fn at_most(bytes: Seq<u8>, offset: int) -> int {
    if offset < bytes.len() {
        offset
    } else {
        bytes.len() as int
    }
}

/// From `start` to `end` stands the line that holds `offset`: no line feed is between,
/// and line feeds or the ends of the text are on both sides.
pub open spec fn is_line_of(bytes: Seq<u8>, offset: int, start: int, end: int) -> bool {
    &&& 0 <= start <= at_most(bytes, offset) <= end <= bytes.len()
    &&& start == 0 || bytes[start - 1] == 10
    &&& end == bytes.len() || bytes[end] == 10
    &&& forall|i: int| start <= i < end ==> #[trigger] bytes[i] != 10
}

proof fn lemma_feeds(bytes: Seq<u8>, n: int)
    requires
        0 <= n <= bytes.len(),
    ensures
        newlines_before(bytes, n) == feeds(bytes, n),
    decreases n,
{
    reveal(Seq::filter);
    if n > 0 {
        lemma_feeds(bytes, n - 1);
        assert(bytes.take(n).drop_last() =~= bytes.take(n - 1));
    }
}

/// The line of an offset is one more than the number of line feeds before it, whatever
/// else the source holds. An offset past the end counts as the end.
pub proof fn law_lines_are_counted_by_line_feeds(bytes: Seq<u8>, offset: int)
    requires
        0 <= offset,
    ensures
        line_number(bytes, offset) == feeds(bytes, at_most(bytes, offset)) + 1,
{
    lemma_feeds(bytes, at_most(bytes, offset));
}

/// Two offsets with no line feed between them are on the same line, and what follows a
/// line feed is on the next.
pub proof fn law_only_line_feeds_end_lines(bytes: Seq<u8>, a: int, b: int)
    requires
        0 <= a <= b <= bytes.len(),
    ensures
        (forall|i: int| a <= i < b ==> #[trigger] bytes[i] != 10) ==> line_number(bytes, a)
            == line_number(bytes, b),
        a < b && bytes[b - 1] == 10 && (forall|i: int| a <= i < b - 1 ==> #[trigger] bytes[i] != 10)
            ==> line_number(bytes, b) == line_number(bytes, a) + 1,
    decreases b - a,
{
    if a < b {
        law_only_line_feeds_end_lines(bytes, a, b - 1);
        assert(newlines_before(bytes, b) == newlines_before(bytes, b - 1) + (if bytes[b - 1] == 10 {
            1nat
        } else {
            0nat
        }));
    }
}

proof fn lemma_line_start_is(bytes: Seq<u8>, start: int, offset: int)
    requires
        0 <= start <= offset <= bytes.len(),
        start == 0 || bytes[start - 1] == 10,
        forall|i: int| start <= i < offset ==> #[trigger] bytes[i] != 10,
    ensures
        line_start(bytes, offset) == start,
    decreases offset,
{
    if offset > start {
        assert(bytes[offset - 1] != 10);
        lemma_line_start_is(bytes, start, offset - 1);
    }
}

proof fn lemma_line_end_is(bytes: Seq<u8>, offset: int, end: int)
    requires
        0 <= offset <= end <= bytes.len(),
        end == bytes.len() || bytes[end] == 10,
        forall|i: int| offset <= i < end ==> #[trigger] bytes[i] != 10,
    ensures
        line_end(bytes, offset) == end,
    decreases end - offset,
{
    if offset < end {
        assert(bytes[offset] != 10);
        lemma_line_end_is(bytes, offset + 1, end);
    }
}

/// The column of an offset is its distance in bytes from the line feed before it, or
/// from the beginning of the source, counted from one; and the line that is shown is
/// all that stands between the line feeds on either side.
pub proof fn law_columns_are_counted_from_the_line_feed(
    bytes: Seq<u8>,
    offset: int,
    start: int,
    end: int,
)
    requires
        0 <= offset,
        is_line_of(bytes, offset, start, end),
    ensures
        column(bytes, offset) == at_most(bytes, offset) - start + 1,
        line_bytes(bytes, offset) == bytes.subrange(start, end),
{
    let o = at_most(bytes, offset);
    assert(clamped(bytes, offset) == o);
    lemma_line_start_is(bytes, start, o);
    lemma_line_end_is(bytes, o, end);
}

/// Every offset is on some line.
pub proof fn law_every_offset_is_on_a_line(bytes: Seq<u8>, offset: int) -> (r: (int, int))
    requires
        0 <= offset,
    ensures
        is_line_of(bytes, offset, r.0, r.1),
{
    let o = at_most(bytes, offset);
    lemma_line_bounds(bytes, o);
    (line_start(bytes, o), line_end(bytes, o))
}

// -----------------------------------------------------------------------------
// Diagnostics
// -----------------------------------------------------------------------------

/// `n` times the character `c`.
pub open spec fn times(c: char, n: int) -> Seq<char> {
    Seq::new(n as nat, |i: int| c)
}

/// A block of a printed diagnostic about the line from `start` to `end` of the source:
/// a leader, an arrow with the place, the line under its number, and the carets below
/// the marked bytes, with a note below where there is one.
pub open spec fn shown_block(
    leader: Seq<char>,
    bytes: Seq<u8>,
    file: Seq<char>,
    span: Span,
    start: int,
    end: int,
    note: Option<Seq<char>>,
) -> Seq<char> {
    let at = at_most(bytes, span.start as int);
    let line = decimal(feeds(bytes, at) + 1);
    let last = if span.end < end {
        span.end as int
    } else {
        end
    };
    let marked = if last - span.start > 1 {
        last - span.start
    } else {
        1
    };
    let margin = times(' ', line.len() as int);
    leader + "\n"@ + margin + " --> "@ + file + ":"@ + line + ":"@ + decimal(
        (at - start + 1) as nat,
    ) + "\n"@ + margin + "  |\n "@ + line + " | "@ + decode_utf8(bytes.subrange(start, end))
        + "\n"@ + margin + "  | "@ + times(' ', at - start) + times('^', marked) + "\n"@ + (
    match note {
        Some(text) => margin + "  |\n"@ + margin + "  = note: "@ + text + "\n"@,
        None => Seq::empty(),
    })
}

proof fn lemma_block(
    leader: Seq<char>,
    bytes: Seq<u8>,
    file: Seq<char>,
    span: Span,
    start: int,
    end: int,
    note: Option<Seq<char>>,
)
    requires
        is_line_of(bytes, span.start as int, start, end),
    ensures
        block_text(leader, span, bytes, file, note) == shown_block(
            leader,
            bytes,
            file,
            span,
            start,
            end,
            note,
        ),
{
    let at = at_most(bytes, span.start as int);
    law_lines_are_counted_by_line_feeds(bytes, span.start as int);
    law_columns_are_counted_from_the_line_feed(bytes, span.start as int, start, end);
    assert(clamped(bytes, span.start as int) == at);
    lemma_line_start_is(bytes, start, at);
    let line = decimal(feeds(bytes, at) + 1);
    let last = if span.end < end {
        span.end as int
    } else {
        end
    };
    let marked = if last - span.start > 1 {
        last - span.start
    } else {
        1
    };
    assert(caret_count(bytes, span) == marked);
    assert(repeated(' ', line.len()) =~= times(' ', line.len() as int));
    assert(repeated(' ', (at - start) as nat) =~= times(' ', at - start));
    assert(repeated('^', marked as nat) =~= times('^', marked));
}

/// A diagnostic without related places is printed as one block that is headed by its
/// category.
pub proof fn law_a_diagnostic_is_printed_as_a_block(
    category: ErrorCategory,
    span: Span,
    note: Option<Seq<char>>,
    bytes: Seq<u8>,
    file: Seq<char>,
    start: int,
    end: int,
)
    requires
        is_line_of(bytes, span.start as int, start, end),
    ensures
        error_text(
            ErrorView { category, span, note, related: Seq::empty() },
            bytes,
            file,
        ) == shown_block(
            "error: "@ + (match category {
                ErrorCategory::ParseError => "parse error"@,
                ErrorCategory::TypeError => "type error"@,
            }),
            bytes,
            file,
            span,
            start,
            end,
            note,
        ),
{
    let leader = "error: "@ + category_text(category);
    lemma_block(leader, bytes, file, span, start, end, note);
    assert(related_text(Seq::empty(), 0, bytes, file) =~= Seq::empty());
    assert(block_text(leader, span, bytes, file, note) + Seq::empty() =~= block_text(
        leader,
        span,
        bytes,
        file,
        note,
    ));
}

proof fn lemma_related_prefix(
    a: Seq<RelatedView>,
    b: Seq<RelatedView>,
    n: nat,
    bytes: Seq<u8>,
    file: Seq<char>,
)
    requires
        n <= a.len(),
        n <= b.len(),
        forall|i: int| 0 <= i < n ==> a[i] == b[i],
    ensures
        related_text(a, n, bytes, file) == related_text(b, n, bytes, file),
    decreases n,
{
    if n > 0 {
        lemma_related_prefix(a, b, (n - 1) as nat, bytes, file);
    }
}

/// One more related place adds one more block at the end, headed by its label and
/// without a note.
pub proof fn law_a_related_place_adds_a_block(
    err: ErrorView,
    more: RelatedView,
    bytes: Seq<u8>,
    file: Seq<char>,
    start: int,
    end: int,
)
    requires
        is_line_of(bytes, more.span.start as int, start, end),
    ensures
        error_text(
            ErrorView { related: err.related.push(more), ..err },
            bytes,
            file,
        ) == error_text(err, bytes, file) + shown_block(
            "note: "@ + more.label,
            bytes,
            file,
            more.span,
            start,
            end,
            None,
        ),
{
    let longer = err.related.push(more);
    let n = err.related.len();
    lemma_related_prefix(longer, err.related, n, bytes, file);
    lemma_block("note: "@ + more.label, bytes, file, more.span, start, end, None);
    let head = block_text(
        "error: "@ + category_text(err.category),
        err.span,
        bytes,
        file,
        err.note,
    );
    let old = related_text(err.related, n, bytes, file);
    let last = block_text("note: "@ + more.label, more.span, bytes, file, None);
    assert(longer[n as int] == more);
    assert(related_text(longer, n + 1, bytes, file) == old + last);
    assert(head + (old + last) =~= head + old + last);
}

/// A source is well-typed exactly if it parses and its expression is accepted with
/// nothing in scope; then its usage and type are shown. Else the error is printed, that
/// of the parser first.
pub proof fn law_the_verdict_shows_the_type_or_the_error(src: Seq<u8>, file: Seq<char>)
    ensures
        ({
            let read = read_source(src);
            let checked = check(read->Ok_0.0, Map::empty(), None, ConsumeMode::Consume);
            &&& verdict(src, file) is Ok <==> read is Ok && checked is Ok
            &&& verdict(src, file) matches Ok(text) ==> text == "well-typed: "@ + ((
            match checked->Ok_0.typed.usage {
                Usage::Linear => "linear"@,
                Usage::Shared => "shared"@,
                Usage::Ordinary => "ordinary"@,
            }) + " "@ + type_text(checked->Ok_0.typed.ty))
            &&& read matches Err(e) ==> verdict(src, file) == Result::<Seq<char>, Seq<char>>::Err(
                error_text(e, src, file),
            )
            &&& read is Ok ==> (checked matches Err(e) ==> verdict(src, file) == Result::<
                Seq<char>,
                Seq<char>,
            >::Err(error_text(e, src, file)))
        }),
{
}

// -----------------------------------------------------------------------------
// Types, numbers, spans and names
// -----------------------------------------------------------------------------

/// A type is written as `int`, as the name of a datatype, or in parentheses; the empty
/// tuple is `()`.
pub proof fn law_simple_types_are_written_out(name: Seq<char>)
    ensures
        type_text(TypeView::Int) == seq!['i', 'n', 't'],
        type_text(TypeView::Datatype { name }) == name,
        type_text(TypeView::Tuple(Seq::empty())) == seq!['(', ')'],
{
    reveal_strlit("int");
    reveal_strlit("(");
    reveal_strlit(")");
    assert(type_text(TypeView::Int) =~= seq!['i', 'n', 't']);
    assert(type_text(TypeView::Tuple(Seq::empty())) =~= seq!['(', ')']);
}

proof fn lemma_fields_prefix(a: Seq<FieldView>, b: Seq<FieldView>, n: nat)
    requires
        n <= a.len(),
        n <= b.len(),
        forall|i: int| 0 <= i < n ==> a[i] == b[i],
    ensures
        fields_text(a, n) == fields_text(b, n),
    decreases n,
{
    if n > 0 {
        lemma_fields_prefix(a, b, (n - 1) as nat);
    }
}

/// One more field of a tuple is written behind the others, with a comma between, as its
/// usage and its type.
pub proof fn law_one_more_field_is_written_last(fields: Seq<FieldView>, more: FieldView)
    ensures
        type_text(TypeView::Tuple(fields.push(more))) == type_text(
            TypeView::Tuple(fields),
        ).drop_last() + (if fields.len() == 0 {
            Seq::empty()
        } else {
            seq![',', ' ']
        }) + (match more.usage {
            Usage::Linear => seq!['l', 'i', 'n', 'e', 'a', 'r'],
            Usage::Shared => seq!['s', 'h', 'a', 'r', 'e', 'd'],
            Usage::Ordinary => seq!['o', 'r', 'd', 'i', 'n', 'a', 'r', 'y'],
        }) + seq![' '] + type_text(more.ty) + seq![')'],
{
    reveal_strlit("(");
    reveal_strlit(")");
    reveal_strlit(", ");
    reveal_strlit(" ");
    law_usages_are_written_out();
    let longer = fields.push(more);
    let n = fields.len();
    lemma_fields_prefix(longer, fields, n);
    assert(longer[n as int] == more);
    let inner = fields_text(fields, n);
    let short = type_text(TypeView::Tuple(fields));
    assert(short.drop_last() =~= "("@ + inner);
    assert(", "@ =~= seq![',', ' ']);
    assert(" "@ =~= seq![' ']);
    assert(")"@ =~= seq![')']);
    let comma = if n == 0 {
        Seq::<char>::empty()
    } else {
        seq![',', ' ']
    };
    assert(fields_text(longer, n + 1) == inner + comma + usage_text(more.usage)
        + seq![' '] + type_text(more.ty));
    assert("("@ + (inner + comma + usage_text(more.usage) + seq![' '] + type_text(more.ty))
        + seq![')'] =~= "("@ + inner + comma + usage_text(more.usage) + seq![' '] + type_text(
        more.ty,
    ) + seq![')']);
}

/// The words for usages and for kinds of errors.
pub proof fn law_usages_are_written_out()
    ensures
        usage_text(Usage::Linear) == seq!['l', 'i', 'n', 'e', 'a', 'r'],
        usage_text(Usage::Shared) == seq!['s', 'h', 'a', 'r', 'e', 'd'],
        usage_text(Usage::Ordinary) == seq!['o', 'r', 'd', 'i', 'n', 'a', 'r', 'y'],
        category_text(ErrorCategory::ParseError) == "parse error"@,
        category_text(ErrorCategory::TypeError) == "type error"@,
{
    reveal_strlit("linear");
    reveal_strlit("shared");
    reveal_strlit("ordinary");
    assert("linear"@ =~= seq!['l', 'i', 'n', 'e', 'a', 'r']);
    assert("shared"@ =~= seq!['s', 'h', 'a', 'r', 'e', 'd']);
    assert("ordinary"@ =~= seq!['o', 'r', 'd', 'i', 'n', 'a', 'r', 'y']);
}

/// A number is written by its digits: a small one by its digit, a greater one as its
/// tenth part with one more digit behind. No number begins with a zero but zero itself.
pub proof fn law_numbers_are_written_in_decimal(n: nat, d: nat)
    requires
        d < 10,
    ensures
        decimal(d) == seq![(48 + d) as char],
        n > 0 ==> decimal(10 * n + d) == decimal(n).push((48 + d) as char),
        n > 0 ==> decimal(n)[0] != '0',
    decreases n,
{
    assert((10 * n + d) / 10 == n && (10 * n + d) % 10 == d as int);
    if n >= 10 {
        law_numbers_are_written_in_decimal(n / 10, d);
        lemma_decimal_nonempty(n / 10);
        assert(decimal(n)[0] == decimal(n / 10)[0]);
    }
}

proof fn lemma_decimal_nonempty(n: nat)
    ensures
        decimal(n).len() > 0,
{
}

/// Joined spans cover both and nothing beyond.
pub proof fn law_a_join_covers_both(a: Span, b: Span)
    ensures
        joined(a, b).start <= a.start,
        joined(a, b).start <= b.start,
        joined(a, b).start == a.start || joined(a, b).start == b.start,
        joined(a, b).end >= a.end,
        joined(a, b).end >= b.end,
        joined(a, b).end == a.end || joined(a, b).end == b.end,
{
}

/// Names come in the order of the alphabet of bytes: a name comes before one that goes
/// on from it, and of two names the smaller character at the first difference decides.
pub proof fn law_names_are_ordered_by_their_first_difference(
    front: Seq<char>,
    x: char,
    y: char,
    s: Seq<char>,
    t: Seq<char>,
)
    requires
        is_ascii_chars(front),
        is_ascii_chars(s),
        is_ascii_chars(t),
        x < y <= '\u{7f}',
    ensures
        name_before(front, front.push(x) + s),
        name_before(front.push(x) + s, front.push(y) + t),
        !name_before(front.push(x) + s, front),
        !name_before(front.push(y) + t, front.push(x) + s),
{
    let a = front.push(x) + s;
    let b = front.push(y) + t;
    assert(is_ascii_chars(a));
    assert(is_ascii_chars(b));
    is_ascii_chars_encode_utf8(front);
    is_ascii_chars_encode_utf8(a);
    is_ascii_chars_encode_utf8(b);
    let (f, p, q) = (encode_utf8(front), encode_utf8(a), encode_utf8(b));
    let k = front.len() as int;
    assert forall|i: int| 0 <= i < k implies f[i] == p[i] && p[i] == q[i] by {
        assert(front[i] as u8 == f[i]);
        assert(a[i] as u8 == p[i]);
        assert(b[i] as u8 == q[i]);
    }
    assert(a[k] as u8 == p[k]);
    assert(b[k] as u8 == q[k]);
    assert(splits_at(f, p, k));
    assert(splits_at(p, q, k));
    assert forall|i: int| !splits_at(p, f, i) by {
        if splits_at(p, f, i) {
            assert(f[i] == p[i]);
        }
    }
    assert forall|i: int| !splits_at(q, p, i) by {
        if splits_at(q, p, i) {
            if i < k {
                assert(p[i] == q[i]);
            } else if i > k {
                assert(q[k] == p[k]);
            }
        }
    }
}

/// Names compare as their encodings do, byte by byte: the shorter comes first where one
/// goes on from the other, and else the smaller byte at the first difference decides.
pub proof fn law_names_compare_by_their_bytes(a: Seq<char>, b: Seq<char>, k: int)
    requires
        0 <= k <= encode_utf8(a).len(),
        k <= encode_utf8(b).len(),
        forall|i: int| 0 <= i < k ==> #[trigger] encode_utf8(a)[i] == encode_utf8(b)[i],
        k == encode_utf8(a).len() || k == encode_utf8(b).len() || encode_utf8(a)[k]
            != encode_utf8(b)[k],
    ensures
        name_before(a, b) <==> k < encode_utf8(b).len() && (k == encode_utf8(a).len()
            || encode_utf8(a)[k] < encode_utf8(b)[k]),
{
    let (x, y) = (encode_utf8(a), encode_utf8(b));
    if k < y.len() && (k == x.len() || x[k] < y[k]) {
        assert(splits_at(x, y, k));
    } else {
        assert forall|i: int| !splits_at(x, y, i) by {
            if splits_at(x, y, i) {
                if i < k {
                    assert(x[i] == y[i]);
                } else if i > k {
                    assert(x[k] == y[k]);
                }
            }
        }
    }
}

/// Where an expression stands is what is recorded in it, whatever its form.
pub proof fn law_an_expression_stands_where_it_is_recorded(expr: ExprView, at: Span)
    ensures
        expr.span() == at <==> match expr {
            ExprView::IntLit { span, .. } => span == at,
            ExprView::Var { span, .. } => span == at,
            ExprView::Add { span, .. } => span == at,
            ExprView::Sequence { span, .. } => span == at,
            ExprView::Let { span, .. } => span == at,
            ExprView::Tuple { span, .. } => span == at,
            ExprView::TupleProj { span, .. } => span == at,
            ExprView::TupleDestructure { span, .. } => span == at,
            ExprView::MethodCall { span, .. } => span == at,
            ExprView::ConstructorApp { span, .. } => span == at,
            ExprView::Match { span, .. } => span == at,
        },
{
}

} // verus!
