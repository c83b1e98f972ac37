//! Hand-written recursive-descent parser.
//!
//! The module [`reading`](crate::reading) says, for every source, what is read and
//! which error is reported; the functions here compute it. The module
//! [`grammar`](crate::grammar) says which sources parse, and to what.

use crate::ast::{
    binder_view, binder_views, expr_views, span_of, Expr, ExprView, Program, Span, Usage,
};
use crate::error::{plain_error, Error, ErrorCategory, ErrorView, NEWLINE};
use crate::grammar::{is_program, law_parsing_is_complete, law_parsing_is_sound};
use crate::lexical::{
    at_token, byte_at, digits_end, digits_value, ident_run_end, int_at, is_digit, is_ident_byte,
    is_ident_start, is_reserved_word, is_space, keyword_at, lemma_digits_end,
    lemma_digits_value_monotonic, lemma_int, lemma_next_line, lemma_skip, lemma_word, next_line,
    skip, word, word_at, word_end, COMMA, DOT, EQUALS, FORM_FEED, LOWER_A, LOWER_Z, LPAREN, MINUS,
    NINE, PLUS, RETURN, RPAREN, SEMICOLON, SLASH, SPACE, TAB, UNDERSCORE, UPPER_A, UPPER_Z, ZERO,
};
use crate::reading::{
    error_here, read_add, read_atom, read_binder, read_binding, read_expr, read_index, read_int,
    read_let, read_more_add, read_more_elems, read_more_names, read_more_proj, read_more_seq,
    read_names, read_paren, read_pattern, read_postfix, read_seq_atom, read_source, read_usage,
    Reading,
};
use crate::text::{all_ascii, ascii_text, is_cut, join3, lemma_ascii_text, same_text, slice_text};
use vstd::prelude::*;
use vstd::string::*;

verus! {

/// Parse a complete program from `source`: a single expression, with no
/// declarations before it.
pub fn parse(source: &str) -> (r: Result<Program, Error>)
    ensures
        match r {
            Ok(program) => {
                &&& read_source(source.spec_bytes()) == Result::<(ExprView, Span), ErrorView>::Ok(
                    (program.main_expr@, program.span),
                )
                &&& program.decls@.len() == 0
                &&& is_program(source.spec_bytes(), program.main_expr@)
            },
            Err(e) => {
                &&& read_source(source.spec_bytes()) == Result::<(ExprView, Span), ErrorView>::Err(
                    e@,
                )
                &&& forall|expr: ExprView| !is_program(source.spec_bytes(), expr)
            },
        },
{
    proof {
        let src = source.spec_bytes();
        law_parsing_is_sound(src);
        assert forall|expr: ExprView| is_program(src, expr) implies read_source(src) is Ok by {
            law_parsing_is_complete(src, expr);
        }
    }
    let mut p = Parser::new(source);
    p.skip_trivia();
    let start = p.pos;
    let main_expr = p.parse_expr()?;
    p.skip_trivia();
    if !p.at_eof() {
        return Err(p.error_here("unexpected trailing input"));
    }
    let span = Span::new(start, p.pos);
    Ok(Program { decls: Vec::new(), main_expr, span })
}

// -----------------------------------------------------------------------------
// Bytes and words
// -----------------------------------------------------------------------------

fn space_byte(b: u8) -> (r: bool)
    ensures
        r == is_space(b),
{
    b == SPACE || b == TAB || b == NEWLINE || b == FORM_FEED || b == RETURN
}

fn digit_byte(b: u8) -> (r: bool)
    ensures
        r == is_digit(b),
{
    ZERO <= b && b <= NINE
}

fn ident_start_byte(b: u8) -> (r: bool)
    ensures
        r == is_ident_start(b),
{
    (LOWER_A <= b && b <= LOWER_Z) || (UPPER_A <= b && b <= UPPER_Z) || b == UNDERSCORE
}

fn ident_byte(b: u8) -> (r: bool)
    ensures
        r == is_ident_byte(b),
{
    ident_start_byte(b) || digit_byte(b)
}

/// Whether `text` is a keyword of the language. Keywords are rejected wherever
/// an identifier is expected, also those that no form of the grammar uses yet.
fn is_reserved(text: &str) -> (r: bool)
    ensures
        r == is_reserved_word(text@),
{
    same_text(text, "let") || same_text(text, "in") || same_text(text, "linear")
        || same_text(text, "shared") || same_text(text, "ordinary") || same_text(text, "method")
        || same_text(text, "returns") || same_text(text, "enum") || same_text(text, "match")
        || same_text(text, "inout") || same_text(text, "int")
}

// -----------------------------------------------------------------------------
// Parser state
// -----------------------------------------------------------------------------

/// A source and a position in it.
struct Parser<'src> {
    source: &'src str,
    src: &'src [u8],
    pos: usize,
}

/// What a parsing function returned, together with the position it left behind,
/// as a reading.
spec fn outcome(r: Result<Expr, Error>, pos: usize) -> Reading<ExprView> {
    match r {
        Ok(e) => Ok((e@, pos as int)),
        Err(e) => Err(e@),
    }
}

impl<'src> Parser<'src> {
    spec fn wf(&self) -> bool {
        &&& self.src@ == self.source.spec_bytes()
        &&& self.pos <= self.src@.len() <= usize::MAX
    }

    /// `self` reads the same source as `other`.
    spec fn same_source(&self, other: &Self) -> bool {
        &&& self.src == other.src
        &&& self.source == other.source
    }

    /// The keyword `let` has just been read; its span is `let_span`.
    spec fn after_let(&self, let_span: Span) -> bool {
        let start = let_span.start as int;
        &&& keyword_at(self.src@, start, "let"@)
        &&& self.pos == word_end(self.src@, start)
        &&& let_span == span_of(start, self.pos as int)
    }

    /// The keyword `let`, whose span is `let_span`, and the trivia after it have
    /// been read.
    spec fn past_let(&self, let_span: Span) -> bool {
        let start = let_span.start as int;
        &&& keyword_at(self.src@, start, "let"@)
        &&& self.pos == skip(self.src@, word_end(self.src@, start))
        &&& let_span == span_of(start, word_end(self.src@, start))
        &&& at_token(self.src@, self.pos as int)
    }

    fn new(source: &'src str) -> (r: Self)
        ensures
            r.wf(),
            r.source == source,
            r.pos == 0,
    {
        let src = source.as_bytes();
        let len = src.len();
        assert(len == src@.len());
        Self { source, src, pos: 0 }
    }

    // -- Position primitives --

    fn at_eof(&self) -> (r: bool)
        ensures
            r == (self.pos >= self.src@.len()),
    {
        self.pos >= self.src.len()
    }

    /// The byte at the current position.
    fn peek(&self) -> (r: Option<u8>)
        ensures
            r == (if self.pos < self.src@.len() {
                Some(self.src@[self.pos as int])
            } else {
                None
            }),
    {
        if self.pos < self.src.len() {
            Some(self.src[self.pos])
        } else {
            None
        }
    }

    /// The byte `offset` bytes after the current position.
    fn peek_at(&self, offset: usize) -> (r: Option<u8>)
        requires
            self.pos + offset <= usize::MAX,
        ensures
            r == (if self.pos + offset < self.src@.len() {
                Some(self.src@[self.pos + offset])
            } else {
                None
            }),
    {
        let at = self.pos + offset;
        if at < self.src.len() {
            Some(self.src[at])
        } else {
            None
        }
    }

    /// Whether the byte `b` stands at the current position.
    fn looking_at(&self, b: u8) -> (r: bool)
        ensures
            r == byte_at(self.src@, self.pos as int, b),
    {
        match self.peek() {
            Some(found) => found == b,
            None => false,
        }
    }

    /// Move past whitespace and comments.
    fn skip_trivia(&mut self)
        requires
            old(self).wf(),
        ensures
            final(self).wf(),
            final(self).same_source(old(self)),
            final(self).pos == skip(old(self).src@, old(self).pos as int),
            old(self).pos <= final(self).pos,
            at_token(final(self).src@, final(self).pos as int),
    {
        let ghost goal = skip(self.src@, self.pos as int);
        proof {
            lemma_skip(self.src@, self.pos as int);
        }
        loop
            invariant
                self.wf(),
                self.same_source(old(self)),
                skip(self.src@, self.pos as int) == goal,
                old(self).pos <= self.pos,
                goal == skip(old(self).src@, old(self).pos as int),
                at_token(self.src@, goal),
            ensures
                self.pos == goal,
            decreases self.src@.len() - self.pos,
        {
            match self.peek() {
                Some(b) => {
                    if space_byte(b) {
                        self.pos = self.pos + 1;
                    } else if b == SLASH && self.peek_at(1) == Some(SLASH) {
                        self.skip_line();
                    } else {
                        break;
                    }
                },
                None => {
                    break;
                },
            }
        }
    }

    /// Move past the end of the current line.
    fn skip_line(&mut self)
        requires
            old(self).wf(),
            old(self).pos < old(self).src@.len(),
        ensures
            final(self).wf(),
            final(self).same_source(old(self)),
            final(self).pos == next_line(old(self).src@, old(self).pos as int),
            old(self).pos < final(self).pos,
    {
        let ghost goal = next_line(self.src@, self.pos as int);
        proof {
            lemma_next_line(self.src@, self.pos as int);
        }
        loop
            invariant_except_break
                next_line(self.src@, self.pos as int) == goal,
            invariant
                self.wf(),
                self.same_source(old(self)),
                goal == next_line(old(self).src@, old(self).pos as int),
                old(self).pos < goal,
            ensures
                self.pos == goal,
            decreases self.src@.len() - self.pos,
        {
            match self.peek() {
                Some(b) => {
                    self.pos = self.pos + 1;
                    if b == NEWLINE {
                        break;
                    }
                },
                None => {
                    break;
                },
            }
        }
    }

    fn error_here(&self, note: &str) -> (r: Error)
        requires
            self.wf(),
        ensures
            r@ == error_here(self.src@, self.pos as int, note@),
    {
        let end = if self.pos < self.src.len() {
            self.pos + 1
        } else {
            self.pos
        };
        Error::new(ErrorCategory::ParseError, Span::new(self.pos, end), Some(note.to_owned()))
    }

    fn error_at(&self, span: Span, note: String) -> (r: Error)
        ensures
            r@ == plain_error(ErrorCategory::ParseError, span, note@),
    {
        Error::new(ErrorCategory::ParseError, span, Some(note))
    }

    // -- Lexing primitives --

    /// The ASCII text between two positions.
    fn text_between(&self, start: usize, end: usize) -> (r: &'src str)
        requires
            self.wf(),
            start < end <= self.src@.len(),
            all_ascii(self.src@.subrange(start as int, end as int)),
        ensures
            r@ == ascii_text(self.src@.subrange(start as int, end as int)),
    {
        proof {
            let part = self.src@.subrange(start as int, end as int);
            assert(part[0] == self.src@[start as int]);
            assert(part[end - start - 1] == self.src@[end - 1]);
            assert(is_cut(self.src@, start as int));
            assert(is_cut(self.src@, end as int));
        }
        let r = slice_text(self.source, start, end);
        proof {
            lemma_ascii_text(r@);
        }
        r
    }

    /// Lex an identifier (or keyword) at the current position. Does not
    /// skip trivia first; callers handle that. On match, advances `pos`.
    /// On non-match, leaves `pos` untouched.
    fn lex_ident(&mut self) -> (r: Option<(&'src str, Span)>)
        requires
            old(self).wf(),
        ensures
            final(self).wf(),
            final(self).same_source(old(self)),
            r is Some <==> word_at(old(self).src@, old(self).pos as int),
            match r {
                Some((text, span)) => {
                    &&& text@ == word(old(self).src@, old(self).pos as int)
                    &&& span == span_of(
                        old(self).pos as int,
                        word_end(old(self).src@, old(self).pos as int),
                    )
                    &&& final(self).pos == word_end(old(self).src@, old(self).pos as int)
                    &&& old(self).pos < final(self).pos
                },
                None => final(self).pos == old(self).pos,
            },
    {
        let start = self.pos;
        match self.peek() {
            Some(first) => {
                if !ident_start_byte(first) {
                    return None;
                }
            },
            None => {
                return None;
            },
        }
        proof {
            lemma_word(self.src@, start as int);
        }
        self.pos = self.pos + 1;
        loop
            invariant
                self.wf(),
                self.same_source(old(self)),
                start < self.pos,
                ident_run_end(self.src@, self.pos as int) == word_end(self.src@, start as int),
            ensures
                self.pos == word_end(self.src@, start as int),
            decreases self.src@.len() - self.pos,
        {
            match self.peek() {
                Some(b) => {
                    if ident_byte(b) {
                        self.pos = self.pos + 1;
                    } else {
                        break;
                    }
                },
                None => {
                    break;
                },
            }
        }
        let text = self.text_between(start, self.pos);
        Some((text, Span::new(start, self.pos)))
    }

    /// The position after the run of digits that begins at `start`.
    fn end_of_digits(&self, start: usize) -> (r: usize)
        requires
            self.wf(),
            start <= self.src@.len(),
        ensures
            r == digits_end(self.src@, start as int),
            start <= r <= self.src@.len(),
    {
        let mut p = start;
        while p < self.src.len() && digit_byte(self.src[p])
            invariant
                start <= p <= self.src@.len(),
                digits_end(self.src@, p as int) == digits_end(self.src@, start as int),
            decreases self.src@.len() - p,
        {
            p += 1;
        }
        p
    }

    /// The number that the digits between `start` and `end` denote, unless it
    /// is greater than `limit`.
    fn bounded_value(&self, start: usize, end: usize, limit: u64) -> (r: Option<u64>)
        requires
            start <= end <= self.src@.len(),
            forall|k: int| start <= k < end ==> is_digit(#[trigger] self.src@[k]),
        ensures
            match r {
                Some(v) => {
                    &&& v == digits_value(self.src@.subrange(start as int, end as int))
                    &&& v <= limit
                },
                None => digits_value(self.src@.subrange(start as int, end as int)) > limit,
            },
    {
        let ghost all = self.src@.subrange(start as int, end as int);
        let mut value: u64 = 0;
        let mut p = start;
        while p < end
            invariant
                start <= p <= end <= self.src@.len(),
                all == self.src@.subrange(start as int, end as int),
                forall|k: int| start <= k < end ==> is_digit(#[trigger] self.src@[k]),
                value <= limit,
                value == digits_value(all.take(p - start)),
            decreases end - p,
        {
            let digit = self.src[p] - ZERO;
            let ghost longer = all.take(p + 1 - start);
            proof {
                assert(longer.drop_last() =~= all.take(p - start));
                assert(longer.last() == self.src@[p as int]);
                lemma_digits_value_monotonic(all, p + 1 - start);
            }
            let next = value as u128 * 10 + digit as u128;
            if next > limit as u128 {
                return None;
            }
            value = next as u64;
            p += 1;
        }
        assert(all.take(p - start) =~= all);
        Some(value)
    }

    /// Lex an integer literal (`-?[0-9]+`). Returns `Ok(None)` if there is
    /// no integer here (without advancing); returns `Err` if digits parse
    /// but overflow `i64`, without advancing either.
    ///
    /// A leading `-` is part of the literal: the language has no `-` operator,
    /// so there is no ambiguity.
    fn lex_int(&mut self) -> (r: Result<Option<(i64, Span)>, Error>)
        requires
            old(self).wf(),
        ensures
            final(self).wf(),
            final(self).same_source(old(self)),
            r is Ok && r->Ok_0 is None <==> !int_at(old(self).src@, old(self).pos as int),
            match r {
                Ok(None) => final(self).pos == old(self).pos,
                Ok(Some((value, span))) => {
                    &&& read_int(old(self).src@, old(self).pos as int) == Reading::Ok(
                        (ExprView::IntLit { value, span }, final(self).pos as int),
                    )
                    &&& old(self).pos < final(self).pos
                },
                Err(e) => {
                    &&& read_int(old(self).src@, old(self).pos as int) == Reading::<ExprView>::Err(
                        e@,
                    )
                    &&& final(self).pos == old(self).pos
                },
            },
    {
        let start = self.pos;
        let negative = self.looking_at(MINUS);
        let digits = if negative {
            start + 1
        } else {
            start
        };
        if digits >= self.src.len() || !digit_byte(self.src[digits]) {
            return Ok(None);
        }
        let end = self.end_of_digits(digits);
        proof {
            lemma_int(self.src@, start as int);
        }
        let limit: u64 = if negative {
            0x8000_0000_0000_0000
        } else {
            0x7fff_ffff_ffff_ffff
        };
        let span = Span::new(start, end);
        match self.bounded_value(digits, end, limit) {
            Some(magnitude) => {
                let value: i64 = if !negative {
                    magnitude as i64
                } else if magnitude == 0x8000_0000_0000_0000 {
                    i64::MIN
                } else {
                    -(magnitude as i64)
                };
                self.pos = end;
                Ok(Some((value, span)))
            },
            None => {
                let text = self.text_between(start, end);
                let note = join3("integer literal `", text, "` does not fit in i64");
                Err(Error::new(ErrorCategory::ParseError, span, Some(note)))
            },
        }
    }

    /// Lex a non-negative integer (used for tuple projection indices like
    /// `e.0`). Errors out if no digits or if the value doesn't fit `usize`.
    fn lex_nonneg_int(&mut self) -> (r: Result<(usize, Span), Error>)
        requires
            old(self).wf(),
        ensures
            final(self).wf(),
            final(self).same_source(old(self)),
            match r {
                Ok((value, span)) => {
                    &&& read_index(old(self).src@, old(self).pos as int) == Reading::Ok(
                        (value, final(self).pos as int),
                    )
                    &&& span == span_of(old(self).pos as int, final(self).pos as int)
                    &&& old(self).pos < final(self).pos
                },
                Err(e) => {
                    &&& read_index(old(self).src@, old(self).pos as int) == Reading::<usize>::Err(
                        e@,
                    )
                    &&& final(self).pos == digits_end(old(self).src@, old(self).pos as int)
                },
            },
    {
        let start = self.pos;
        if start >= self.src.len() || !digit_byte(self.src[start]) {
            return Err(self.error_here("expected non-negative integer index"));
        }
        let end = self.end_of_digits(start);
        proof {
            lemma_digits_end(self.src@, start as int);
        }
        self.pos = end;
        let span = Span::new(start, end);
        match self.bounded_value(start, end, usize::MAX as u64) {
            Some(value) => Ok((value as usize, span)),
            None => {
                let text = self.text_between(start, end);
                let note = join3("tuple index `", text, "` does not fit in usize");
                Err(Error::new(ErrorCategory::ParseError, span, Some(note)))
            },
        }
    }

    /// Try to consume the keyword `kw`. Requires that the keyword be
    /// followed by a non-identifier character (so `inertia` doesn't match
    /// `in`).
    fn try_keyword(&mut self, kw: &str) -> (r: Option<Span>)
        requires
            old(self).wf(),
        ensures
            final(self).wf(),
            final(self).same_source(old(self)),
            r is Some <==> keyword_at(old(self).src@, old(self).pos as int, kw@),
            match r {
                Some(span) => {
                    &&& final(self).pos == word_end(old(self).src@, old(self).pos as int)
                    &&& span == span_of(old(self).pos as int, final(self).pos as int)
                    &&& old(self).pos < final(self).pos
                },
                None => final(self).pos == old(self).pos,
            },
    {
        let saved = self.pos;
        match self.lex_ident() {
            Some((text, span)) => if same_text(text, kw) {
                Some(span)
            } else {
                self.pos = saved;
                None
            },
            None => None,
        }
    }

    /// Try to consume a single ASCII byte token, returning its span.
    fn try_byte(&mut self, b: u8) -> (r: Option<Span>)
        requires
            old(self).wf(),
        ensures
            final(self).wf(),
            final(self).same_source(old(self)),
            r is Some <==> byte_at(old(self).src@, old(self).pos as int, b),
            match r {
                Some(span) => {
                    &&& final(self).pos == old(self).pos + 1
                    &&& span == span_of(old(self).pos as int, old(self).pos + 1)
                },
                None => final(self).pos == old(self).pos,
            },
    {
        if self.looking_at(b) {
            let span = Span::new(self.pos, self.pos + 1);
            self.pos = self.pos + 1;
            Some(span)
        } else {
            None
        }
    }

    // -- Grammar --

    fn parse_expr(&mut self) -> (r: Result<Expr, Error>)
        requires
            old(self).wf(),
        ensures
            final(self).wf(),
            final(self).same_source(old(self)),
            outcome(r, final(self).pos) == read_expr(
                old(self).src@,
                skip(old(self).src@, old(self).pos as int),
            ),
            r is Ok ==> old(self).pos <= skip(old(self).src@, old(self).pos as int)
                < final(self).pos,
        decreases old(self).src@.len() - old(self).pos, 7nat,
    {
        self.parse_seq_expr()
    }

    /// `seq_expr ::= seq_atom (';' seq_atom)*` — left-associative.
    fn parse_seq_expr(&mut self) -> (r: Result<Expr, Error>)
        requires
            old(self).wf(),
        ensures
            final(self).wf(),
            final(self).same_source(old(self)),
            outcome(r, final(self).pos) == read_expr(
                old(self).src@,
                skip(old(self).src@, old(self).pos as int),
            ),
            r is Ok ==> old(self).pos <= skip(old(self).src@, old(self).pos as int)
                < final(self).pos,
        decreases old(self).src@.len() - old(self).pos, 6nat,
    {
        let ghost start = skip(self.src@, self.pos as int);
        let mut lhs = self.parse_seq_atom()?;
        loop
            invariant_except_break
                read_more_seq(self.src@, lhs@, self.pos as int) == read_expr(self.src@, start),
            invariant
                self.wf(),
                self.same_source(old(self)),
                start == skip(old(self).src@, old(self).pos as int),
                old(self).pos <= start < self.pos,
            ensures
                read_expr(self.src@, start) == Reading::<ExprView>::Ok((lhs@, self.pos as int)),
            decreases self.src@.len() - self.pos,
        {
            self.skip_trivia();
            if self.try_byte(SEMICOLON).is_none() {
                break;
            }
            self.skip_trivia();
            let rhs = self.parse_seq_atom()?;
            let span = lhs.span().join(rhs.span());
            lhs = Expr::Sequence { first: Box::new(lhs), second: Box::new(rhs), span };
        }
        Ok(lhs)
    }

    /// `seq_atom` is either a `let` form or an `add_expr`. Splitting the
    /// `let` cases out at this level (rather than at `expr`) is what gives
    /// `let extends as far right as possible` and `1 ; let X in 2` both
    /// the right behaviour.
    fn parse_seq_atom(&mut self) -> (r: Result<Expr, Error>)
        requires
            old(self).wf(),
        ensures
            final(self).wf(),
            final(self).same_source(old(self)),
            outcome(r, final(self).pos) == read_seq_atom(
                old(self).src@,
                skip(old(self).src@, old(self).pos as int),
            ),
            r is Ok ==> old(self).pos <= skip(old(self).src@, old(self).pos as int)
                < final(self).pos,
        decreases old(self).src@.len() - old(self).pos, 5nat,
    {
        self.skip_trivia();
        match self.try_keyword("let") {
            Some(let_span) => self.parse_let_tail(let_span),
            None => self.parse_add_expr(),
        }
    }

    /// Dispatch on what follows `let`:
    /// - `(` → tuple deconstruction `let (x1, ..., xn) = e1 in e2`
    /// - usage keyword → variable let `let u x = e1 in e2`
    fn parse_let_tail(&mut self, let_span: Span) -> (r: Result<Expr, Error>)
        requires
            old(self).wf(),
            old(self).after_let(let_span),
        ensures
            final(self).wf(),
            final(self).same_source(old(self)),
            outcome(r, final(self).pos) == read_let(old(self).src@, let_span.start as int),
            r is Ok ==> old(self).pos < final(self).pos,
        decreases old(self).src@.len() - old(self).pos, 6nat,
    {
        self.skip_trivia();
        if self.looking_at(LPAREN) {
            self.parse_let_destructure_tail(let_span)
        } else {
            self.parse_let_var_tail(let_span)
        }
    }

    fn parse_let_var_tail(&mut self, let_span: Span) -> (r: Result<Expr, Error>)
        requires
            old(self).wf(),
            old(self).past_let(let_span),
            !byte_at(old(self).src@, old(self).pos as int, LPAREN),
        ensures
            final(self).wf(),
            final(self).same_source(old(self)),
            outcome(r, final(self).pos) == read_let(old(self).src@, let_span.start as int),
            r is Ok ==> old(self).pos < final(self).pos,
        decreases old(self).src@.len() - old(self).pos, 5nat,
    {
        let usage = self.parse_usage()?;
        self.skip_trivia();
        let (name, name_span) = self.parse_binder()?;
        self.skip_trivia();
        let (value, body) = self.parse_binding(
            "expected `=` after let-binding name",
            "expected `in` after let-binding value",
        )?;
        let span = let_span.join(body.span());
        Ok(
            Expr::Let {
                usage,
                name,
                name_span,
                value: Box::new(value),
                body: Box::new(body),
                span,
            },
        )
    }

    /// The usage keyword of a `let`.
    fn parse_usage(&mut self) -> (r: Result<Usage, Error>)
        requires
            old(self).wf(),
        ensures
            final(self).wf(),
            final(self).same_source(old(self)),
            match r {
                Ok(usage) => {
                    &&& read_usage(old(self).src@, old(self).pos as int) == Reading::Ok(
                        (usage, final(self).pos as int),
                    )
                    &&& old(self).pos < final(self).pos
                },
                Err(e) => {
                    &&& read_usage(old(self).src@, old(self).pos as int) == Reading::<
                        Usage,
                    >::Err(e@)
                    &&& final(self).pos == (if word_at(old(self).src@, old(self).pos as int) {
                        word_end(old(self).src@, old(self).pos as int)
                    } else {
                        old(self).pos as int
                    })
                },
            },
    {
        if self.try_keyword("ordinary").is_some() {
            return Ok(Usage::Ordinary);
        }
        if self.try_keyword("linear").is_some() {
            return Ok(Usage::Linear);
        }
        // Look at the offender for a targeted error.
        match self.lex_ident() {
            Some((kw_text, kw_span)) => {
                let note = if same_text(kw_text, "shared") {
                    "`shared` will be supported in Phase 2 alongside borrowing".to_owned()
                } else {
                    join3(
                        "expected `ordinary`, `linear`, or `(` after `let`, found `",
                        kw_text,
                        "`",
                    )
                };
                Err(self.error_at(kw_span, note))
            },
            None => Err(self.error_here("expected `ordinary`, `linear`, or `(` after `let`")),
        }
    }

    /// Parse `let (x1, ..., xn) = e1 in e2`, where the next byte is `(`.
    fn parse_let_destructure_tail(&mut self, let_span: Span) -> (r: Result<Expr, Error>)
        requires
            old(self).wf(),
            old(self).past_let(let_span),
            byte_at(old(self).src@, old(self).pos as int, LPAREN),
        ensures
            final(self).wf(),
            final(self).same_source(old(self)),
            outcome(r, final(self).pos) == read_let(old(self).src@, let_span.start as int),
            r is Ok ==> old(self).pos < final(self).pos,
        decreases old(self).src@.len() - old(self).pos, 5nat,
    {
        let names = self.parse_pattern()?;
        self.skip_trivia();
        let (value, body) = self.parse_binding(
            "expected `=` after deconstruction pattern",
            "expected `in` after deconstruction value",
        )?;
        let span = let_span.join(body.span());
        Ok(
            Expr::TupleDestructure {
                names,
                value: Box::new(value),
                body: Box::new(body),
                span,
            },
        )
    }

    /// The deconstruction pattern `(x1, ..., xn)` whose `(` is the next byte.
    fn parse_pattern(&mut self) -> (r: Result<Vec<(String, Span)>, Error>)
        requires
            old(self).wf(),
            byte_at(old(self).src@, old(self).pos as int, LPAREN),
        ensures
            final(self).wf(),
            final(self).same_source(old(self)),
            match r {
                Ok(names) => {
                    &&& read_pattern(old(self).src@, old(self).pos as int) == Reading::Ok(
                        (binder_views(names@), final(self).pos as int),
                    )
                    &&& old(self).pos < final(self).pos
                },
                Err(e) => read_pattern(old(self).src@, old(self).pos as int) == Reading::<
                    Seq<(Seq<char>, Span)>,
                >::Err(e@),
            },
    {
        let ghost start = self.pos as int;
        self.pos = self.pos + 1;
        self.skip_trivia();
        let mut names: Vec<(String, Span)> = Vec::new();
        if !self.looking_at(RPAREN) {
            let binder = self.parse_binder()?;
            names.push(binder);
            assert(binder_views(names@) =~= seq![binder_view(binder)]);
            loop
                invariant_except_break
                    read_more_names(self.src@, binder_views(names@), self.pos as int)
                        == read_names(self.src@, start),
                invariant
                    self.wf(),
                    self.same_source(old(self)),
                    start == old(self).pos,
                    start < self.pos,
                ensures
                    read_names(self.src@, start) == Reading::<Seq<(Seq<char>, Span)>>::Ok(
                        (binder_views(names@), self.pos as int),
                    ),
                decreases self.src@.len() - self.pos,
            {
                self.skip_trivia();
                if self.try_byte(COMMA).is_none() {
                    break;
                }
                self.skip_trivia();
                if self.looking_at(RPAREN) {
                    return Err(
                        self.error_here(
                            "trailing commas in deconstruction patterns are not supported",
                        ),
                    );
                }
                let ghost before = binder_views(names@);
                let binder = self.parse_binder()?;
                names.push(binder);
                assert(binder_views(names@) =~= before.push(binder_view(binder)));
            }
        } else {
            assert(binder_views(names@) =~= Seq::empty());
        }
        if self.try_byte(RPAREN).is_none() {
            return Err(self.error_here("expected `)` to close deconstruction pattern"));
        }
        // The language has no 1-tuple type for such a pattern to match. Catching
        // it here gives a clearer message than the type checker's arity mismatch.
        if names.len() == 1 {
            return Err(
                self.error_at(
                    names[0].1,
                    "1-element deconstruction patterns are not supported (no 1-tuples in the language)".to_owned(),
                ),
            );
        }
        Ok(names)
    }

    /// `'=' expr 'in' expr`: the value and the body of a `let`. The notes are
    /// those of the errors where `=` or `in` does not stand.
    fn parse_binding(&mut self, no_equals: &str, no_in: &str) -> (r: Result<(Expr, Expr), Error>)
        requires
            old(self).wf(),
            at_token(old(self).src@, old(self).pos as int),
        ensures
            final(self).wf(),
            final(self).same_source(old(self)),
            match r {
                Ok((value, body)) => {
                    &&& read_binding(old(self).src@, old(self).pos as int, no_equals@, no_in@)
                        == Reading::Ok(((value@, body@), final(self).pos as int))
                    &&& old(self).pos < final(self).pos
                },
                Err(e) => read_binding(old(self).src@, old(self).pos as int, no_equals@, no_in@)
                    == Reading::<(ExprView, ExprView)>::Err(e@),
            },
        decreases old(self).src@.len() - old(self).pos, 4nat,
    {
        if self.try_byte(EQUALS).is_none() {
            return Err(self.error_here(no_equals));
        }
        self.skip_trivia();
        let value = self.parse_expr()?;
        self.skip_trivia();
        if self.try_keyword("in").is_none() {
            return Err(self.error_here(no_in));
        }
        self.skip_trivia();
        let body = self.parse_expr()?;
        Ok((value, body))
    }

    /// `add_expr ::= postfix ('+' postfix)*` — left-associative.
    fn parse_add_expr(&mut self) -> (r: Result<Expr, Error>)
        requires
            old(self).wf(),
        ensures
            final(self).wf(),
            final(self).same_source(old(self)),
            outcome(r, final(self).pos) == read_add(
                old(self).src@,
                skip(old(self).src@, old(self).pos as int),
            ),
            r is Ok ==> old(self).pos <= skip(old(self).src@, old(self).pos as int)
                < final(self).pos,
        decreases old(self).src@.len() - old(self).pos, 3nat,
    {
        let ghost start = skip(self.src@, self.pos as int);
        self.skip_trivia();
        let mut lhs = self.parse_postfix()?;
        loop
            invariant_except_break
                read_more_add(self.src@, lhs@, self.pos as int) == read_add(self.src@, start),
            invariant
                self.wf(),
                self.same_source(old(self)),
                start == skip(old(self).src@, old(self).pos as int),
                old(self).pos <= start < self.pos,
            ensures
                read_add(self.src@, start) == Reading::<ExprView>::Ok((lhs@, self.pos as int)),
            decreases self.src@.len() - self.pos,
        {
            self.skip_trivia();
            if self.try_byte(PLUS).is_none() {
                break;
            }
            self.skip_trivia();
            let rhs = self.parse_postfix()?;
            let span = lhs.span().join(rhs.span());
            lhs = Expr::Add { lhs: Box::new(lhs), rhs: Box::new(rhs), span };
        }
        Ok(lhs)
    }

    /// `postfix ::= atom ('.' nonneg_int)*` — left-associative tuple
    /// projection. Whitespace around `.` is permitted and behaves like
    /// trivia between any other tokens.
    fn parse_postfix(&mut self) -> (r: Result<Expr, Error>)
        requires
            old(self).wf(),
        ensures
            final(self).wf(),
            final(self).same_source(old(self)),
            outcome(r, final(self).pos) == read_postfix(
                old(self).src@,
                skip(old(self).src@, old(self).pos as int),
            ),
            r is Ok ==> old(self).pos <= skip(old(self).src@, old(self).pos as int)
                < final(self).pos,
        decreases old(self).src@.len() - old(self).pos, 2nat,
    {
        let ghost start = skip(self.src@, self.pos as int);
        let mut expr = self.parse_atom()?;
        loop
            invariant_except_break
                read_more_proj(self.src@, expr@, self.pos as int) == read_postfix(self.src@, start),
            invariant
                self.wf(),
                self.same_source(old(self)),
                start == skip(old(self).src@, old(self).pos as int),
                old(self).pos <= start < self.pos,
            ensures
                read_postfix(self.src@, start) == Reading::<ExprView>::Ok((expr@, self.pos as int)),
            decreases self.src@.len() - self.pos,
        {
            self.skip_trivia();
            if self.try_byte(DOT).is_none() {
                break;
            }
            self.skip_trivia();
            let (index, idx_span) = self.lex_nonneg_int()?;
            let span = expr.span().join(idx_span);
            expr = Expr::TupleProj { tuple: Box::new(expr), index, span };
        }
        Ok(expr)
    }

    fn parse_atom(&mut self) -> (r: Result<Expr, Error>)
        requires
            old(self).wf(),
        ensures
            final(self).wf(),
            final(self).same_source(old(self)),
            outcome(r, final(self).pos) == read_atom(
                old(self).src@,
                skip(old(self).src@, old(self).pos as int),
            ),
            r is Ok ==> old(self).pos <= skip(old(self).src@, old(self).pos as int)
                < final(self).pos,
            r is Err && !byte_at(
                old(self).src@,
                skip(old(self).src@, old(self).pos as int),
                LPAREN,
            ) ==> final(self).pos == skip(old(self).src@, old(self).pos as int),
        decreases old(self).src@.len() - old(self).pos, 1nat,
    {
        self.skip_trivia();
        match self.lex_int()? {
            Some((value, span)) => {
                return Ok(Expr::IntLit { value, span });
            },
            None => {},
        }
        match self.try_byte(LPAREN) {
            Some(open_span) => {
                return self.parse_paren_body(open_span);
            },
            None => {},
        }
        // Identifier or reserved keyword; a keyword is not consumed.
        let saved = self.pos;
        match self.lex_ident() {
            Some((text, span)) => {
                if is_reserved(text) {
                    self.pos = saved;
                    let note = join3(
                        "`",
                        text,
                        "` is a reserved keyword and cannot appear here",
                    );
                    return Err(self.error_at(span, note));
                }
                Ok(Expr::Var { name: text.to_owned(), span })
            },
            None => Err(self.error_here("expected expression")),
        }
    }

    /// After consuming `(`, decide between empty tuple, grouping, or
    /// tuple construction based on what follows.
    fn parse_paren_body(&mut self, open_span: Span) -> (r: Result<Expr, Error>)
        requires
            old(self).wf(),
            byte_at(old(self).src@, open_span.start as int, LPAREN),
            open_span == span_of(open_span.start as int, old(self).pos as int),
            old(self).pos == open_span.start + 1,
        ensures
            final(self).wf(),
            final(self).same_source(old(self)),
            outcome(r, final(self).pos) == read_paren(old(self).src@, open_span.start as int),
            r is Ok ==> old(self).pos < final(self).pos,
        decreases old(self).src@.len() - old(self).pos, 8nat,
    {
        self.skip_trivia();

        // `()` — empty tuple.
        if let Some(close_span) = self.try_byte(RPAREN) {
            let span = open_span.join(close_span);
            let elems: Vec<Expr> = Vec::new();
            let r = Expr::Tuple { elems, span };
            assert(r@->Tuple_elems =~= Seq::empty());
            return Ok(r);
        }
        let first = self.parse_expr()?;

        self.skip_trivia();
        // `(e)` — grouping. The inner expression keeps its own span;
        // grouping is invisible in the AST.
        if self.try_byte(RPAREN).is_some() {
            return Ok(first);
        }
        // `(e1, e2, ...)` — tuple. Anything else is a parse error.
        if !self.looking_at(COMMA) {
            return Err(self.error_here("expected `,` or `)` in parenthesised expression"));
        }
        let elems = self.parse_more_elems(first)?;
        let span = Span::new(open_span.start, self.pos);
        let r = Expr::Tuple { elems, span };
        assert(r@->Tuple_elems =~= expr_views(elems@));
        Ok(r)
    }

    /// `(',' expr)+ ')'` after the first element of a tuple.
    fn parse_more_elems(&mut self, first: Expr) -> (r: Result<Vec<Expr>, Error>)
        requires
            old(self).wf(),
            byte_at(old(self).src@, old(self).pos as int, COMMA),
        ensures
            final(self).wf(),
            final(self).same_source(old(self)),
            match r {
                Ok(elems) => {
                    &&& read_more_elems(old(self).src@, seq![first@], old(self).pos as int)
                        == Reading::Ok((expr_views(elems@), final(self).pos as int))
                    &&& old(self).pos < final(self).pos
                },
                Err(e) => read_more_elems(old(self).src@, seq![first@], old(self).pos as int)
                    == Reading::<Seq<ExprView>>::Err(e@),
            },
        decreases old(self).src@.len() - old(self).pos, 8nat,
    {
        let ghost comma = self.pos as int;
        let ghost firsts = seq![first@];
        let mut elems: Vec<Expr> = vec![first];
        assert(expr_views(elems@) =~= firsts);
        loop
            invariant_except_break
                byte_at(self.src@, self.pos as int, COMMA),
                read_more_elems(self.src@, expr_views(elems@), self.pos as int) == read_more_elems(
                    self.src@,
                    firsts,
                    comma,
                ),
            invariant
                self.wf(),
                self.same_source(old(self)),
                comma == old(self).pos,
                comma <= self.pos,
                firsts == seq![first@],
            ensures
                old(self).pos < self.pos,
                read_more_elems(self.src@, firsts, comma) == (if byte_at(
                    self.src@,
                    self.pos as int,
                    RPAREN,
                ) {
                    Reading::<Seq<ExprView>>::Ok((expr_views(elems@), self.pos + 1))
                } else {
                    Err(error_here(self.src@, self.pos as int, "expected `)` to close tuple"@))
                }),
            decreases self.src@.len() - self.pos,
        {
            self.pos = self.pos + 1;
            self.skip_trivia();
            if self.looking_at(RPAREN) {
                // A comma stands before this, so this is either a
                // singleton tuple (`(e,)`) or a trailing comma after a
                // longer tuple (`(e1, e2,)`). Both are unsupported.
                return Err(
                    self.error_here(
                        "trailing commas in tuples are not supported (singleton tuples are not a thing)",
                    ),
                );
            }
            let ghost before = expr_views(elems@);
            let next = self.parse_expr()?;
            elems.push(next);
            assert(expr_views(elems@) =~= before.push(next@));
            self.skip_trivia();
            if !self.looking_at(COMMA) {
                break;
            }
        }
        if self.try_byte(RPAREN).is_none() {
            return Err(self.error_here("expected `)` to close tuple"));
        }
        Ok(elems)
    }

    fn parse_binder(&mut self) -> (r: Result<(String, Span), Error>)
        requires
            old(self).wf(),
        ensures
            final(self).wf(),
            final(self).same_source(old(self)),
            match r {
                Ok(binder) => {
                    &&& read_binder(old(self).src@, old(self).pos as int) == Reading::Ok(
                        (binder_view(binder), final(self).pos as int),
                    )
                    &&& old(self).pos < final(self).pos
                },
                Err(e) => {
                    &&& read_binder(old(self).src@, old(self).pos as int) == Reading::<
                        (Seq<char>, Span),
                    >::Err(e@)
                    &&& final(self).pos == (if word_at(old(self).src@, old(self).pos as int) {
                        word_end(old(self).src@, old(self).pos as int)
                    } else {
                        old(self).pos as int
                    })
                },
            },
    {
        match self.lex_ident() {
            Some((text, span)) => {
                if is_reserved(text) {
                    let note = join3(
                        "`",
                        text,
                        "` is a reserved keyword and cannot be used as a binder",
                    );
                    Err(self.error_at(span, note))
                } else {
                    Ok((text.to_owned(), span))
                }
            },
            None => Err(self.error_here("expected identifier")),
        }
    }
}

} // verus!
