//! A reader for a Clojure-flavoured s-expression dialect.
//!
//! The reader turns a source string into immutable values, each paired with the
//! inclusive byte range it occupies in the source.
//!
//! - [`symbol`], [`keyword`], [`value`], [`equality`]: the values.
//! - [`grammar`]: what a read produces, defined once, as mathematical
//!   functions on character sequences.
//! - [`char_reader`]: the cursor and the executable reader, proved to compute
//!   exactly what the grammar defines.
//! - [`laws`] and [`roundtrip`]: what holds of every read, proved from the
//!   grammar; [`progress`], [`locality`] and [`insertion`] hold the lemmas
//!   that these proofs rest on.
//! - [`offsets`], [`text`]: byte offsets in UTF-8 text, and the building of
//!   text.
//! - [`runtime`]: pieces of the runtime tier.

use vstd::prelude::*;

pub mod symbol;
pub mod keyword;
pub mod value;
pub mod equality;
pub mod offsets;
pub mod text;
pub mod grammar;
pub mod char_reader;
pub mod progress;
pub mod locality;
pub mod insertion;
pub mod laws;
pub mod roundtrip;
pub mod runtime;

use crate::char_reader::{follows, read_view, CharReader, CursorView};
use crate::grammar::{
    char_at_is, comment_end, read_keyword, read_list, read_map, read_one, read_set, read_string,
    read_symbol, read_vect, symbol_form,
};
use crate::value::Value;

verus! {

pub type BeginByteIdx = usize;

/// Inclusive: use `..=` when slicing.
pub type EndByteIdx = usize;

pub type ByteIndexSpan = (BeginByteIdx, EndByteIdx);

/// Some data together with the region of the source it was read from.
#[derive(Debug, Clone)]
pub struct WithSpan<S, D> {
    pub span: S,
    pub data: D,
}

pub type ReadInput<'input, T, Span> = WithSpan<Span, &'input T>;

pub type SpanValue = WithSpan<ByteIndexSpan, Value>;

pub type ReadOutput = Option<SpanValue>;

pub type ReadResult = Result<ReadOutput, ReadError>;

impl WithSpan<ByteIndexSpan, Value> {
    pub fn span(self) -> (s: ByteIndexSpan)
        ensures
            s == self.span,
    {
        self.span
    }

    pub fn data(self) -> (v: Value)
        ensures
            v == self.data,
    {
        self.data
    }
}

/// A reader of forms: a cursor over a source, from which forms are read one
/// after another as the grammar says.
pub trait ReadClj {
    /// The source and the position of the cursor.
    spec fn cursor(&self) -> CursorView;

    /// Reads one form, passing over whitespace, comments and discarded forms.
    fn try_read_one(&mut self) -> (r: ReadResult)
        ensures
            follows(
                old(self).cursor(),
                final(self).cursor(),
                read_view(r),
                read_one(old(self).cursor().chars, old(self).cursor().pos),
            ),
    ;

    /// Reads the comment that begins under the cursor.
    fn try_read_comment(&mut self) -> (r: ReadResult)
        requires
            char_at_is(old(self).cursor().chars, old(self).cursor().pos, ';'),
        ensures
            r == Ok::<Option<SpanValue>, ReadError>(None),
            final(self).cursor() == old(self).cursor().moved_to(
                comment_end(old(self).cursor().chars, old(self).cursor().pos),
            ),
    ;

    /// Reads the symbol under the cursor.
    fn try_read_symbol(&mut self) -> (r: ReadResult)
        ensures
            follows(
                old(self).cursor(),
                final(self).cursor(),
                read_view(r),
                symbol_form(read_symbol(old(self).cursor().chars, old(self).cursor().pos)),
            ),
    ;

    /// Reads the keyword whose first colon stands under the cursor.
    fn try_read_keyword(&mut self) -> (r: ReadResult)
        requires
            char_at_is(old(self).cursor().chars, old(self).cursor().pos, ':'),
        ensures
            follows(
                old(self).cursor(),
                final(self).cursor(),
                read_view(r),
                read_keyword(old(self).cursor().chars, old(self).cursor().pos),
            ),
    ;

    /// Reads the string whose opening quote stands under the cursor.
    fn try_read_string(&mut self) -> (r: ReadResult)
        requires
            char_at_is(old(self).cursor().chars, old(self).cursor().pos, '"'),
        ensures
            follows(
                old(self).cursor(),
                final(self).cursor(),
                read_view(r),
                read_string(old(self).cursor().chars, old(self).cursor().pos),
            ),
    ;

    /// Reads the list whose `(` stands under the cursor.
    fn try_read_list(&mut self) -> (r: ReadResult)
        requires
            char_at_is(old(self).cursor().chars, old(self).cursor().pos, '('),
        ensures
            follows(
                old(self).cursor(),
                final(self).cursor(),
                read_view(r),
                read_list(old(self).cursor().chars, old(self).cursor().pos),
            ),
    ;

    /// Reads the vector whose `[` stands under the cursor.
    fn try_read_vect(&mut self) -> (r: ReadResult)
        requires
            char_at_is(old(self).cursor().chars, old(self).cursor().pos, '['),
        ensures
            follows(
                old(self).cursor(),
                final(self).cursor(),
                read_view(r),
                read_vect(old(self).cursor().chars, old(self).cursor().pos),
            ),
    ;

    /// Reads the set whose `#` stands under the cursor, with `{` behind it.
    fn try_read_set(&mut self) -> (r: ReadResult)
        requires
            char_at_is(old(self).cursor().chars, old(self).cursor().pos, '#'),
            char_at_is(old(self).cursor().chars, old(self).cursor().pos + 1, '{'),
        ensures
            follows(
                old(self).cursor(),
                final(self).cursor(),
                read_view(r),
                read_set(old(self).cursor().chars, old(self).cursor().pos),
            ),
    ;

    /// Reads the map whose `{` stands under the cursor.
    fn try_read_map(&mut self) -> (r: ReadResult)
        requires
            char_at_is(old(self).cursor().chars, old(self).cursor().pos, '{'),
        ensures
            follows(
                old(self).cursor(),
                final(self).cursor(),
                read_view(r),
                read_map(old(self).cursor().chars, old(self).cursor().pos),
            ),
    ;
}

impl<'i> ReadClj for CharReader<'i> {
    open spec fn cursor(&self) -> CursorView {
        self@
    }

    fn try_read_one(&mut self) -> (r: ReadResult) {
        CharReader::try_read_one(self)
    }

    fn try_read_comment(&mut self) -> (r: ReadResult) {
        CharReader::try_read_comment(self)
    }

    fn try_read_symbol(&mut self) -> (r: ReadResult) {
        CharReader::try_read_symbol(self)
    }

    fn try_read_keyword(&mut self) -> (r: ReadResult) {
        CharReader::try_read_keyword(self)
    }

    fn try_read_string(&mut self) -> (r: ReadResult) {
        CharReader::try_read_string(self)
    }

    fn try_read_list(&mut self) -> (r: ReadResult) {
        CharReader::try_read_list(self)
    }

    fn try_read_vect(&mut self) -> (r: ReadResult) {
        CharReader::try_read_vect(self)
    }

    fn try_read_set(&mut self) -> (r: ReadResult) {
        CharReader::try_read_set(self)
    }

    fn try_read_map(&mut self) -> (r: ReadResult) {
        CharReader::try_read_map(self)
    }
}

/// Opens a reader on `s`, with the cursor on its first character. There is no
/// reader for the empty string.
pub fn reader(s: &str) -> (r: Option<CharReader<'_>>)
    ensures
        r is Some <==> s@.len() > 0,
        r matches Some(rdr) ==> rdr@ == (CursorView { chars: s@, pos: 0 }),
{
    CharReader::try_from_str(s)
}

/// Why a read failed, with the inclusive byte range of the offending region.
#[derive(Debug, Clone, Copy, PartialEq)]
pub enum ReadError {
    /// A form begins but the source ends before it is complete.
    InsufficientInput(ByteIndexSpan),
    /// The characters are readable but break a structural rule.
    InvalidInput(ByteIndexSpan),
    /// A closing delimiter without its opener.
    UnclosedCollection(ByteIndexSpan),
}

impl ReadError {
    pub fn insufficient_input(span: ByteIndexSpan) -> (e: Self)
        ensures
            e == ReadError::InsufficientInput(span),
    {
        ReadError::InsufficientInput(span)
    }

    pub fn is_insufficient_input(&self) -> (b: bool)
        ensures
            b == (self is InsufficientInput),
    {
        match self {
            ReadError::InsufficientInput(..) => true,
            _ => false,
        }
    }

    pub fn invalid_input(span: ByteIndexSpan) -> (e: Self)
        ensures
            e == ReadError::InvalidInput(span),
    {
        ReadError::InvalidInput(span)
    }

    pub fn is_invalid_input(&self) -> (b: bool)
        ensures
            b == (self is InvalidInput),
    {
        match self {
            ReadError::InvalidInput(..) => true,
            _ => false,
        }
    }

    pub fn unclosed_collection(span: ByteIndexSpan) -> (e: Self)
        ensures
            e == ReadError::UnclosedCollection(span),
    {
        ReadError::UnclosedCollection(span)
    }

    pub fn is_unclosed_collection(&self) -> (b: bool)
        ensures
            b == (self is UnclosedCollection),
    {
        match self {
            ReadError::UnclosedCollection(_) => true,
            _ => false,
        }
    }
}

} // verus!
